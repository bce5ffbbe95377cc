# bigint_script

Generators of big-integer stack scripts for fixed-window ("w-width")
multiplication, verified with Verus.

A script (`script::Script`) is a sequence of big-integer-level instructions
(`script::Op`): pushing zero, swapping, picking, doubling and adding big
integers, moving them to and from the altstack, decomposing the top big
integer into base-2^w digits on the altstack, and a few plain number
operations used to compute a pick depth from a digit.

`machine` gives these instructions their meaning: a main stack and an
altstack of slots, each slot a whole big integer (taken modulo 2^N) or a small
number; `exec_script` runs a script and yields the final state, or nothing when
an instruction does not apply.

`mul::BigIntImpl<N_BITS, LIMB_SIZE>` builds the scripts:

* `precompute_012_mul`, `precompute_2_mul`, `precompute_3_mul`,
  `precompute_4_mul`, `lazy_precompute_w_mul::<W>` and
  `precompute_w_mul::<W>` replace `z` on top of the stack by the table
  `0, z, 2z, ..., (2^W - 1)z`;
* `mul_width_w::<W>` and `widening_mul_width_w::<W>` replace `a, b` on top of
  the stack by `a * b mod 2^N_BITS`.

Each builder's contract gives the exact instruction sequence it returns
(`precompute`, `window`) and what running it does (`builds_table`,
`multiplies`); the proofs are in `precompute.rs` and `window.rs`.
