use crate::machine::{
    at_depth, exec_script, lemma_exec_append, lemma_exec_three, lemma_exec_two, remove_two, Item,
    State,
};
use crate::script::Op;
use vstd::arithmetic::div_mod::{lemma_add_mod_noop, lemma_mul_mod_noop_right, lemma_small_mod};
use vstd::arithmetic::mul::lemma_mul_is_associative;
use vstd::arithmetic::power2::{
    lemma2_to64, lemma_pow2_adds, lemma_pow2_pos, lemma_pow2_strictly_increases, pow2,
};
use vstd::bits::lemma_usize_pow2_no_overflow;
use vstd::prelude::*;

verus! {

/// The table `{0*z, 1*z, ..., (count-1)*z}` of multiples of `z` modulo `m`,
/// `0*z` deepest and `(count-1)*z` on top.
pub open spec fn multiples(z: int, count: nat, m: int) -> Seq<Item> {
    Seq::new(count, |k: int| Item::Big((k * z) % m))
}

/// A state whose main stack is `rest` under a table of `count` multiples of `z`.
pub open spec fn with_table(rest: Seq<Item>, alt: Seq<Item>, z: int, count: nat, m: int) -> State {
    State { main: rest + multiples(z, count, m), alt }
}

/// The script of `precompute_012_mul`.
pub open spec fn precompute_012_script() -> Seq<Op> {
    seq![Op::Zero, Op::Swap, Op::Pick(0), Op::Double(0)]
}

/// The script of `precompute_2_mul`.
pub open spec fn precompute_2_script() -> Seq<Op> {
    precompute_012_script() + seq![Op::Pick(1), Op::Pick(1), Op::Add(0, 1)]
}

/// The script of `precompute_3_mul`.
pub open spec fn precompute_3_script() -> Seq<Op> {
    precompute_2_script() + seq![Op::Pick(1), Op::Double(0)] + seq![
        Op::Pick(3),
        Op::Pick(1),
        Op::Add(0, 1),
    ] + seq![Op::Pick(2), Op::Double(0)] + seq![Op::Pick(5), Op::Pick(1), Op::Add(0, 1)]
}

/// The script of `precompute_4_mul`.
pub open spec fn precompute_4_script() -> Seq<Op> {
    precompute_3_script() + seq![Op::Pick(3), Op::Double(0)] + seq![
        Op::Pick(7),
        Op::Pick(1),
        Op::Add(1, 0),
    ] + seq![Op::Pick(4), Op::Double(0)] + seq![Op::Pick(9), Op::Pick(1), Op::Add(1, 0)] + seq![
        Op::Pick(5),
        Op::Double(0),
    ] + seq![Op::Pick(11), Op::Pick(1), Op::Add(1, 0)] + seq![Op::Pick(6), Op::Double(0)] + seq![
        Op::Pick(13),
        Op::Pick(1),
        Op::Add(1, 0),
    ]
}

/// The `steps` additions of the lazy precomputation: step `i` turns the table
/// `{0, z, ..., (i+2)z}` into `{0, z, ..., (i+3)z}`.
pub open spec fn lazy_steps(steps: nat) -> Seq<Op>
    decreases steps,
{
    if steps == 0 {
        Seq::empty()
    } else {
        lazy_steps((steps - 1) as nat) + seq![Op::Pick(0), Op::Pick((steps + 1) as usize), Op::Add(0, 1)]
    }
}

/// The script of `lazy_precompute_w_mul::<w>`.
pub open spec fn lazy_precompute_script(w: nat) -> Seq<Op> {
    precompute_012_script() + lazy_steps((pow2(w) - 3) as nat)
}

/// The script of `precompute_w_mul::<w>`.
pub open spec fn precompute_w_script(w: nat) -> Seq<Op> {
    if w == 2 {
        precompute_2_script()
    } else if w == 3 {
        precompute_3_script()
    } else if w == 4 {
        precompute_4_script()
    } else {
        lazy_precompute_script(w)
    }
}

/// One more step after a script that left a table of `count` entries.
proof fn lemma_chain(
    st: State,
    a: Seq<Op>,
    step: Seq<Op>,
    rest: Seq<Item>,
    alt: Seq<Item>,
    z: int,
    count: nat,
    n_bits: nat,
)
    requires
        exec_script(st, a, n_bits) == Some(with_table(rest, alt, z, count, pow2(n_bits) as int)),
        exec_script(with_table(rest, alt, z, count, pow2(n_bits) as int), step, n_bits) == Some(
            with_table(rest, alt, z, count + 1, pow2(n_bits) as int),
        ),
    ensures
        exec_script(st, a + step, n_bits) == Some(
            with_table(rest, alt, z, count + 1, pow2(n_bits) as int),
        ),
{
    lemma_exec_append(st, a, step, n_bits);
}

/// Doubling the middle entry of a table with an even number of entries
/// extends the table by one entry.
proof fn lemma_grow_by_double(
    rest: Seq<Item>,
    alt: Seq<Item>,
    z: int,
    count: nat,
    n_bits: nat,
    p: usize,
)
    requires
        count >= 2,
        count % 2 == 0,
        p + 1 + count / 2 == count,
    ensures
        exec_script(
            with_table(rest, alt, z, count, pow2(n_bits) as int),
            seq![Op::Pick(p), Op::Double(0)],
            n_bits,
        ) == Some(with_table(rest, alt, z, count + 1, pow2(n_bits) as int)),
{
    let m = pow2(n_bits) as int;
    lemma_pow2_pos(n_bits);
    let st = with_table(rest, alt, z, count, m);
    lemma_exec_two(st, Op::Pick(p), Op::Double(0), n_bits);
    let half = (count / 2) as int;
    let v = (half * z) % m;
    assert(at_depth(st.main, p as int) == Item::Big(v));
    let main1 = st.main.push(Item::Big(v));
    assert(main1.remove(main1.len() - 1) =~= st.main);
    lemma_mul_mod_noop_right(2, half * z, m);
    lemma_mul_is_associative(2, half, z);
    assert((2 * v) % m == (count * z) % m);
    assert(st.main.push(Item::Big((2 * v) % m)) =~= rest + multiples(z, count + 1, m));
}

/// Adding `z` (picked from its place near the bottom of the table) to the top
/// entry extends the table by one entry; `Add` takes the two tops in either order.
proof fn lemma_grow_by_add(
    rest: Seq<Item>,
    alt: Seq<Item>,
    z: int,
    count: nat,
    n_bits: nat,
    p: usize,
    a: usize,
    b: usize,
)
    requires
        count >= 2,
        p + 2 == count,
        (a == 0 && b == 1) || (a == 1 && b == 0),
        0 <= z < pow2(n_bits),
    ensures
        exec_script(
            with_table(rest, alt, z, count, pow2(n_bits) as int),
            seq![Op::Pick(p), Op::Pick(1), Op::Add(a, b)],
            n_bits,
        ) == Some(with_table(rest, alt, z, count + 1, pow2(n_bits) as int)),
{
    let m = pow2(n_bits) as int;
    lemma_pow2_pos(n_bits);
    let st = with_table(rest, alt, z, count, m);
    lemma_exec_three(st, Op::Pick(p), Op::Pick(1), Op::Add(a, b), n_bits);
    lemma_small_mod(z as nat, m as nat);
    assert(at_depth(st.main, p as int) == Item::Big(z));
    let top = ((count - 1) * z) % m;
    let main1 = st.main.push(Item::Big(z));
    assert(at_depth(main1, 1) == Item::Big(top));
    let main2 = main1.push(Item::Big(top));
    let len2 = main2.len() as int;
    assert(remove_two(main2, len2 - 1 - a, len2 - 1 - b) =~= st.main);
    lemma_add_mod_noop(z, (count - 1) * z, m);
    assert((z + top) % m == (count * z) % m) by (nonlinear_arith)
        requires
            (z + top) % m == (z + (count - 1) * z) % m,
    ;
    assert((top + z) % m == (count * z) % m);
    assert(st.main.push(Item::Big((count * z) % m)) =~= rest + multiples(z, count + 1, m));
}

/// Adding `z` to a copy of the top entry extends the table by one entry.
proof fn lemma_grow_by_add_top(
    rest: Seq<Item>,
    alt: Seq<Item>,
    z: int,
    count: nat,
    n_bits: nat,
    p: usize,
)
    requires
        count >= 2,
        p + 1 == count,
        0 <= z < pow2(n_bits),
    ensures
        exec_script(
            with_table(rest, alt, z, count, pow2(n_bits) as int),
            seq![Op::Pick(0), Op::Pick(p), Op::Add(0, 1)],
            n_bits,
        ) == Some(with_table(rest, alt, z, count + 1, pow2(n_bits) as int)),
{
    let m = pow2(n_bits) as int;
    lemma_pow2_pos(n_bits);
    let st = with_table(rest, alt, z, count, m);
    lemma_exec_three(st, Op::Pick(0), Op::Pick(p), Op::Add(0, 1), n_bits);
    lemma_small_mod(z as nat, m as nat);
    let top = ((count - 1) * z) % m;
    assert(at_depth(st.main, 0) == Item::Big(top));
    let main1 = st.main.push(Item::Big(top));
    assert(at_depth(main1, p as int) == Item::Big(z));
    let main2 = main1.push(Item::Big(z));
    let len2 = main2.len() as int;
    assert(remove_two(main2, len2 - 1, len2 - 2) =~= st.main);
    lemma_add_mod_noop(z, (count - 1) * z, m);
    assert((top + z) % m == (count * z) % m) by (nonlinear_arith)
        requires
            (z + top) % m == (z + (count - 1) * z) % m,
    ;
    assert(st.main.push(Item::Big((count * z) % m)) =~= rest + multiples(z, count + 1, m));
}

/// The state with `z` on top of `rest`, from which every precomputation starts.
pub open spec fn with_top(rest: Seq<Item>, alt: Seq<Item>, z: int) -> State {
    State { main: rest.push(Item::Big(z)), alt }
}

/// Running `s` on any stack with `z` on top (`0 <= z < 2^n_bits`) replaces
/// `z` by the table of its first `count` multiples, and touches nothing else.
pub open spec fn builds_table(s: Seq<Op>, count: nat, n_bits: nat) -> bool {
    forall|rest: Seq<Item>, alt: Seq<Item>, z: int|
        0 <= z < pow2(n_bits) ==> #[trigger] exec_script(with_top(rest, alt, z), s, n_bits) == Some(
            with_table(rest, alt, z, count, pow2(n_bits) as int),
        )
}

/// `precompute_012_mul` replaces `z` on top of the stack by `0, z, 2z`
/// (modulo 2^n_bits), leaving the rest of the stack and the altstack as they were.
pub proof fn lemma_precompute_012_mul(rest: Seq<Item>, alt: Seq<Item>, z: int, n_bits: nat)
    requires
        0 <= z < pow2(n_bits),
    ensures
        exec_script(with_top(rest, alt, z), precompute_012_script(), n_bits) == Some(
            with_table(rest, alt, z, 3, pow2(n_bits) as int),
        ),
{
    let m = pow2(n_bits) as int;
    lemma_pow2_pos(n_bits);
    lemma_small_mod(z as nat, m as nat);
    let st0 = with_top(rest, alt, z);
    let first = seq![Op::Zero, Op::Swap];
    let second = seq![Op::Pick(0), Op::Double(0)];
    assert(precompute_012_script() =~= first + second);
    lemma_exec_append(st0, first, second, n_bits);
    lemma_exec_two(st0, Op::Zero, Op::Swap, n_bits);
    let main1 = rest.push(Item::Big(z)).push(Item::Big(0));
    assert(main1.take(main1.len() - 2) =~= rest);
    let st2 = State { main: rest.push(Item::Big(0)).push(Item::Big(z)), alt };
    assert(exec_script(st0, first, n_bits) == Some(st2));
    lemma_exec_two(st2, Op::Pick(0), Op::Double(0), n_bits);
    let main3 = st2.main.push(Item::Big(z));
    assert(main3.remove(main3.len() - 1) =~= st2.main);
    assert((0 * z) % m == 0);
    assert((1 * z) % m == z);
    assert(st2.main.push(Item::Big((2 * z) % m)) =~= rest + multiples(z, 3, m));
}

/// `precompute_2_mul` replaces `z` on top of the stack by the table of its
/// multiples `0, z, ..., 3z` (modulo 2^n_bits).
pub proof fn lemma_precompute_2_mul(rest: Seq<Item>, alt: Seq<Item>, z: int, n_bits: nat)
    requires
        0 <= z < pow2(n_bits),
    ensures
        exec_script(with_top(rest, alt, z), precompute_2_script(), n_bits) == Some(
            with_table(rest, alt, z, 4, pow2(n_bits) as int),
        ),
{
    let st0 = with_top(rest, alt, z);
    lemma_precompute_012_mul(rest, alt, z, n_bits);
    lemma_grow_by_add(rest, alt, z, 3, n_bits, 1, 0, 1);
    lemma_chain(
        st0,
        precompute_012_script(),
        seq![Op::Pick(1), Op::Pick(1), Op::Add(0, 1)],
        rest,
        alt,
        z,
        3,
        n_bits,
    );
}

/// `precompute_3_mul` replaces `z` on top of the stack by the table of its
/// multiples `0, z, ..., 7z` (modulo 2^n_bits).
pub proof fn lemma_precompute_3_mul(rest: Seq<Item>, alt: Seq<Item>, z: int, n_bits: nat)
    requires
        0 <= z < pow2(n_bits),
    ensures
        exec_script(with_top(rest, alt, z), precompute_3_script(), n_bits) == Some(
            with_table(rest, alt, z, 8, pow2(n_bits) as int),
        ),
{
    let st0 = with_top(rest, alt, z);
    let s4 = seq![Op::Pick(1), Op::Double(0)];
    let s5 = seq![Op::Pick(3), Op::Pick(1), Op::Add(0, 1)];
    let s6 = seq![Op::Pick(2), Op::Double(0)];
    let s7 = seq![Op::Pick(5), Op::Pick(1), Op::Add(0, 1)];
    let p4 = precompute_2_script();
    lemma_precompute_2_mul(rest, alt, z, n_bits);
    lemma_grow_by_double(rest, alt, z, 4, n_bits, 1);
    lemma_chain(st0, p4, s4, rest, alt, z, 4, n_bits);
    lemma_grow_by_add(rest, alt, z, 5, n_bits, 3, 0, 1);
    lemma_chain(st0, p4 + s4, s5, rest, alt, z, 5, n_bits);
    lemma_grow_by_double(rest, alt, z, 6, n_bits, 2);
    lemma_chain(st0, p4 + s4 + s5, s6, rest, alt, z, 6, n_bits);
    lemma_grow_by_add(rest, alt, z, 7, n_bits, 5, 0, 1);
    lemma_chain(st0, p4 + s4 + s5 + s6, s7, rest, alt, z, 7, n_bits);
}

/// `precompute_4_mul` replaces `z` on top of the stack by the table of its
/// multiples `0, z, ..., 15z` (modulo 2^n_bits).
pub proof fn lemma_precompute_4_mul(rest: Seq<Item>, alt: Seq<Item>, z: int, n_bits: nat)
    requires
        0 <= z < pow2(n_bits),
    ensures
        exec_script(with_top(rest, alt, z), precompute_4_script(), n_bits) == Some(
            with_table(rest, alt, z, 16, pow2(n_bits) as int),
        ),
{
    let st0 = with_top(rest, alt, z);
    let s8 = seq![Op::Pick(3), Op::Double(0)];
    let s9 = seq![Op::Pick(7), Op::Pick(1), Op::Add(1, 0)];
    let s10 = seq![Op::Pick(4), Op::Double(0)];
    let s11 = seq![Op::Pick(9), Op::Pick(1), Op::Add(1, 0)];
    let s12 = seq![Op::Pick(5), Op::Double(0)];
    let s13 = seq![Op::Pick(11), Op::Pick(1), Op::Add(1, 0)];
    let s14 = seq![Op::Pick(6), Op::Double(0)];
    let s15 = seq![Op::Pick(13), Op::Pick(1), Op::Add(1, 0)];
    let p8 = precompute_3_script();
    lemma_precompute_3_mul(rest, alt, z, n_bits);
    lemma_grow_by_double(rest, alt, z, 8, n_bits, 3);
    lemma_chain(st0, p8, s8, rest, alt, z, 8, n_bits);
    lemma_grow_by_add(rest, alt, z, 9, n_bits, 7, 1, 0);
    lemma_chain(st0, p8 + s8, s9, rest, alt, z, 9, n_bits);
    lemma_grow_by_double(rest, alt, z, 10, n_bits, 4);
    lemma_chain(st0, p8 + s8 + s9, s10, rest, alt, z, 10, n_bits);
    lemma_grow_by_add(rest, alt, z, 11, n_bits, 9, 1, 0);
    lemma_chain(st0, p8 + s8 + s9 + s10, s11, rest, alt, z, 11, n_bits);
    lemma_grow_by_double(rest, alt, z, 12, n_bits, 5);
    lemma_chain(st0, p8 + s8 + s9 + s10 + s11, s12, rest, alt, z, 12, n_bits);
    lemma_grow_by_add(rest, alt, z, 13, n_bits, 11, 1, 0);
    lemma_chain(st0, p8 + s8 + s9 + s10 + s11 + s12, s13, rest, alt, z, 13, n_bits);
    lemma_grow_by_double(rest, alt, z, 14, n_bits, 6);
    lemma_chain(st0, p8 + s8 + s9 + s10 + s11 + s12 + s13, s14, rest, alt, z, 14, n_bits);
    lemma_grow_by_add(rest, alt, z, 15, n_bits, 13, 1, 0);
    lemma_chain(
        st0,
        p8 + s8 + s9 + s10 + s11 + s12 + s13 + s14,
        s15,
        rest,
        alt,
        z,
        15,
        n_bits,
    );
}

/// After the table `0, z, 2z`, `lazy_steps(steps)` has grown it to `steps + 3` entries.
proof fn lemma_lazy_steps(rest: Seq<Item>, alt: Seq<Item>, z: int, n_bits: nat, steps: nat)
    requires
        0 <= z < pow2(n_bits),
        steps + 1 <= usize::MAX,
    ensures
        exec_script(
            with_top(rest, alt, z),
            precompute_012_script() + lazy_steps(steps),
            n_bits,
        ) == Some(with_table(rest, alt, z, steps + 3, pow2(n_bits) as int)),
    decreases steps,
{
    let st0 = with_top(rest, alt, z);
    if steps == 0 {
        assert(precompute_012_script() + lazy_steps(0) =~= precompute_012_script());
        lemma_precompute_012_mul(rest, alt, z, n_bits);
    } else {
        let prev = (steps - 1) as nat;
        let step = seq![Op::Pick(0), Op::Pick((steps + 1) as usize), Op::Add(0, 1)];
        lemma_lazy_steps(rest, alt, z, n_bits, prev);
        assert(precompute_012_script() + lazy_steps(steps) =~= precompute_012_script()
            + lazy_steps(prev) + step);
        lemma_grow_by_add_top(rest, alt, z, prev + 3, n_bits, (steps + 1) as usize);
        lemma_chain(
            st0,
            precompute_012_script() + lazy_steps(prev),
            step,
            rest,
            alt,
            z,
            prev + 3,
            n_bits,
        );
    }
}

/// `lazy_precompute_w_mul::<w>` replaces `z` on top of the stack by the table
/// of its multiples `0, z, ..., (2^w - 1)z` (modulo 2^n_bits).
pub proof fn lemma_lazy_precompute_w_mul(
    rest: Seq<Item>,
    alt: Seq<Item>,
    z: int,
    n_bits: nat,
    w: nat,
)
    requires
        2 <= w < usize::BITS,
        0 <= z < pow2(n_bits),
    ensures
        exec_script(with_top(rest, alt, z), lazy_precompute_script(w), n_bits) == Some(
            with_table(rest, alt, z, pow2(w), pow2(n_bits) as int),
        ),
{
    lemma_usize_pow2_no_overflow(w);
    lemma_pow2_adds(2, (w - 2) as nat);
    lemma_pow2_pos((w - 2) as nat);
    lemma2_to64();
    lemma_lazy_steps(rest, alt, z, n_bits, (pow2(w) - 3) as nat);
}

/// `precompute_w_mul::<w>` replaces `z` on top of the stack by the table of
/// its multiples `0, z, ..., (2^w - 1)z` (modulo 2^n_bits), whichever of the
/// fixed or the lazy precomputations it uses.
pub proof fn lemma_precompute_w_mul(
    rest: Seq<Item>,
    alt: Seq<Item>,
    z: int,
    n_bits: nat,
    w: nat,
)
    requires
        2 <= w < usize::BITS,
        0 <= z < pow2(n_bits),
    ensures
        exec_script(with_top(rest, alt, z), precompute_w_script(w), n_bits) == Some(
            with_table(rest, alt, z, pow2(w), pow2(n_bits) as int),
        ),
{
    if w == 2 {
        lemma2_to64();
        lemma_precompute_2_mul(rest, alt, z, n_bits);
    } else if w == 3 {
        lemma2_to64();
        lemma_precompute_3_mul(rest, alt, z, n_bits);
    } else if w == 4 {
        lemma2_to64();
        lemma_precompute_4_mul(rest, alt, z, n_bits);
    } else {
        lemma_lazy_precompute_w_mul(rest, alt, z, n_bits, w);
    }
}

/// Whichever schedule `precompute_w_mul::<w>` takes, it has the same effect as
/// the lazy precomputation of the same width.
pub proof fn lemma_precompute_w_as_lazy(
    rest: Seq<Item>,
    alt: Seq<Item>,
    z: int,
    n_bits: nat,
    w: nat,
)
    requires
        2 <= w < usize::BITS,
        0 <= z < pow2(n_bits),
    ensures
        exec_script(with_top(rest, alt, z), precompute_w_script(w), n_bits) == exec_script(
            with_top(rest, alt, z),
            lazy_precompute_script(w),
            n_bits,
        ),
{
    lemma_precompute_w_mul(rest, alt, z, n_bits, w);
    lemma_lazy_precompute_w_mul(rest, alt, z, n_bits, w);
}

/// 1 for a doubling, 0 for any other instruction.
pub open spec fn doubling_unit(o: Op) -> nat {
    if o is Double {
        1
    } else {
        0
    }
}

/// 1 for an addition of big integers, 0 for any other instruction.
pub open spec fn addition_unit(o: Op) -> nat {
    if o is Add {
        1
    } else {
        0
    }
}

/// The number of doublings in a script.
pub open spec fn doubling_count(s: Seq<Op>) -> nat
    decreases s.len(),
{
    if s.len() == 0 {
        0
    } else {
        doubling_count(s.drop_last()) + doubling_unit(s.last())
    }
}

/// The number of additions of big integers in a script.
pub open spec fn addition_count(s: Seq<Op>) -> nat
    decreases s.len(),
{
    if s.len() == 0 {
        0
    } else {
        addition_count(s.drop_last()) + addition_unit(s.last())
    }
}

proof fn lemma_counts_append(a: Seq<Op>, b: Seq<Op>)
    ensures
        doubling_count(a + b) == doubling_count(a) + doubling_count(b),
        addition_count(a + b) == addition_count(a) + addition_count(b),
    decreases b.len(),
{
    if b.len() == 0 {
        assert(a + b =~= a);
    } else {
        assert((a + b).drop_last() =~= a + b.drop_last());
        lemma_counts_append(a, b.drop_last());
    }
}

proof fn lemma_counts_two(o1: Op, o2: Op)
    ensures
        doubling_count(seq![o1, o2]) == doubling_unit(o1) + doubling_unit(o2),
        addition_count(seq![o1, o2]) == addition_unit(o1) + addition_unit(o2),
{
    assert(seq![o1, o2].drop_last() =~= seq![o1]);
    assert(seq![o1].drop_last() =~= Seq::<Op>::empty());
    assert(doubling_count(seq![o1].drop_last()) == 0);
    assert(addition_count(seq![o1].drop_last()) == 0);
    assert(doubling_count(seq![o1]) == doubling_unit(o1));
    assert(addition_count(seq![o1]) == addition_unit(o1));
}

proof fn lemma_counts_three(o1: Op, o2: Op, o3: Op)
    ensures
        doubling_count(seq![o1, o2, o3]) == doubling_unit(o1) + doubling_unit(o2) + doubling_unit(
            o3,
        ),
        addition_count(seq![o1, o2, o3]) == addition_unit(o1) + addition_unit(o2) + addition_unit(
            o3,
        ),
{
    assert(seq![o1, o2, o3].drop_last() =~= seq![o1, o2]);
    lemma_counts_two(o1, o2);
}

proof fn lemma_lazy_steps_counts(steps: nat)
    ensures
        doubling_count(lazy_steps(steps)) == 0,
        addition_count(lazy_steps(steps)) == steps,
    decreases steps,
{
    if steps > 0 {
        let prev = (steps - 1) as nat;
        lemma_lazy_steps_counts(prev);
        lemma_counts_three(Op::Pick(0), Op::Pick((steps + 1) as usize), Op::Add(0, 1));
        lemma_counts_append(
            lazy_steps(prev),
            seq![Op::Pick(0), Op::Pick((steps + 1) as usize), Op::Add(0, 1)],
        );
    }
}

/// What the precomputations cost: the lazy one of width `w` takes one
/// doubling and `2^w - 3` additions; the fixed schedules for widths 2, 3 and 4
/// trade additions for doublings (1 and 1, 3 and 3, 7 and 7).
pub proof fn lemma_precompute_costs(w: nat)
    requires
        2 <= w,
    ensures
        doubling_count(lazy_precompute_script(w)) == 1,
        addition_count(lazy_precompute_script(w)) == pow2(w) - 3,
        doubling_count(precompute_2_script()) == 1,
        addition_count(precompute_2_script()) == 1,
        doubling_count(precompute_3_script()) == 3,
        addition_count(precompute_3_script()) == 3,
        doubling_count(precompute_4_script()) == 7,
        addition_count(precompute_4_script()) == 7,
{
    let d2 = seq![Op::Pick(1), Op::Double(0)];
    let a3 = seq![Op::Pick(1), Op::Pick(1), Op::Add(0, 1)];
    lemma_counts_two(Op::Zero, Op::Swap);
    lemma_counts_two(Op::Pick(0), Op::Double(0));
    assert(precompute_012_script() =~= seq![Op::Zero, Op::Swap] + seq![Op::Pick(0), Op::Double(0)]);
    lemma_counts_append(seq![Op::Zero, Op::Swap], seq![Op::Pick(0), Op::Double(0)]);
    // the lazy schedule
    lemma2_to64();
    if w > 2 {
        lemma_pow2_strictly_increases(2, w);
    }
    lemma_lazy_steps_counts((pow2(w) - 3) as nat);
    lemma_counts_append(precompute_012_script(), lazy_steps((pow2(w) - 3) as nat));
    // width 2
    lemma_counts_three(Op::Pick(1), Op::Pick(1), Op::Add(0, 1));
    lemma_counts_append(precompute_012_script(), a3);
    // width 3
    let p2 = precompute_2_script();
    let s4 = seq![Op::Pick(1), Op::Double(0)];
    let s5 = seq![Op::Pick(3), Op::Pick(1), Op::Add(0, 1)];
    let s6 = seq![Op::Pick(2), Op::Double(0)];
    let s7 = seq![Op::Pick(5), Op::Pick(1), Op::Add(0, 1)];
    lemma_counts_two(Op::Pick(1), Op::Double(0));
    lemma_counts_three(Op::Pick(3), Op::Pick(1), Op::Add(0, 1));
    lemma_counts_two(Op::Pick(2), Op::Double(0));
    lemma_counts_three(Op::Pick(5), Op::Pick(1), Op::Add(0, 1));
    lemma_counts_append(p2, s4);
    lemma_counts_append(p2 + s4, s5);
    lemma_counts_append(p2 + s4 + s5, s6);
    lemma_counts_append(p2 + s4 + s5 + s6, s7);
    // width 4
    let p3 = precompute_3_script();
    let t8 = seq![Op::Pick(3), Op::Double(0)];
    let t9 = seq![Op::Pick(7), Op::Pick(1), Op::Add(1, 0)];
    let t10 = seq![Op::Pick(4), Op::Double(0)];
    let t11 = seq![Op::Pick(9), Op::Pick(1), Op::Add(1, 0)];
    let t12 = seq![Op::Pick(5), Op::Double(0)];
    let t13 = seq![Op::Pick(11), Op::Pick(1), Op::Add(1, 0)];
    let t14 = seq![Op::Pick(6), Op::Double(0)];
    let t15 = seq![Op::Pick(13), Op::Pick(1), Op::Add(1, 0)];
    lemma_counts_two(Op::Pick(3), Op::Double(0));
    lemma_counts_three(Op::Pick(7), Op::Pick(1), Op::Add(1, 0));
    lemma_counts_two(Op::Pick(4), Op::Double(0));
    lemma_counts_three(Op::Pick(9), Op::Pick(1), Op::Add(1, 0));
    lemma_counts_two(Op::Pick(5), Op::Double(0));
    lemma_counts_three(Op::Pick(11), Op::Pick(1), Op::Add(1, 0));
    lemma_counts_two(Op::Pick(6), Op::Double(0));
    lemma_counts_three(Op::Pick(13), Op::Pick(1), Op::Add(1, 0));
    lemma_counts_append(p3, t8);
    lemma_counts_append(p3 + t8, t9);
    lemma_counts_append(p3 + t8 + t9, t10);
    lemma_counts_append(p3 + t8 + t9 + t10, t11);
    lemma_counts_append(p3 + t8 + t9 + t10 + t11, t12);
    lemma_counts_append(p3 + t8 + t9 + t10 + t11 + t12, t13);
    lemma_counts_append(p3 + t8 + t9 + t10 + t11 + t12 + t13, t14);
    lemma_counts_append(p3 + t8 + t9 + t10 + t11 + t12 + t13 + t14, t15);
}

} // verus!
