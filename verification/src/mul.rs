use crate::machine::{exec_script, Item, State};
use crate::precompute::{
    builds_table, lazy_precompute_script, lazy_steps, lemma_lazy_precompute_w_mul,
    lemma_precompute_012_mul, lemma_precompute_2_mul, lemma_precompute_3_mul,
    lemma_precompute_4_mul, lemma_precompute_w_mul, precompute_012_script, precompute_2_script,
    precompute_3_script, precompute_4_script, precompute_w_script, with_table, with_top,
};
use crate::script::{Op, Script};
use crate::window::{
    doublings, drops, lemma_mul_width_w, mul_prologue, mul_rounds, mul_width_script, multiplies,
};
use vstd::arithmetic::power2::{lemma2_to64, lemma_pow2_strictly_increases, pow2};
use vstd::bits::{lemma_usize_pow2_no_overflow, lemma_usize_shl_is_mul};
use vstd::prelude::*;

verus! {

/// Scripts on `N_BITS`-bit big integers, held on the stack in limbs of
/// `LIMB_SIZE` bits.
pub struct BigIntImpl<const N_BITS: usize, const LIMB_SIZE: usize> {}

/// `1 << w`, which is 2^w.
fn two_to_the(w: usize) -> (p: usize)
    requires
        w < usize::BITS,
    ensures
        p == pow2(w as nat),
{
    proof {
        lemma_usize_pow2_no_overflow(w as nat);
        lemma_usize_shl_is_mul(1, w);
    }
    1usize << w
}

impl<const N_BITS: usize, const LIMB_SIZE: usize> BigIntImpl<N_BITS, LIMB_SIZE> {
    /// Multiplies the top two big integers on the stack (modulo 2^N_BITS)
    /// using w-width decomposition.
    pub fn mul_width_w<const WIDTH: usize>() -> (s: Script)
        requires
            2 <= WIDTH < usize::BITS,
            N_BITS + WIDTH <= usize::MAX,
        ensures
            s@ == mul_width_script(N_BITS as nat, WIDTH as nat),
            multiplies(s@, N_BITS as nat),
    {
        let decomposition_size = (N_BITS + WIDTH - 1) / WIDTH;
        let table_size = two_to_the(WIDTH);

        // Convert to w-width form, precompute {0*z, 1*z, ..., ((1<<WIDTH)-1)*z},
        // and initialize the result.
        let mut s = Script::new();
        s.push(Op::ToAltDigits(WIDTH));
        s.append(Self::precompute_w_mul::<WIDTH>());
        s.push(Op::Zero);
        assert(s@ =~= mul_prologue(WIDTH as nat));
        let ghost prologue = s@;

        for i in 0..decomposition_size
            invariant
                2 <= WIDTH < usize::BITS,
                table_size == pow2(WIDTH as nat),
                s@ == prologue + mul_rounds(WIDTH as nat, i as nat),
        {
            let ghost before = s@;
            // Double the result WIDTH times.
            for j in 0..WIDTH
                invariant
                    s@ == before + doublings(j as nat),
            {
                s.push(Op::Double(0));
                assert(s@ =~= before + doublings((j + 1) as nat));
            }
            // Pick di from the altstack and add the precomputed di*z, at depth
            // (1<<WIDTH) - di.
            s.push(Op::NumFromAlt);
            s.push(Op::PushNum(table_size));
            s.push(Op::NumSwap);
            s.push(Op::NumSub);
            s.push(Op::PickStack);
            s.push(Op::Add(0, 1));
            assert(s@ =~= prologue + mul_rounds(WIDTH as nat, (i + 1) as nat));
        }

        // Clear the precomputed values from the stack.
        s.push(Op::ToAlt);
        let ghost before_drops = s@;
        for k in 0..table_size
            invariant
                s@ == before_drops + drops(k as nat),
        {
            s.push(Op::DropTop);
            assert(s@ =~= before_drops + drops((k + 1) as nat));
        }
        s.push(Op::FromAlt);
        assert(s@ =~= mul_width_script(N_BITS as nat, WIDTH as nat));
        proof {
            assert forall|rest: Seq<Item>, alt: Seq<Item>, a: int, b: int|
                0 <= a < pow2(N_BITS as nat) && 0 <= b < pow2(N_BITS as nat) implies #[trigger] exec_script(
                State { main: rest.push(Item::Big(a)).push(Item::Big(b)), alt },
                s@,
                N_BITS as nat,
            ) == Some(State { main: rest.push(Item::Big((a * b) % (pow2(N_BITS as nat) as int))), alt }) by {
                lemma_mul_width_w(rest, alt, a, b, N_BITS as nat, WIDTH as nat);
            }
        }
        s
    }

    /// Multiplies the top two big integers on the stack (modulo 2^N_BITS)
    /// using w-width decomposition; the same script as `mul_width_w`.
    pub fn widening_mul_width_w<const WIDTH: usize>() -> (s: Script)
        requires
            2 <= WIDTH < usize::BITS,
            N_BITS + WIDTH <= usize::MAX,
        ensures
            s@ == mul_width_script(N_BITS as nat, WIDTH as nat),
            multiplies(s@, N_BITS as nat),
    {
        Self::mul_width_w::<WIDTH>()
    }

    /// Precomputes `{0*z, 1*z, 2*z, ..., (2^WIDTH - 1)*z}` from `z` on top of
    /// the stack, lazily: one doubling and then one addition per entry.
    pub fn lazy_precompute_w_mul<const WIDTH: usize>() -> (s: Script)
        requires
            2 <= WIDTH < usize::BITS,
        ensures
            s@ == lazy_precompute_script(WIDTH as nat),
            builds_table(s@, pow2(WIDTH as nat), N_BITS as nat),
    {
        let mut s = Self::precompute_012_mul();
        let table_size = two_to_the(WIDTH);
        proof {
            lemma2_to64();
            if WIDTH > 2 {
                lemma_pow2_strictly_increases(2, WIDTH as nat);
            }
        }
        let steps = table_size - 3;
        for i in 0..steps
            invariant
                steps == pow2(WIDTH as nat) - 3,
                steps + 3 <= usize::MAX,
                s@ == precompute_012_script() + lazy_steps(i as nat),
        {
            // Given {0, z, 2z, ..., (i+2)z}, add (i+3)z at the end.
            s.push(Op::Pick(0));
            s.push(Op::Pick(i + 2));
            s.push(Op::Add(0, 1));
            assert(s@ =~= precompute_012_script() + lazy_steps((i + 1) as nat));
        }
        proof {
            assert forall|rest: Seq<Item>, alt: Seq<Item>, z: int|
                0 <= z < pow2(N_BITS as nat) implies #[trigger] exec_script(
                with_top(rest, alt, z),
                s@,
                N_BITS as nat,
            ) == Some(with_table(rest, alt, z, pow2(WIDTH as nat), pow2(N_BITS as nat) as int)) by {
                lemma_lazy_precompute_w_mul(rest, alt, z, N_BITS as nat, WIDTH as nat);
            }
        }
        s
    }

    /// Precomputes `{0*z, 1*z, 2*z}` from `z` on top of the stack.
    pub fn precompute_012_mul() -> (s: Script)
        ensures
            s@ == precompute_012_script(),
            builds_table(s@, 3, N_BITS as nat),
    {
        let mut s = Script::new();
        s.push(Op::Zero);  // {z, 0}
        s.push(Op::Swap);  // {0, z}
        s.push(Op::Pick(0));  // {0, z, z}
        s.push(Op::Double(0));  // {0, z, 2*z}
        assert(s@ =~= precompute_012_script());
        proof {
            assert forall|rest: Seq<Item>, alt: Seq<Item>, z: int|
                0 <= z < pow2(N_BITS as nat) implies #[trigger] exec_script(
                with_top(rest, alt, z),
                s@,
                N_BITS as nat,
            ) == Some(with_table(rest, alt, z, 3, pow2(N_BITS as nat) as int)) by {
                lemma_precompute_012_mul(rest, alt, z, N_BITS as nat);
            }
        }
        s
    }

    /// Precomputes `{0*z, 1*z, 2*z, 3*z}` (width 2) from `z` on top of the stack.
    pub fn precompute_2_mul() -> (s: Script)
        ensures
            s@ == precompute_2_script(),
            builds_table(s@, 4, N_BITS as nat),
    {
        let mut s = Self::precompute_012_mul();
        s.push(Op::Pick(1));  // {0, z, 2*z, z}
        s.push(Op::Pick(1));  // {0, z, 2*z, z, 2*z}
        s.push(Op::Add(0, 1));  // {0, z, 2*z, 3*z}
        assert(s@ =~= precompute_2_script());
        proof {
            assert forall|rest: Seq<Item>, alt: Seq<Item>, z: int|
                0 <= z < pow2(N_BITS as nat) implies #[trigger] exec_script(
                with_top(rest, alt, z),
                s@,
                N_BITS as nat,
            ) == Some(with_table(rest, alt, z, 4, pow2(N_BITS as nat) as int)) by {
                lemma_precompute_2_mul(rest, alt, z, N_BITS as nat);
            }
        }
        s
    }

    /// Precomputes `{0*z, 1*z, ..., 7*z}` (width 3) from `z` on top of the stack.
    pub fn precompute_3_mul() -> (s: Script)
        ensures
            s@ == precompute_3_script(),
            builds_table(s@, 8, N_BITS as nat),
    {
        let mut s = Self::precompute_2_mul();
        s.push(Op::Pick(1));  // {0, z, 2*z, 3*z, 2*z}
        s.push(Op::Double(0));  // {0, z, 2*z, 3*z, 4*z}
        s.push(Op::Pick(3));  // {0, z, 2*z, 3*z, 4*z, z}
        s.push(Op::Pick(1));  // {0, z, 2*z, 3*z, 4*z, z, 4*z}
        s.push(Op::Add(0, 1));  // {0, z, 2*z, 3*z, 4*z, 5*z}
        s.push(Op::Pick(2));  // {0, z, ..., 5*z, 3*z}
        s.push(Op::Double(0));  // {0, z, ..., 5*z, 6*z}
        s.push(Op::Pick(5));  // {0, z, ..., 6*z, z}
        s.push(Op::Pick(1));  // {0, z, ..., 6*z, z, 6*z}
        s.push(Op::Add(0, 1));  // {0, z, ..., 6*z, 7*z}
        assert(s@ =~= precompute_3_script());
        proof {
            assert forall|rest: Seq<Item>, alt: Seq<Item>, z: int|
                0 <= z < pow2(N_BITS as nat) implies #[trigger] exec_script(
                with_top(rest, alt, z),
                s@,
                N_BITS as nat,
            ) == Some(with_table(rest, alt, z, 8, pow2(N_BITS as nat) as int)) by {
                lemma_precompute_3_mul(rest, alt, z, N_BITS as nat);
            }
        }
        s
    }

    /// Precomputes `{0*z, 1*z, ..., 15*z}` (width 4) from `z` on top of the stack.
    pub fn precompute_4_mul() -> (s: Script)
        ensures
            s@ == precompute_4_script(),
            builds_table(s@, 16, N_BITS as nat),
    {
        let mut s = Self::precompute_3_mul();  // {0, z, ..., 7*z}
        s.push(Op::Pick(3));  // {0, z, ..., 7*z, 4*z}
        s.push(Op::Double(0));  // {0, z, ..., 7*z, 8*z}
        s.push(Op::Pick(7));  // {0, z, ..., 8*z, z}
        s.push(Op::Pick(1));  // {0, z, ..., 8*z, z, 8*z}
        s.push(Op::Add(1, 0));  // {0, z, ..., 8*z, 9*z}
        s.push(Op::Pick(4));  // {0, z, ..., 9*z, 5*z}
        s.push(Op::Double(0));  // {0, z, ..., 9*z, 10*z}
        s.push(Op::Pick(9));  // {0, z, ..., 10*z, z}
        s.push(Op::Pick(1));  // {0, z, ..., 10*z, z, 10*z}
        s.push(Op::Add(1, 0));  // {0, z, ..., 10*z, 11*z}
        s.push(Op::Pick(5));  // {0, z, ..., 11*z, 6*z}
        s.push(Op::Double(0));  // {0, z, ..., 11*z, 12*z}
        s.push(Op::Pick(11));  // {0, z, ..., 12*z, z}
        s.push(Op::Pick(1));  // {0, z, ..., 12*z, z, 12*z}
        s.push(Op::Add(1, 0));  // {0, z, ..., 12*z, 13*z}
        s.push(Op::Pick(6));  // {0, z, ..., 13*z, 7*z}
        s.push(Op::Double(0));  // {0, z, ..., 13*z, 14*z}
        s.push(Op::Pick(13));  // {0, z, ..., 14*z, z}
        s.push(Op::Pick(1));  // {0, z, ..., 14*z, z, 14*z}
        s.push(Op::Add(1, 0));  // {0, z, ..., 14*z, 15*z}
        assert(s@ =~= precompute_4_script());
        proof {
            assert forall|rest: Seq<Item>, alt: Seq<Item>, z: int|
                0 <= z < pow2(N_BITS as nat) implies #[trigger] exec_script(
                with_top(rest, alt, z),
                s@,
                N_BITS as nat,
            ) == Some(with_table(rest, alt, z, 16, pow2(N_BITS as nat) as int)) by {
                lemma_precompute_4_mul(rest, alt, z, N_BITS as nat);
            }
        }
        s
    }

    /// Precomputes `{0*z, 1*z, ..., (2^WIDTH - 1)*z}` from `z` on top of the
    /// stack: the fixed schedules for widths 2, 3 and 4, the lazy one otherwise.
    pub fn precompute_w_mul<const WIDTH: usize>() -> (s: Script)
        requires
            2 <= WIDTH < usize::BITS,
        ensures
            s@ == precompute_w_script(WIDTH as nat),
            builds_table(s@, pow2(WIDTH as nat), N_BITS as nat),
    {
        let s = match WIDTH {
            2 => Self::precompute_2_mul(),
            3 => Self::precompute_3_mul(),
            4 => Self::precompute_4_mul(),
            _ => Self::lazy_precompute_w_mul::<WIDTH>(),
        };
        proof {
            assert forall|rest: Seq<Item>, alt: Seq<Item>, z: int|
                0 <= z < pow2(N_BITS as nat) implies #[trigger] exec_script(
                with_top(rest, alt, z),
                s@,
                N_BITS as nat,
            ) == Some(with_table(rest, alt, z, pow2(WIDTH as nat), pow2(N_BITS as nat) as int)) by {
                lemma_precompute_w_mul(rest, alt, z, N_BITS as nat, WIDTH as nat);
            }
        }
        s
    }
}

} // verus!
