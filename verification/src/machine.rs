use crate::script::Op;
use vstd::arithmetic::power2::pow2;
use vstd::prelude::*;

verus! {

/// A slot of either stack: a whole big integer, or a small number.
pub enum Item {
    Big(int),
    Num(int),
}

/// The two stacks of the machine; the last element of each is its top.
pub struct State {
    pub main: Seq<Item>,
    pub alt: Seq<Item>,
}

/// The item at depth `d` (0 = top) of a stack.
pub open spec fn at_depth(s: Seq<Item>, d: int) -> Item {
    s[s.len() - 1 - d]
}

/// Number of width-`w` digits of an `n_bits`-bit integer: `ceil(n_bits / w)`.
pub open spec fn digit_count(n_bits: nat, w: nat) -> nat {
    ((n_bits + w - 1) as nat) / w
}

/// Digit `i` (0 = least significant) of `x` in base 2^w.
pub open spec fn digit(x: int, w: nat, i: nat) -> int {
    (x / (pow2(w * i) as int)) % (pow2(w) as int)
}

/// The `count` lowest base-2^w digits of `x`, least significant first, as numbers.
pub open spec fn digits(x: int, w: nat, count: nat) -> Seq<Item> {
    Seq::new(count, |i: int| Item::Num(digit(x, w, i as nat)))
}

/// Removes the slots at indices `i` and `j` (`i != j`) of a stack.
pub open spec fn remove_two(s: Seq<Item>, i: int, j: int) -> Seq<Item> {
    if i > j {
        s.remove(i).remove(j)
    } else {
        s.remove(j).remove(i)
    }
}

/// The effect of one instruction on a machine whose big integers are taken
/// modulo 2^n_bits; `None` when the instruction does not apply to the state
/// (too few slots, or a slot of the wrong kind).
pub open spec fn exec_op(st: State, op: Op, n_bits: nat) -> Option<State> {
    let m = pow2(n_bits) as int;
    let main = st.main;
    let alt = st.alt;
    let len = main.len() as int;
    match op {
        Op::Zero => Some(State { main: main.push(Item::Big(0)), alt }),
        Op::Swap => {
            if len >= 2 && main[len - 1] is Big && main[len - 2] is Big {
                Some(
                    State {
                        main: main.take(len - 2).push(main[len - 1]).push(main[len - 2]),
                        alt,
                    },
                )
            } else {
                None
            }
        },
        Op::Pick(d) => {
            if d < len && at_depth(main, d as int) is Big {
                Some(State { main: main.push(at_depth(main, d as int)), alt })
            } else {
                None
            }
        },
        Op::Double(d) => {
            if d < len {
                match at_depth(main, d as int) {
                    Item::Big(x) => Some(
                        State {
                            main: main.remove(len - 1 - d).push(Item::Big((2 * x) % m)),
                            alt,
                        },
                    ),
                    Item::Num(_) => None,
                }
            } else {
                None
            }
        },
        Op::Add(a, b) => {
            if a < len && b < len && a != b {
                match (at_depth(main, a as int), at_depth(main, b as int)) {
                    (Item::Big(x), Item::Big(y)) => Some(
                        State {
                            main: remove_two(main, len - 1 - a, len - 1 - b).push(
                                Item::Big((x + y) % m),
                            ),
                            alt,
                        },
                    ),
                    _ => None,
                }
            } else {
                None
            }
        },
        Op::ToAltDigits(w) => {
            if w > 0 && len >= 1 {
                match main.last() {
                    Item::Big(x) => Some(
                        State {
                            main: main.drop_last(),
                            alt: alt + digits(x, w as nat, digit_count(n_bits, w as nat)),
                        },
                    ),
                    Item::Num(_) => None,
                }
            } else {
                None
            }
        },
        Op::PickStack => {
            if len >= 1 {
                match main.last() {
                    Item::Num(d) => {
                        let rest = main.drop_last();
                        if 0 <= d < rest.len() && at_depth(rest, d) is Big {
                            Some(State { main: rest.push(at_depth(rest, d)), alt })
                        } else {
                            None
                        }
                    },
                    Item::Big(_) => None,
                }
            } else {
                None
            }
        },
        Op::ToAlt => {
            if len >= 1 && main.last() is Big {
                Some(State { main: main.drop_last(), alt: alt.push(main.last()) })
            } else {
                None
            }
        },
        Op::FromAlt => {
            if alt.len() >= 1 && alt.last() is Big {
                Some(State { main: main.push(alt.last()), alt: alt.drop_last() })
            } else {
                None
            }
        },
        Op::DropTop => {
            if len >= 1 && main.last() is Big {
                Some(State { main: main.drop_last(), alt })
            } else {
                None
            }
        },
        Op::PushNum(v) => Some(State { main: main.push(Item::Num(v as int)), alt }),
        Op::NumFromAlt => {
            if alt.len() >= 1 && alt.last() is Num {
                Some(State { main: main.push(alt.last()), alt: alt.drop_last() })
            } else {
                None
            }
        },
        Op::NumSwap => {
            if len >= 2 && main[len - 1] is Num && main[len - 2] is Num {
                Some(
                    State {
                        main: main.take(len - 2).push(main[len - 1]).push(main[len - 2]),
                        alt,
                    },
                )
            } else {
                None
            }
        },
        Op::NumSub => {
            if len >= 2 {
                match (main[len - 2], main[len - 1]) {
                    (Item::Num(a), Item::Num(b)) => Some(
                        State { main: main.take(len - 2).push(Item::Num(a - b)), alt },
                    ),
                    _ => None,
                }
            } else {
                None
            }
        },
    }
}

/// Runs a script from a state, first instruction first; `None` as soon as an
/// instruction does not apply.
pub open spec fn exec_script(st: State, s: Seq<Op>, n_bits: nat) -> Option<State>
    decreases s.len(),
{
    if s.len() == 0 {
        Some(st)
    } else {
        match exec_script(st, s.drop_last(), n_bits) {
            Some(t) => exec_op(t, s.last(), n_bits),
            None => None,
        }
    }
}

/// Running `a + b` is running `a`, then `b` on what `a` left.
pub proof fn lemma_exec_append(st: State, a: Seq<Op>, b: Seq<Op>, n_bits: nat)
    ensures
        exec_script(st, a + b, n_bits) == (match exec_script(st, a, n_bits) {
            Some(t) => exec_script(t, b, n_bits),
            None => None,
        }),
    decreases b.len(),
{
    if b.len() == 0 {
        assert(a + b =~= a);
    } else {
        assert((a + b).drop_last() =~= a + b.drop_last());
        lemma_exec_append(st, a, b.drop_last(), n_bits);
    }
}

/// Running a script of one instruction.
pub proof fn lemma_exec_one(st: State, o: Op, n_bits: nat)
    ensures
        exec_script(st, seq![o], n_bits) == exec_op(st, o, n_bits),
{
    assert(seq![o].drop_last() =~= Seq::<Op>::empty());
    assert(exec_script(st, seq![o].drop_last(), n_bits) == Some(st));
}

/// Running a script of two instructions.
pub proof fn lemma_exec_two(st: State, o1: Op, o2: Op, n_bits: nat)
    ensures
        exec_script(st, seq![o1, o2], n_bits) == (match exec_op(st, o1, n_bits) {
            Some(t) => exec_op(t, o2, n_bits),
            None => None,
        }),
{
    assert(seq![o1, o2].drop_last() =~= seq![o1]);
    lemma_exec_one(st, o1, n_bits);
}

/// Running a script of three instructions.
pub proof fn lemma_exec_three(st: State, o1: Op, o2: Op, o3: Op, n_bits: nat)
    ensures
        exec_script(st, seq![o1, o2, o3], n_bits) == (match exec_op(st, o1, n_bits) {
            Some(t) => match exec_op(t, o2, n_bits) {
                Some(u) => exec_op(u, o3, n_bits),
                None => None,
            },
            None => None,
        }),
{
    assert(seq![o1, o2, o3].drop_last() =~= seq![o1, o2]);
    lemma_exec_two(st, o1, o2, n_bits);
}

} // verus!
