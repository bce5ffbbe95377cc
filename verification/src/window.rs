use crate::machine::{
    at_depth, digit, digit_count, digits, exec_op, exec_script, lemma_exec_append, lemma_exec_one,
    lemma_exec_three, remove_two, Item, State,
};
use crate::precompute::{lemma_precompute_w_mul, multiples, precompute_w_script, with_table};
use crate::script::Op;
use vstd::arithmetic::div_mod::{
    lemma_add_mod_noop, lemma_basic_div, lemma_div_denominator, lemma_fundamental_div_mod,
    lemma_mod_bound, lemma_mul_mod_noop_left, lemma_mul_mod_noop_right, lemma_small_mod,
};
use vstd::arithmetic::power2::{
    lemma_pow2_adds, lemma_pow2_pos, lemma_pow2_strictly_increases, lemma_pow2_unfold, pow2,
};
use vstd::bits::lemma_usize_pow2_no_overflow;
use vstd::prelude::*;

verus! {

/// `count` doublings of the top big integer.
pub open spec fn doublings(count: nat) -> Seq<Op> {
    Seq::new(count, |i: int| Op::Double(0))
}

/// One round of the width-`w` multiplication: shift the accumulator left by
/// `w` bits, fetch the next digit `d` from the altstack and add the table
/// entry `d * z`, found at depth `2^w - d`.
pub open spec fn mul_round(w: nat) -> Seq<Op> {
    doublings(w) + seq![
        Op::NumFromAlt,
        Op::PushNum(pow2(w) as usize),
        Op::NumSwap,
        Op::NumSub,
        Op::PickStack,
        Op::Add(0, 1),
    ]
}

/// `count` rounds of the width-`w` multiplication.
pub open spec fn mul_rounds(w: nat, count: nat) -> Seq<Op>
    decreases count,
{
    if count == 0 {
        Seq::empty()
    } else {
        mul_rounds(w, (count - 1) as nat) + mul_round(w)
    }
}

/// `count` drops of the top big integer.
pub open spec fn drops(count: nat) -> Seq<Op> {
    Seq::new(count, |i: int| Op::DropTop)
}

/// Before the rounds: the digits of the top big integer `b` go to the
/// altstack, the table of multiples of the next one `a` is built, and the
/// accumulator starts at zero.
pub open spec fn mul_prologue(w: nat) -> Seq<Op> {
    seq![Op::ToAltDigits(w as usize)] + precompute_w_script(w) + seq![Op::Zero]
}

/// After the rounds: the accumulator is set aside, the table dropped, and the
/// accumulator brought back.
pub open spec fn mul_epilogue(w: nat) -> Seq<Op> {
    seq![Op::ToAlt] + drops(pow2(w)) + seq![Op::FromAlt]
}

/// The script of `mul_width_w::<w>` (and of `widening_mul_width_w::<w>`) for
/// `n_bits`-bit big integers.
pub open spec fn mul_width_script(n_bits: nat, w: nat) -> Seq<Op> {
    mul_prologue(w) + mul_rounds(w, digit_count(n_bits, w)) + mul_epilogue(w)
}

/// `j` doublings turn `r` on top into `r * 2^j` (modulo 2^n_bits).
proof fn lemma_doublings(pre: Seq<Item>, alt: Seq<Item>, r: int, j: nat, n_bits: nat)
    requires
        0 <= r < pow2(n_bits),
    ensures
        exec_script(State { main: pre.push(Item::Big(r)), alt }, doublings(j), n_bits) == Some(
            State { main: pre.push(Item::Big((r * pow2(j)) % (pow2(n_bits) as int))), alt },
        ),
    decreases j,
{
    let m = pow2(n_bits) as int;
    lemma_pow2_pos(n_bits);
    let st = State { main: pre.push(Item::Big(r)), alt };
    if j == 0 {
        lemma_small_mod(r as nat, m as nat);
        assert(pow2(0) == 1) by {
            vstd::arithmetic::power2::lemma2_to64();
        }
        assert(r * pow2(0) == r);
    } else {
        let prev = (j - 1) as nat;
        lemma_doublings(pre, alt, r, prev, n_bits);
        assert(doublings(j).drop_last() =~= doublings(prev));
        let v = (r * pow2(prev)) % m;
        let main1 = pre.push(Item::Big(v));
        assert(main1.remove(main1.len() - 1) =~= pre);
        lemma_pow2_unfold(j);
        lemma_mul_mod_noop_right(2, r * pow2(prev), m);
        assert(2 * (r * pow2(prev)) == r * pow2(j)) by (nonlinear_arith)
            requires
                pow2(j) == 2 * pow2(prev),
        ;
    }
}

/// Splitting off the lowest digit above position `j`:
/// `x / 2^(w j) == (x / 2^(w (j+1))) * 2^w + digit(x, w, j)`.
proof fn lemma_digit_split(x: int, w: nat, j: nat)
    requires
        0 <= x,
    ensures
        x / (pow2(w * j) as int) == (x / (pow2(w * (j + 1)) as int)) * pow2(w) + digit(x, w, j),
        0 <= digit(x, w, j) < pow2(w),
{
    let p = pow2(w * j) as int;
    let q = pow2(w) as int;
    lemma_pow2_pos(w * j);
    lemma_pow2_pos(w);
    assert(w * (j + 1) == w * j + w) by (nonlinear_arith);
    lemma_pow2_adds(w * j, w);
    lemma_div_denominator(x, p, q);
    lemma_fundamental_div_mod(x / p, q);
    lemma_mod_bound(x / p, q);
}

/// The value of the digits of `x` above position `j`.
pub open spec fn high_part(x: int, w: nat, j: nat) -> int {
    x / (pow2(w * j) as int)
}

/// The state of the machine between rounds: the table of multiples of `a`
/// under the accumulator `acc`, the digits not yet used on the altstack.
pub open spec fn round_state(
    rest: Seq<Item>,
    alt: Seq<Item>,
    a: int,
    b: int,
    w: nat,
    n_bits: nat,
    left: nat,
    acc: int,
) -> State {
    State {
        main: (rest + multiples(a, pow2(w), pow2(n_bits) as int)).push(Item::Big(acc)),
        alt: alt + digits(b, w, digit_count(n_bits, w)).take(left as int),
    }
}

/// The first half of a round's tail: the next digit `d` comes from the
/// altstack and `2^w - d` is being prepared.
spec fn fetch_ops(w: nat) -> Seq<Op> {
    seq![Op::NumFromAlt, Op::PushNum(pow2(w) as usize), Op::NumSwap]
}

/// The second half: the depth `2^w - d`, the table entry there, the addition.
spec fn pick_add_ops() -> Seq<Op> {
    seq![Op::NumSub, Op::PickStack, Op::Add(0, 1)]
}

proof fn lemma_fetch(m1: Seq<Item>, alt: Seq<Item>, d: int, w: nat, n_bits: nat)
    requires
        w < usize::BITS,
    ensures
        exec_script(State { main: m1, alt: alt.push(Item::Num(d)) }, fetch_ops(w), n_bits) == Some(
            State { main: m1.push(Item::Num(pow2(w) as int)).push(Item::Num(d)), alt },
        ),
{
    lemma_usize_pow2_no_overflow(w);
    let q = pow2(w) as int;
    let st1 = State { main: m1, alt: alt.push(Item::Num(d)) };
    assert(alt.push(Item::Num(d)).drop_last() =~= alt);
    let st2 = State { main: m1.push(Item::Num(d)), alt };
    assert(exec_op(st1, Op::NumFromAlt, n_bits) == Some(st2));
    let st3 = State { main: st2.main.push(Item::Num(q)), alt };
    assert(exec_op(st2, Op::PushNum(pow2(w) as usize), n_bits) == Some(st3));
    let st4 = State { main: m1.push(Item::Num(q)).push(Item::Num(d)), alt };
    assert(st3.main.take(st3.main.len() - 2) =~= m1);
    assert(exec_op(st3, Op::NumSwap, n_bits) == Some(st4));
    lemma_exec_three(st1, Op::NumFromAlt, Op::PushNum(pow2(w) as usize), Op::NumSwap, n_bits);
}

proof fn lemma_pick_add(
    pre: Seq<Item>,
    table: Seq<Item>,
    alt: Seq<Item>,
    rr: int,
    d: int,
    x: int,
    n_bits: nat,
)
    requires
        0 <= d < table.len(),
        table[d] == Item::Big(x),
    ensures
        exec_script(
            State {
                main: (pre + table).push(Item::Big(rr)).push(Item::Num(table.len() as int)).push(
                    Item::Num(d),
                ),
                alt,
            },
            pick_add_ops(),
            n_bits,
        ) == Some(
            State { main: (pre + table).push(Item::Big((x + rr) % (pow2(n_bits) as int))), alt },
        ),
{
    let m = pow2(n_bits) as int;
    let q = table.len() as int;
    let m1 = (pre + table).push(Item::Big(rr));
    let st4 = State { main: m1.push(Item::Num(q)).push(Item::Num(d)), alt };
    let st5 = State { main: m1.push(Item::Num(q - d)), alt };
    assert(st4.main.take(st4.main.len() - 2) =~= m1);
    assert(exec_op(st4, Op::NumSub, n_bits) == Some(st5));
    assert(st5.main.drop_last() =~= m1);
    assert(at_depth(m1, q - d) == table[d]);
    let st6 = State { main: m1.push(Item::Big(x)), alt };
    assert(exec_op(st5, Op::PickStack, n_bits) == Some(st6));
    let len6 = st6.main.len() as int;
    assert(remove_two(st6.main, len6 - 1, len6 - 2) =~= pre + table);
    let st7 = State { main: (pre + table).push(Item::Big((x + rr) % m)), alt };
    assert(exec_op(st6, Op::Add(0, 1), n_bits) == Some(st7));
    lemma_exec_three(st4, Op::NumSub, Op::PickStack, Op::Add(0, 1), n_bits);
}

/// The accumulator arithmetic of one round.
proof fn lemma_round_arith(hi1: int, hi0: int, d: int, a: int, q: int, m: int)
    requires
        m > 0,
        hi0 == hi1 * q + d,
    ensures
        ((d * a) % m + ((hi1 * a) % m * q) % m) % m == (hi0 * a) % m,
{
    lemma_mul_mod_noop_left(hi1 * a, q, m);
    lemma_add_mod_noop(d * a, hi1 * a * q, m);
    assert(d * a + hi1 * a * q == hi0 * a) by (nonlinear_arith)
        requires
            hi0 == hi1 * q + d,
    ;
}

/// One round consumes digit `j` of `b`: the accumulator goes from
/// `high_part(b, j + 1) * a` to `high_part(b, j) * a` (modulo 2^n_bits).
proof fn lemma_mul_round(
    rest: Seq<Item>,
    alt: Seq<Item>,
    a: int,
    b: int,
    w: nat,
    n_bits: nat,
    j: nat,
)
    requires
        1 <= w < usize::BITS,
        j < digit_count(n_bits, w),
        0 <= a < pow2(n_bits),
        0 <= b,
    ensures
        exec_script(
            round_state(
                rest,
                alt,
                a,
                b,
                w,
                n_bits,
                j + 1,
                (high_part(b, w, j + 1) * a) % (pow2(n_bits) as int),
            ),
            mul_round(w),
            n_bits,
        ) == Some(
            round_state(
                rest,
                alt,
                a,
                b,
                w,
                n_bits,
                j,
                (high_part(b, w, j) * a) % (pow2(n_bits) as int),
            ),
        ),
{
    let m = pow2(n_bits) as int;
    let q = pow2(w) as int;
    lemma_pow2_pos(n_bits);
    lemma_pow2_pos(w);
    let table = multiples(a, pow2(w), m);
    let pre = rest + table;
    let dg = digits(b, w, digit_count(n_bits, w));
    let hi1 = high_part(b, w, j + 1);
    let hi0 = high_part(b, w, j);
    let d = digit(b, w, j);
    lemma_digit_split(b, w, j);
    let r = (hi1 * a) % m;
    lemma_mod_bound(hi1 * a, m);
    let st0 = round_state(rest, alt, a, b, w, n_bits, j + 1, r);
    let alt_after = alt + dg.take(j as int);
    assert(st0.alt =~= alt_after.push(Item::Num(d)));
    lemma_doublings(pre, st0.alt, r, w, n_bits);
    let rr = (r * q) % m;
    let st1 = State { main: pre.push(Item::Big(rr)), alt: st0.alt };
    lemma_fetch(pre.push(Item::Big(rr)), alt_after, d, w, n_bits);
    let st4 = State {
        main: pre.push(Item::Big(rr)).push(Item::Num(q)).push(Item::Num(d)),
        alt: alt_after,
    };
    let entry = (d * a) % m;
    assert(table[d] == Item::Big(entry));
    lemma_pick_add(rest, table, alt_after, rr, d, entry, n_bits);
    assert(mul_round(w) =~= doublings(w) + fetch_ops(w) + pick_add_ops());
    lemma_exec_append(st0, doublings(w) + fetch_ops(w), pick_add_ops(), n_bits);
    lemma_exec_append(st0, doublings(w), fetch_ops(w), n_bits);
    lemma_round_arith(hi1, hi0, d, a, q, m);
}

/// After `k` rounds, the accumulator holds the top `k` digits of `b` times `a`.
proof fn lemma_mul_rounds(
    rest: Seq<Item>,
    alt: Seq<Item>,
    a: int,
    b: int,
    w: nat,
    n_bits: nat,
    k: nat,
)
    requires
        1 <= w < usize::BITS,
        k <= digit_count(n_bits, w),
        0 <= a < pow2(n_bits),
        0 <= b < pow2(n_bits),
    ensures
        exec_script(
            round_state(rest, alt, a, b, w, n_bits, digit_count(n_bits, w), 0),
            mul_rounds(w, k),
            n_bits,
        ) == Some(
            round_state(
                rest,
                alt,
                a,
                b,
                w,
                n_bits,
                (digit_count(n_bits, w) - k) as nat,
                (high_part(b, w, (digit_count(n_bits, w) - k) as nat) * a) % (pow2(n_bits) as int),
            ),
        ),
    decreases k,
{
    let dc = digit_count(n_bits, w);
    let m = pow2(n_bits) as int;
    lemma_pow2_pos(n_bits);
    if k == 0 {
        // all digits together are worth less than 2^(w * dc)
        lemma_fundamental_div_mod((n_bits + w - 1) as int, w as int);
        lemma_mod_bound((n_bits + w - 1) as int, w as int);
        assert(w * dc >= n_bits);
        if w * dc > n_bits {
            lemma_pow2_strictly_increases(n_bits, w * dc);
        }
        lemma_basic_div(b, pow2(w * dc) as int);
        assert(high_part(b, w, dc) == 0);
        assert(0 * a == 0);
        lemma_small_mod(0, m as nat);
    } else {
        lemma_mul_rounds(rest, alt, a, b, w, n_bits, (k - 1) as nat);
        let j = (dc - k) as nat;
        lemma_mul_round(rest, alt, a, b, w, n_bits, j);
        lemma_exec_append(
            round_state(rest, alt, a, b, w, n_bits, dc, 0),
            mul_rounds(w, (k - 1) as nat),
            mul_round(w),
            n_bits,
        );
    }
}

/// Dropping `k` big integers from the top.
proof fn lemma_drops(pre: Seq<Item>, t: Seq<Item>, alt: Seq<Item>, k: nat, n_bits: nat)
    requires
        k <= t.len(),
        forall|i: int| 0 <= i < t.len() ==> (#[trigger] t[i]) is Big,
    ensures
        exec_script(State { main: pre + t, alt }, drops(k), n_bits) == Some(
            State { main: pre + t.take(t.len() - k), alt },
        ),
    decreases k,
{
    if k == 0 {
        assert(t.take(t.len() as int) =~= t);
    } else {
        lemma_drops(pre, t, alt, (k - 1) as nat, n_bits);
        assert(drops(k).drop_last() =~= drops((k - 1) as nat));
        let main1 = pre + t.take(t.len() - (k - 1));
        assert(main1.drop_last() =~= pre + t.take(t.len() - k));
    }
}

proof fn lemma_mul_prologue(
    rest: Seq<Item>,
    alt: Seq<Item>,
    a: int,
    b: int,
    n_bits: nat,
    w: nat,
)
    requires
        2 <= w < usize::BITS,
        0 <= a < pow2(n_bits),
        0 <= b < pow2(n_bits),
    ensures
        exec_script(
            State { main: rest.push(Item::Big(a)).push(Item::Big(b)), alt },
            mul_prologue(w),
            n_bits,
        ) == Some(round_state(rest, alt, a, b, w, n_bits, digit_count(n_bits, w), 0)),
{
    let m = pow2(n_bits) as int;
    let dc = digit_count(n_bits, w);
    let dg = digits(b, w, dc);
    lemma_usize_pow2_no_overflow(w);
    let st0 = State { main: rest.push(Item::Big(a)).push(Item::Big(b)), alt };
    let p1 = seq![Op::ToAltDigits(w as usize)];
    let p2 = p1 + precompute_w_script(w);
    lemma_exec_one(st0, Op::ToAltDigits(w as usize), n_bits);
    assert(st0.main.drop_last() =~= rest.push(Item::Big(a)));
    lemma_precompute_w_mul(rest, alt + dg, a, n_bits, w);
    lemma_exec_append(st0, p1, precompute_w_script(w), n_bits);
    let st2 = with_table(rest, alt + dg, a, pow2(w), m);
    assert(dg.take(dc as int) =~= dg);
    lemma_exec_one(st2, Op::Zero, n_bits);
    lemma_exec_append(st0, p2, seq![Op::Zero], n_bits);
}

proof fn lemma_mul_epilogue(rest: Seq<Item>, alt: Seq<Item>, a: int, prod: int, n_bits: nat, w: nat)
    ensures
        exec_script(
            State {
                main: (rest + multiples(a, pow2(w), pow2(n_bits) as int)).push(Item::Big(prod)),
                alt,
            },
            mul_epilogue(w),
            n_bits,
        ) == Some(State { main: rest.push(Item::Big(prod)), alt }),
{
    let m = pow2(n_bits) as int;
    let table = multiples(a, pow2(w), m);
    let st4 = State { main: (rest + table).push(Item::Big(prod)), alt };
    let e1 = seq![Op::ToAlt];
    let e2 = e1 + drops(pow2(w));
    let st5 = State { main: rest + table, alt: alt.push(Item::Big(prod)) };
    lemma_exec_one(st4, Op::ToAlt, n_bits);
    assert(st4.main.drop_last() =~= rest + table);
    lemma_drops(rest, table, alt.push(Item::Big(prod)), pow2(w), n_bits);
    lemma_exec_append(st4, e1, drops(pow2(w)), n_bits);
    assert(rest + table.take(0) =~= rest);
    let st6 = State { main: rest, alt: alt.push(Item::Big(prod)) };
    lemma_exec_one(st6, Op::FromAlt, n_bits);
    lemma_exec_append(st4, e2, seq![Op::FromAlt], n_bits);
    assert(alt.push(Item::Big(prod)).drop_last() =~= alt);
}

/// Running `s` on any stack with `a, b` on top (`b` topmost, both below
/// 2^n_bits) replaces them by `a * b` modulo 2^n_bits, and touches nothing else.
pub open spec fn multiplies(s: Seq<Op>, n_bits: nat) -> bool {
    forall|rest: Seq<Item>, alt: Seq<Item>, a: int, b: int|
        0 <= a < pow2(n_bits) && 0 <= b < pow2(n_bits) ==> #[trigger] exec_script(
            State { main: rest.push(Item::Big(a)).push(Item::Big(b)), alt },
            s,
            n_bits,
        ) == Some(State { main: rest.push(Item::Big((a * b) % (pow2(n_bits) as int))), alt })
}

/// The width-`w` multiplication replaces `a, b` on top of the stack by
/// `a * b` modulo 2^n_bits, leaving the rest of the stack and the altstack as
/// they were.
pub proof fn lemma_mul_width_w(
    rest: Seq<Item>,
    alt: Seq<Item>,
    a: int,
    b: int,
    n_bits: nat,
    w: nat,
)
    requires
        2 <= w < usize::BITS,
        0 <= a < pow2(n_bits),
        0 <= b < pow2(n_bits),
    ensures
        exec_script(
            State { main: rest.push(Item::Big(a)).push(Item::Big(b)), alt },
            mul_width_script(n_bits, w),
            n_bits,
        ) == Some(State { main: rest.push(Item::Big((a * b) % (pow2(n_bits) as int))), alt }),
{
    let m = pow2(n_bits) as int;
    let dc = digit_count(n_bits, w);
    let st0 = State { main: rest.push(Item::Big(a)).push(Item::Big(b)), alt };
    lemma_mul_prologue(rest, alt, a, b, n_bits, w);
    lemma_mul_rounds(rest, alt, a, b, w, n_bits, dc);
    lemma_exec_append(st0, mul_prologue(w), mul_rounds(w, dc), n_bits);
    assert(high_part(b, w, 0) == b) by {
        assert(w * 0 == 0);
        vstd::arithmetic::power2::lemma2_to64();
        assert(pow2(w * 0) == 1);
        assert(b / 1 == b);
    }
    let prod = (b * a) % m;
    assert(digits(b, w, dc).take(0) =~= Seq::<Item>::empty());
    assert(alt + digits(b, w, dc).take(0) =~= alt);
    lemma_mul_epilogue(rest, alt, a, prod, n_bits, w);
    lemma_exec_append(st0, mul_prologue(w) + mul_rounds(w, dc), mul_epilogue(w), n_bits);
    assert(b * a == a * b) by (nonlinear_arith);
}

} // verus!
