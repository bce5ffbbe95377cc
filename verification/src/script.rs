use vstd::prelude::*;

verus! {

/// One instruction of a big-integer stack script.
///
/// Big integers occupy one slot of the stack model each (all their limbs
/// together); depths are counted in such slots, 0 being the top.  Small
/// numbers (digits, depths) occupy one slot too.
#[derive(Clone, Copy, Debug, PartialEq, Eq, Structural)]
pub enum Op {
    /// `OP_0` for big integers: pushes the big integer zero.
    Zero,
    /// `OP_SWAP` for big integers: swaps the two big integers on top.
    Swap,
    /// `OP_PICK(d)` for big integers: copies the big integer at depth `d` onto the top.
    Pick(usize),
    /// `OP_2MUL(d)`: takes the big integer at depth `d` out and pushes its double
    /// (modulo 2^N).
    Double(usize),
    /// `OP_ADD(a, b)`: takes the big integers at depths `a` and `b` out and pushes
    /// their sum (modulo 2^N).
    Add(usize, usize),
    /// Width-`w` decomposition: takes the top big integer out and pushes its
    /// base-2^w digits onto the altstack, least significant first, so that the
    /// most significant digit is on top of the altstack.
    ToAltDigits(usize),
    /// `OP_PICKSTACK`: pops a number `d` and copies the big integer at depth `d`.
    PickStack,
    /// `OP_TOALTSTACK` for big integers.
    ToAlt,
    /// `OP_FROMALTSTACK` for big integers.
    FromAlt,
    /// `OP_DROP` for big integers.
    DropTop,
    /// Pushes a small number.
    PushNum(usize),
    /// Plain `OP_FROMALTSTACK`: moves one number from the altstack.
    NumFromAlt,
    /// Plain `OP_SWAP`: swaps the two numbers on top.
    NumSwap,
    /// Plain `OP_SUB`: pops `b`, then `a`, and pushes `a - b`.
    NumSub,
}

/// A script: the sequence of its instructions, executed first to last.
pub struct Script {
    ops: Vec<Op>,
}

impl View for Script {
    type V = Seq<Op>;

    closed spec fn view(&self) -> Seq<Op> {
        self.ops@
    }
}

impl Script {
    /// The empty script.
    pub fn new() -> (s: Script)
        ensures
            s@ == Seq::<Op>::empty(),
    {
        Script { ops: Vec::new() }
    }

    /// Appends one instruction.
    pub fn push(&mut self, op: Op)
        ensures
            final(self)@ == old(self)@.push(op),
    {
        self.ops.push(op);
    }

    /// Appends all instructions of `other`, in order.
    pub fn append(&mut self, other: Script)
        ensures
            final(self)@ == old(self)@ + other@,
    {
        let mut other = other;
        self.ops.append(&mut other.ops);
    }

    /// The number of instructions.
    pub fn len(&self) -> (n: usize)
        ensures
            n == self@.len(),
    {
        self.ops.len()
    }

    /// The instructions, first to last.
    pub fn ops(&self) -> (ops: &[Op])
        ensures
            ops@ == self@,
    {
        self.ops.as_slice()
    }
}

} // verus!
