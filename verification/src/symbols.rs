//! The operations of a program and their mathematical model.

use vstd::prelude::*;

verus! {

/// One operation of a program, as the lexer produces it.
#[allow(non_camel_case_types)]
#[derive(Clone, Copy, Debug, PartialEq, Eq, Structural)]
pub enum SYMBOLS {
    /// A run of `+` and `-`: the net amount added to the current cell.
    Add(isize),
    /// A run of `>` and `<`: the net distance the cursor moves.
    Move(isize),
    /// `.`: write the current cell.
    Output,
    /// `,`: read one byte into the current cell.
    Input,
    /// `[`: the start of a loop.
    LoopB,
    /// `]`: the end of a loop.
    LoopE,
}

/// The model of an operation: the same six variants, with unbounded deltas.
pub enum Op {
    Add(int),
    Move(int),
    Output,
    Input,
    LoopB,
    LoopE,
}

impl Op {
    /// The single operation that stands for `self` followed by `other`, where
    /// there is one: two `Add`s or two `Move`s merge into one with the sum of
    /// their deltas, and nothing else merges.
    pub open spec fn combine(self, other: Op) -> Option<Op> {
        match (self, other) {
            (Op::Add(a), Op::Add(b)) => Some(Op::Add(a + b)),
            (Op::Move(a), Op::Move(b)) => Some(Op::Move(a + b)),
            _ => None,
        }
    }

    /// Whether a machine-width delta can hold the value of this operation.
    pub open spec fn representable(self) -> bool {
        match self {
            Op::Add(n) => isize::MIN <= n <= isize::MAX,
            Op::Move(n) => isize::MIN <= n <= isize::MAX,
            _ => true,
        }
    }
}

impl View for SYMBOLS {
    type V = Op;

    open spec fn view(&self) -> Op {
        match *self {
            SYMBOLS::Add(n) => Op::Add(n as int),
            SYMBOLS::Move(n) => Op::Move(n as int),
            SYMBOLS::Output => Op::Output,
            SYMBOLS::Input => Op::Input,
            SYMBOLS::LoopB => Op::LoopB,
            SYMBOLS::LoopE => Op::LoopE,
        }
    }
}

/// The model of a program: the model of each of its operations, in order.
pub open spec fn ops(program: Seq<SYMBOLS>) -> Seq<Op> {
    Seq::new(program.len(), |i: int| program[i]@)
}

impl SYMBOLS {
    /// Merges two adjacent operations into one, if they are both `Add` or
    /// both `Move`; the summed delta has to fit in an `isize`.
    pub fn combine(self, other: SYMBOLS) -> (merged: Option<SYMBOLS>)
        requires
            self@.combine(other@) matches Some(sum) ==> sum.representable(),
        ensures
            match merged {
                Some(m) => self@.combine(other@) == Some(m@),
                None => self@.combine(other@) is None,
            },
    {
        match (self, other) {
            (SYMBOLS::Add(a), SYMBOLS::Add(b)) => Some(SYMBOLS::Add(a + b)),
            (SYMBOLS::Move(a), SYMBOLS::Move(b)) => Some(SYMBOLS::Move(a + b)),
            _ => None,
        }
    }
}

} // verus!
