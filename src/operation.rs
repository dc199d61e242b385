use vstd::prelude::*;

use crate::text::{decimal, push_decimal};

verus! {

/// Position of a glass in a state, counted from zero.
pub type GlassId = usize;

/// One move of the puzzle.
#[derive(Clone, Copy, Debug, PartialEq, Eq, Structural, Hash)]
pub enum Operation {
    /// Empty a glass completely.
    Empty { glass: GlassId },
    /// Fill a glass to the brim.
    Fill { glass: GlassId },
    /// Pour one glass into another until the first is empty or the second is full.
    Pour { from: GlassId, to: GlassId },
}

/// The text of an operation: `Empty(i)`, `Fill(i)` or `Pour(i->j)`.
pub open spec fn operation_text(op: Operation) -> Seq<char> {
    match op {
        Operation::Empty { glass } => "Empty("@ + decimal(glass as nat) + ")"@,
        Operation::Fill { glass } => "Fill("@ + decimal(glass as nat) + ")"@,
        Operation::Pour { from, to } => "Pour("@ + decimal(from as nat) + "->"@ + decimal(
            to as nat,
        ) + ")"@,
    }
}

impl Operation {
    /// The operation names glasses among the first `n`, and never pours a glass
    /// into itself.
    pub open spec fn valid_for(self, n: nat) -> bool {
        match self {
            Operation::Empty { glass } => glass < n,
            Operation::Fill { glass } => glass < n,
            Operation::Pour { from, to } => from < n && to < n && from != to,
        }
    }

    pub fn empty(glass: GlassId) -> (r: Operation)
        ensures
            r == (Operation::Empty { glass }),
    {
        Operation::Empty { glass }
    }

    pub fn fill(glass: GlassId) -> (r: Operation)
        ensures
            r == (Operation::Fill { glass }),
    {
        Operation::Fill { glass }
    }

    pub fn pour(from: GlassId, to: GlassId) -> (r: Operation)
        requires
            from != to,
        ensures
            r == (Operation::Pour { from, to }),
    {
        Operation::Pour { from, to }
    }

    /// The text of the operation (see `operation_text`).
    pub fn as_string(&self) -> (r: String)
        ensures
            r@ == operation_text(*self),
    {
        let mut out = String::new();
        match *self {
            Operation::Empty { glass } => {
                out.append("Empty(");
                push_decimal(&mut out, glass);
                out.append(")");
            },
            Operation::Fill { glass } => {
                out.append("Fill(");
                push_decimal(&mut out, glass);
                out.append(")");
            },
            Operation::Pour { from, to } => {
                out.append("Pour(");
                push_decimal(&mut out, from);
                out.append("->");
                push_decimal(&mut out, to);
                out.append(")");
            },
        }
        assert(out@ =~= operation_text(*self));
        out
    }
}

} // verus!
