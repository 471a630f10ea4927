use vstd::prelude::*;

verus! {

/// Byte of the symbol `+`.
pub const PLUS: u8 = 43;

/// Byte of the symbol `-`.
pub const MINUS: u8 = 45;

/// Byte of the symbol `*`.
pub const STAR: u8 = 42;

/// Byte of the symbol `/`.
pub const SLASH: u8 = 47;

/// One of the four binary arithmetic operators.
#[derive(Clone, Copy, Debug, PartialEq, Eq, Structural)]
pub enum Op {
    Add,
    Sub,
    Mul,
    Div,
}

/// The operator written as the single byte `w`, if any.
pub open spec fn op_of(w: Seq<u8>) -> Option<Op> {
    if w == seq![PLUS] {
        Some(Op::Add)
    } else if w == seq![MINUS] {
        Some(Op::Sub)
    } else if w == seq![STAR] {
        Some(Op::Mul)
    } else if w == seq![SLASH] {
        Some(Op::Div)
    } else {
        None
    }
}

impl Op {
    /// Recognises an operator symbol among the bytes of a word.
    pub fn from_symbol(w: &[u8]) -> (r: Option<Op>)
        ensures
            r == op_of(w@),
    {
        if w.len() != 1 {
            proof {
                assert(w@ != seq![PLUS]);
                assert(w@ != seq![MINUS]);
                assert(w@ != seq![STAR]);
                assert(w@ != seq![SLASH]);
            }
            return None;
        }
        let c = w[0];
        proof {
            assert(w@ =~= seq![c]);
        }
        if c == PLUS {
            Some(Op::Add)
        } else if c == MINUS {
            Some(Op::Sub)
        } else if c == STAR {
            Some(Op::Mul)
        } else if c == SLASH {
            Some(Op::Div)
        } else {
            proof {
                assert(seq![c] != seq![PLUS]) by { assert(seq![c][0] != seq![PLUS][0]); }
                assert(seq![c] != seq![MINUS]) by { assert(seq![c][0] != seq![MINUS][0]); }
                assert(seq![c] != seq![STAR]) by { assert(seq![c][0] != seq![STAR][0]); }
                assert(seq![c] != seq![SLASH]) by { assert(seq![c][0] != seq![SLASH][0]); }
            }
            None
        }
    }
}

} // verus!
