use vstd::prelude::*;

use vstd::string::StringSliceAdditionalSpecFns;

use crate::op::{op_of, Op};

verus! {

/// Byte of the separator between tokens, a space.
pub const SPACE: u8 = 32;

/// Byte of the digit `0`.
pub const ZERO: u8 = 48;

/// The text of a numeric literal, as the UTF-8 bytes it was written with.
#[derive(Debug, PartialEq, Eq)]
pub struct Num(pub Vec<u8>);

/// A token of an expression: a numeric literal or an operator.
#[derive(Debug, PartialEq, Eq)]
pub enum Expr {
    Num(Num),
    Op(Op),
}

/// Whether `c` is an ASCII blank: space, tab, line feed or carriage return.
pub open spec fn is_blank(c: u8) -> bool {
    c == SPACE || c == 9 || c == 10 || c == 13
}

/// Whether the input holds nothing but blanks (the empty input included).
pub open spec fn all_blank(b: Seq<u8>) -> bool {
    forall|i: int| 0 <= i < b.len() ==> is_blank(#[trigger] b[i])
}

/// The pieces of `b` between single spaces, in order, empty ones included.
pub open spec fn pieces(b: Seq<u8>) -> Seq<Seq<u8>>
    decreases b.len(),
{
    if b.len() == 0 {
        seq![Seq::empty()]
    } else {
        let p = pieces(b.drop_last());
        if b.last() == SPACE {
            p.push(Seq::empty())
        } else {
            p.update(p.len() - 1, p.last().push(b.last()))
        }
    }
}

/// The non-empty pieces among `p`, in order.
pub open spec fn non_empty(p: Seq<Seq<u8>>) -> Seq<Seq<u8>>
    decreases p.len(),
{
    if p.len() == 0 {
        Seq::empty()
    } else if p.last().len() == 0 {
        non_empty(p.drop_last())
    } else {
        non_empty(p.drop_last()).push(p.last())
    }
}

/// The words of `b`: its non-empty pieces between spaces.
pub open spec fn words(b: Seq<u8>) -> Seq<Seq<u8>> {
    non_empty(pieces(b))
}

/// Whether token `e` stands for the word `w`: an operator for an operator
/// symbol, and a literal with the same text for anything else.
pub open spec fn denotes(e: Expr, w: Seq<u8>) -> bool {
    match e {
        Expr::Op(op) => op_of(w) == Some(op),
        Expr::Num(n) => op_of(w) is None && n.0@ == w,
    }
}

/// Whether `ts` are the tokens of the words `ws`, one for one and in order.
pub open spec fn tokens_of(ts: Seq<Expr>, ws: Seq<Seq<u8>>) -> bool {
    &&& ts.len() == ws.len()
    &&& forall|i: int| 0 <= i < ts.len() ==> denotes(#[trigger] ts[i], ws[i])
}

/// Whether `ts` is the token sequence of the input `b`: the literal `0`
/// alone for a blank input, else one token per word.
pub open spec fn tokenized(b: Seq<u8>, ts: Seq<Expr>) -> bool {
    if all_blank(b) {
        &&& ts.len() == 1
        &&& ts[0] matches Expr::Num(n) && n.0@ == seq![ZERO]
    } else {
        tokens_of(ts, words(b))
    }
}

/// Splits the input of a calculation into its tokens.
pub struct ExprParser<'a> {
    pub input: &'a str,
}

/// The token for a word.
fn classify(w: Vec<u8>) -> (e: Expr)
    ensures
        denotes(e, w@),
{
    match Op::from_symbol(w.as_slice()) {
        Some(op) => Expr::Op(op),
        None => Expr::Num(Num(w)),
    }
}

impl<'a> ExprParser<'a> {
    /// The tokens of the input, in order.
    pub fn parse(&self) -> (r: Vec<Expr>)
        ensures
            tokenized(self.input.spec_bytes(), r@),
    {
        let b = self.input.as_bytes();
        let ghost bs = b@;
        let mut blank = true;
        let mut i: usize = 0;
        while i < b.len()
            invariant
                b@ == bs,
                0 <= i <= b.len(),
                blank == all_blank(bs.subrange(0, i as int)),
            decreases b.len() - i,
        {
            let c = b[i];
            proof {
                let pre = bs.subrange(0, i as int);
                let post = bs.subrange(0, i + 1);
                assert(post == pre.push(c));
                if all_blank(pre) && is_blank(c) {
                    assert forall|j: int| 0 <= j < post.len() implies is_blank(#[trigger] post[j]) by {
                        if j < pre.len() {
                            assert(post[j] == pre[j]);
                        }
                    }
                }
                if all_blank(post) {
                    assert(is_blank(post[i as int]));
                    assert forall|j: int| 0 <= j < pre.len() implies is_blank(#[trigger] pre[j]) by {
                        assert(post[j] == pre[j]);
                    }
                }
            }
            blank = blank && (c == SPACE || c == 9 || c == 10 || c == 13);
            i = i + 1;
        }
        proof {
            assert(bs.subrange(0, bs.len() as int) == bs);
        }
        if blank {
            let mut zero: Vec<u8> = Vec::new();
            zero.push(ZERO);
            proof {
                assert(zero@ =~= seq![ZERO]);
            }
            let mut r: Vec<Expr> = Vec::new();
            r.push(Expr::Num(Num(zero)));
            return r;
        }
        let mut tokens: Vec<Expr> = Vec::new();
        let mut cur: Vec<u8> = Vec::new();
        let mut i: usize = 0;
        while i < b.len()
            invariant
                b@ == bs,
                0 <= i <= b.len(),
                pieces(bs.subrange(0, i as int)).len() >= 1,
                cur@ == pieces(bs.subrange(0, i as int)).last(),
                tokens_of(tokens@, non_empty(pieces(bs.subrange(0, i as int)).drop_last())),
            decreases b.len() - i,
        {
            let c = b[i];
            let ghost pre = bs.subrange(0, i as int);
            let ghost post = bs.subrange(0, i + 1);
            proof {
                assert(post.drop_last() == pre);
                assert(post.last() == c);
            }
            if c == SPACE {
                proof {
                    let p = pieces(pre);
                    assert(pieces(post).drop_last() == p);
                    assert(p == p.drop_last().push(p.last()));
                }
                if cur.len() > 0 {
                    let e = classify(cur);
                    tokens.push(e);
                }
                cur = Vec::new();
            } else {
                proof {
                    let p = pieces(pre);
                    assert(pieces(post).drop_last() == p.drop_last());
                }
                cur.push(c);
            }
            i = i + 1;
        }
        proof {
            assert(bs.subrange(0, bs.len() as int) == bs);
            let p = pieces(bs);
            assert(p == p.drop_last().push(p.last()));
        }
        if cur.len() > 0 {
            let e = classify(cur);
            tokens.push(e);
        }
        tokens
    }
}

} // verus!
