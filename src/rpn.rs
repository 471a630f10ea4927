use vstd::prelude::*;

use crate::op::Op;
use crate::token::{all_blank, denotes, tokenized, words, Expr, ExprParser};
use vstd::string::StringSliceAdditionalSpecFns;

verus! {

/// Why a calculation has no value.
#[derive(Clone, Copy, Debug, PartialEq, Eq, Structural)]
pub enum CalcError {
    /// A word is neither an operator nor a number.
    MalformedToken,
    /// An operator found fewer than two values on the stack.
    StackUnderflow,
    /// The tokens left no value on the stack.
    EmptyResult,
}

/// A value built by the stack machine: the `k`-th numeric literal of the
/// input (counted from 0), or an operator applied to two values.
#[derive(Debug, PartialEq, Eq)]
pub enum Term {
    Lit(usize),
    Bin(Op, Box<Term>, Box<Term>),
}

/// The state after one more token: a literal pushes the next literal index;
/// an operator pops its right operand, then its left one, and pushes their
/// combination. `None` when an operator finds fewer than two values.
pub open spec fn step(st: (Seq<Term>, nat), e: Expr) -> Option<(Seq<Term>, nat)> {
    let (s, k) = st;
    match e {
        Expr::Num(_) => Some((s.push(Term::Lit(k as usize)), k + 1)),
        Expr::Op(op) => {
            if s.len() < 2 {
                None
            } else {
                let lhs = s[s.len() - 2];
                let mhs = s[s.len() - 1];
                Some((s.subrange(0, s.len() - 2).push(Term::Bin(op, Box::new(lhs), Box::new(mhs))), k))
            }
        },
    }
}

/// The state after the tokens `ts`, from an empty stack; `None` on underflow.
pub open spec fn run(ts: Seq<Expr>) -> Option<(Seq<Term>, nat)>
    decreases ts.len(),
{
    if ts.len() == 0 {
        Some((Seq::empty(), 0))
    } else {
        match run(ts.drop_last()) {
            None => None,
            Some(st) => step(st, ts.last()),
        }
    }
}

/// The value that a stack leaves: its top; further values are ignored.
pub open spec fn top(s: Seq<Term>) -> Result<Term, CalcError> {
    if s.len() == 0 {
        Err(CalcError::EmptyResult)
    } else {
        Ok(s.last())
    }
}

/// The value of the tokens `ts`, or why they have none.
pub open spec fn outcome(ts: Seq<Expr>) -> Result<Term, CalcError> {
    match run(ts) {
        None => Err(CalcError::StackUnderflow),
        Some(st) => top(st.0),
    }
}

/// A stack machine over terms.
pub struct Rpn {
    stack: Vec<Term>,
    seen: usize,
}

impl View for Rpn {
    /// The stack, bottom first, and how many literals were pushed.
    type V = (Seq<Term>, nat);

    closed spec fn view(&self) -> (Seq<Term>, nat) {
        (self.stack@, self.seen as nat)
    }
}

impl Rpn {
    /// An empty machine.
    pub fn new() -> (r: Rpn)
        ensures
            r@ == (Seq::<Term>::empty(), 0nat),
    {
        Rpn { stack: Vec::new(), seen: 0 }
    }

    /// Feeds one token to the machine.
    pub fn push(&mut self, expr: Expr) -> (r: Result<(), CalcError>)
        requires
            old(self)@.1 < usize::MAX,
        ensures
            match step(old(self)@, expr) {
                Some(st) => r is Ok && final(self)@ == st,
                None => r == Err::<(), CalcError>(CalcError::StackUnderflow) && final(self)@ == old(self)@,
            },
            expr is Op && r is Ok ==> final(self)@.0.len() == old(self)@.0.len() - 1,
            expr is Op ==> (r is Ok <==> old(self)@.0.len() >= 2),
    {
        match expr {
            Expr::Num(_) => {
                self.stack.push(Term::Lit(self.seen));
                self.seen = self.seen + 1;
                Ok(())
            },
            Expr::Op(op) => {
                if self.stack.len() < 2 {
                    return Err(CalcError::StackUnderflow);
                }
                let ghost s = self.stack@;
                let mhs = self.stack.pop().unwrap();
                let lhs = self.stack.pop().unwrap();
                proof {
                    assert(self.stack@ == s.subrange(0, s.len() - 2));
                }
                self.stack.push(Term::Bin(op, Box::new(lhs), Box::new(mhs)));
                Ok(())
            },
        }
    }

    /// The value on top of the stack, further values being ignored.
    pub fn finish(self) -> (r: Result<Term, CalcError>)
        ensures
            r == top(self@.0),
    {
        let mut stack = self.stack;
        match stack.pop() {
            Some(t) => Ok(t),
            None => Err(CalcError::EmptyResult),
        }
    }
}

/// Literals counted by a run never outnumber its tokens.
proof fn lemma_seen_bounded(ts: Seq<Expr>)
    ensures
        run(ts) matches Some(st) ==> st.1 <= ts.len(),
    decreases ts.len(),
{
    if ts.len() > 0 {
        lemma_seen_bounded(ts.drop_last());
    }
}

/// Runs the machine over the tokens, in order, and takes the top of the stack.
pub fn reduce(tokens: Vec<Expr>) -> (r: Result<Term, CalcError>)
    ensures
        r == outcome(tokens@),
{
    let ghost all = tokens@;
    let n = tokens.len();
    let mut rest = tokens;
    let mut rev: Vec<Expr> = Vec::new();
    while rest.len() > 0
        invariant
            rest@.len() + rev@.len() == n,
            n == all.len(),
            rest@ == all.subrange(0, rest@.len() as int),
            forall|j: int| 0 <= j < rev@.len() ==> #[trigger] rev@[j] == all[n - 1 - j],
        decreases rest@.len(),
    {
        let e = rest.pop().unwrap();
        rev.push(e);
    }
    let mut rpn = Rpn::new();
    proof {
        assert(all.subrange(0, 0) =~= Seq::<Expr>::empty());
    }
    while rev.len() > 0
        invariant
            rev@.len() <= n,
            n == all.len(),
            all == tokens@,
            forall|j: int| 0 <= j < rev@.len() ==> #[trigger] rev@[j] == all[n - 1 - j],
            run(all.subrange(0, n - rev@.len())) == Some(rpn@),
        decreases rev@.len(),
    {
        let ghost i = n - rev@.len();
        let e = rev.pop().unwrap();
        proof {
            let pre = all.subrange(0, i);
            let post = all.subrange(0, i + 1);
            assert(post.drop_last() == pre);
            assert(post.last() == e);
            lemma_seen_bounded(pre);
        }
        let ghost before = rpn@;
        let ghost tok = e;
        match rpn.push(e) {
            Ok(()) => {},
            Err(_) => {
                proof {
                    assert(step(before, tok) is None);
                    assert(run(all.subrange(0, i + 1)) is None);
                    lemma_underflow_stays(all, i + 1);
                }
                return Err(CalcError::StackUnderflow);
            },
        }
    }
    proof {
        assert(all.subrange(0, n as int) == all);
    }
    rpn.finish()
}

/// Once a run underflows, every longer run does too.
proof fn lemma_underflow_stays(ts: Seq<Expr>, i: int)
    requires
        0 <= i <= ts.len(),
        run(ts.subrange(0, i)) is None,
    ensures
        run(ts) is None,
    decreases ts.len() - i,
{
    if i < ts.len() {
        assert(ts.subrange(0, i + 1).drop_last() == ts.subrange(0, i));
        lemma_underflow_stays(ts, i + 1);
    } else {
        assert(ts.subrange(0, i) == ts);
    }
}

/// Whether two tokens are both literals, or the same operator.
pub open spec fn same_kind(x: Expr, y: Expr) -> bool {
    match (x, y) {
        (Expr::Num(_), Expr::Num(_)) => true,
        (Expr::Op(p), Expr::Op(q)) => p == q,
        _ => false,
    }
}

/// Whether two token sequences agree in everything but the text of their
/// literals.
pub open spec fn same_shape(a: Seq<Expr>, b: Seq<Expr>) -> bool {
    &&& a.len() == b.len()
    &&& forall|i: int| 0 <= i < a.len() ==> same_kind(#[trigger] a[i], b[i])
}

/// The machine reads literals by position only, never by their text.
proof fn lemma_run_by_shape(a: Seq<Expr>, b: Seq<Expr>)
    requires
        same_shape(a, b),
    ensures
        run(a) == run(b),
    decreases a.len(),
{
    if a.len() > 0 {
        let (pa, pb) = (a.drop_last(), b.drop_last());
        assert(same_shape(pa, pb)) by {
            assert forall|i: int| 0 <= i < pa.len() implies same_kind(#[trigger] pa[i], pb[i]) by {
                assert(pa[i] == a[i] && pb[i] == b[i]);
            }
        }
        lemma_run_by_shape(pa, pb);
        assert(same_kind(a[a.len() - 1], b[b.len() - 1]));
    }
}

/// Two tokenizations of one input have the same shape.
proof fn lemma_tokenized_shape(bytes: Seq<u8>, a: Seq<Expr>, b: Seq<Expr>)
    requires
        tokenized(bytes, a),
        tokenized(bytes, b),
    ensures
        same_shape(a, b),
{
    if !all_blank(bytes) {
        let ws = words(bytes);
        assert forall|i: int| 0 <= i < a.len() implies same_kind(#[trigger] a[i], b[i]) by {
            assert(denotes(a[i], ws[i]));
            assert(denotes(b[i], ws[i]));
        }
    }
}

/// The value of an expression: the term its tokens reduce to.
pub fn compile(expression: &str) -> (r: Result<Term, CalcError>)
    ensures
        exists|ts: Seq<Expr>| tokenized(expression.spec_bytes(), ts),
        forall|ts: Seq<Expr>| tokenized(expression.spec_bytes(), ts) ==> r == outcome(ts),
{
    let parser = ExprParser { input: expression };
    let tokens = parser.parse();
    let ghost parsed = tokens@;
    let r = reduce(tokens);
    proof {
        assert(tokenized(expression.spec_bytes(), parsed));
        assert forall|ts: Seq<Expr>| tokenized(expression.spec_bytes(), ts) implies r == outcome(ts) by {
            lemma_tokenized_shape(expression.spec_bytes(), parsed, ts);
            lemma_run_by_shape(parsed, ts);
        }
    }
    r
}

} // verus!
