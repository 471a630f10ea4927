use vstd::prelude::*;

use crate::op::Op;
use crate::rpn::{outcome, run, Term};
use crate::token::Expr;

verus! {

/// The literal indices at the leaves of `t`, left to right.
pub open spec fn leaves(t: Term) -> Seq<nat>
    decreases t,
{
    match t {
        Term::Lit(k) => seq![k as nat],
        Term::Bin(_, l, r) => leaves(*l) + leaves(*r),
    }
}

/// Whether `t` combines its leaves by additions alone.
pub open spec fn adds_only(t: Term) -> bool
    decreases t,
{
    match t {
        Term::Lit(_) => true,
        Term::Bin(op, l, r) => op == Op::Add && adds_only(*l) && adds_only(*r),
    }
}

/// The indices `0, 1, ..., n - 1`.
pub open spec fn upto(n: nat) -> Seq<nat> {
    Seq::new(n, |i: int| i as nat)
}

/// The leaves of a whole stack, bottom first.
pub open spec fn stack_leaves(s: Seq<Term>) -> Seq<nat>
    decreases s.len(),
{
    if s.len() == 0 {
        Seq::empty()
    } else {
        stack_leaves(s.drop_last()) + leaves(s.last())
    }
}

/// Whether `ts` is `n` literals followed by `n - 1` additions.
pub open spec fn is_sum_of(ts: Seq<Expr>, n: nat) -> bool {
    &&& n >= 1
    &&& ts.len() == 2 * n - 1
    &&& forall|i: int| 0 <= i < n ==> #[trigger] ts[i] is Num
    &&& forall|i: int| n <= i < ts.len() ==> #[trigger] ts[i] == Expr::Op(Op::Add)
}

/// The state of a run over the first `i` tokens of a sum of `n` literals.
proof fn lemma_sum_prefix(ts: Seq<Expr>, n: nat, i: nat)
    requires
        is_sum_of(ts, n),
        ts.len() <= usize::MAX,
        i <= ts.len(),
    ensures
        run(ts.subrange(0, i as int)) matches Some(st) && {
            &&& st.1 == if i <= n { i } else { n }
            &&& st.0.len() == if i <= n { i } else { (2 * n - i) as nat }
            &&& stack_leaves(st.0) == upto(st.1)
            &&& forall|j: int| 0 <= j < st.0.len() ==> adds_only(#[trigger] st.0[j])
        },
    decreases i,
{
    if i == 0 {
        assert(ts.subrange(0, 0) =~= Seq::<Expr>::empty());
        assert(upto(0) =~= Seq::<nat>::empty());
    } else {
        lemma_sum_prefix(ts, n, (i - 1) as nat);
        let pre = ts.subrange(0, i - 1);
        let post = ts.subrange(0, i as int);
        assert(post.drop_last() == pre);
        assert(post.last() == ts[i - 1]);
        let st = run(pre)->Some_0;
        let s = st.0;
        let k = st.1;
        if i <= n {
            assert(ts[i - 1] is Num);
            let s2 = s.push(Term::Lit(k as usize));
            assert(s2.drop_last() == s);
            assert(leaves(Term::Lit(k as usize)) == seq![k]);
            assert(upto(k + 1) =~= upto(k) + seq![k]);
            assert forall|j: int| 0 <= j < s2.len() implies adds_only(#[trigger] s2[j]) by {
                if j < s.len() {
                    assert(s2[j] == s[j]);
                }
            }
        } else {
            assert(ts[i - 1] == Expr::Op(Op::Add));
            let lhs = s[s.len() - 2];
            let mhs = s[s.len() - 1];
            let below = s.subrange(0, s.len() - 2);
            let t = Term::Bin(Op::Add, Box::new(lhs), Box::new(mhs));
            let s2 = below.push(t);
            assert(s2.drop_last() == below);
            assert(s.drop_last().drop_last() == below);
            assert(s.drop_last().last() == lhs);
            assert(stack_leaves(s.drop_last()) == stack_leaves(below) + leaves(lhs));
            assert(leaves(t) == leaves(lhs) + leaves(mhs));
            assert(stack_leaves(s2) =~= stack_leaves(s));
            assert(adds_only(lhs));
            assert(adds_only(mhs));
            assert forall|j: int| 0 <= j < s2.len() implies adds_only(#[trigger] s2[j]) by {
                if j < below.len() {
                    assert(s2[j] == s[j]);
                }
            }
        }
    }
}

/// `n` literals followed by `n - 1` additions reduce, without underflow, to
/// a single term that adds up every literal exactly once, in the order
/// written: their sum, up to the grouping of the additions.
pub proof fn lemma_sum_of_literals(ts: Seq<Expr>, n: nat)
    requires
        is_sum_of(ts, n),
        ts.len() <= usize::MAX,
    ensures
        run(ts) matches Some(st) && st.0.len() == 1,
        outcome(ts) matches Ok(t) && adds_only(t) && leaves(t) == upto(n),
{
    lemma_sum_prefix(ts, n, ts.len());
    assert(ts.subrange(0, ts.len() as int) == ts);
    let s = run(ts)->Some_0.0;
    assert(s.drop_last() =~= Seq::<Term>::empty());
    assert(stack_leaves(s.drop_last()) == Seq::<nat>::empty());
    assert(stack_leaves(s) =~= leaves(s[0]));
}

} // verus!
