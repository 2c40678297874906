//! Thompson construction: a regex syntax tree lowered to a flat automaton.
//!
//! The automaton is a vector of transitions whose indices are the node
//! names: the entry is node 0, the accept is the last node, and every
//! sub-automaton spliced in by [`add_nfa`] has its indices relocated by the
//! insertion offset.  [`spec_rast_to_nfa`] states the construction;
//! [`rast_to_nfa`] returns exactly what it says, and
//! [`lemma_rast_to_nfa_wf`] proves the structural invariants every built
//! automaton has: all indices in bounds, a single trailing epsilon accept
//! node, and no byte transition to itself.

use vstd::prelude::*;

use crate::parse::BinaryOperation;
use crate::parse::RAST;
use crate::parse::UnaryOperation;

verus! {

/// One node of the automaton: a non-consuming move to any of a list of
/// nodes, or a move that consumes exactly one byte.
#[derive(Clone, Debug, PartialEq)]
pub enum Transition {
    Epsilon(Vec<usize>),
    Character(u8, usize),
}

/// The automaton: the first element is the start node, the last element is
/// the finish node.
pub type NFA = Vec<Transition>;

/// Mathematical image of a [`Transition`], with unbounded indices.
#[verifier::ext_equal]
pub enum TransitionView {
    Epsilon(Seq<int>),
    Character(u8, int),
}

impl View for Transition {
    type V = TransitionView;

    open spec fn view(&self) -> TransitionView {
        match self {
            Transition::Epsilon(ts) => TransitionView::Epsilon(
                ts@.map_values(|t: usize| t as int),
            ),
            Transition::Character(b, to) => TransitionView::Character(*b, *to as int),
        }
    }
}

/// The node-by-node image of an automaton.
pub open spec fn nfa_view(s: Seq<Transition>) -> Seq<TransitionView> {
    s.map_values(|t: Transition| t@)
}

/// The indices a node points at.
pub open spec fn trans_targets(t: TransitionView) -> Seq<int> {
    match t {
        TransitionView::Epsilon(ts) => ts,
        TransitionView::Character(_, to) => seq![to],
    }
}

/// A copy of a node with every index moved up by `off`.
pub open spec fn reloc_view(t: TransitionView, off: int) -> TransitionView {
    match t {
        TransitionView::Epsilon(ts) => TransitionView::Epsilon(ts.map_values(|x: int| x + off)),
        TransitionView::Character(b, to) => TransitionView::Character(b, to + off),
    }
}

/// `sub` appended to `nfa`, its indices relocated by the old length.
pub open spec fn sp_add_nfa(nfa: Seq<TransitionView>, sub: Seq<TransitionView>) -> Seq<
    TransitionView,
> {
    nfa + sub.map_values(|t: TransitionView| reloc_view(t, nfa.len() as int))
}

/// `to` appended to the target list of the epsilon node `at`.
pub open spec fn sp_add_epsilon(nfa: Seq<TransitionView>, at: int, to: int) -> Seq<
    TransitionView,
> {
    match nfa[at] {
        TransitionView::Epsilon(ts) => nfa.update(at, TransitionView::Epsilon(ts.push(to))),
        _ => nfa,
    }
}

/// Every index any node points at is a valid node.
pub open spec fn nfa_closed(n: Seq<TransitionView>) -> bool {
    forall|i: int, j: int|
        0 <= i < n.len() && 0 <= j < trans_targets(#[trigger] n[i]).len() ==> 0 <= #[trigger]
        trans_targets(n[i])[j] < n.len()
}

/// No byte transition points at its own node.
pub open spec fn no_char_self(n: Seq<TransitionView>) -> bool {
    forall|i: int|
        0 <= i < n.len() ==> (#[trigger] n[i] matches TransitionView::Character(_, to) ==> to
            != i)
}

/// The invariants of every built automaton: nonempty, closed, an epsilon
/// node at the end, and progress on every byte.
pub open spec fn nfa_wf(n: Seq<TransitionView>) -> bool {
    &&& n.len() >= 1
    &&& nfa_closed(n)
    &&& n.last() is Epsilon
    &&& no_char_self(n)
}

/// The two-node automaton of a single byte.
pub open spec fn sp_atomic(b: u8) -> Seq<TransitionView> {
    seq![TransitionView::Character(b, 1), TransitionView::Epsilon(Seq::empty())]
}

/// Concatenation: the two automata in sequence, the end of the left one
/// hooked to the start of the right one.
pub open spec fn sp_concat_nfa(l: Seq<TransitionView>, r: Seq<TransitionView>) -> Seq<
    TransitionView,
> {
    let n2 = sp_add_nfa(l, r);
    sp_add_epsilon(n2, l.len() as int - 1, l.len() as int)
}

/// Alternation: a fresh start node branching to both automata, both hooked
/// to a fresh end node.
pub open spec fn sp_alternation_nfa(l: Seq<TransitionView>, r: Seq<TransitionView>) -> Seq<
    TransitionView,
> {
    let n0 = seq![TransitionView::Epsilon(Seq::<int>::empty())];
    let n2 = sp_add_nfa(sp_add_nfa(n0, l), r);
    let end: int = 1 + l.len() as int + r.len() as int;
    let n3 = n2.push(TransitionView::Epsilon(Seq::<int>::empty()));
    let n4 = sp_add_epsilon(n3, 0, 1);
    let n5 = sp_add_epsilon(n4, 0, 1 + l.len() as int);
    let n6 = sp_add_epsilon(n5, l.len() as int, end);
    sp_add_epsilon(n6, l.len() as int + r.len() as int, end)
}

/// Kleene closure: like an optional pass through the automaton, with a
/// back edge from the end node to the start.
pub open spec fn sp_kleen_nfa(x: Seq<TransitionView>) -> Seq<TransitionView> {
    let n1 = sp_add_nfa(seq![TransitionView::Epsilon(Seq::<int>::empty())], x);
    let end: int = 1 + x.len() as int;
    let n2 = n1.push(TransitionView::Epsilon(seq![0int]));
    let n3 = sp_add_epsilon(n2, 0, 1);
    let n4 = sp_add_epsilon(n3, 0, end);
    sp_add_epsilon(n4, x.len() as int, end)
}

/// Question: one optional pass through the automaton.
pub open spec fn sp_question_nfa(x: Seq<TransitionView>) -> Seq<TransitionView> {
    let n1 = sp_add_nfa(seq![TransitionView::Epsilon(Seq::<int>::empty())], x);
    let end: int = 1 + x.len() as int;
    let n2 = n1.push(TransitionView::Epsilon(Seq::<int>::empty()));
    let n3 = sp_add_epsilon(n2, 0, 1);
    let n4 = sp_add_epsilon(n3, 0, end);
    sp_add_epsilon(n4, x.len() as int, end)
}

/// Plus: one mandatory pass, then a Kleene closure of a second copy.
pub open spec fn sp_plus_nfa(x: Seq<TransitionView>) -> Seq<TransitionView> {
    let len = x.len() as int;
    let n1 = sp_add_nfa(Seq::empty(), x);
    let n2 = n1.push(TransitionView::Epsilon(Seq::<int>::empty()));
    let n3 = sp_add_epsilon(n2, len - 1, len);
    let n4 = sp_add_nfa(n3, x);
    let end = 2 * len + 1;
    let n5 = n4.push(TransitionView::Epsilon(seq![len]));
    let n6 = sp_add_epsilon(n5, len, len + 1);
    let n7 = sp_add_epsilon(n6, len, end);
    sp_add_epsilon(n7, 2 * len, end)
}

/// `n` copies of the automaton chained end to start (at least one).
pub open spec fn sp_times_chain(x: Seq<TransitionView>, n: int) -> Seq<TransitionView>
    decreases n,
{
    if n <= 1 {
        sp_add_nfa(Seq::empty(), x)
    } else {
        let prev = sp_times_chain(x, n - 1);
        let len = x.len() as int;
        sp_add_epsilon(sp_add_nfa(prev, x), (n - 1) * len - 1, (n - 1) * len)
    }
}

/// The end node of the `j`-th copy in a bounded-repetition chain whose
/// copies sit after a leading epsilon node; `j == 0` names the leading
/// node itself.
pub open spec fn mm_end(len: int, j: int) -> int {
    if j <= 0 {
        0
    } else {
        j * len
    }
}

/// A leading epsilon node followed by `k` copies of the automaton chained
/// end to start.
pub open spec fn sp_mm_chain(x: Seq<TransitionView>, k: int) -> Seq<TransitionView>
    decreases k,
{
    if k <= 0 {
        seq![TransitionView::Epsilon(Seq::<int>::empty())]
    } else {
        let prev = sp_mm_chain(x, k - 1);
        let len = x.len() as int;
        sp_add_epsilon(sp_add_nfa(prev, x), mm_end(len, k - 1), mm_end(len, k - 1) + 1)
    }
}

/// Epsilon edges from the entries of the `k` optional copies (the chain
/// ends numbered `min` to `min + k - 1`) to the accept node.
pub open spec fn sp_mm_hooks(
    base: Seq<TransitionView>,
    len: int,
    min: int,
    k: int,
    end: int,
) -> Seq<TransitionView>
    decreases k,
{
    if k <= 0 {
        base
    } else {
        sp_add_epsilon(sp_mm_hooks(base, len, min, k - 1, end), mm_end(len, min + k - 1), end)
    }
}

/// Bounded repetition: `min` mandatory copies then `max - min` optional
/// ones, each optional entry hooked to the accept node.
pub open spec fn sp_minmax_nfa(x: Seq<TransitionView>, min: int, max: int) -> Seq<
    TransitionView,
> {
    let len = x.len() as int;
    let total = if min < max {
        max
    } else {
        min
    };
    let base = sp_mm_chain(x, total);
    sp_mm_hooks(base, len, min, max - min, mm_end(len, total))
}

/// The automaton of a syntax tree, by structural recursion.
pub open spec fn spec_rast_to_nfa(r: RAST) -> Seq<TransitionView>
    decreases r,
{
    match r {
        RAST::Atomic(b) => sp_atomic(b),
        RAST::Binary(l, rr, op) => {
            let ln = spec_rast_to_nfa(*l);
            let rn = spec_rast_to_nfa(*rr);
            match op {
                BinaryOperation::Concat => sp_concat_nfa(ln, rn),
                BinaryOperation::Alternation => sp_alternation_nfa(ln, rn),
            }
        },
        RAST::Unary(x, op) => {
            let xn = spec_rast_to_nfa(*x);
            match op {
                UnaryOperation::KleenClosure => sp_kleen_nfa(xn),
                UnaryOperation::Question => sp_question_nfa(xn),
                UnaryOperation::Plus => sp_plus_nfa(xn),
                UnaryOperation::Times(n) => sp_times_chain(xn, n as int),
                UnaryOperation::MinMax(min, max) => sp_minmax_nfa(xn, min as int, max as int),
            }
        },
    }
}

proof fn lemma_reloc(t: TransitionView, off: int)
    ensures
        trans_targets(reloc_view(t, off)).len() == trans_targets(t).len(),
        forall|j: int|
            0 <= j < trans_targets(t).len() ==> trans_targets(reloc_view(t, off))[j]
                == trans_targets(t)[j] + off,
        reloc_view(t, off) is Epsilon <==> t is Epsilon,
        reloc_view(t, off) is Character <==> t is Character,
{
    match t {
        TransitionView::Epsilon(ts) => {
        },
        TransitionView::Character(b, to) => {
            assert(trans_targets(t) =~= seq![to]);
            assert(trans_targets(reloc_view(t, off)) =~= seq![to + off]);
        },
    }
}

proof fn lemma_reloc_zero(t: TransitionView)
    ensures
        reloc_view(t, 0) == t,
{
    match t {
        TransitionView::Epsilon(ts) => {
            assert(ts.map_values(|x: int| x + 0) =~= ts);
        },
        TransitionView::Character(b, to) => {
        },
    }
}

pub proof fn lemma_add_nfa_empty(b: Seq<TransitionView>)
    ensures
        sp_add_nfa(Seq::empty(), b) == b,
{
    assert forall|i: int| 0 <= i < b.len() implies sp_add_nfa(Seq::empty(), b)[i] == b[i] by {
        lemma_reloc_zero(b[i]);
    }
    assert(sp_add_nfa(Seq::empty(), b) =~= b);
}

proof fn lemma_add_nfa_wf(a: Seq<TransitionView>, b: Seq<TransitionView>)
    requires
        nfa_closed(a),
        no_char_self(a),
        nfa_closed(b),
        no_char_self(b),
    ensures
        sp_add_nfa(a, b).len() == a.len() + b.len(),
        nfa_closed(sp_add_nfa(a, b)),
        no_char_self(sp_add_nfa(a, b)),
        forall|i: int| 0 <= i < a.len() ==> sp_add_nfa(a, b)[i] == a[i],
        forall|i: int|
            a.len() <= i < a.len() + b.len() ==> sp_add_nfa(a, b)[i] == reloc_view(
                b[i - a.len()],
                a.len() as int,
            ),
        b.len() >= 1 && b.last() is Epsilon ==> sp_add_nfa(a, b).last() is Epsilon,
{
    let r = sp_add_nfa(a, b);
    assert forall|i: int, j: int|
        0 <= i < r.len() && 0 <= j < trans_targets(#[trigger] r[i]).len() implies 0 <= #[trigger]
        trans_targets(r[i])[j] < r.len() by {
        if i < a.len() {
            assert(r[i] == a[i]);
            assert(0 <= trans_targets(a[i])[j] < a.len());
        } else {
            let k = i - a.len();
            assert(r[i] == reloc_view(b[k], a.len() as int));
            lemma_reloc(b[k], a.len() as int);
            assert(0 <= trans_targets(b[k])[j] < b.len());
        }
    }
    assert forall|i: int|
        0 <= i < r.len() implies (#[trigger] r[i] matches TransitionView::Character(_, to)
        ==> to != i) by {
        if i < a.len() {
            assert(r[i] == a[i]);
        } else {
            let k = i - a.len();
            assert(r[i] == reloc_view(b[k], a.len() as int));
            lemma_reloc(b[k], a.len() as int);
        }
    }
    if b.len() >= 1 && b.last() is Epsilon {
        lemma_reloc(b.last(), a.len() as int);
        assert(r.last() == reloc_view(b.last(), a.len() as int));
    }
}

proof fn lemma_add_eps_wf(n: Seq<TransitionView>, at: int, to: int)
    requires
        nfa_closed(n),
        no_char_self(n),
        0 <= at < n.len(),
        0 <= to < n.len(),
        n[at] is Epsilon,
    ensures
        sp_add_epsilon(n, at, to).len() == n.len(),
        nfa_closed(sp_add_epsilon(n, at, to)),
        no_char_self(sp_add_epsilon(n, at, to)),
        forall|i: int| 0 <= i < n.len() && i != at ==> sp_add_epsilon(n, at, to)[i] == n[i],
        sp_add_epsilon(n, at, to)[at] is Epsilon,
        n.last() is Epsilon ==> sp_add_epsilon(n, at, to).last() is Epsilon,
{
    let ts = n[at]->Epsilon_0;
    let r = sp_add_epsilon(n, at, to);
    assert(r == n.update(at, TransitionView::Epsilon(ts.push(to))));
    assert forall|i: int, j: int|
        0 <= i < r.len() && 0 <= j < trans_targets(#[trigger] r[i]).len() implies 0 <= #[trigger]
        trans_targets(r[i])[j] < r.len() by {
        if i == at {
            assert(trans_targets(r[i]) == ts.push(to));
            if j < ts.len() {
                assert(trans_targets(n[at])[j] == ts[j]);
            }
        } else {
            assert(r[i] == n[i]);
        }
    }
    assert forall|i: int|
        0 <= i < r.len() implies (#[trigger] r[i] matches TransitionView::Character(_, t2)
        ==> t2 != i) by {
        if i != at {
            assert(r[i] == n[i]);
        }
    }
}

proof fn lemma_push_eps(n: Seq<TransitionView>, ts: Seq<int>)
    requires
        nfa_closed(n),
        no_char_self(n),
        forall|j: int| 0 <= j < ts.len() ==> 0 <= #[trigger] ts[j] < n.len() + 1,
    ensures
        nfa_closed(n.push(TransitionView::Epsilon(ts))),
        no_char_self(n.push(TransitionView::Epsilon(ts))),
{
    let r = n.push(TransitionView::Epsilon(ts));
    assert forall|i: int, j: int|
        0 <= i < r.len() && 0 <= j < trans_targets(#[trigger] r[i]).len() implies 0 <= #[trigger]
        trans_targets(r[i])[j] < r.len() by {
        if i < n.len() {
            assert(r[i] == n[i]);
            assert(0 <= trans_targets(n[i])[j] < n.len());
        } else {
            assert(r[i] == TransitionView::Epsilon(ts));
        }
    }
    assert forall|i: int|
        0 <= i < r.len() implies (#[trigger] r[i] matches TransitionView::Character(_, t2)
        ==> t2 != i) by {
        if i < n.len() {
            assert(r[i] == n[i]);
        }
    }
}

proof fn lemma_seed_wf()
    ensures
        nfa_closed(seq![TransitionView::Epsilon(Seq::<int>::empty())]),
        no_char_self(seq![TransitionView::Epsilon(Seq::<int>::empty())]),
{
    let s = seq![TransitionView::Epsilon(Seq::<int>::empty())];
    assert(trans_targets(s[0]).len() == 0);
}

pub proof fn lemma_concat_wf(l: Seq<TransitionView>, r: Seq<TransitionView>)
    requires
        nfa_wf(l),
        nfa_wf(r),
    ensures
        nfa_wf(sp_concat_nfa(l, r)),
        sp_concat_nfa(l, r).len() == l.len() + r.len(),
        sp_concat_nfa(l, r).last() == reloc_view(r.last(), l.len() as int),
{
    lemma_add_nfa_wf(l, r);
    let n2 = sp_add_nfa(l, r);
    assert(n2[l.len() as int - 1] == l.last());
    lemma_add_eps_wf(n2, l.len() as int - 1, l.len() as int);
    assert(n2.last() == reloc_view(r.last(), l.len() as int));
}

pub proof fn lemma_alternation_wf(l: Seq<TransitionView>, r: Seq<TransitionView>)
    requires
        nfa_wf(l),
        nfa_wf(r),
    ensures
        nfa_wf(sp_alternation_nfa(l, r)),
        sp_alternation_nfa(l, r).len() == 2 + l.len() + r.len(),
        sp_alternation_nfa(l, r).last() == TransitionView::Epsilon(Seq::<int>::empty()),
{
    let n0 = seq![TransitionView::Epsilon(Seq::<int>::empty())];
    lemma_seed_wf();
    lemma_add_nfa_wf(n0, l);
    let n1 = sp_add_nfa(n0, l);
    lemma_add_nfa_wf(n1, r);
    let n2 = sp_add_nfa(n1, r);
    let end: int = 1 + l.len() as int + r.len() as int;
    lemma_push_eps(n2, Seq::<int>::empty());
    let n3 = n2.push(TransitionView::Epsilon(Seq::<int>::empty()));
    assert(n3[0] == n0[0]);
    lemma_add_eps_wf(n3, 0, 1);
    let n4 = sp_add_epsilon(n3, 0, 1);
    lemma_add_eps_wf(n4, 0, 1 + l.len() as int);
    let n5 = sp_add_epsilon(n4, 0, 1 + l.len() as int);
    lemma_reloc(l.last(), 1);
    assert(n2[l.len() as int] == reloc_view(l.last(), 1));
    assert(n5[l.len() as int] == n3[l.len() as int]);
    lemma_add_eps_wf(n5, l.len() as int, end);
    let n6 = sp_add_epsilon(n5, l.len() as int, end);
    lemma_reloc(r.last(), 1 + l.len() as int);
    assert(n2[l.len() as int + r.len() as int] == reloc_view(r.last(), 1 + l.len() as int));
    assert(n6[l.len() as int + r.len() as int] == n3[l.len() as int + r.len() as int]);
    lemma_add_eps_wf(n6, l.len() as int + r.len() as int, end);
    let n7 = sp_add_epsilon(n6, l.len() as int + r.len() as int, end);
    assert(n7.last() == n3.last());
}

pub proof fn lemma_kleen_wf(x: Seq<TransitionView>)
    requires
        nfa_wf(x),
    ensures
        nfa_wf(sp_kleen_nfa(x)),
        sp_kleen_nfa(x).len() == 2 + x.len(),
        sp_kleen_nfa(x).last() == TransitionView::Epsilon(seq![0int]),
{
    let n0 = seq![TransitionView::Epsilon(Seq::<int>::empty())];
    lemma_seed_wf();
    lemma_add_nfa_wf(n0, x);
    let n1 = sp_add_nfa(n0, x);
    let end: int = 1 + x.len() as int;
    lemma_push_eps(n1, seq![0int]);
    let n2 = n1.push(TransitionView::Epsilon(seq![0int]));
    assert(n2[0] == n0[0]);
    lemma_add_eps_wf(n2, 0, 1);
    let n3 = sp_add_epsilon(n2, 0, 1);
    lemma_add_eps_wf(n3, 0, end);
    let n4 = sp_add_epsilon(n3, 0, end);
    lemma_reloc(x.last(), 1);
    assert(n1[x.len() as int] == reloc_view(x.last(), 1));
    assert(n4[x.len() as int] == n2[x.len() as int]);
    lemma_add_eps_wf(n4, x.len() as int, end);
    let n5 = sp_add_epsilon(n4, x.len() as int, end);
    assert(n5.last() == n2.last());
}

pub proof fn lemma_question_wf(x: Seq<TransitionView>)
    requires
        nfa_wf(x),
    ensures
        nfa_wf(sp_question_nfa(x)),
        sp_question_nfa(x).len() == 2 + x.len(),
        sp_question_nfa(x).last() == TransitionView::Epsilon(Seq::<int>::empty()),
{
    let n0 = seq![TransitionView::Epsilon(Seq::<int>::empty())];
    lemma_seed_wf();
    lemma_add_nfa_wf(n0, x);
    let n1 = sp_add_nfa(n0, x);
    let end: int = 1 + x.len() as int;
    lemma_push_eps(n1, Seq::<int>::empty());
    let n2 = n1.push(TransitionView::Epsilon(Seq::<int>::empty()));
    assert(n2[0] == n0[0]);
    lemma_add_eps_wf(n2, 0, 1);
    let n3 = sp_add_epsilon(n2, 0, 1);
    lemma_add_eps_wf(n3, 0, end);
    let n4 = sp_add_epsilon(n3, 0, end);
    lemma_reloc(x.last(), 1);
    assert(n1[x.len() as int] == reloc_view(x.last(), 1));
    assert(n4[x.len() as int] == n2[x.len() as int]);
    lemma_add_eps_wf(n4, x.len() as int, end);
    let n5 = sp_add_epsilon(n4, x.len() as int, end);
    assert(n5.last() == n2.last());
}

pub proof fn lemma_plus_wf(x: Seq<TransitionView>)
    requires
        nfa_wf(x),
    ensures
        nfa_wf(sp_plus_nfa(x)),
        sp_plus_nfa(x).len() == 2 + 2 * x.len(),
        sp_plus_nfa(x).last() == TransitionView::Epsilon(seq![x.len() as int]),
{
    let len = x.len() as int;
    lemma_add_nfa_empty(x);
    let n1 = sp_add_nfa(Seq::empty(), x);
    lemma_push_eps(x, Seq::<int>::empty());
    assert(n1 == x);
    let n2 = n1.push(TransitionView::Epsilon(Seq::<int>::empty()));
    assert(n2[len - 1] == x.last());
    lemma_add_eps_wf(n2, len - 1, len);
    let n3 = sp_add_epsilon(n2, len - 1, len);
    lemma_add_nfa_wf(n3, x);
    let n4 = sp_add_nfa(n3, x);
    let end: int = 2 * len + 1;
    lemma_push_eps(n4, seq![len]);
    let n5 = n4.push(TransitionView::Epsilon(seq![len]));
    assert(n5[len] == n3[len]);
    assert(n3[len] is Epsilon);
    lemma_add_eps_wf(n5, len, len + 1);
    let n6 = sp_add_epsilon(n5, len, len + 1);
    lemma_add_eps_wf(n6, len, end);
    let n7 = sp_add_epsilon(n6, len, end);
    lemma_reloc(x.last(), len + 1);
    assert(n4[2 * len] == reloc_view(x.last(), len + 1));
    assert(n7[2 * len] == n5[2 * len]);
    lemma_add_eps_wf(n7, 2 * len, end);
    let n8 = sp_add_epsilon(n7, 2 * len, end);
    assert(n8.last() == n5.last());
}

pub proof fn lemma_times_chain_wf(x: Seq<TransitionView>, n: int)
    requires
        nfa_wf(x),
    ensures
        ({
            let cnt: int = if n <= 1 {
                1
            } else {
                n
            };
            let c = sp_times_chain(x, n);
            c.len() == cnt * x.len() && nfa_wf(c) && c.last() == reloc_view(
                x.last(),
                (cnt - 1) * x.len() as int,
            )
        }),
    decreases n,
{
    let len = x.len() as int;
    if n <= 1 {
        lemma_add_nfa_empty(x);
        lemma_reloc_zero(x.last());
        assert(1 * len == len) by (nonlinear_arith);
        assert(0 * len == 0) by (nonlinear_arith);
    } else {
        lemma_times_chain_wf(x, n - 1);
        let prev = sp_times_chain(x, n - 1);
        let cp: int = if n - 1 <= 1 {
            1
        } else {
            n - 1
        };
        assert(cp == n - 1);
        lemma_add_nfa_wf(prev, x);
        let n2 = sp_add_nfa(prev, x);
        assert((n - 1) * len + len == n * len) by (nonlinear_arith);
        assert((n - 2) * len + len == (n - 1) * len) by (nonlinear_arith);
        assert(len >= 1 ==> (n - 1) * len < n * len && 1 <= (n - 1) * len) by (nonlinear_arith)
            requires
                2 <= n,
        ;
        lemma_reloc(x.last(), (n - 2) * len);
        assert(prev[(n - 1) * len - 1] == prev.last());
        assert(n2[(n - 1) * len - 1] == prev.last());
        lemma_add_eps_wf(n2, (n - 1) * len - 1, (n - 1) * len);
        let c = sp_add_epsilon(n2, (n - 1) * len - 1, (n - 1) * len);
        assert(n2.last() == reloc_view(x.last(), (n - 1) * len));
        assert(c.last() == n2.last());
    }
}

proof fn lemma_mm_chain_wf(x: Seq<TransitionView>, k: int)
    requires
        nfa_wf(x),
    ensures
        ({
            let kk: int = if k <= 0 {
                0
            } else {
                k
            };
            let len = x.len() as int;
            let c = sp_mm_chain(x, k);
            c.len() == 1 + kk * len && nfa_closed(c) && no_char_self(c) && (forall|j: int|
                0 <= j <= kk ==> 0 <= #[trigger] mm_end(len, j) < c.len()) && (forall|j: int|
                0 <= j <= kk ==> c[#[trigger] mm_end(len, j)] is Epsilon) && (kk >= 1
                ==> c.last() == reloc_view(x.last(), 1 + (kk - 1) * len)) && (kk == 0 ==> c
                == seq![TransitionView::Epsilon(Seq::<int>::empty())])
        }),
    decreases k,
{
    let len = x.len() as int;
    if k <= 0 {
        lemma_seed_wf();
        assert(0 * len == 0) by (nonlinear_arith);
    } else {
        lemma_mm_chain_wf(x, k - 1);
        let prev = sp_mm_chain(x, k - 1);
        let kp: int = if k - 1 <= 0 {
            0
        } else {
            k - 1
        };
        assert(kp == k - 1);
        lemma_add_nfa_wf(prev, x);
        let n2 = sp_add_nfa(prev, x);
        assert(1 + (k - 1) * len + len == 1 + k * len) by (nonlinear_arith);
        assert(len >= 1 ==> (k - 1) * len < k * len && 0 <= (k - 1) * len) by (nonlinear_arith)
            requires
                1 <= k,
        ;
        let at = mm_end(len, k - 1);
        assert(prev[at] is Epsilon);
        assert(n2[at] == prev[at]);
        assert(at + 1 <= prev.len());
        lemma_add_eps_wf(n2, at, at + 1);
        let c = sp_add_epsilon(n2, at, at + 1);
        if k - 1 >= 1 {
            lemma_reloc(x.last(), 1 + (k - 2) * len);
            assert(1 + (k - 2) * len + len == 1 + (k - 1) * len) by (nonlinear_arith);
        }
        lemma_reloc(x.last(), prev.len() as int);
        assert(n2.last() == reloc_view(x.last(), 1 + (k - 1) * len));
        assert(at < n2.len() - 1);
        assert(c.last() == n2.last());
        assert(mm_end(len, k) == k * len);
        assert(c.len() - 1 == k * len);
        assert forall|j: int| 0 <= j <= k implies 0 <= #[trigger] mm_end(len, j) < c.len() by {
            if j < k {
                assert(mm_end(len, j) < prev.len());
            } else {
                assert(mm_end(len, k) == c.len() - 1);
            }
        }
        assert forall|j: int| 0 <= j <= k implies c[#[trigger] mm_end(len, j)] is Epsilon by {
            if j < k {
                assert(prev[mm_end(len, j)] is Epsilon);
                if mm_end(len, j) != at {
                    assert(c[mm_end(len, j)] == n2[mm_end(len, j)]);
                    assert(n2[mm_end(len, j)] == prev[mm_end(len, j)]);
                }
            } else {
                assert(c[mm_end(len, k)] == c.last());
            }
        }
    }
}

proof fn lemma_mm_hooks_wf(
    base: Seq<TransitionView>,
    len: int,
    min: int,
    k: int,
    end: int,
)
    requires
        nfa_closed(base),
        no_char_self(base),
        0 <= end < base.len(),
        forall|j: int| 0 <= j < k ==> 0 <= #[trigger] mm_end(len, min + j) < base.len(),
        forall|j: int| 0 <= j < k ==> base[#[trigger] mm_end(len, min + j)] is Epsilon,
    ensures
        ({
            let h = sp_mm_hooks(base, len, min, k, end);
            h.len() == base.len() && nfa_closed(h) && no_char_self(h) && (forall|i: int|
                0 <= i < base.len() && base[i] is Epsilon ==> #[trigger] h[i] is Epsilon) && (
            (forall|j: int| 0 <= j < k ==> #[trigger] mm_end(len, min + j) != base.len() - 1)
                ==> h.last() == base.last())
        }),
    decreases k,
{
    if k > 0 {
        lemma_mm_hooks_wf(base, len, min, k - 1, end);
        let prev = sp_mm_hooks(base, len, min, k - 1, end);
        let at = mm_end(len, min + k - 1);
        assert(base[at] is Epsilon);
        assert(prev[at] is Epsilon);
        lemma_add_eps_wf(prev, at, end);
        let h = sp_add_epsilon(prev, at, end);
        assert forall|i: int|
            0 <= i < base.len() && base[i] is Epsilon implies #[trigger] h[i] is Epsilon by {
            if i != at {
                assert(h[i] == prev[i]);
            }
        }
        if forall|j: int| 0 <= j < k ==> #[trigger] mm_end(len, min + j) != base.len() - 1 {
            assert(h.last() == prev.last());
        }
    }
}

pub proof fn lemma_minmax_wf(x: Seq<TransitionView>, min: int, max: int)
    requires
        nfa_wf(x),
        0 <= min,
        0 <= max,
    ensures
        ({
            let total: int = if min < max {
                max
            } else {
                min
            };
            let len = x.len() as int;
            let c = sp_minmax_nfa(x, min, max);
            nfa_wf(c) && c.len() == 1 + total * len && (total >= 1 ==> c.last() == reloc_view(
                x.last(),
                1 + (total - 1) * len,
            )) && (total == 0 ==> c.last() == TransitionView::Epsilon(Seq::<int>::empty()))
        }),
{
    let len = x.len() as int;
    let total: int = if min < max {
        max
    } else {
        min
    };
    lemma_mm_chain_wf(x, total);
    let base = sp_mm_chain(x, total);
    let end = mm_end(len, total);
    let k = max - min;
    assert forall|j: int| 0 <= j < k implies 0 <= #[trigger] mm_end(len, min + j)
        < base.len() by {
        assert(0 <= min + j <= total);
    }
    assert forall|j: int| 0 <= j < k implies base[#[trigger] mm_end(len, min + j)]
        is Epsilon by {
        assert(0 <= min + j <= total);
    }
    lemma_mm_hooks_wf(base, len, min, k, end);
    assert forall|j: int| 0 <= j < k implies #[trigger] mm_end(len, min + j) != base.len()
        - 1 by {
        assert(min + j <= total - 1);
        assert(len >= 1 ==> (total - 1) * len < total * len && 0 <= (total - 1) * len)
            by (nonlinear_arith)
            requires
                1 <= total,
        ;
        assert(mm_end(len, min + j) <= (total - 1) * len) by (nonlinear_arith)
            requires
                0 <= min + j <= total - 1,
                1 <= len,
        ;
        assert(base.len() - 1 == total * len);
    }
    let c = sp_mm_hooks(base, len, min, k, end);
    assert(c.last() == base.last());
}

/// Whether the construction for this tree ends in an epsilon node with no
/// targets.  A trailing Kleene closure or plus puts a back edge on the
/// accept node instead.
pub open spec fn accept_empty(r: RAST) -> bool
    decreases r,
{
    match r {
        RAST::Atomic(_) => true,
        RAST::Binary(l, rr, op) => match op {
            BinaryOperation::Concat => accept_empty(*rr),
            BinaryOperation::Alternation => true,
        },
        RAST::Unary(x, op) => match op {
            UnaryOperation::KleenClosure => false,
            UnaryOperation::Question => true,
            UnaryOperation::Plus => false,
            UnaryOperation::Times(_) => accept_empty(*x),
            UnaryOperation::MinMax(_, _) => accept_empty(*x),
        },
    }
}

/// The structural invariants of every automaton the construction builds:
/// it is nonempty, every index it mentions is a valid node, the accept
/// node (the last one) is an epsilon node, and no byte transition targets
/// its own node.  When the tree does not end in a Kleene closure or plus,
/// the accept node has no outgoing moves at all.
pub proof fn lemma_rast_to_nfa_wf(r: RAST)
    ensures
        nfa_wf(spec_rast_to_nfa(r)),
        spec_rast_to_nfa(r).len() >= 1,
        accept_empty(r) ==> spec_rast_to_nfa(r).last() == TransitionView::Epsilon(
            Seq::<int>::empty(),
        ),
    decreases r,
{
    match r {
        RAST::Atomic(b) => {
            let n = sp_atomic(b);
            assert(trans_targets(n[0]) =~= seq![1int]);
            assert(trans_targets(n[1]).len() == 0);
            assert forall|i: int, j: int|
                0 <= i < n.len() && 0 <= j < trans_targets(#[trigger] n[i]).len() implies 0
                <= #[trigger] trans_targets(n[i])[j] < n.len() by {
                if i == 0 {
                    assert(trans_targets(n[0])[j] == 1);
                }
            }
        },
        RAST::Binary(l, rr, op) => {
            lemma_rast_to_nfa_wf(*l);
            lemma_rast_to_nfa_wf(*rr);
            let ln = spec_rast_to_nfa(*l);
            let rn = spec_rast_to_nfa(*rr);
            match op {
                BinaryOperation::Concat => {
                    lemma_concat_wf(ln, rn);
                    if accept_empty(*rr) {
                        assert(reloc_view(rn.last(), ln.len() as int)
                            == TransitionView::Epsilon(
                            Seq::<int>::empty().map_values(|t: int| t + ln.len() as int),
                        ));
                        assert(Seq::<int>::empty().map_values(|t: int| t + ln.len() as int)
                            =~= Seq::<int>::empty());
                    }
                },
                BinaryOperation::Alternation => {
                    lemma_alternation_wf(ln, rn);
                },
            }
        },
        RAST::Unary(x, op) => {
            lemma_rast_to_nfa_wf(*x);
            let xn = spec_rast_to_nfa(*x);
            match op {
                UnaryOperation::KleenClosure => {
                    lemma_kleen_wf(xn);
                },
                UnaryOperation::Question => {
                    lemma_question_wf(xn);
                },
                UnaryOperation::Plus => {
                    lemma_plus_wf(xn);
                },
                UnaryOperation::Times(n) => {
                    lemma_times_chain_wf(xn, n as int);
                    if accept_empty(*x) {
                        let cnt: int = if n as int <= 1 {
                            1
                        } else {
                            n as int
                        };
                        assert(reloc_view(xn.last(), (cnt - 1) * xn.len() as int)
                            == TransitionView::Epsilon(
                            Seq::<int>::empty().map_values(
                                |t: int| t + (cnt - 1) * xn.len() as int,
                            ),
                        ));
                        assert(Seq::<int>::empty().map_values(
                            |t: int| t + (cnt - 1) * xn.len() as int,
                        ) =~= Seq::<int>::empty());
                    }
                },
                UnaryOperation::MinMax(min, max) => {
                    lemma_minmax_wf(xn, min as int, max as int);
                    if accept_empty(*x) {
                        let total: int = if (min as int) < (max as int) {
                            max as int
                        } else {
                            min as int
                        };
                        if total >= 1 {
                            assert(reloc_view(xn.last(), 1 + (total - 1) * xn.len() as int)
                                == TransitionView::Epsilon(
                                Seq::<int>::empty().map_values(
                                    |t: int| t + 1 + (total - 1) * xn.len() as int,
                                ),
                            ));
                            assert(Seq::<int>::empty().map_values(
                                |t: int| t + 1 + (total - 1) * xn.len() as int,
                            ) =~= Seq::<int>::empty());
                        }
                    }
                },
            }
        },
    }
}

/// The automaton of a single byte repeated exactly `n` times (`n >= 1`,
/// the repetitions a semantic check admits) has exactly `2 n` transitions:
/// one byte move and one epsilon per copy.
pub proof fn lemma_times_size(b: u8, n: u8)
    requires
        n >= 1,
    ensures
        spec_rast_to_nfa(
            RAST::Unary(Box::new(RAST::Atomic(b)), UnaryOperation::Times(n)),
        ).len() == 2 * n,
{
    assert(spec_rast_to_nfa(RAST::Atomic(b)) == sp_atomic(b));
    lemma_rast_to_nfa_wf(RAST::Atomic(b));
    lemma_times_chain_wf(sp_atomic(b), n as int);
    assert((n as int) * 2 == 2 * (n as int)) by (nonlinear_arith);
}

impl Transition {
    /// Appends a target to an epsilon node's list.
    pub fn add_epsilon(&mut self, to: usize)
        requires
            old(self)@ is Epsilon,
        ensures
            final(self)@ == (match old(self)@ {
                TransitionView::Epsilon(ts) => TransitionView::Epsilon(ts.push(to as int)),
                t => t,
            }),
    {
        match self {
            Transition::Epsilon(transitions) => {
                transitions.push(to);
                proof {
                    assert(self@ =~= (match old(self)@ {
                        TransitionView::Epsilon(ts) => TransitionView::Epsilon(
                            ts.push(to as int),
                        ),
                        t => t,
                    }));
                }
            },
            Transition::Character(_, _) => {},
        }
    }
}

fn new_epsilon(nfa: &mut NFA, transitions: Vec<usize>) -> (r: usize)
    ensures
        nfa_view(final(nfa)@) == nfa_view(old(nfa)@).push(
            TransitionView::Epsilon(transitions@.map_values(|t: usize| t as int)),
        ),
        r == old(nfa)@.len(),
{
    let r = nfa.len();
    nfa.push(Transition::Epsilon(transitions));
    proof {
        assert(nfa_view(nfa@) =~= nfa_view(old(nfa)@).push(
            TransitionView::Epsilon(transitions@.map_values(|t: usize| t as int)),
        ));
    }
    r
}

/// Appends a target to the epsilon node `at`.
fn add_epsilon_at(nfa: &mut NFA, at: usize, to: usize)
    requires
        at < nfa_view(old(nfa)@).len(),
        nfa_view(old(nfa)@)[at as int] is Epsilon,
    ensures
        nfa_view(final(nfa)@) == sp_add_epsilon(nfa_view(old(nfa)@), at as int, to as int),
{
    proof {
        assert(nfa@.len() == nfa_view(nfa@).len());
        assert(nfa_view(nfa@)[at as int] == (nfa@[at as int])@);
    }
    nfa[at].add_epsilon(to);
    proof {
        assert(nfa_view(nfa@) =~= sp_add_epsilon(nfa_view(old(nfa)@), at as int, to as int));
    }
}

/// The half-open range of node indices a spliced sub-automaton occupies.
#[derive(Copy, Clone, Debug, PartialEq, Eq, Structural)]
pub struct Range {
    pub start: usize,
    pub end: usize,
}

fn relocate_one(t: &Transition, off: usize, bound: Ghost<int>) -> (r: Transition)
    requires
        bound@ <= usize::MAX,
        forall|j: int|
            0 <= j < trans_targets(t@).len() ==> trans_targets(t@)[j] + off <= bound@,
    ensures
        r@ == reloc_view(t@, off as int),
{
    match t {
        Transition::Epsilon(ts) => {
            proof {
                assert forall|k: int| 0 <= k < ts@.len() implies ts@[k] + off <= usize::MAX by {
                    assert(trans_targets(t@)[k] == ts@[k] as int);
                }
            }
            let mut v: Vec<usize> = Vec::new();
            let mut j: usize = 0;
            while j < ts.len()
                invariant
                    j <= ts@.len(),
                    forall|k: int|
                        0 <= k < ts@.len() ==> ts@[k] + off <= usize::MAX,
                    v@.len() == j,
                    forall|k: int| 0 <= k < j ==> v@[k] == ts@[k] + off,
                decreases ts@.len() - j,
            {
                v.push(ts[j] + off);
                j = j + 1;
            }
            let r = Transition::Epsilon(v);
            proof {
                assert(r@ =~= reloc_view(t@, off as int));
            }
            r
        },
        Transition::Character(b, to) => {
            proof {
                assert(trans_targets(t@)[0] == *to as int);
            }
            Transition::Character(*b, *to + off)
        },
    }
}

/// Splices a sub-automaton onto the end, relocating its indices by the old
/// length, and returns the index range it now occupies.
pub fn add_nfa(nfa: &mut NFA, to_insert: NFA) -> (r: Range)
    requires
        nfa_closed(nfa_view(to_insert@)),
        old(nfa)@.len() + to_insert@.len() >= 1,
    ensures
        nfa_view(final(nfa)@) == sp_add_nfa(nfa_view(old(nfa)@), nfa_view(to_insert@)),
        r.start == old(nfa)@.len(),
        r.end == old(nfa)@.len() + to_insert@.len() - 1,
{
    let ghost subv = nfa_view(to_insert@);
    let off = nfa.len();
    let n_sub = to_insert.len();
    let mut rest = to_insert;
    nfa.append(&mut rest);
    let total = nfa.len();
    let mut i: usize = off;
    while i < total
        invariant
            off <= i <= total,
            total == nfa@.len(),
            total == off + n_sub,
            n_sub == subv.len(),
            nfa_closed(subv),
            forall|k: int| 0 <= k < off ==> nfa@[k] == old(nfa)@[k],
            forall|k: int| off <= k < i ==> (#[trigger] nfa@[k])@ == reloc_view(
                subv[k - off],
                off as int,
            ),
            forall|k: int| i <= k < total ==> (#[trigger] nfa@[k])@ == subv[k - off],
        decreases total - i,
    {
        let t = relocate_one(&nfa[i], off, Ghost(total as int));
        nfa[i] = t;
        i = i + 1;
    }
    proof {
        assert(nfa_view(nfa@) =~= sp_add_nfa(nfa_view(old(nfa)@), subv));
    }
    Range { start: off, end: total - 1 }
}

/// A node-for-node copy of an automaton (its image is unchanged).
fn clone_nfa(nfa: &NFA) -> (r: NFA)
    ensures
        nfa_view(r@) == nfa_view(nfa@),
{
    let mut out: NFA = Vec::new();
    let mut i: usize = 0;
    while i < nfa.len()
        invariant
            i <= nfa@.len(),
            out@.len() == i,
            forall|k: int| 0 <= k < i ==> (#[trigger] out@[k])@ == (nfa@[k])@,
        decreases nfa@.len() - i,
    {
        match &nfa[i] {
            Transition::Epsilon(ts) => {
                let mut v: Vec<usize> = Vec::new();
                let mut j: usize = 0;
                while j < ts.len()
                    invariant
                        j <= ts@.len(),
                        v@ == ts@.take(j as int),
                    decreases ts@.len() - j,
                {
                    v.push(ts[j]);
                    proof {
                        assert(v@ =~= ts@.take(j + 1));
                    }
                    j = j + 1;
                }
                proof {
                    assert(ts@.take(ts@.len() as int) =~= ts@);
                }
                out.push(Transition::Epsilon(v));
            },
            Transition::Character(b, to) => {
                out.push(Transition::Character(*b, *to));
            },
        }
        i = i + 1;
    }
    proof {
        assert(nfa_view(out@) =~= nfa_view(nfa@));
    }
    out
}

fn construct_binary_op(left: NFA, right: NFA, op: BinaryOperation) -> (r: NFA)
    requires
        nfa_wf(nfa_view(left@)),
        nfa_wf(nfa_view(right@)),
    ensures
        nfa_view(r@) == (match op {
            BinaryOperation::Concat => sp_concat_nfa(nfa_view(left@), nfa_view(right@)),
            BinaryOperation::Alternation => sp_alternation_nfa(
                nfa_view(left@),
                nfa_view(right@),
            ),
        }),
{
    let ghost lv = nfa_view(left@);
    let ghost rv = nfa_view(right@);
    let mut nfa: NFA = Vec::new();
    proof {
        assert(nfa_view(nfa@) =~= Seq::<TransitionView>::empty());
    }
    match op {
        BinaryOperation::Concat => {
            let l = add_nfa(&mut nfa, left);
            proof {
                lemma_add_nfa_empty(lv);
            }
            let r2 = add_nfa(&mut nfa, right);
            proof {
                lemma_add_nfa_wf(lv, rv);
                assert(nfa_view(nfa@)[l.end as int] == lv.last());
            }
            add_epsilon_at(&mut nfa, l.end, r2.start);
        },
        BinaryOperation::Alternation => {
            let ghost n0 = seq![TransitionView::Epsilon(Seq::<int>::empty())];
            let ts0: Vec<usize> = Vec::new();
            let start = new_epsilon(&mut nfa, ts0);
            proof {
                assert(ts0@.map_values(|t: usize| t as int) =~= Seq::<int>::empty());
                assert(nfa_view(nfa@) =~= n0);
                lemma_seed_wf();
            }
            let l = add_nfa(&mut nfa, left);
            let ghost n1 = sp_add_nfa(n0, lv);
            proof {
                lemma_add_nfa_wf(n0, lv);
            }
            let r2 = add_nfa(&mut nfa, right);
            let ghost n2 = sp_add_nfa(n1, rv);
            proof {
                lemma_add_nfa_wf(n1, rv);
            }
            let ts1: Vec<usize> = Vec::new();
            let end = new_epsilon(&mut nfa, ts1);
            let ghost n3 = n2.push(TransitionView::Epsilon(Seq::<int>::empty()));
            proof {
                assert(ts1@.map_values(|t: usize| t as int) =~= Seq::<int>::empty());
                assert(nfa_view(nfa@) == n3);
                assert(n3[0] == n0[0]);
            }
            add_epsilon_at(&mut nfa, start, l.start);
            let ghost n4 = sp_add_epsilon(n3, 0, 1);
            proof {
                lemma_seed_wf();
                lemma_push_eps(n2, Seq::<int>::empty());
                lemma_add_eps_wf(n3, 0, 1);
                assert(n4[0] is Epsilon);
            }
            add_epsilon_at(&mut nfa, start, r2.start);
            let ghost n5 = sp_add_epsilon(n4, 0, 1 + lv.len() as int);
            proof {
                lemma_add_eps_wf(n4, 0, 1 + lv.len() as int);
                lemma_reloc(lv.last(), 1);
                assert(n2[lv.len() as int] == reloc_view(lv.last(), 1));
                assert(n5[lv.len() as int] == n3[lv.len() as int]);
                assert(l.end as int == lv.len() as int);
            }
            add_epsilon_at(&mut nfa, l.end, end);
            let ghost n6 = sp_add_epsilon(n5, lv.len() as int, 1 + lv.len() as int
                + rv.len() as int);
            proof {
                lemma_add_eps_wf(n5, lv.len() as int, 1 + lv.len() as int + rv.len() as int);
                lemma_reloc(rv.last(), 1 + lv.len() as int);
                assert(n2[lv.len() as int + rv.len() as int] == reloc_view(
                    rv.last(),
                    1 + lv.len() as int,
                ));
                assert(n6[lv.len() as int + rv.len() as int] == n3[lv.len() as int
                    + rv.len() as int]);
                assert(r2.end as int == lv.len() as int + rv.len() as int);
            }
            add_epsilon_at(&mut nfa, r2.end, end);
        },
    }
    nfa
}

fn construct_unary_op(middle: NFA, op: UnaryOperation) -> (r: NFA)
    requires
        nfa_wf(nfa_view(middle@)),
    ensures
        nfa_view(r@) == (match op {
            UnaryOperation::KleenClosure => sp_kleen_nfa(nfa_view(middle@)),
            UnaryOperation::Question => sp_question_nfa(nfa_view(middle@)),
            UnaryOperation::Plus => sp_plus_nfa(nfa_view(middle@)),
            UnaryOperation::Times(n) => sp_times_chain(nfa_view(middle@), n as int),
            UnaryOperation::MinMax(min, max) => sp_minmax_nfa(
                nfa_view(middle@),
                min as int,
                max as int,
            ),
        }),
{
    let ghost mv = nfa_view(middle@);
    let ghost len = mv.len() as int;
    let mut nfa: NFA = Vec::new();
    proof {
        assert(nfa_view(nfa@) =~= Seq::<TransitionView>::empty());
    }
    match op {
        UnaryOperation::KleenClosure => {
            let ghost n0 = seq![TransitionView::Epsilon(Seq::<int>::empty())];
            let ts0: Vec<usize> = Vec::new();
            let start = new_epsilon(&mut nfa, ts0);
            proof {
                assert(ts0@.map_values(|t: usize| t as int) =~= Seq::<int>::empty());
                assert(nfa_view(nfa@) =~= n0);
                lemma_seed_wf();
            }
            let m = add_nfa(&mut nfa, middle);
            let ghost n1 = sp_add_nfa(n0, mv);
            proof {
                lemma_add_nfa_wf(n0, mv);
            }
            let ts1: Vec<usize> = vec![start];
            let end = new_epsilon(&mut nfa, ts1);
            let ghost n2 = n1.push(TransitionView::Epsilon(seq![0int]));
            proof {
                assert(ts1@.map_values(|t: usize| t as int) =~= seq![0int]);
                assert(nfa_view(nfa@) == n2);
                assert(n2[0] == n0[0]);
            }
            add_epsilon_at(&mut nfa, start, m.start);
            let ghost n3 = sp_add_epsilon(n2, 0, 1);
            proof {
                lemma_push_eps(n1, seq![0int]);
                lemma_add_eps_wf(n2, 0, 1);
                assert(n3[0] is Epsilon);
            }
            add_epsilon_at(&mut nfa, start, end);
            let ghost n4 = sp_add_epsilon(n3, 0, 1 + len);
            proof {
                lemma_add_eps_wf(n3, 0, 1 + len);
                lemma_reloc(mv.last(), 1);
                assert(n1[len] == reloc_view(mv.last(), 1));
                assert(n4[len] == n2[len]);
                assert(m.end as int == len);
            }
            add_epsilon_at(&mut nfa, m.end, end);
        },
        UnaryOperation::Question => {
            let ghost n0 = seq![TransitionView::Epsilon(Seq::<int>::empty())];
            let ts0: Vec<usize> = Vec::new();
            let start = new_epsilon(&mut nfa, ts0);
            proof {
                assert(ts0@.map_values(|t: usize| t as int) =~= Seq::<int>::empty());
                assert(nfa_view(nfa@) =~= n0);
                lemma_seed_wf();
            }
            let m = add_nfa(&mut nfa, middle);
            let ghost n1 = sp_add_nfa(n0, mv);
            proof {
                lemma_add_nfa_wf(n0, mv);
            }
            let ts1: Vec<usize> = Vec::new();
            let end = new_epsilon(&mut nfa, ts1);
            let ghost n2 = n1.push(TransitionView::Epsilon(Seq::<int>::empty()));
            proof {
                assert(ts1@.map_values(|t: usize| t as int) =~= Seq::<int>::empty());
                assert(nfa_view(nfa@) == n2);
                assert(n2[0] == n0[0]);
            }
            add_epsilon_at(&mut nfa, start, m.start);
            let ghost n3 = sp_add_epsilon(n2, 0, 1);
            proof {
                lemma_push_eps(n1, Seq::<int>::empty());
                lemma_add_eps_wf(n2, 0, 1);
                assert(n3[0] is Epsilon);
            }
            add_epsilon_at(&mut nfa, start, end);
            let ghost n4 = sp_add_epsilon(n3, 0, 1 + len);
            proof {
                lemma_add_eps_wf(n3, 0, 1 + len);
                lemma_reloc(mv.last(), 1);
                assert(n1[len] == reloc_view(mv.last(), 1));
                assert(n4[len] == n2[len]);
                assert(m.end as int == len);
            }
            add_epsilon_at(&mut nfa, m.end, end);
        },
        UnaryOperation::Plus => {
            let first_copy = clone_nfa(&middle);
            let first = add_nfa(&mut nfa, first_copy);
            proof {
                lemma_add_nfa_empty(mv);
            }
            let ts0: Vec<usize> = Vec::new();
            let start = new_epsilon(&mut nfa, ts0);
            let ghost n2 = mv.push(TransitionView::Epsilon(Seq::<int>::empty()));
            proof {
                assert(ts0@.map_values(|t: usize| t as int) =~= Seq::<int>::empty());
                assert(nfa_view(nfa@) == n2);
                assert(n2[len - 1] == mv.last());
            }
            add_epsilon_at(&mut nfa, first.end, start);
            let ghost n3 = sp_add_epsilon(n2, len - 1, len);
            proof {
                lemma_push_eps(mv, Seq::<int>::empty());
                lemma_add_eps_wf(n2, len - 1, len);
            }
            let m = add_nfa(&mut nfa, middle);
            let ghost n4 = sp_add_nfa(n3, mv);
            proof {
                lemma_add_nfa_wf(n3, mv);
            }
            let ts1: Vec<usize> = vec![start];
            let end = new_epsilon(&mut nfa, ts1);
            let ghost n5 = n4.push(TransitionView::Epsilon(seq![len]));
            proof {
                assert(ts1@.map_values(|t: usize| t as int) =~= seq![len]);
                assert(nfa_view(nfa@) == n5);
                assert(n3[len] is Epsilon);
                assert(n5[len] == n3[len]);
            }
            add_epsilon_at(&mut nfa, start, m.start);
            let ghost n6 = sp_add_epsilon(n5, len, len + 1);
            proof {
                lemma_push_eps(n4, seq![len]);
                lemma_add_eps_wf(n5, len, len + 1);
                assert(n6[len] is Epsilon);
            }
            add_epsilon_at(&mut nfa, start, end);
            let ghost n7 = sp_add_epsilon(n6, len, 2 * len + 1);
            proof {
                lemma_add_eps_wf(n6, len, 2 * len + 1);
                lemma_reloc(mv.last(), len + 1);
                assert(n4[2 * len] == reloc_view(mv.last(), len + 1));
                assert(n7[2 * len] == n5[2 * len]);
                assert(m.end as int == 2 * len);
            }
            add_epsilon_at(&mut nfa, m.end, end);
        },
        UnaryOperation::Times(times) => {
            let first = clone_nfa(&middle);
            let mut at = add_nfa(&mut nfa, first);
            proof {
                lemma_add_nfa_empty(mv);
                assert(nfa_view(nfa@) == sp_times_chain(mv, 1));
                assert(1 * len == len) by (nonlinear_arith);
                assert(0 * len == 0) by (nonlinear_arith);
            }
            let mut i: u8 = 1;
            while i < times
                invariant
                    nfa_wf(mv),
                    mv == nfa_view(middle@),
                    len == mv.len() as int,
                    1 <= i,
                    i as int <= if (times as int) <= 1 {
                        1int
                    } else {
                        times as int
                    },
                    nfa_view(nfa@) == sp_times_chain(mv, i as int),
                    at.start as int == (i as int - 1) * len,
                    at.end as int == i as int * len - 1,
                decreases times as int - i as int,
            {
                let copy = clone_nfa(&middle);
                let ghost pre = nfa_view(nfa@);
                let next = add_nfa(&mut nfa, copy);
                proof {
                    lemma_times_chain_wf(mv, i as int);
                    lemma_add_nfa_wf(pre, mv);
                    assert(pre.len() == i as int * len);
                    assert(at.end as int == pre.len() - 1);
                    assert(nfa_view(nfa@)[at.end as int] == pre.last());
                }
                add_epsilon_at(&mut nfa, at.end, next.start);
                proof {
                    assert(nfa_view(nfa@) == sp_times_chain(mv, i as int + 1));
                    assert((i as int) * len + len == (i as int + 1) * len)
                        by (nonlinear_arith);
                }
                at = next;
                i = i + 1;
            }
            proof {
                if times as int <= 1 {
                    assert(sp_times_chain(mv, 1) == sp_times_chain(mv, times as int));
                }
            }
        },
        UnaryOperation::MinMax(min, max) => {
            let ghost total: int = if (min as int) < (max as int) {
                max as int
            } else {
                min as int
            };
            let mut at = Range { start: 0, end: 0 };
            let ts0: Vec<usize> = Vec::new();
            new_epsilon(&mut nfa, ts0);
            proof {
                assert(ts0@.map_values(|t: usize| t as int) =~= Seq::<int>::empty());
                assert(nfa_view(nfa@) =~= sp_mm_chain(mv, 0));
            }
            let mut i: u8 = 0;
            while i < min
                invariant
                    nfa_wf(mv),
                    mv == nfa_view(middle@),
                    len == mv.len() as int,
                    i <= min,
                    nfa_view(nfa@) == sp_mm_chain(mv, i as int),
                    at.end as int == mm_end(len, i as int),
                decreases min as int - i as int,
            {
                let copy = clone_nfa(&middle);
                let ghost pre = nfa_view(nfa@);
                let next = add_nfa(&mut nfa, copy);
                proof {
                    lemma_mm_chain_wf(mv, i as int);
                    lemma_add_nfa_wf(pre, mv);
                    assert(pre[at.end as int] is Epsilon);
                    assert(nfa_view(nfa@)[at.end as int] == pre[at.end as int]);
                    assert(next.start as int == mm_end(len, i as int) + 1);
                }
                add_epsilon_at(&mut nfa, at.end, next.start);
                proof {
                    assert(nfa_view(nfa@) == sp_mm_chain(mv, i as int + 1));
                    assert(1 + (i as int) * len + len == 1 + (i as int + 1) * len)
                        by (nonlinear_arith);
                    assert(next.end as int == mm_end(len, i as int + 1));
                }
                at = next;
                i = i + 1;
            }
            let mut hook_to_end: Vec<Range> = Vec::new();
            let mut i2: u8 = min;
            while i2 < max
                invariant
                    nfa_wf(mv),
                    mv == nfa_view(middle@),
                    len == mv.len() as int,
                    min <= i2,
                    i2 as int <= total,
                    total == if (min as int) < (max as int) {
                        max as int
                    } else {
                        min as int
                    },
                    nfa_view(nfa@) == sp_mm_chain(mv, i2 as int),
                    at.end as int == mm_end(len, i2 as int),
                    hook_to_end@.len() == i2 as int - min as int,
                    forall|j: int|
                        0 <= j < hook_to_end@.len() ==> (#[trigger] hook_to_end@[j]).end as int
                            == mm_end(len, min as int + j),
                decreases max as int - i2 as int,
            {
                hook_to_end.push(at);
                let copy = clone_nfa(&middle);
                let ghost pre = nfa_view(nfa@);
                let next = add_nfa(&mut nfa, copy);
                proof {
                    lemma_mm_chain_wf(mv, i2 as int);
                    lemma_add_nfa_wf(pre, mv);
                    assert(pre[at.end as int] is Epsilon);
                    assert(nfa_view(nfa@)[at.end as int] == pre[at.end as int]);
                    assert(next.start as int == mm_end(len, i2 as int) + 1);
                }
                add_epsilon_at(&mut nfa, at.end, next.start);
                proof {
                    assert(nfa_view(nfa@) == sp_mm_chain(mv, i2 as int + 1));
                    assert(1 + (i2 as int) * len + len == 1 + (i2 as int + 1) * len)
                        by (nonlinear_arith);
                    assert(next.end as int == mm_end(len, i2 as int + 1));
                }
                at = next;
                i2 = i2 + 1;
            }
            let end = at.end;
            let ghost base = nfa_view(nfa@);
            proof {
                assert(i2 as int == total);
                assert(base == sp_mm_chain(mv, total));
                assert(end as int == mm_end(len, total));
                lemma_mm_chain_wf(mv, total);
            }
            let mut h: usize = 0;
            while h < hook_to_end.len()
                invariant
                    nfa_wf(mv),
                    len == mv.len() as int,
                    total == if (min as int) < (max as int) {
                        max as int
                    } else {
                        min as int
                    },
                    base == sp_mm_chain(mv, total),
                    end as int == mm_end(len, total),
                    h <= hook_to_end@.len(),
                    hook_to_end@.len() == (if (min as int) < (max as int) {
                        max as int - min as int
                    } else {
                        0int
                    }),
                    forall|j: int|
                        0 <= j < hook_to_end@.len() ==> (#[trigger] hook_to_end@[j]).end as int
                            == mm_end(len, min as int + j),
                    nfa_view(nfa@) == sp_mm_hooks(base, len, min as int, h as int, end as int),
                decreases hook_to_end@.len() - h,
            {
                let hk = hook_to_end[h];
                proof {
                    lemma_mm_chain_wf(mv, total);
                    assert(min as int + h <= total);
                    assert(base[mm_end(len, min as int + h)] is Epsilon);
                    assert(mm_end(len, min as int + h) < base.len());
                    assert forall|j: int|
                        0 <= j < h implies 0 <= #[trigger] mm_end(len, min as int + j)
                        < base.len() by {
                        assert(min as int + j <= total);
                    }
                    assert forall|j: int|
                        0 <= j < h implies base[#[trigger] mm_end(len, min as int + j)]
                        is Epsilon by {
                        assert(min as int + j <= total);
                    }
                    lemma_mm_hooks_wf(base, len, min as int, h as int, end as int);
                    assert(nfa_view(nfa@)[hk.end as int] is Epsilon);
                }
                add_epsilon_at(&mut nfa, hk.end, end);
                proof {
                    assert(nfa_view(nfa@) == sp_mm_hooks(
                        base,
                        len,
                        min as int,
                        h as int + 1,
                        end as int,
                    ));
                }
                h = h + 1;
            }
            proof {
                if (min as int) >= (max as int) {
                    assert(sp_mm_hooks(base, len, min as int, max as int - min as int,
                        end as int) == base);
                }
            }
        },
    }
    nfa
}

/// Lowers a syntax tree to its automaton.  Returns exactly what
/// [`spec_rast_to_nfa`] says; the result satisfies the invariants of
/// [`lemma_rast_to_nfa_wf`].
pub fn rast_to_nfa(rast: &RAST) -> (r: NFA)
    ensures
        nfa_view(r@) == spec_rast_to_nfa(*rast),
        nfa_wf(nfa_view(r@)),
    decreases *rast,
{
    proof {
        lemma_rast_to_nfa_wf(*rast);
    }
    match rast {
        RAST::Atomic(atomic) => {
            let mut v: NFA = Vec::new();
            let ts0: Vec<usize> = Vec::new();
            v.push(Transition::Character(*atomic, 1));
            v.push(Transition::Epsilon(ts0));
            proof {
                assert(ts0@.map_values(|t: usize| t as int) =~= Seq::<int>::empty());
                assert(nfa_view(v@) =~= sp_atomic(*atomic));
            }
            v
        },
        RAST::Binary(left, right, op) => {
            let ln = rast_to_nfa(left);
            let rn = rast_to_nfa(right);
            proof {
                lemma_rast_to_nfa_wf(**left);
                lemma_rast_to_nfa_wf(**right);
            }
            construct_binary_op(ln, rn, *op)
        },
        RAST::Unary(mid, op) => {
            let mn = rast_to_nfa(mid);
            proof {
                lemma_rast_to_nfa_wf(**mid);
            }
            construct_unary_op(mn, *op)
        },
    }
}

} // verus!
