//! Acceptance semantics of an automaton, and the language of an optional
//! byte.
//!
//! A run is a sequence of node/position pairs that starts at the entry
//! with nothing consumed and follows one transition per step; the
//! automaton accepts an input when some run ends at the accept node with
//! the whole input consumed.  Epsilon cycles make runs of unbounded
//! length possible, so acceptance is stated as the existence of a run
//! rather than by recursion over the automaton.

use vstd::prelude::*;

use crate::nfa::TransitionView;
use crate::nfa::spec_rast_to_nfa;
use crate::parse::RAST;
use crate::parse::UnaryOperation;

verus! {

/// One legal move: from node `from.0` with `from.1` bytes consumed to
/// node `to.0` with `to.1` consumed.  An epsilon node moves to any of its
/// targets without consuming; a byte node consumes exactly its byte.
pub open spec fn step_ok(
    n: Seq<TransitionView>,
    input: Seq<u8>,
    from: (int, int),
    to: (int, int),
) -> bool {
    &&& 0 <= from.0 < n.len()
    &&& match n[from.0] {
        TransitionView::Epsilon(ts) => ts.contains(to.0) && to.1 == from.1,
        TransitionView::Character(b, t) => to.0 == t && 0 <= from.1 < input.len()
            && input[from.1] == b && to.1 == from.1 + 1,
    }
}

/// A run over `input`: nonempty, starting at the entry node with nothing
/// consumed, every consecutive pair a legal move.
pub open spec fn is_run(n: Seq<TransitionView>, input: Seq<u8>, path: Seq<(int, int)>) -> bool {
    &&& path.len() >= 1
    &&& path.first() == (0int, 0int)
    &&& forall|i: int|
        0 <= i < path.len() - 1 ==> step_ok(n, input, #[trigger] path[i], path[i + 1])
}

/// The automaton accepts `input` when some run reaches the accept node
/// (the last one) having consumed the whole input.
pub open spec fn accepts(n: Seq<TransitionView>, input: Seq<u8>) -> bool {
    exists|path: Seq<(int, int)>|
        #[trigger] is_run(n, input, path) && path.last() == (n.len() - 1, input.len() as int)
}

/// The language of a single byte: its two-node automaton accepts exactly
/// the one-byte input `c`.
pub proof fn lemma_atomic_language(c: u8, input: Seq<u8>)
    ensures
        accepts(spec_rast_to_nfa(RAST::Atomic(c)), input) <==> input == seq![c],
{
    let n = spec_rast_to_nfa(RAST::Atomic(c));
    assert(n =~= crate::nfa::sp_atomic(c));
    if input == seq![c] {
        let path = seq![(0int, 0int), (1int, 1int)];
        assert(step_ok(n, input, path[0], path[1]));
        assert(is_run(n, input, path) && path.last() == (n.len() - 1, input.len() as int));
    }
    if accepts(n, input) {
        let path = choose|path: Seq<(int, int)>|
            is_run(n, input, path) && path.last() == (n.len() - 1, input.len() as int);
        assert(path.len() >= 2) by {
            assert(path.last().0 == 1);
        }
        assert(step_ok(n, input, path[0], path[1]));
        assert(path[1] == (1int, 1int) && input[0] == c);
        assert(path.len() == 2) by {
            if path.len() > 2 {
                assert(step_ok(n, input, path[1], path[2]));
                assert(!Seq::<int>::empty().contains(path[2].0));
            }
        }
        assert(input.len() == 1);
        assert(input =~= seq![c]);
    }
}

/// Node `i` of the automaton of a byte repeated `n` times: byte moves at
/// even indices, chaining epsilon nodes at odd ones, the accept node at
/// the end.
spec fn times_node(c: u8, n: int, i: int) -> TransitionView {
    if i == 2 * n - 1 {
        TransitionView::Epsilon(Seq::empty())
    } else if i % 2 == 0 {
        TransitionView::Character(c, i + 1)
    } else {
        TransitionView::Epsilon(seq![i + 1])
    }
}

/// The automaton of a byte repeated `n` times, spelled out node by node.
spec fn times_machine(c: u8, n: int) -> Seq<TransitionView> {
    Seq::new((2 * n) as nat, |i: int| times_node(c, n, i))
}

proof fn lemma_times_shape(c: u8, n: int)
    requires
        n >= 1,
    ensures
        crate::nfa::sp_times_chain(crate::nfa::sp_atomic(c), n) == times_machine(c, n),
    decreases n,
{
    let atom = crate::nfa::sp_atomic(c);
    if n == 1 {
        crate::nfa::lemma_add_nfa_empty(atom);
        assert(crate::nfa::sp_times_chain(atom, 1) =~= times_machine(c, 1));
    } else {
        lemma_times_shape(c, n - 1);
        let prev = times_machine(c, n - 1);
        let added = crate::nfa::sp_add_nfa(prev, atom);
        assert(added.len() == 2 * n);
        assert(added[2 * n - 2] == crate::nfa::reloc_view(atom[0], 2 * n - 2));
        assert(added[2 * n - 1] == crate::nfa::reloc_view(atom[1], 2 * n - 2));
        assert(added[2 * n - 3] == prev[2 * n - 3]);
        assert(prev[2 * n - 3] == TransitionView::Epsilon(Seq::<int>::empty()));
        let res = crate::nfa::sp_add_epsilon(added, 2 * n - 3, 2 * n - 2);
        assert(crate::nfa::sp_times_chain(atom, n) == res);
        assert forall|i: int| 0 <= i < 2 * n implies res[i] == times_node(c, n, i) by {
            if i == 2 * n - 3 {
                assert(res[i] == TransitionView::Epsilon(Seq::<int>::empty().push(2 * n - 2)));
                assert(Seq::<int>::empty().push(2 * n - 2) =~= seq![i + 1]);
            } else if i < 2 * n - 3 {
                assert(res[i] == prev[i]);
            } else if i == 2 * n - 2 {
                assert(res[i] == crate::nfa::reloc_view(atom[0], 2 * n - 2));
                assert((2 * n - 2) % 2 == 0);
            } else {
                assert(res[i] == crate::nfa::reloc_view(atom[1], 2 * n - 2));
                assert(Seq::<int>::empty().map_values(|x: int| x + (2 * n - 2))
                    =~= Seq::<int>::empty());
            }
        }
        assert(res =~= times_machine(c, n));
    }
}

/// In the repeated-byte machine every run is forced: the `k`-th entry of
/// any run sits at node `k` having consumed `(k + 1) / 2` bytes, and only
/// the accept node can end a run.
proof fn lemma_times_run_forced(c: u8, n: int, input: Seq<u8>, path: Seq<(int, int)>, k: int)
    requires
        n >= 1,
        is_run(times_machine(c, n), input, path),
        0 <= k < path.len(),
    ensures
        path[k] == (k, (k + 1) / 2),
        k < path.len() - 1 ==> k < 2 * n - 1,
    decreases k,
{
    let m = times_machine(c, n);
    if k == 0 {
        if 0 < path.len() - 1 {
            assert(step_ok(m, input, path[0], path[1]));
        }
    } else {
        lemma_times_run_forced(c, n, input, path, k - 1);
        assert(step_ok(m, input, path[k - 1], path[k]));
        assert(m[k - 1] == times_node(c, n, k - 1));
        if (k - 1) % 2 == 0 {
            assert(m[k - 1] == TransitionView::Character(c, k));
            assert(path[k] == (k, (k + 1) / 2));
        } else {
            assert(m[k - 1] == TransitionView::Epsilon(seq![k]));
            assert(seq![k].contains(path[k].0));
            let j = choose|j: int| 0 <= j < seq![k].len() && seq![k][j] == path[k].0;
            assert(path[k] == (k, (k + 1) / 2));
        }
        if k < path.len() - 1 {
            assert(step_ok(m, input, path[k], path[k + 1]));
            if k == 2 * n - 1 {
                assert(m[k] == TransitionView::Epsilon(Seq::<int>::empty()));
                assert(!Seq::<int>::empty().contains(path[k + 1].0));
            }
        }
    }
}

/// The language of `c{n}`: the automaton of a byte repeated `n` times
/// (`n >= 1`) accepts exactly the input of `n` copies of that byte.
pub proof fn lemma_times_language(c: u8, n: u8, input: Seq<u8>)
    requires
        n >= 1,
    ensures
        accepts(
            spec_rast_to_nfa(RAST::Unary(Box::new(RAST::Atomic(c)), UnaryOperation::Times(n))),
            input,
        ) <==> input == Seq::new(n as nat, |i: int| c),
{
    let nn = n as int;
    assert(spec_rast_to_nfa(RAST::Atomic(c)) == crate::nfa::sp_atomic(c));
    lemma_times_shape(c, nn);
    let m = times_machine(c, nn);
    assert(spec_rast_to_nfa(RAST::Unary(Box::new(RAST::Atomic(c)), UnaryOperation::Times(n)))
        == m);
    if input == Seq::new(n as nat, |i: int| c) {
        let path = Seq::new((2 * nn) as nat, |k: int| (k, (k + 1) / 2));
        assert forall|i: int|
            0 <= i < path.len() - 1 implies step_ok(m, input, #[trigger] path[i], path[i + 1]) by {
            if i % 2 == 0 {
                assert(m[i] == TransitionView::Character(c, i + 1));
                assert(input[i / 2] == c);
            } else {
                assert(m[i] == TransitionView::Epsilon(seq![i + 1]));
                assert(seq![i + 1].contains(path[i + 1].0)) by {
                    assert(seq![i + 1][0] == i + 1);
                }
            }
        }
        assert(is_run(m, input, path));
        assert(path.last() == (m.len() - 1, input.len() as int));
    }
    if accepts(m, input) {
        let path = choose|path: Seq<(int, int)>|
            is_run(m, input, path) && path.last() == (m.len() - 1, input.len() as int);
        lemma_times_run_forced(c, nn, input, path, path.len() - 1);
        assert(path.len() - 1 == 2 * nn - 1);
        assert(input.len() == nn);
        assert forall|p: int| 0 <= p < nn implies input[p] == c by {
            lemma_times_run_forced(c, nn, input, path, 2 * p);
            assert(step_ok(m, input, path[2 * p], path[2 * p + 1]));
            assert(m[2 * p] == TransitionView::Character(c, 2 * p + 1));
            assert(path[2 * p].1 == p);
        }
        assert(input =~= Seq::new(n as nat, |i: int| c));
    }
}

/// The automaton of an optional byte, spelled out node by node.
proof fn lemma_question_shape(c: u8)
    ensures
        spec_rast_to_nfa(RAST::Unary(Box::new(RAST::Atomic(c)), UnaryOperation::Question))
            =~~= seq![
            TransitionView::Epsilon(seq![1int, 3int]),
            TransitionView::Character(c, 2),
            TransitionView::Epsilon(seq![3int]),
            TransitionView::Epsilon(Seq::<int>::empty()),
        ],
{
    let atom = crate::nfa::sp_atomic(c);
    assert(spec_rast_to_nfa(RAST::Atomic(c)) == atom);
    let n0 = seq![TransitionView::Epsilon(Seq::<int>::empty())];
    let n1 = crate::nfa::sp_add_nfa(n0, atom);
    assert(n1[1] == crate::nfa::reloc_view(atom[0], 1));
    assert(n1[2] == crate::nfa::reloc_view(atom[1], 1));
    assert(n1 =~= seq![
        TransitionView::Epsilon(Seq::<int>::empty()),
        TransitionView::Character(c, 2),
        TransitionView::Epsilon(Seq::<int>::empty().map_values(|x: int| x + 1)),
    ]);
    assert(Seq::<int>::empty().map_values(|x: int| x + 1) =~= Seq::<int>::empty());
    let n2 = n1.push(TransitionView::Epsilon(Seq::<int>::empty()));
    let n3 = crate::nfa::sp_add_epsilon(n2, 0, 1);
    assert(n2[0] is Epsilon);
    assert(n3 =~~= seq![
        TransitionView::Epsilon(seq![1int]),
        TransitionView::Character(c, 2),
        TransitionView::Epsilon(Seq::<int>::empty()),
        TransitionView::Epsilon(Seq::<int>::empty()),
    ]);
    let n4 = crate::nfa::sp_add_epsilon(n3, 0, 3);
    assert(n3[0] is Epsilon);
    assert(n4 =~~= seq![
        TransitionView::Epsilon(seq![1int, 3int]),
        TransitionView::Character(c, 2),
        TransitionView::Epsilon(Seq::<int>::empty()),
        TransitionView::Epsilon(Seq::<int>::empty()),
    ]);
    let n5 = crate::nfa::sp_add_epsilon(n4, 2, 3);
    assert(n4[2] is Epsilon);
    assert(n5 =~~= seq![
        TransitionView::Epsilon(seq![1int, 3int]),
        TransitionView::Character(c, 2),
        TransitionView::Epsilon(seq![3int]),
        TransitionView::Epsilon(Seq::<int>::empty()),
    ]);
}

/// The language of `c?`: the automaton of an optional byte accepts
/// exactly the empty input and the one-byte input `c`.
pub proof fn lemma_question_language(c: u8, input: Seq<u8>)
    ensures
        accepts(
            spec_rast_to_nfa(RAST::Unary(Box::new(RAST::Atomic(c)), UnaryOperation::Question)),
            input,
        ) <==> (input == Seq::<u8>::empty() || input == seq![c]),
{
    lemma_question_shape(c);
    let n = spec_rast_to_nfa(RAST::Unary(Box::new(RAST::Atomic(c)), UnaryOperation::Question));
    assert(n.len() == 4);
    if input == Seq::<u8>::empty() {
        let path = seq![(0int, 0int), (3int, 0int)];
        assert(seq![1int, 3int].contains(3int)) by {
            assert(seq![1int, 3int][1] == 3int);
        }
        assert(step_ok(n, input, path[0], path[1]));
        assert(is_run(n, input, path) && path.last() == (n.len() - 1, input.len() as int));
    }
    if input == seq![c] {
        let path = seq![(0int, 0int), (1int, 0int), (2int, 1int), (3int, 1int)];
        assert(seq![1int, 3int].contains(1int)) by {
            assert(seq![1int, 3int][0] == 1int);
        }
        assert(seq![3int].contains(3int)) by {
            assert(seq![3int][0] == 3int);
        }
        assert(step_ok(n, input, path[0], path[1]));
        assert(step_ok(n, input, path[1], path[2]));
        assert(step_ok(n, input, path[2], path[3]));
        assert(is_run(n, input, path) && path.last() == (n.len() - 1, input.len() as int));
    }
    if accepts(n, input) {
        let path = choose|path: Seq<(int, int)>|
            is_run(n, input, path) && path.last() == (n.len() - 1, input.len() as int);
        assert(path.first() == (0int, 0int));
        assert(path.len() >= 2) by {
            assert(path.last().0 == 3);
        }
        assert(step_ok(n, input, path[0], path[1]));
        let hop = path[1];
        assert(seq![1int, 3int].contains(hop.0) && hop.1 == 0);
        let j = choose|j: int| 0 <= j < seq![1int, 3int].len() && seq![1int, 3int][j] == hop.0;
        assert(hop.0 == 1 || hop.0 == 3);
        if hop.0 == 3 {
            assert(path.len() == 2) by {
                if path.len() > 2 {
                    assert(step_ok(n, input, path[1], path[2]));
                    assert(!Seq::<int>::empty().contains(path[2].0));
                }
            }
            assert(path.last() == (3int, 0int));
            assert(input.len() == 0);
            assert(input =~= Seq::<u8>::empty());
        } else {
            assert(path.len() >= 3) by {
                assert(path.last().0 == 3);
            }
            assert(step_ok(n, input, path[1], path[2]));
            assert(path[2] == (2int, 1int) && input[0] == c);
            assert(path.len() >= 4) by {
                assert(path.last().0 == 3);
            }
            assert(step_ok(n, input, path[2], path[3]));
            assert(seq![3int].contains(path[3].0));
            let j3 = choose|j: int| 0 <= j < seq![3int].len() && seq![3int][j] == path[3].0;
            assert(path[3] == (3int, 1int));
            assert(path.len() == 4) by {
                if path.len() > 4 {
                    assert(step_ok(n, input, path[3], path[4]));
                    assert(!Seq::<int>::empty().contains(path[4].0));
                }
            }
            assert(path.last() == (3int, 1int));
            assert(input.len() == 1);
            assert(input =~= seq![c]);
        }
    }
}

} // verus!
