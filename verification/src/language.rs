//! Languages of compiled patterns.
//!
//! The class law says that the alternation tree a character class lowers
//! to accepts exactly its member bytes as one-byte inputs.  Its proof
//! goes by induction on the member list: a two-node byte automaton
//! accepts exactly its byte, and an alternation wraps a byte automaton
//! around an inner class automaton, whose runs stay inside its relocated
//! index range until its accept node, from which the only move is to the
//! outer accept.  Symbolic runs of the scanner, simplifier and parser
//! then carry the law to whole patterns: `[lo-hi]` compiles to an
//! automaton for exactly that byte range, and an ordinary byte followed
//! by `?` to one for the empty input and that byte.

use vstd::prelude::*;

use crate::accept::accepts;
use crate::accept::is_run;
use crate::accept::lemma_atomic_language;
use crate::accept::step_ok;
use crate::nfa::TransitionView;
use crate::nfa::spec_rast_to_nfa;
use crate::parse::BinaryOperation;
use crate::parse::RAST;
use crate::parse::rev_tokens;
use crate::parse::sp_binary;
use crate::parse::sp_binary_prime;
use crate::parse::sp_group;
use crate::parse::sp_regex;
use crate::parse::sp_unary;
use crate::parse::sp_unary_prime;
use crate::parse::spec_parse;
use crate::scan::FirstTokenView;
use crate::scan::ascii_stack;
use crate::scan::members_below;
use crate::scan::range_set;
use crate::scan::spec_scan;
use crate::scan::spec_scan_stack;
use crate::scan::spec_scan_token;
use crate::scan::spec_digits;
use crate::scan::spec_num;
use crate::scan::spec_scan_times;
use crate::scan::spec_set;
use crate::simplify::Token;
use crate::simplify::alt_seq;
use crate::simplify::class_tokens;
use crate::simplify::lower_token;
use crate::simplify::needs_concat;
use crate::simplify::spec_concat;
use crate::simplify::spec_lower;
use crate::simplify::spec_simplify;

verus! {

proof fn lemma_map_add_contains(ts: Seq<int>, off: int, y: int)
    ensures
        ts.map_values(|x: int| x + off).contains(y) <==> ts.contains(y - off),
{
    let mts = ts.map_values(|x: int| x + off);
    if mts.contains(y) {
        let j = choose|j: int| 0 <= j < mts.len() && mts[j] == y;
        assert(ts[j] == y - off);
    }
    if ts.contains(y - off) {
        let j = choose|j: int| 0 <= j < ts.len() && ts[j] == y - off;
        assert(mts[j] == y);
    }
}

/// A class automaton for the byte set `s`: well-formed, a bare accept
/// node, and accepting exactly the one-byte inputs whose byte is in `s`.
#[verifier::opaque]
spec fn class_machine(m: Seq<TransitionView>, s: Set<u8>) -> bool {
    &&& crate::nfa::nfa_wf(m)
    &&& m.last() == TransitionView::Epsilon(Seq::<int>::empty())
    &&& forall|w: Seq<u8>| #[trigger] accepts(m, w) <==> (w.len() == 1 && s.contains(w[0]))
}

proof fn lemma_atomic_class(c: u8)
    ensures
        class_machine(spec_rast_to_nfa(RAST::Atomic(c)), Set::<u8>::empty().insert(c)),
{
    reveal(class_machine);
    crate::nfa::lemma_rast_to_nfa_wf(RAST::Atomic(c));
    let n = spec_rast_to_nfa(RAST::Atomic(c));
    assert forall|w: Seq<u8>| #[trigger] accepts(n, w) <==> (w.len() == 1
        && Set::<u8>::empty().insert(c).contains(w[0])) by {
        lemma_atomic_language(c, w);
        if w.len() == 1 && Set::<u8>::empty().insert(c).contains(w[0]) {
            assert(w =~= seq![c]);
        }
        if w == seq![c] {
            assert(w.len() == 1 && Set::<u8>::empty().insert(c).contains(w[0]));
        }
    }
}

/// The alternation of one byte and a class automaton, node by node: a
/// branching entry, the byte's two nodes, the inner automaton relocated
/// by 3 with its accept hooked to the new accept, and the new accept.
proof fn lemma_alternation_layout(c: u8, m: Seq<TransitionView>, s: Set<u8>)
    requires
        class_machine(m, s),
    ensures
        ({
            let cm = crate::nfa::sp_alternation_nfa(crate::nfa::sp_atomic(c), m);
            let ml = m.len() as int;
            let end = 3 + ml;
            &&& cm.len() == 4 + ml
            &&& cm[0] == TransitionView::Epsilon(Seq::<int>::empty().push(1).push(3))
            &&& cm[1] == TransitionView::Character(c, 2)
            &&& cm[2] == TransitionView::Epsilon(seq![end])
            &&& (forall|i: int|
                0 <= i < ml - 1 ==> cm[3 + i] == crate::nfa::reloc_view(#[trigger] m[i], 3))
            &&& cm[3 + ml - 1] == TransitionView::Epsilon(seq![end])
            &&& cm[end] == TransitionView::Epsilon(Seq::<int>::empty())
        }),
{
    reveal(class_machine);
    let atom = crate::nfa::sp_atomic(c);
    let ml = m.len() as int;
    let end = 3 + ml;
    let n0 = seq![TransitionView::Epsilon(Seq::<int>::empty())];
    let n1 = crate::nfa::sp_add_nfa(n0, atom);
    let n2 = crate::nfa::sp_add_nfa(n1, m);
    let n3 = n2.push(TransitionView::Epsilon(Seq::<int>::empty()));
    let n4 = crate::nfa::sp_add_epsilon(n3, 0, 1);
    let n5 = crate::nfa::sp_add_epsilon(n4, 0, 3);
    let n6 = crate::nfa::sp_add_epsilon(n5, 2, end);
    let n7 = crate::nfa::sp_add_epsilon(n6, 2 + ml, end);
    let cm = crate::nfa::sp_alternation_nfa(atom, m);
    assert(cm == n7);
    assert(n3[0] == TransitionView::Epsilon(Seq::<int>::empty()));
    assert(n4[0] == TransitionView::Epsilon(Seq::<int>::empty().push(1)));
    assert(n5[0] == TransitionView::Epsilon(Seq::<int>::empty().push(1).push(3)));
    assert(cm[0] == n5[0]);
    assert(n2[1] == crate::nfa::reloc_view(atom[0], 1));
    assert(cm[1] == n3[1]);
    assert(n2[2] == crate::nfa::reloc_view(atom[1], 1));
    assert(n5[2] == TransitionView::Epsilon(Seq::<int>::empty().map_values(|x: int| x + 1)));
    assert(n6[2] == TransitionView::Epsilon(
        Seq::<int>::empty().map_values(|x: int| x + 1).push(end),
    ));
    assert(Seq::<int>::empty().map_values(|x: int| x + 1).push(end) =~= seq![end]);
    assert(cm[2] == n6[2]);
    assert forall|i: int| 0 <= i < ml - 1 implies cm[3 + i] == crate::nfa::reloc_view(
        #[trigger] m[i],
        3,
    ) by {
        assert(n2[3 + i] == crate::nfa::reloc_view(m[i], 3));
        assert(cm[3 + i] == n3[3 + i]);
    }
    assert(n2[2 + ml] == crate::nfa::reloc_view(m[ml - 1], 3));
    assert(n6[2 + ml] == TransitionView::Epsilon(
        Seq::<int>::empty().map_values(|x: int| x + 3),
    ));
    assert(n7[2 + ml] == TransitionView::Epsilon(
        Seq::<int>::empty().map_values(|x: int| x + 3).push(end),
    ));
    assert(Seq::<int>::empty().map_values(|x: int| x + 3).push(end) =~= seq![end]);
    assert(cm[end] == n3[end]);
}

/// In the alternation automaton, a run that has branched into the inner
/// automaton stays inside its index range until its final move.
proof fn lemma_alt_run_region(
    c: u8,
    m: Seq<TransitionView>,
    s: Set<u8>,
    w: Seq<u8>,
    path: Seq<(int, int)>,
    k: int,
)
    requires
        class_machine(m, s),
        is_run(crate::nfa::sp_alternation_nfa(crate::nfa::sp_atomic(c), m), w, path),
        path.len() >= 2,
        path[1].0 == 3,
        1 <= k <= path.len() - 2,
    ensures
        3 <= path[k].0 < 3 + m.len(),
    decreases k,
{
    reveal(class_machine);
    let cm = crate::nfa::sp_alternation_nfa(crate::nfa::sp_atomic(c), m);
    let ml = m.len() as int;
    let end = 3 + ml;
    lemma_alternation_layout(c, m, s);
    if k > 1 {
        lemma_alt_run_region(c, m, s, w, path, k - 1);
        let mk = path[k - 1].0 - 3;
        assert(step_ok(cm, w, path[k - 1], path[k]));
        if mk == ml - 1 {
            assert(cm[3 + mk] == TransitionView::Epsilon(seq![end]));
            assert(seq![end].contains(path[k].0));
            let j = choose|j: int| 0 <= j < 1 && seq![end][j] == path[k].0;
            assert(path[k].0 == end);
            assert(step_ok(cm, w, path[k], path[k + 1]));
            assert(!Seq::<int>::empty().contains(path[k + 1].0));
        } else {
            assert(cm[3 + mk] == crate::nfa::reloc_view(m[mk], 3));
            match m[mk] {
                TransitionView::Epsilon(ts) => {
                    lemma_map_add_contains(ts, 3, path[k].0);
                    assert(ts.contains(path[k].0 - 3));
                    let j = choose|j: int| 0 <= j < ts.len() && ts[j] == path[k].0 - 3;
                    assert(crate::nfa::trans_targets(m[mk])[j] == path[k].0 - 3);
                    assert(0 <= path[k].0 - 3 < ml);
                },
                TransitionView::Character(b, t) => {
                    assert(crate::nfa::trans_targets(m[mk])[0] == t);
                    assert(0 <= t < ml);
                    assert(path[k].0 == t + 3);
                },
            }
        }
    }
}

proof fn lemma_alternation_class(c: u8, m: Seq<TransitionView>, s: Set<u8>)
    requires
        class_machine(m, s),
    ensures
        class_machine(
            crate::nfa::sp_alternation_nfa(crate::nfa::sp_atomic(c), m),
            s.insert(c),
        ),
{
    reveal(class_machine);
    let atom = crate::nfa::sp_atomic(c);
    let cm = crate::nfa::sp_alternation_nfa(atom, m);
    let ml = m.len() as int;
    let end = 3 + ml;
    assert(spec_rast_to_nfa(RAST::Atomic(c)) == atom);
    crate::nfa::lemma_rast_to_nfa_wf(RAST::Atomic(c));
    crate::nfa::lemma_alternation_wf(atom, m);
    lemma_alternation_layout(c, m, s);
    assert forall|w: Seq<u8>| #[trigger] accepts(cm, w) <==> (w.len() == 1
        && s.insert(c).contains(w[0])) by {
        if w.len() == 1 && s.insert(c).contains(w[0]) {
            if w[0] == c {
                let path = seq![(0int, 0int), (1int, 0int), (2int, 1int), (end, 1int)];
                assert(Seq::<int>::empty().push(1).push(3).contains(1int)) by {
                    assert(Seq::<int>::empty().push(1int).push(3int)[0] == 1int);
                }
                assert(seq![end].contains(end)) by {
                    assert(seq![end][0] == end);
                }
                assert(step_ok(cm, w, path[0], path[1]));
                assert(step_ok(cm, w, path[1], path[2]));
                assert(step_ok(cm, w, path[2], path[3]));
                assert(is_run(cm, w, path) && path.last() == (cm.len() - 1, w.len() as int));
                assert(accepts(cm, w));
            } else {
                assert(s.contains(w[0]));
                assert(accepts(m, w));
                let mpath = choose|p: Seq<(int, int)>|
                    is_run(m, w, p) && p.last() == (m.len() - 1, w.len() as int);
                assert forall|k: int| 0 <= k < mpath.len() - 1 implies mpath[k].0 != ml
                    - 1 by {
                    if mpath[k].0 == ml - 1 {
                        assert(step_ok(m, w, mpath[k], mpath[k + 1]));
                        assert(!Seq::<int>::empty().contains(mpath[k + 1].0));
                    }
                }
                let lifted = seq![(0int, 0int)] + mpath.map_values(
                    |pr: (int, int)| (pr.0 + 3, pr.1),
                ) + seq![(end, 1int)];
                assert(lifted.len() == mpath.len() + 2);
                assert(lifted[0] == (0int, 0int));
                assert forall|i: int|
                    0 <= i < lifted.len() - 1 implies step_ok(
                    cm,
                    w,
                    #[trigger] lifted[i],
                    lifted[i + 1],
                ) by {
                    if i == 0 {
                        assert(lifted[1] == (3int, 0int));
                        assert(Seq::<int>::empty().push(1).push(3).contains(3int)) by {
                            assert(Seq::<int>::empty().push(1int).push(3int)[1] == 3int);
                        }
                    } else if i < lifted.len() - 2 {
                        assert(lifted[i] == (mpath[i - 1].0 + 3, mpath[i - 1].1));
                        assert(lifted[i + 1] == (mpath[i].0 + 3, mpath[i].1));
                        assert(step_ok(m, w, mpath[i - 1], mpath[i]));
                        let mk = mpath[i - 1].0;
                        assert(mk != ml - 1);
                        assert(cm[3 + mk] == crate::nfa::reloc_view(m[mk], 3));
                        match m[mk] {
                            TransitionView::Epsilon(ts) => {
                                lemma_map_add_contains(ts, 3, mpath[i].0 + 3);
                            },
                            TransitionView::Character(b, t) => {
                            },
                        }
                    } else {
                        assert(i == lifted.len() - 2);
                        assert(mpath.last() == (ml - 1, 1int));
                        assert(lifted[i] == (3 + ml - 1, 1int));
                        assert(lifted[i + 1] == (end, 1int));
                        assert(cm[3 + ml - 1] == TransitionView::Epsilon(seq![end]));
                        assert(seq![end].contains(end)) by {
                            assert(seq![end][0] == end);
                        }
                    }
                }
                assert(is_run(cm, w, lifted) && lifted.last() == (
                    cm.len() - 1,
                    w.len() as int,
                ));
                assert(accepts(cm, w));
            }
        }
        if accepts(cm, w) {
            let path = choose|p: Seq<(int, int)>|
                is_run(cm, w, p) && p.last() == (cm.len() - 1, w.len() as int);
            assert(path.len() >= 2) by {
                assert(path.last().0 == end);
            }
            assert(step_ok(cm, w, path[0], path[1]));
            let hop = path[1].0;
            assert(Seq::<int>::empty().push(1).push(3).contains(hop));
            let hj = choose|j: int|
                0 <= j < 2 && Seq::<int>::empty().push(1int).push(3int)[j] == hop;
            assert(hop == 1 || hop == 3);
            assert(path[1].1 == 0);
            if hop == 1 {
                assert(path.len() >= 3) by {
                    assert(path.last().0 == end);
                }
                assert(step_ok(cm, w, path[1], path[2]));
                assert(path[2] == (2int, 1int) && w[0] == c);
                assert(path.len() >= 4) by {
                    assert(path.last().0 == end);
                }
                assert(step_ok(cm, w, path[2], path[3]));
                assert(seq![end].contains(path[3].0));
                let j2 = choose|j: int| 0 <= j < 1 && seq![end][j] == path[3].0;
                assert(path[3] == (end, 1int));
                assert(path.len() == 4) by {
                    if path.len() > 4 {
                        assert(step_ok(cm, w, path[3], path[4]));
                        assert(!Seq::<int>::empty().contains(path[4].0));
                    }
                }
                assert(w.len() == 1 && s.insert(c).contains(w[0]));
            } else {
                assert(path.len() >= 3) by {
                    assert(path.last().0 == end);
                }
                assert forall|k: int| 1 <= k <= path.len() - 2 implies 3 <= (
                #[trigger] path[k]).0 < 3 + ml by {
                    lemma_alt_run_region(c, m, s, w, path, k);
                }
                let last_in = path[path.len() - 2];
                assert(step_ok(cm, w, last_in, path[path.len() - 1]));
                let mk = last_in.0 - 3;
                assert(0 <= mk < ml);
                assert(mk == ml - 1) by {
                    if mk < ml - 1 {
                        assert(cm[3 + mk] == crate::nfa::reloc_view(m[mk], 3));
                        match m[mk] {
                            TransitionView::Epsilon(ts) => {
                                lemma_map_add_contains(ts, 3, end);
                                assert(ts.contains(end - 3));
                                let j = choose|j: int| 0 <= j < ts.len() && ts[j] == end - 3;
                                assert(crate::nfa::trans_targets(m[mk])[j] == ml);
                                assert(false);
                            },
                            TransitionView::Character(b, t) => {
                                assert(crate::nfa::trans_targets(m[mk])[0] == t);
                                assert(t + 3 < end);
                                assert(false);
                            },
                        }
                    }
                }
                assert(last_in == (3 + ml - 1, w.len() as int)) by {
                    assert(cm[3 + ml - 1] == TransitionView::Epsilon(seq![end]));
                }
                let proj = path.subrange(1, path.len() - 1).map_values(
                    |pr: (int, int)| (pr.0 - 3, pr.1),
                );
                assert(proj.len() == path.len() - 2);
                assert(proj[0] == (0int, 0int));
                assert forall|i: int|
                    0 <= i < proj.len() - 1 implies step_ok(
                    m,
                    w,
                    #[trigger] proj[i],
                    proj[i + 1],
                ) by {
                    assert(proj[i] == (path[1 + i].0 - 3, path[1 + i].1));
                    assert(proj[i + 1] == (path[2 + i].0 - 3, path[2 + i].1));
                    assert(step_ok(cm, w, path[1 + i], path[2 + i]));
                    let nk = path[1 + i].0 - 3;
                    assert(3 <= path[1 + i].0 < 3 + ml);
                    assert(3 <= path[2 + i].0 < 3 + ml);
                    assert(nk < ml - 1) by {
                        if nk == ml - 1 {
                            assert(cm[3 + nk] == TransitionView::Epsilon(seq![end]));
                            assert(seq![end].contains(path[2 + i].0));
                            let j = choose|j: int|
                                0 <= j < 1 && seq![end][j] == path[2 + i].0;
                            assert(path[2 + i].0 == end);
                        }
                    }
                    assert(cm[3 + nk] == crate::nfa::reloc_view(m[nk], 3));
                    match m[nk] {
                        TransitionView::Epsilon(ts) => {
                            lemma_map_add_contains(ts, 3, path[2 + i].0);
                        },
                        TransitionView::Character(b, t) => {
                        },
                    }
                }
                assert(is_run(m, w, proj));
                assert(proj.last() == (m.len() - 1, w.len() as int)) by {
                    assert(proj[proj.len() - 1] == (last_in.0 - 3, last_in.1));
                }
                assert(accepts(m, w));
                assert(w.len() == 1 && s.insert(c).contains(w[0]));
            }
        }
    }
}

/// The right-nested alternation tree of a nonempty list of bytes: the
/// tree a character class lowers to.
pub open spec fn class_rast(s: Seq<u8>) -> RAST
    decreases s.len(),
{
    if s.len() <= 1 {
        RAST::Atomic(s[0])
    } else {
        RAST::Binary(
            Box::new(RAST::Atomic(s[0])),
            Box::new(class_rast(s.drop_first())),
            crate::parse::BinaryOperation::Alternation,
        )
    }
}

proof fn lemma_class_machine(s: Seq<u8>)
    requires
        s.len() >= 1,
    ensures
        class_machine(spec_rast_to_nfa(class_rast(s)), s.to_set()),
    decreases s.len(),
{
    reveal(class_machine);
    if s.len() == 1 {
        lemma_atomic_class(s[0]);
        assert(Set::<u8>::empty().insert(s[0]) =~= s.to_set());
    } else {
        lemma_class_machine(s.drop_first());
        lemma_alternation_class(
            s[0],
            spec_rast_to_nfa(class_rast(s.drop_first())),
            s.drop_first().to_set(),
        );
        assert(spec_rast_to_nfa(RAST::Atomic(s[0])) == crate::nfa::sp_atomic(s[0]));
        assert(s.drop_first().to_set().insert(s[0]) =~= s.to_set()) by {
            assert forall|x: u8| s.to_set().contains(x) implies s.drop_first().to_set().insert(
                s[0],
            ).contains(x) by {
                let j = choose|j: int| 0 <= j < s.len() && s[j] == x;
                if j > 0 {
                    assert(s.drop_first()[j - 1] == x);
                }
            }
            assert forall|x: u8| s.drop_first().to_set().insert(s[0]).contains(
                x,
            ) implies s.to_set().contains(x) by {
                if x == s[0] {
                    assert(s.contains(x)) by {
                        assert(s[0] == x);
                    }
                } else {
                    let j = choose|j: int|
                        0 <= j < s.drop_first().len() && s.drop_first()[j] == x;
                    assert(s[j + 1] == x);
                }
            }
        }
    }
}

/// The language of a character class: the alternation tree of a nonempty
/// member list accepts exactly the one-byte inputs whose byte is a
/// member.
pub proof fn lemma_class_language(s: Seq<u8>, input: Seq<u8>)
    requires
        s.len() >= 1,
    ensures
        accepts(spec_rast_to_nfa(class_rast(s)), input) <==> (input.len() == 1 && s.contains(
            input[0],
        )),
{
    reveal(class_machine);
    lemma_class_machine(s);
    assert(accepts(spec_rast_to_nfa(class_rast(s)), input) <==> (input.len() == 1
        && s.to_set().contains(input[0])));
}



proof fn lemma_rev_alt_seq_cons(s: Seq<u8>)
    requires
        s.len() >= 2,
    ensures
        rev_tokens(alt_seq(s)) == rev_tokens(alt_seq(s.drop_first())) + seq![
            Token::Alternation,
            Token::Character(s[0]),
        ],
{
    assert(alt_seq(s) == seq![Token::Character(s[0]), Token::Alternation] + alt_seq(
        s.drop_first(),
    ));
    assert(rev_tokens(alt_seq(s)) =~= rev_tokens(alt_seq(s.drop_first())) + seq![
        Token::Alternation,
        Token::Character(s[0]),
    ]);
}

/// Parsing the tail of an alternation of single bytes: after an
/// `Alternation` token, the members fold into the right-nested tree.
proof fn lemma_parse_class_prime(b: Seq<Token>, s: Seq<u8>, f: nat)
    requires
        s.len() >= 1,
        b.len() >= 1,
        b.last() == Token::RParen,
        f >= b.len() + rev_tokens(alt_seq(s)).len() + 2,
    ensures
        sp_binary_prime(b + rev_tokens(alt_seq(s)) + seq![Token::Alternation], f) == Ok::<
            _,
            Seq<char>,
        >((Some((class_rast(s), BinaryOperation::Alternation)), b)),
    decreases s.len(),
{
    let st = b + rev_tokens(alt_seq(s)) + seq![Token::Alternation];
    assert(st.last() == Token::Alternation);
    assert(st.drop_last() =~= b + rev_tokens(alt_seq(s)));
    if s.len() == 1 {
        assert(alt_seq(s) == seq![Token::Character(s[0])]);
        assert(rev_tokens(alt_seq(s)) =~= seq![Token::Character(s[0])]);
        let st1 = b + rev_tokens(alt_seq(s));
        assert(st1.last() == Token::Character(s[0]));
        assert(st1.drop_last() =~= b);
        assert(sp_group(st1, f) == Ok::<_, Seq<char>>((RAST::Atomic(s[0]), b)));
        assert(sp_unary_prime(b) == (None::<crate::parse::UnaryOperation>, b));
        assert(sp_unary(st1, f) == Ok::<_, Seq<char>>((RAST::Atomic(s[0]), b)));
        assert(sp_binary_prime(b, (f - 1) as nat) == Ok::<_, Seq<char>>((
            None::<(RAST, BinaryOperation)>,
            b,
        )));
    } else {
        lemma_rev_alt_seq_cons(s);
        let rest = s.drop_first();
        let st1 = b + rev_tokens(alt_seq(s));
        assert(st1 =~= b + rev_tokens(alt_seq(rest)) + seq![
            Token::Alternation,
            Token::Character(s[0]),
        ]);
        assert(st1.last() == Token::Character(s[0]));
        let st2 = b + rev_tokens(alt_seq(rest)) + seq![Token::Alternation];
        assert(st1.drop_last() =~= st2);
        assert(sp_group(st1, f) == Ok::<_, Seq<char>>((RAST::Atomic(s[0]), st2)));
        assert(st2.last() == Token::Alternation);
        assert(sp_unary_prime(st2) == (None::<crate::parse::UnaryOperation>, st2));
        assert(sp_unary(st1, f) == Ok::<_, Seq<char>>((RAST::Atomic(s[0]), st2)));
        lemma_parse_class_prime(b, rest, (f - 1) as nat);
        assert(sp_binary_prime(st2, (f - 1) as nat) == Ok::<_, Seq<char>>((
            Some((class_rast(rest), BinaryOperation::Alternation)),
            b,
        )));
        assert(class_rast(s) == RAST::Binary(
            Box::new(RAST::Atomic(s[0])),
            Box::new(class_rast(rest)),
            BinaryOperation::Alternation,
        ));
    }
}

/// Parsing an alternation of single bytes up to a closing parenthesis
/// yields the right-nested tree of the members.
proof fn lemma_parse_class_binary(b: Seq<Token>, s: Seq<u8>, f: nat)
    requires
        s.len() >= 1,
        b.len() >= 1,
        b.last() == Token::RParen,
        f >= b.len() + rev_tokens(alt_seq(s)).len() + 1,
    ensures
        sp_binary(b + rev_tokens(alt_seq(s)), f) == Ok::<_, Seq<char>>((class_rast(s), b)),
{
    let st = b + rev_tokens(alt_seq(s));
    if s.len() == 1 {
        assert(alt_seq(s) == seq![Token::Character(s[0])]);
        assert(rev_tokens(alt_seq(s)) =~= seq![Token::Character(s[0])]);
        assert(st.last() == Token::Character(s[0]));
        assert(st.drop_last() =~= b);
        assert(sp_group(st, f) == Ok::<_, Seq<char>>((RAST::Atomic(s[0]), b)));
        assert(sp_unary_prime(b) == (None::<crate::parse::UnaryOperation>, b));
        assert(sp_unary(st, f) == Ok::<_, Seq<char>>((RAST::Atomic(s[0]), b)));
        assert(sp_binary_prime(b, (f - 1) as nat) == Ok::<_, Seq<char>>((
            None::<(RAST, BinaryOperation)>,
            b,
        )));
    } else {
        lemma_rev_alt_seq_cons(s);
        let rest = s.drop_first();
        let st2 = b + rev_tokens(alt_seq(rest)) + seq![Token::Alternation];
        assert(st =~= st2.push(Token::Character(s[0])));
        assert(st.last() == Token::Character(s[0]));
        assert(st.drop_last() =~= st2);
        assert(sp_group(st, f) == Ok::<_, Seq<char>>((RAST::Atomic(s[0]), st2)));
        assert(st2.last() == Token::Alternation);
        assert(sp_unary_prime(st2) == (None::<crate::parse::UnaryOperation>, st2));
        assert(sp_unary(st, f) == Ok::<_, Seq<char>>((RAST::Atomic(s[0]), st2)));
        lemma_parse_class_prime(b, rest, (f - 1) as nat);
        assert(sp_binary_prime(st2, (f - 1) as nat) == Ok::<_, Seq<char>>((
            Some((class_rast(rest), BinaryOperation::Alternation)),
            b,
        )));
        assert(class_rast(s) == RAST::Binary(
            Box::new(RAST::Atomic(s[0])),
            Box::new(class_rast(rest)),
            BinaryOperation::Alternation,
        ));
    }
}

/// Parsing a parenthesised alternation of single bytes consumes the whole
/// token sequence and yields the right-nested tree of the members.
pub proof fn lemma_parse_class(s: Seq<u8>)
    requires
        s.len() >= 1,
    ensures
        spec_parse(class_tokens(s)) == Ok::<RAST, Seq<char>>(class_rast(s)),
{
    let toks = class_tokens(s);
    let st = rev_tokens(toks);
    let f = (st.len() + 1) as nat;
    assert(st =~= seq![Token::RParen] + rev_tokens(alt_seq(s)) + seq![Token::LParen]);
    assert(st.last() == Token::LParen);
    let st1 = seq![Token::RParen] + rev_tokens(alt_seq(s));
    assert(st.drop_last() =~= st1);
    lemma_parse_class_binary(seq![Token::RParen], s, (f - 1) as nat);
    assert(sp_regex(st1, (f - 1) as nat) == sp_binary(st1, (f - 1) as nat));
    assert(sp_binary(st1, (f - 1) as nat) == Ok::<_, Seq<char>>((
        class_rast(s),
        seq![Token::RParen],
    )));
    assert(seq![Token::RParen].last() == Token::RParen);
    assert(seq![Token::RParen].drop_last() =~= Seq::<Token>::empty());
    assert(sp_group(st, f) == Ok::<_, Seq<char>>((class_rast(s), Seq::<Token>::empty())));
    assert(sp_unary_prime(Seq::<Token>::empty()) == (
        None::<crate::parse::UnaryOperation>,
        Seq::<Token>::empty(),
    ));
    assert(sp_unary(st, f) == Ok::<_, Seq<char>>((class_rast(s), Seq::<Token>::empty())));
    assert(sp_binary_prime(Seq::<Token>::empty(), (f - 1) as nat) == Ok::<_, Seq<char>>((
        None::<(RAST, BinaryOperation)>,
        Seq::<Token>::empty(),
    )));
    assert(sp_binary(st, f) == Ok::<_, Seq<char>>((class_rast(s), Seq::<Token>::empty())));
    assert(sp_regex(st, f) == sp_binary(st, f));
}


proof fn lemma_alt_seq_form(s: Seq<u8>)
    requires
        s.len() >= 1,
    ensures
        alt_seq(s).len() == 2 * s.len() - 1,
        forall|j: int|
            0 <= j < alt_seq(s).len() && j % 2 == 0 ==> #[trigger] alt_seq(s)[j]
                == Token::Character(s[j / 2]),
        forall|j: int|
            0 <= j < alt_seq(s).len() && j % 2 == 1 ==> #[trigger] alt_seq(s)[j]
                == Token::Alternation,
    decreases s.len(),
{
    if s.len() > 1 {
        lemma_alt_seq_form(s.drop_first());
        assert forall|j: int|
            0 <= j < alt_seq(s).len() && j % 2 == 0 implies #[trigger] alt_seq(s)[j]
            == Token::Character(s[j / 2]) by {
            if j >= 2 {
                assert(alt_seq(s)[j] == alt_seq(s.drop_first())[j - 2]);
                assert(s.drop_first()[(j - 2) / 2] == s[j / 2]);
            }
        }
        assert forall|j: int|
            0 <= j < alt_seq(s).len() && j % 2 == 1 implies #[trigger] alt_seq(s)[j]
            == Token::Alternation by {
            if j >= 2 {
                assert(alt_seq(s)[j] == alt_seq(s.drop_first())[j - 2]);
            }
        }
    }
}

proof fn lemma_concat_id(ts: Seq<Token>)
    requires
        forall|i: int| 0 <= i < ts.len() - 1 ==> !(#[trigger] needs_concat(ts[i], ts[i + 1])),
    ensures
        spec_concat(ts) == ts,
    decreases ts.len(),
{
    if ts.len() > 1 {
        assert forall|i: int|
            0 <= i < ts.drop_first().len() - 1 implies !(#[trigger] needs_concat(
            ts.drop_first()[i],
            ts.drop_first()[i + 1],
        )) by {
            assert(ts.drop_first()[i] == ts[i + 1]);
            assert(ts.drop_first()[i + 1] == ts[i + 2]);
            assert(!needs_concat(ts[i + 1], ts[i + 2]));
        }
        lemma_concat_id(ts.drop_first());
        assert(!needs_concat(ts[0], ts[1]));
        assert(seq![ts[0]] + ts.drop_first() =~= ts);
    }
}

/// The lowering pass turns a single class token into its parenthesised
/// alternation, and the concatenation pass leaves that alternation alone.
proof fn lemma_simplify_class(s: Seq<u8>)
    requires
        s.len() >= 1,
    ensures
        spec_simplify(seq![FirstTokenView::CharSet(s)]) == Ok::<Seq<Token>, Seq<char>>(
            class_tokens(s),
        ),
{
    let ts = seq![FirstTokenView::CharSet(s)];
    assert(lower_token(ts[0]) == Ok::<Seq<Token>, Seq<char>>(class_tokens(s)));
    assert(ts.drop_first() =~= Seq::<FirstTokenView>::empty());
    assert(spec_lower(Seq::<FirstTokenView>::empty()) == Ok::<Seq<Token>, Seq<char>>(
        Seq::empty(),
    ));
    assert(class_tokens(s) + Seq::<Token>::empty() =~= class_tokens(s));
    assert(spec_lower(ts) == Ok::<Seq<Token>, Seq<char>>(class_tokens(s)));
    lemma_alt_seq_form(s);
    let ct = class_tokens(s);
    let alen = alt_seq(s).len() as int;
    assert(ct.len() == alen + 2);
    assert forall|i: int| 0 <= i < ct.len() - 1 implies !(#[trigger] needs_concat(
        ct[i],
        ct[i + 1],
    )) by {
        if i == 0 {
            assert(ct[0] == Token::LParen);
        } else {
            assert(ct[i] == alt_seq(s)[i - 1]);
            if (i - 1) % 2 == 1 {
                assert(ct[i] == Token::Alternation);
            } else {
                assert(ct[i] == Token::Character(s[(i - 1) / 2]));
                if i + 1 == alen + 1 {
                    assert(ct[i + 1] == Token::RParen);
                } else {
                    assert(ct[i + 1] == alt_seq(s)[i]);
                    assert(i % 2 == 1);
                    assert(ct[i + 1] == Token::Alternation);
                }
            }
        }
    }
    lemma_concat_id(ct);
}

/// Membership in the ascending member list of a byte set.
proof fn lemma_members_below_contains(s: Set<u8>, n: int, x: u8)
    ensures
        members_below(s, n).contains(x) <==> (s.contains(x) && x < n),
    decreases n,
{
    if n > 0 {
        lemma_members_below_contains(s, n - 1, x);
        let prev = members_below(s, n - 1);
        if s.contains((n - 1) as u8) {
            let cur = prev.push((n - 1) as u8);
            assert(cur.contains(x) <==> (prev.contains(x) || x == (n - 1) as u8)) by {
                if cur.contains(x) {
                    let j = choose|j: int| 0 <= j < cur.len() && cur[j] == x;
                    if j < prev.len() {
                        assert(prev[j] == x);
                    }
                }
                if prev.contains(x) {
                    let j = choose|j: int| 0 <= j < prev.len() && prev[j] == x;
                    assert(cur[j] == x);
                }
                if x == (n - 1) as u8 {
                    assert(cur[prev.len() as int] == x);
                }
            }
        }
    }
}

/// The alternation tree of a member list passes the semantic check.
proof fn lemma_check_class(s: Seq<u8>)
    requires
        s.len() >= 1,
    ensures
        crate::spec_check(class_rast(s)) is Ok,
    decreases s.len(),
{
    reveal_with_fuel(crate::spec_check, 2);
    reveal_with_fuel(crate::spec_check_child, 2);
    if s.len() > 1 {
        lemma_check_class(s.drop_first());
    }
}

/// Scanning the pattern `[lo-hi]` yields one class token holding the
/// bytes of the range, ascending.  The bounds must not collide with the
/// bytes the class scanner treats specially (`\`, `]`, `^` first, and an
/// escape as the right endpoint).
proof fn lemma_scan_range(lo: u8, hi: u8)
    requires
        lo <= hi,
        hi < 128,
        hi != 92,
        lo != 92,
        lo != 93,
        lo != 94,
    ensures
        spec_scan(seq!['[', lo as char, '-', hi as char, ']']) == Ok::<
            Seq<FirstTokenView>,
            Seq<char>,
        >(seq![FirstTokenView::CharSet(members_below(range_set(lo, hi), 128))]),
{
    let p = seq!['[', lo as char, '-', hi as char, ']'];
    assert(vstd::utf8::is_ascii_chars(p)) by {
        assert forall|i: int| 0 <= i < p.len() implies '\0' <= #[trigger] p[i]
            <= '\u{7f}' by {
            if i == 1 {
                assert(p[1] == lo as char);
            } else if i == 3 {
                assert(p[3] == hi as char);
            }
        }
    }
    let st = ascii_stack(p);
    assert(st =~= seq![93u8, hi, 45u8, lo, 91u8]);
    let set_st = seq![93u8, hi, 45u8, lo];
    assert(st.last() == 91u8);
    assert(st.drop_last() =~= set_st);
    assert(spec_set(seq![93u8]) == Ok::<_, Seq<char>>((
        Set::<u8>::empty(),
        Seq::<u8>::empty(),
    ))) by {
        assert(seq![93u8].last() == 93u8);
        assert(seq![93u8].drop_last() =~= Seq::<u8>::empty());
    }
    assert(set_st.last() == lo);
    assert(set_st.drop_last() =~= seq![93u8, hi, 45u8]);
    assert(seq![93u8, hi, 45u8].last() == 45u8);
    assert(seq![93u8, hi, 45u8].drop_last() =~= seq![93u8, hi]);
    assert(seq![93u8, hi].last() == hi);
    assert(seq![93u8, hi].drop_last() =~= seq![93u8]);
    assert(Set::<u8>::empty().union(range_set(lo, hi)) =~= range_set(lo, hi));
    assert(spec_set(set_st) == Ok::<_, Seq<char>>((range_set(lo, hi), Seq::<u8>::empty())));
    assert(spec_scan_token(st) == Ok::<_, Seq<char>>(
        Some(
            (
                FirstTokenView::CharSet(members_below(range_set(lo, hi), 128)),
                Seq::<u8>::empty(),
            ),
        ),
    ));
    assert(spec_scan_stack(Seq::<u8>::empty()) == Ok::<_, Seq<char>>(
        Seq::<FirstTokenView>::empty(),
    ));
    assert(seq![FirstTokenView::CharSet(members_below(range_set(lo, hi), 128))]
        + Seq::<FirstTokenView>::empty() =~= seq![
        FirstTokenView::CharSet(members_below(range_set(lo, hi), 128)),
    ]);
    assert(p.len() != 0);
}

/// The whole pipeline on a range class: `[lo-hi]` compiles, and its
/// automaton accepts exactly the one-byte inputs between the bounds.  The
/// bounds must not collide with the bytes the class scanner treats
/// specially (`\`, `]`, `^` first, and an escape as the right endpoint).
pub proof fn lemma_range_pattern_language(lo: u8, hi: u8, input: Seq<u8>)
    requires
        lo <= hi,
        hi < 128,
        hi != 92,
        lo != 92,
        lo != 93,
        lo != 94,
    ensures
        crate::spec_get_nfa(seq!['[', lo as char, '-', hi as char, ']']) is Ok,
        accepts(
            crate::spec_get_nfa(seq!['[', lo as char, '-', hi as char, ']'])->Ok_0,
            input,
        ) <==> (input.len() == 1 && lo <= input[0] <= hi),
{
    let p = seq!['[', lo as char, '-', hi as char, ']'];
    lemma_scan_range(lo, hi);
    let members = members_below(range_set(lo, hi), 128);
    lemma_members_below_contains(range_set(lo, hi), 128, lo);
    assert(members.contains(lo));
    assert(members.len() >= 1) by {
        let j = choose|j: int| 0 <= j < members.len() && members[j] == lo;
    }
    lemma_simplify_class(members);
    lemma_parse_class(members);
    lemma_check_class(members);
    assert(crate::spec_get_rast(p) == Ok::<RAST, Seq<char>>(class_rast(members)));
    lemma_class_language(members, input);
    if input.len() == 1 {
        lemma_members_below_contains(range_set(lo, hi), 128, input[0]);
    }
}


/// Scanning the two-character pattern of an ordinary byte followed by
/// `?` yields the byte and the question token.
proof fn lemma_scan_question(c: u8)
    requires
        c < 128,
        c != 92,
        c != 124,
        c != 42,
        c != 63,
        c != 43,
        c != 40,
        c != 41,
        c != 123,
        c != 91,
        c != 46,
    ensures
        spec_scan(seq![c as char, '?']) == Ok::<Seq<FirstTokenView>, Seq<char>>(
            seq![FirstTokenView::Character(c), FirstTokenView::Question],
        ),
{
    let p = seq![c as char, '?'];
    assert(vstd::utf8::is_ascii_chars(p)) by {
        assert forall|i: int| 0 <= i < p.len() implies '\0' <= #[trigger] p[i]
            <= '\u{7f}' by {
            if i == 0 {
                assert(p[0] == c as char);
            }
        }
    }
    let st = ascii_stack(p);
    assert(st =~= seq![63u8, c]);
    assert(st.last() == c);
    assert(st.drop_last() =~= seq![63u8]);
    assert(spec_scan_token(st) == Ok::<_, Seq<char>>(
        Some((FirstTokenView::Character(c), seq![63u8])),
    ));
    assert(seq![63u8].last() == 63u8);
    assert(seq![63u8].drop_last() =~= Seq::<u8>::empty());
    assert(spec_scan_token(seq![63u8]) == Ok::<_, Seq<char>>(
        Some((FirstTokenView::Question, Seq::<u8>::empty())),
    ));
    assert(spec_scan_stack(Seq::<u8>::empty()) == Ok::<_, Seq<char>>(
        Seq::<FirstTokenView>::empty(),
    ));
    assert(seq![FirstTokenView::Question] + Seq::<FirstTokenView>::empty() =~= seq![
        FirstTokenView::Question,
    ]);
    assert(spec_scan_stack(seq![63u8]) == Ok::<_, Seq<char>>(seq![FirstTokenView::Question]));
    assert(seq![FirstTokenView::Character(c)] + seq![FirstTokenView::Question] =~= seq![
        FirstTokenView::Character(c),
        FirstTokenView::Question,
    ]);
    assert(p.len() != 0);
}

/// The whole pipeline on an optional byte: the two-character pattern of
/// an ordinary byte followed by `?` compiles, and its automaton accepts
/// exactly the empty input and that byte.
pub proof fn lemma_question_pattern_language(c: u8, input: Seq<u8>)
    requires
        c < 128,
        c != 92,
        c != 124,
        c != 42,
        c != 63,
        c != 43,
        c != 40,
        c != 41,
        c != 123,
        c != 91,
        c != 46,
    ensures
        crate::spec_get_nfa(seq![c as char, '?']) is Ok,
        accepts(crate::spec_get_nfa(seq![c as char, '?'])->Ok_0, input) <==> (input
            == Seq::<u8>::empty() || input == seq![c]),
{
    let p = seq![c as char, '?'];
    lemma_scan_question(c);
    let toks = seq![FirstTokenView::Character(c), FirstTokenView::Question];
    let lowered = seq![Token::Character(c), Token::Question];
    assert(spec_simplify(toks) == Ok::<Seq<Token>, Seq<char>>(lowered)) by {
        assert(lower_token(toks[0]) == Ok::<Seq<Token>, Seq<char>>(seq![Token::Character(c)]));
        assert(toks.drop_first() =~= seq![FirstTokenView::Question]);
        assert(lower_token(seq![FirstTokenView::Question][0]) == Ok::<Seq<Token>, Seq<char>>(
            seq![Token::Question],
        ));
        assert(seq![FirstTokenView::Question].drop_first() =~= Seq::<FirstTokenView>::empty());
        assert(spec_lower(Seq::<FirstTokenView>::empty()) == Ok::<Seq<Token>, Seq<char>>(
            Seq::empty(),
        ));
        assert(seq![Token::Question] + Seq::<Token>::empty() =~= seq![Token::Question]);
        assert(seq![Token::Character(c)] + seq![Token::Question] =~= lowered);
        assert(spec_lower(seq![FirstTokenView::Question]) == Ok::<Seq<Token>, Seq<char>>(
            seq![Token::Question],
        ));
        assert(spec_lower(toks) == Ok::<Seq<Token>, Seq<char>>(lowered));
        assert(lowered.drop_first() =~= seq![Token::Question]);
        assert(spec_concat(seq![Token::Question]) == seq![Token::Question]);
        assert(seq![lowered[0]] + seq![Token::Question] =~= lowered);
    }
    let tree = RAST::Unary(Box::new(RAST::Atomic(c)), crate::parse::UnaryOperation::Question);
    assert(spec_parse(lowered) == Ok::<RAST, Seq<char>>(tree)) by {
        reveal_with_fuel(crate::parse::sp_regex, 2);
        let st = rev_tokens(lowered);
        assert(st =~= seq![Token::Question, Token::Character(c)]);
        let f = (st.len() + 1) as nat;
        assert(st.last() == Token::Character(c));
        assert(st.drop_last() =~= seq![Token::Question]);
        assert(sp_group(st, f) == Ok::<_, Seq<char>>((RAST::Atomic(c), seq![Token::Question])));
        assert(seq![Token::Question].last() == Token::Question);
        assert(seq![Token::Question].drop_last() =~= Seq::<Token>::empty());
        assert(sp_unary_prime(seq![Token::Question]) == (
            Some(crate::parse::UnaryOperation::Question),
            Seq::<Token>::empty(),
        ));
        assert(sp_unary(st, f) == Ok::<_, Seq<char>>((tree, Seq::<Token>::empty())));
        assert(sp_binary_prime(Seq::<Token>::empty(), (f - 1) as nat) == Ok::<_, Seq<char>>((
            None::<(RAST, BinaryOperation)>,
            Seq::<Token>::empty(),
        )));
        assert(sp_binary(st, f) == Ok::<_, Seq<char>>((tree, Seq::<Token>::empty())));
        assert(sp_regex(st, f) == sp_binary(st, f));
    }
    assert(crate::spec_check(tree) is Ok) by {
        reveal_with_fuel(crate::spec_check, 2);
        reveal_with_fuel(crate::spec_check_child, 2);
        assert(crate::spec_check(RAST::Atomic(c)) == Ok::<crate::RegexType, Seq<char>>(
            crate::RegexType::Atomic,
        ));
        assert(crate::spec_check_child(RAST::Atomic(c)) == Ok::<crate::RegexType, Seq<char>>(
            crate::RegexType::Unary,
        ));
    }
    assert(spec_scan(p) == Ok::<Seq<FirstTokenView>, Seq<char>>(toks));
    assert(spec_simplify(toks) == Ok::<Seq<Token>, Seq<char>>(lowered));
    assert(spec_parse(lowered) == Ok::<RAST, Seq<char>>(tree));
    assert(crate::spec_get_rast(p) == Ok::<RAST, Seq<char>>(tree));
    crate::accept::lemma_question_language(c, input);
}


/// The decimal digit characters of `n`, most significant first.
pub open spec fn dec_chars(n: u8) -> Seq<char> {
    if n < 10 {
        seq![((48 + n) as u8) as char]
    } else if n < 100 {
        seq![((48 + n / 10) as u8) as char, ((48 + n % 10) as u8) as char]
    } else {
        seq![
            ((48 + n / 100) as u8) as char,
            ((48 + (n % 100) / 10) as u8) as char,
            ((48 + (n % 100) % 10) as u8) as char,
        ]
    }
}

/// The pattern text `a{n}`, with `n` written in decimal.
pub open spec fn times_pattern(n: u8) -> Seq<char> {
    seq!['a', '{'] + dec_chars(n) + seq!['}']
}

/// Scanning `a{n}` yields the byte token and the repetition token, for
/// any count that fits in a byte.
proof fn lemma_scan_times_pattern(n: u8)
    requires
        1 <= n,
    ensures
        spec_scan(times_pattern(n)) == Ok::<Seq<FirstTokenView>, Seq<char>>(
            seq![FirstTokenView::Character(97), FirstTokenView::Times(n)],
        ),
{
    let p = times_pattern(n);
    assert(vstd::utf8::is_ascii_chars(p)) by {
        assert forall|i: int| 0 <= i < p.len() implies '\0' <= #[trigger] p[i]
            <= '\u{7f}' by {
            if 2 <= i < 2 + dec_chars(n).len() {
                assert(p[i] == dec_chars(n)[i - 2]);
            }
        }
    }
    let st = ascii_stack(p);
    let numst = if n < 10 {
        seq![125u8, (48 + n) as u8]
    } else if n < 100 {
        seq![125u8, (48 + n % 10) as u8, (48 + n / 10) as u8]
    } else {
        seq![
            125u8,
            (48 + (n % 100) % 10) as u8,
            (48 + (n % 100) / 10) as u8,
            (48 + n / 100) as u8,
        ]
    };
    assert(st =~= numst + seq![123u8, 97u8]);
    assert(spec_digits(seq![125u8], n as int) == (n as int, seq![125u8]));
    assert(spec_digits(numst, 0) == (n as int, seq![125u8])) by {
        if n < 10 {
            assert(numst.drop_last() =~= seq![125u8]);
        } else if n < 100 {
            assert(seq![125u8, (48 + n % 10) as u8].drop_last() =~= seq![125u8]);
            assert((n as int) / 10 * 10 + (n as int) % 10 == n as int);
            assert(spec_digits(seq![125u8, (48 + n % 10) as u8], (n as int) / 10) == (
                n as int,
                seq![125u8],
            ));
            assert(numst.drop_last() =~= seq![125u8, (48 + n % 10) as u8]);
        } else {
            let low = seq![125u8, (48 + (n % 100) % 10) as u8];
            let mid = seq![125u8, (48 + (n % 100) % 10) as u8, (48 + (n % 100) / 10) as u8];
            assert(low.drop_last() =~= seq![125u8]);
            assert((n as int) / 100 * 100 + (n as int) % 100 == n as int);
            assert(((n as int) % 100) / 10 * 10 + ((n as int) % 100) % 10 == (n as int)
                % 100);
            assert(((n as int) / 100 * 10 + ((n as int) % 100) / 10) * 10 + ((n as int) % 100)
                % 10 == n as int);
            assert(spec_digits(low, (n as int) / 100 * 10 + ((n as int) % 100) / 10) == (
                n as int,
                seq![125u8],
            ));
            assert(mid.drop_last() =~= low);
            assert(spec_digits(mid, (n as int) / 100) == (n as int, seq![125u8]));
            assert(numst.drop_last() =~= mid);
        }
    }
    assert(spec_num(numst) == Ok::<(u8, Seq<u8>), Seq<char>>((n, seq![125u8])));
    assert(seq![125u8].last() == 125u8);
    assert(seq![125u8].drop_last() =~= Seq::<u8>::empty());
    assert(spec_scan_times(numst) == Ok::<_, Seq<char>>(
        Some((FirstTokenView::Times(n), Seq::<u8>::empty())),
    ));
    let st2 = numst + seq![123u8];
    assert(st.last() == 97u8);
    assert(st.drop_last() =~= st2);
    assert(spec_scan_token(st) == Ok::<_, Seq<char>>(
        Some((FirstTokenView::Character(97), st2)),
    ));
    assert(st2.last() == 123u8);
    assert(st2.drop_last() =~= numst);
    assert(spec_scan_token(st2) == Ok::<_, Seq<char>>(
        Some((FirstTokenView::Times(n), Seq::<u8>::empty())),
    ));
    assert(spec_scan_stack(Seq::<u8>::empty()) == Ok::<_, Seq<char>>(
        Seq::<FirstTokenView>::empty(),
    ));
    assert(seq![FirstTokenView::Times(n)] + Seq::<FirstTokenView>::empty() =~= seq![
        FirstTokenView::Times(n),
    ]);
    assert(spec_scan_stack(st2) == Ok::<_, Seq<char>>(seq![FirstTokenView::Times(n)]));
    assert(seq![FirstTokenView::Character(97)] + seq![FirstTokenView::Times(n)] =~= seq![
        FirstTokenView::Character(97),
        FirstTokenView::Times(n),
    ]);
    assert(spec_scan_stack(st) == Ok::<_, Seq<char>>(seq![
        FirstTokenView::Character(97),
        FirstTokenView::Times(n),
    ]));
    assert(p.len() != 0);
}

/// The whole pipeline on `a{n}` for any count `1 <= n <= 255` in decimal:
/// the pattern compiles, the automaton has exactly `2 n` transitions, and
/// it accepts exactly the input of `n` copies of the byte `a`.
pub proof fn lemma_times_pattern_language(n: u8, input: Seq<u8>)
    requires
        1 <= n,
    ensures
        crate::spec_get_nfa(times_pattern(n)) is Ok,
        crate::spec_get_nfa(times_pattern(n))->Ok_0.len() == 2 * n,
        accepts(crate::spec_get_nfa(times_pattern(n))->Ok_0, input) <==> input == Seq::new(
            n as nat,
            |i: int| 97u8,
        ),
{
    let p = times_pattern(n);
    lemma_scan_times_pattern(n);
    let toks = seq![FirstTokenView::Character(97), FirstTokenView::Times(n)];
    let lowered = seq![Token::Character(97), Token::Times(n)];
    assert(spec_simplify(toks) == Ok::<Seq<Token>, Seq<char>>(lowered)) by {
        assert(lower_token(toks[0]) == Ok::<Seq<Token>, Seq<char>>(
            seq![Token::Character(97)],
        ));
        assert(toks.drop_first() =~= seq![FirstTokenView::Times(n)]);
        assert(lower_token(seq![FirstTokenView::Times(n)][0]) == Ok::<Seq<Token>, Seq<char>>(
            seq![Token::Times(n)],
        ));
        assert(seq![FirstTokenView::Times(n)].drop_first() =~= Seq::<FirstTokenView>::empty());
        assert(spec_lower(Seq::<FirstTokenView>::empty()) == Ok::<Seq<Token>, Seq<char>>(
            Seq::empty(),
        ));
        assert(seq![Token::Times(n)] + Seq::<Token>::empty() =~= seq![Token::Times(n)]);
        assert(seq![Token::Character(97)] + seq![Token::Times(n)] =~= lowered);
        assert(spec_lower(seq![FirstTokenView::Times(n)]) == Ok::<Seq<Token>, Seq<char>>(
            seq![Token::Times(n)],
        ));
        assert(spec_lower(toks) == Ok::<Seq<Token>, Seq<char>>(lowered));
        assert(lowered.drop_first() =~= seq![Token::Times(n)]);
        assert(spec_concat(seq![Token::Times(n)]) == seq![Token::Times(n)]);
        assert(seq![lowered[0]] + seq![Token::Times(n)] =~= lowered);
    }
    let tree = RAST::Unary(Box::new(RAST::Atomic(97)), crate::parse::UnaryOperation::Times(n));
    assert(spec_parse(lowered) == Ok::<RAST, Seq<char>>(tree)) by {
        reveal_with_fuel(crate::parse::sp_regex, 2);
        let st = rev_tokens(lowered);
        assert(st =~= seq![Token::Times(n), Token::Character(97)]);
        let f = (st.len() + 1) as nat;
        assert(st.last() == Token::Character(97));
        assert(st.drop_last() =~= seq![Token::Times(n)]);
        assert(sp_group(st, f) == Ok::<_, Seq<char>>((
            RAST::Atomic(97),
            seq![Token::Times(n)],
        )));
        assert(seq![Token::Times(n)].last() == Token::Times(n));
        assert(seq![Token::Times(n)].drop_last() =~= Seq::<Token>::empty());
        assert(sp_unary_prime(seq![Token::Times(n)]) == (
            Some(crate::parse::UnaryOperation::Times(n)),
            Seq::<Token>::empty(),
        ));
        assert(sp_unary(st, f) == Ok::<_, Seq<char>>((tree, Seq::<Token>::empty())));
        assert(sp_binary_prime(Seq::<Token>::empty(), (f - 1) as nat) == Ok::<_, Seq<char>>((
            None::<(RAST, BinaryOperation)>,
            Seq::<Token>::empty(),
        )));
        assert(sp_binary(st, f) == Ok::<_, Seq<char>>((tree, Seq::<Token>::empty())));
        assert(sp_regex(st, f) == sp_binary(st, f));
    }
    assert(crate::spec_check(tree) is Ok) by {
        reveal_with_fuel(crate::spec_check, 2);
        reveal_with_fuel(crate::spec_check_child, 2);
        assert(crate::spec_check(RAST::Atomic(97)) == Ok::<crate::RegexType, Seq<char>>(
            crate::RegexType::Atomic,
        ));
        assert(crate::spec_check_child(RAST::Atomic(97)) == Ok::<crate::RegexType, Seq<char>>(
            crate::RegexType::Unary,
        ));
    }
    assert(crate::spec_get_rast(p) == Ok::<RAST, Seq<char>>(tree));
    crate::nfa::lemma_times_size(97, n);
    crate::accept::lemma_times_language(97, n, input);
}

} // verus!
