//! A small regular-expression compiler over ASCII bytes.
//!
//! A pattern string is turned into a nondeterministic finite automaton in
//! four passes: scanning ([`scan::scan`]), class and wildcard lowering with
//! explicit concatenation ([`simplify::simpilfy`]), recursive-descent parsing
//! ([`parse::parse`]) and Thompson construction ([`nfa::rast_to_nfa`]), with a
//! semantic check on the syntax tree in between.

use vstd::prelude::*;

pub mod accept;
pub mod language;
pub mod nfa;
pub mod parse;
pub mod scan;
pub mod simplify;

use crate::nfa::NFA;
use crate::nfa::TransitionView;
use crate::nfa::nfa_view;
use crate::nfa::nfa_wf;
use crate::nfa::spec_rast_to_nfa;
use crate::parse::RAST;
use crate::parse::UnaryOperation;

verus! {

/// Coarse classification of a syntax tree node, used by the semantic
/// check to spot adjacent unary operators.
pub enum RegexType {
    Binary,
    Unary,
    Atomic,
}

/// The semantic check of a unary node's child: it must pass itself and
/// must not be another unary node.
pub open spec fn spec_check_child(left: RAST) -> Result<RegexType, Seq<char>>
    decreases left, 2int,
{
    match spec_check(left) {
        Err(m) => Err(m),
        Ok(RegexType::Unary) => Err("Cannot have two unary operations in a row"@),
        Ok(_) => Ok(RegexType::Unary),
    }
}

/// The semantic check of a syntax tree: repetition bounds make sense
/// (`{n}` needs `n >= 1`, `{min,max}` needs `min < max`) and no two unary
/// operators are adjacent.
pub open spec fn spec_check(r: RAST) -> Result<RegexType, Seq<char>>
    decreases r, 1int,
{
    match r {
        RAST::Binary(left, right, _) => match spec_check(*left) {
            Err(m) => Err(m),
            Ok(_) => match spec_check(*right) {
                Err(m) => Err(m),
                Ok(_) => Ok(RegexType::Binary),
            },
        },
        RAST::Unary(left, op) => match op {
            UnaryOperation::MinMax(min, max) => if min >= max {
                Err("In {min,max} operator, min should be less than max"@)
            } else {
                spec_check_child(*left)
            },
            UnaryOperation::Times(times) => if times == 0 {
                Err("In {times} operator, times should be greater than zero"@)
            } else {
                spec_check_child(*left)
            },
            _ => spec_check_child(*left),
        },
        RAST::Atomic(_) => Ok(RegexType::Atomic),
    }
}

/// What compiling a pattern to a syntax tree yields: scan, simplify,
/// parse, then the semantic check.
pub open spec fn spec_get_rast(s: Seq<char>) -> Result<RAST, Seq<char>> {
    match scan::spec_scan(s) {
        Err(m) => Err(m),
        Ok(toks) => match simplify::spec_simplify(toks) {
            Err(m) => Err(m),
            Ok(t2) => match parse::spec_parse(t2) {
                Err(m) => Err(m),
                Ok(rast) => match spec_check(rast) {
                    Err(m) => Err(m),
                    Ok(_) => Ok(rast),
                },
            },
        },
    }
}

/// What compiling a pattern to an automaton yields.
pub open spec fn spec_get_nfa(s: Seq<char>) -> Result<Seq<TransitionView>, Seq<char>> {
    match spec_get_rast(s) {
        Err(m) => Err(m),
        Ok(rast) => Ok(spec_rast_to_nfa(rast)),
    }
}

fn check_rast(regex: &RAST) -> (r: Result<RegexType, Error>)
    ensures
        match spec_check(*regex) {
            Ok(t) => r matches Ok(t2) && t2 == t,
            Err(m) => r matches Err(e) && e@ == m,
        },
    decreases *regex,
{
    match regex {
        RAST::Binary(left, right, _) => {
            match check_rast(left) {
                Err(e) => {
                    return Err(e);
                },
                Ok(_) => {
                },
            }
            match check_rast(right) {
                Err(e) => {
                    return Err(e);
                },
                Ok(_) => {
                },
            }
            Ok(RegexType::Binary)
        },
        RAST::Unary(left, op) => {
            proof {
                reveal_with_fuel(spec_check, 2);
                reveal_with_fuel(spec_check_child, 2);
            }
            match op {
                UnaryOperation::MinMax(min, max) => {
                    if min >= max {
                        return Err(Error::new(
                            "In {min,max} operator, min should be less than max",
                        ));
                    }
                },
                UnaryOperation::Times(times) => {
                    if *times == 0 {
                        return Err(Error::new(
                            "In {times} operator, times should be greater than zero",
                        ));
                    }
                },
                _ => (),
            }
            let left_kind = match check_rast(left) {
                Err(e) => {
                    return Err(e);
                },
                Ok(t) => t,
            };
            match left_kind {
                RegexType::Unary => Err(Error::new("Cannot have two unary operations in a row")),
                _ => Ok(RegexType::Unary),
            }
        },
        RAST::Atomic(_) => Ok(RegexType::Atomic),
    }
}

/// Compiles a pattern to its syntax tree: scan, simplify, parse, semantic
/// check.  Returns exactly what [`spec_get_rast`] says: the tree of the
/// pattern, or the first error of the pipeline, with its message.
pub fn get_rast(regex: &str) -> (r: Result<RAST, Error>)
    ensures
        match spec_get_rast(regex@) {
            Ok(t) => r matches Ok(x) && x == t,
            Err(m) => r matches Err(e) && e@ == m,
        },
{
    let tokens = match scan::scan(regex) {
        Err(e) => {
            return Err(e);
        },
        Ok(t) => t,
    };
    let simple = match simplify::simpilfy(tokens.as_slice()) {
        Err(e) => {
            return Err(e);
        },
        Ok(t) => t,
    };
    let rast = match parse::parse(simple.as_slice()) {
        Err(e) => {
            return Err(e);
        },
        Ok(t) => t,
    };
    match check_rast(&rast) {
        Err(e) => {
            return Err(e);
        },
        Ok(_) => {
        },
    }
    Ok(*rast)
}

/// Compiles a pattern to its automaton.  Returns exactly what
/// [`spec_get_nfa`] says; on success the automaton is well-formed (see
/// [`lemma_get_nfa_wf`]).
pub fn get_nfa(regex: &str) -> (r: Result<NFA, Error>)
    ensures
        match spec_get_nfa(regex@) {
            Ok(n) => r matches Ok(v) && nfa_view(v@) == n && nfa_wf(n),
            Err(m) => r matches Err(e) && e@ == m,
        },
{
    let tokens = match scan::scan(regex) {
        Err(e) => {
            return Err(e);
        },
        Ok(t) => t,
    };
    let simple = match simplify::simpilfy(tokens.as_slice()) {
        Err(e) => {
            return Err(e);
        },
        Ok(t) => t,
    };
    let rast = match parse::parse(simple.as_slice()) {
        Err(e) => {
            return Err(e);
        },
        Ok(t) => t,
    };
    match check_rast(&rast) {
        Err(e) => {
            return Err(e);
        },
        Ok(_) => {
        },
    }
    Ok(nfa::rast_to_nfa(&rast))
}

/// Compilation is a pure function of the pattern text: two patterns with
/// the same characters have the same compilation outcome, tree and
/// automaton alike.  Together with the contracts of [`get_rast`] and
/// [`get_nfa`], whose results are pinned to these functions of the
/// pattern, any two runs on equal patterns return equal results.
pub proof fn lemma_compile_deterministic(p1: Seq<char>, p2: Seq<char>)
    requires
        p1 == p2,
    ensures
        spec_get_rast(p1) == spec_get_rast(p2),
        spec_get_nfa(p1) == spec_get_nfa(p2),
{
}

/// Every pattern that compiles yields a well-formed automaton: at least
/// two nodes, the entry at index 0 and the accept at the last index,
/// every index any transition mentions in bounds, the accept node an
/// epsilon node, and no byte transition to its own node.  The accept node
/// has no outgoing moves unless the pattern ends in a Kleene closure or
/// plus, whose construction puts a back edge on it.
pub proof fn lemma_get_nfa_wf(s: Seq<char>)
    ensures
        spec_get_nfa(s) matches Ok(n) ==> nfa_wf(n) && n.len() >= 2,
        (spec_get_rast(s) matches Ok(rast) && nfa::accept_empty(rast)) ==> spec_get_nfa(
            s,
        )->Ok_0.last() == TransitionView::Epsilon(Seq::<int>::empty()),
{
    if spec_get_nfa(s) is Ok {
        let rast = spec_get_rast(s)->Ok_0;
        nfa::lemma_rast_to_nfa_wf(rast);
        lemma_checked_nfa_len(rast);
    }
}

/// A syntax tree that passes the semantic check lowers to an automaton of
/// at least two nodes, so the entry and the accept are distinct.
proof fn lemma_checked_nfa_len(r: RAST)
    requires
        spec_check(r) is Ok,
    ensures
        spec_rast_to_nfa(r).len() >= 2,
    decreases r,
{
    match r {
        RAST::Atomic(b) => {
        },
        RAST::Binary(l, rr, op) => {
            lemma_checked_nfa_len(*l);
            lemma_checked_nfa_len(*rr);
            nfa::lemma_rast_to_nfa_wf(*l);
            nfa::lemma_rast_to_nfa_wf(*rr);
            match op {
                parse::BinaryOperation::Concat => {
                    nfa::lemma_concat_wf(spec_rast_to_nfa(*l), spec_rast_to_nfa(*rr));
                },
                parse::BinaryOperation::Alternation => {
                    nfa::lemma_alternation_wf(spec_rast_to_nfa(*l), spec_rast_to_nfa(*rr));
                },
            }
        },
        RAST::Unary(x, op) => {
            reveal_with_fuel(spec_check, 2);
            reveal_with_fuel(spec_check_child, 2);
            lemma_checked_nfa_len(*x);
            nfa::lemma_rast_to_nfa_wf(*x);
            let xn = spec_rast_to_nfa(*x);
            match op {
                UnaryOperation::KleenClosure => {
                    nfa::lemma_kleen_wf(xn);
                },
                UnaryOperation::Question => {
                    nfa::lemma_question_wf(xn);
                },
                UnaryOperation::Plus => {
                    nfa::lemma_plus_wf(xn);
                },
                UnaryOperation::Times(n) => {
                    nfa::lemma_times_chain_wf(xn, n as int);
                    assert(n >= 1);
                    assert((n as int) * xn.len() >= xn.len()) by (nonlinear_arith)
                        requires
                            n >= 1,
                            xn.len() >= 0,
                    ;
                },
                UnaryOperation::MinMax(min, max) => {
                    nfa::lemma_minmax_wf(xn, min as int, max as int);
                    assert(min < max);
                    assert((max as int) * xn.len() >= xn.len()) by (nonlinear_arith)
                        requires
                            max >= 1,
                            xn.len() >= 0,
                    ;
                },
            }
        },
    }
}

/// A compile error carrying a human-readable message.
#[derive(Debug)]
pub struct Error {
    message: String,
}

impl View for Error {
    type V = Seq<char>;

    closed spec fn view(&self) -> Seq<char> {
        self.message@
    }
}

impl Error {
    /// Builds a boxed error with the given message.
    pub fn new_box(message: &str) -> (e: Box<Error>)
        ensures
            e@ == message@,
    {
        Box::new(Error { message: message.to_owned() })
    }

    /// Builds an error with the given message.
    pub fn new(message: &str) -> (e: Error)
        ensures
            e@ == message@,
    {
        Error { message: message.to_owned() }
    }

    /// The human-readable message.
    pub fn message(&self) -> (m: &str)
        ensures
            m@ == self@,
    {
        self.message.as_str()
    }
}

impl PartialEq for Error {
    fn eq(&self, other: &Self) -> (r: bool) {
        self.message == other.message
    }
}

impl vstd::std_specs::cmp::PartialEqSpecImpl for Error {
    open spec fn obeys_eq_spec() -> bool {
        true
    }

    open spec fn eq_spec(&self, other: &Self) -> bool {
        self@ == other@
    }
}

} // verus!
