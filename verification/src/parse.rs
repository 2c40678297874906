//! Recursive-descent parser: second-level tokens to a regex syntax tree.
//!
//! The grammar has one binary level (`|` and the explicit concatenation
//! operator, folded to the right) over postfix unary operators over groups
//! (a character, or a parenthesised subexpression).  The spec parser
//! ([`sp_regex`] and friends) carries a fuel argument only to bound its
//! recursion; [`spec_parse`] gives it one more unit than the token count,
//! which the executable parser shows is never exhausted.  [`parse`] returns
//! exactly what [`spec_parse`] says.

use vstd::prelude::*;

use crate::Error;
use crate::simplify::Token;

verus! {

/// Binary operator of the syntax tree.
#[derive(Copy, Clone, Debug, PartialEq)]
pub enum BinaryOperation {
    Concat,
    Alternation,
}

/// Postfix unary operator of the syntax tree.
#[derive(Copy, Clone, Debug, PartialEq)]
pub enum UnaryOperation {
    MinMax(u8, u8),
    Times(u8),
    KleenClosure,
    Question,
    Plus,
}

/// Regex abstract syntax tree.
#[derive(Debug, PartialEq)]
pub enum RAST {
    Binary(Box<RAST>, Box<RAST>, BinaryOperation),
    Unary(Box<RAST>, UnaryOperation),
    Atomic(u8),
}

impl Clone for RAST {
    /// A structural copy: the clone equals the original.
    fn clone(&self) -> (r: Self)
        ensures
            r == *self,
        decreases *self,
    {
        match self {
            RAST::Binary(l, r2, op) => RAST::Binary(
                Box::new((**l).clone()),
                Box::new((**r2).clone()),
                *op,
            ),
            RAST::Unary(x, op) => RAST::Unary(Box::new((**x).clone()), *op),
            RAST::Atomic(b) => RAST::Atomic(*b),
        }
    }
}

/// Reads one postfix operator off the stack, if the next token is one.
pub open spec fn sp_unary_prime(st: Seq<Token>) -> (Option<UnaryOperation>, Seq<Token>) {
    if st.len() == 0 {
        (None, st)
    } else {
        match st.last() {
            Token::KleenClosure => (Some(UnaryOperation::KleenClosure), st.drop_last()),
            Token::Question => (Some(UnaryOperation::Question), st.drop_last()),
            Token::Plus => (Some(UnaryOperation::Plus), st.drop_last()),
            Token::Times(n) => (Some(UnaryOperation::Times(n)), st.drop_last()),
            Token::MinMax(lo, hi) => (Some(UnaryOperation::MinMax(lo, hi)), st.drop_last()),
            _ => (None, st),
        }
    }
}

/// Parses a group: a character, or a parenthesised expression.
pub open spec fn sp_group(st: Seq<Token>, fuel: nat) -> Result<(RAST, Seq<Token>), Seq<char>>
    decreases fuel, 1int,
{
    if fuel == 0 {
        Err("Reached end of regex while parsing"@)
    } else if st.len() == 0 {
        Err("Reached end of regex while parsing"@)
    } else {
        match st.last() {
            Token::Character(c) => Ok((RAST::Atomic(c), st.drop_last())),
            Token::LParen => match sp_regex(st.drop_last(), (fuel - 1) as nat) {
                Err(m) => Err(m),
                Ok(p) => if p.1.len() == 0 {
                    Err("Reached end of regex while parsing"@)
                } else {
                    match p.1.last() {
                        Token::RParen => Ok((p.0, p.1.drop_last())),
                        _ => Err("Unexpected token, expected ')'"@),
                    }
                },
            },
            _ => Err("Unexpected token, expected char or '('"@),
        }
    }
}

/// Parses a group with its postfix operators.
pub open spec fn sp_unary(st: Seq<Token>, fuel: nat) -> Result<(RAST, Seq<Token>), Seq<char>>
    decreases fuel, 2int,
{
    if fuel == 0 {
        Err("Reached end of regex while parsing"@)
    } else {
        match sp_group(st, fuel) {
            Err(m) => Err(m),
            Ok(g) => {
                let (op, rest) = sp_unary_prime(g.1);
                match op {
                    Some(o) => Ok((RAST::Unary(Box::new(g.0), o), rest)),
                    None => Ok((g.0, rest)),
                }
            },
        }
    }
}

/// Parses the right-folded tail of a binary expression: `(op unary)*`,
/// returning the folded right operand together with the leading operator.
pub open spec fn sp_binary_prime(st: Seq<Token>, fuel: nat) -> Result<
    (Option<(RAST, BinaryOperation)>, Seq<Token>),
    Seq<char>,
>
    decreases fuel, 3int,
{
    if fuel == 0 {
        Err("Reached end of regex while parsing"@)
    } else if st.len() == 0 {
        Ok((None, st))
    } else {
        let op = match st.last() {
            Token::Concat => Some(BinaryOperation::Concat),
            Token::Alternation => Some(BinaryOperation::Alternation),
            _ => None,
        };
        match op {
            None => Ok((None, st)),
            Some(o) => match sp_unary(st.drop_last(), fuel) {
                Err(m) => Err(m),
                Ok(u) => match sp_binary_prime(u.1, (fuel - 1) as nat) {
                    Err(m) => Err(m),
                    Ok(p) => match p.0 {
                        Some(pr) => Ok(
                            (
                                Some(
                                    (RAST::Binary(Box::new(u.0), Box::new(pr.0), pr.1), o),
                                ),
                                p.1,
                            ),
                        ),
                        None => Ok((Some((u.0, o)), p.1)),
                    },
                },
            },
        }
    }
}

/// Parses a binary expression: a unary operand, then its right-folded tail.
pub open spec fn sp_binary(st: Seq<Token>, fuel: nat) -> Result<(RAST, Seq<Token>), Seq<char>>
    decreases fuel, 4int,
{
    if fuel == 0 {
        Err("Reached end of regex while parsing"@)
    } else {
        match sp_unary(st, fuel) {
            Err(m) => Err(m),
            Ok(u) => match sp_binary_prime(u.1, (fuel - 1) as nat) {
                Err(m) => Err(m),
                Ok(p) => match p.0 {
                    Some(pr) => Ok((RAST::Binary(Box::new(u.0), Box::new(pr.0), pr.1), p.1)),
                    None => Ok((u.0, p.1)),
                },
            },
        }
    }
}

/// Parses a whole expression off the stack.
pub open spec fn sp_regex(st: Seq<Token>, fuel: nat) -> Result<(RAST, Seq<Token>), Seq<char>>
    decreases fuel, 5int,
{
    if fuel == 0 {
        Err("Reached end of regex while parsing"@)
    } else {
        sp_binary(st, fuel)
    }
}

/// The tokens as a reversed stack: the last element is the first token.
pub open spec fn rev_tokens(ts: Seq<Token>) -> Seq<Token> {
    Seq::new(ts.len(), |i: int| ts[ts.len() - 1 - i])
}

/// What parsing a token sequence yields: its syntax tree, or the error the
/// parser stops with.  The whole sequence must be consumed.
pub open spec fn spec_parse(ts: Seq<Token>) -> Result<RAST, Seq<char>> {
    let st = rev_tokens(ts);
    match sp_regex(st, (st.len() + 1) as nat) {
        Err(m) => Err(m),
        Ok(p) => if p.1.len() == 0 {
            Ok(p.0)
        } else {
            Err("Regex stoped parsing before the end"@)
        },
    }
}

fn parse_group(stack: &mut Vec<Token>, fuel: Ghost<nat>) -> (r: Result<RAST, Error>)
    requires
        fuel@ >= old(stack)@.len() + 1,
    ensures
        match sp_group(old(stack)@, fuel@) {
            Ok(p) => r matches Ok(t) && t == p.0 && final(stack)@ == p.1 && final(stack)@.len() < old(stack)@.len(),
            Err(m) => r matches Err(e) && e@ == m,
        },
    decreases stack@.len(), 1int,
{
    let t = match stack.pop() {
        None => {
            return Err(Error::new("Reached end of regex while parsing"));
        },
        Some(t) => t,
    };
    match t {
        Token::Character(c) => Ok(RAST::Atomic(c)),
        Token::LParen => {
            proof {
                assert(sp_regex(old(stack)@.drop_last(), (fuel@ - 1) as nat) == sp_binary(
                    old(stack)@.drop_last(),
                    (fuel@ - 1) as nat,
                ));
            }
            let group = match parse_binary(stack, Ghost((fuel@ - 1) as nat)) {
                Err(e) => {
                    return Err(e);
                },
                Ok(g) => g,
            };
            match stack.pop() {
                None => Err(Error::new("Reached end of regex while parsing")),
                Some(t2) => match t2 {
                    Token::RParen => Ok(group),
                    _ => Err(Error::new("Unexpected token, expected ')'")),
                },
            }
        },
        _ => Err(Error::new("Unexpected token, expected char or '('")),
    }
}

fn parse_unary_prime(stack: &mut Vec<Token>) -> (r: Option<UnaryOperation>)
    ensures
        sp_unary_prime(old(stack)@) == (r, final(stack)@),
        final(stack)@.len() <= old(stack)@.len(),
{
    match stack.pop() {
        None => None,
        Some(t) => match t {
            Token::KleenClosure => Some(UnaryOperation::KleenClosure),
            Token::Question => Some(UnaryOperation::Question),
            Token::Plus => Some(UnaryOperation::Plus),
            Token::Times(n) => Some(UnaryOperation::Times(n)),
            Token::MinMax(lo, hi) => Some(UnaryOperation::MinMax(lo, hi)),
            _ => {
                stack.push(t);
                proof {
                    assert(stack@ =~= old(stack)@);
                }
                None
            },
        },
    }
}

fn parse_unary(stack: &mut Vec<Token>, fuel: Ghost<nat>) -> (r: Result<RAST, Error>)
    requires
        fuel@ >= old(stack)@.len() + 1,
    ensures
        match sp_unary(old(stack)@, fuel@) {
            Ok(p) => r matches Ok(t) && t == p.0 && final(stack)@ == p.1 && final(stack)@.len() < old(stack)@.len(),
            Err(m) => r matches Err(e) && e@ == m,
        },
    decreases stack@.len(), 2int,
{
    let group = match parse_group(stack, fuel) {
        Err(e) => {
            return Err(e);
        },
        Ok(g) => g,
    };
    let op = parse_unary_prime(stack);
    match op {
        Some(o) => Ok(RAST::Unary(Box::new(group), o)),
        None => Ok(group),
    }
}

fn parse_binary_prime(stack: &mut Vec<Token>, fuel: Ghost<nat>) -> (r: Result<
    Option<(RAST, BinaryOperation)>,
    Error,
>)
    requires
        fuel@ >= old(stack)@.len() + 1,
    ensures
        match sp_binary_prime(old(stack)@, fuel@) {
            Ok(p) => r matches Ok(o) && o == p.0 && final(stack)@ == p.1 && final(stack)@.len() <= old(stack)@.len(),
            Err(m) => r matches Err(e) && e@ == m,
        },
    decreases stack@.len(), 3int,
{
    let t = match stack.pop() {
        None => {
            return Ok(None);
        },
        Some(t) => t,
    };
    let op = match t {
        Token::Concat => BinaryOperation::Concat,
        Token::Alternation => BinaryOperation::Alternation,
        _ => {
            stack.push(t);
            proof {
                assert(stack@ =~= old(stack)@);
            }
            return Ok(None);
        },
    };
    let unary = match parse_unary(stack, fuel) {
        Err(e) => {
            return Err(e);
        },
        Ok(u) => u,
    };
    let prime = match parse_binary_prime(stack, Ghost((fuel@ - 1) as nat)) {
        Err(e) => {
            return Err(e);
        },
        Ok(p) => p,
    };
    match prime {
        Some(pr) => Ok(Some((RAST::Binary(Box::new(unary), Box::new(pr.0), pr.1), op))),
        None => Ok(Some((unary, op))),
    }
}

fn parse_binary(stack: &mut Vec<Token>, fuel: Ghost<nat>) -> (r: Result<RAST, Error>)
    requires
        fuel@ >= old(stack)@.len() + 1,
    ensures
        match sp_binary(old(stack)@, fuel@) {
            Ok(p) => r matches Ok(t) && t == p.0 && final(stack)@ == p.1 && final(stack)@.len() < old(stack)@.len(),
            Err(m) => r matches Err(e) && e@ == m,
        },
    decreases stack@.len(), 4int,
{
    let unary = match parse_unary(stack, fuel) {
        Err(e) => {
            return Err(e);
        },
        Ok(u) => u,
    };
    let prime = match parse_binary_prime(stack, Ghost((fuel@ - 1) as nat)) {
        Err(e) => {
            return Err(e);
        },
        Ok(p) => p,
    };
    match prime {
        Some(pr) => Ok(RAST::Binary(Box::new(unary), Box::new(pr.0), pr.1)),
        None => Ok(unary),
    }
}

/// Parses an expression off the stack (the next token is the last element).
/// Returns exactly what [`sp_regex`] says at fuel one more than the stack
/// length.
pub fn parse_regex(regex: &mut Vec<Token>) -> (r: Result<RAST, Error>)
    ensures
        match sp_regex(old(regex)@, (old(regex)@.len() + 1) as nat) {
            Ok(p) => r matches Ok(t) && t == p.0 && final(regex)@ == p.1,
            Err(m) => r matches Err(e) && e@ == m,
        },
{
    let ghost f = (regex@.len() + 1) as nat;
    proof {
        assert(sp_regex(regex@, f) == sp_binary(regex@, f));
    }
    parse_binary(regex, Ghost(f))
}

/// Parses a whole token sequence into a syntax tree; every token must be
/// consumed.  Returns exactly what [`spec_parse`] says.
pub fn parse(regex: &[Token]) -> (r: Result<Box<RAST>, Error>)
    ensures
        match spec_parse(regex@) {
            Ok(t) => r matches Ok(b) && *b == t,
            Err(m) => r matches Err(e) && e@ == m,
        },
{
    let n = regex.len();
    let mut stack: Vec<Token> = Vec::new();
    let mut i: usize = n;
    while i > 0
        invariant
            i <= n,
            n == regex@.len(),
            stack@.len() == n - i,
            forall|j: int| 0 <= j < stack@.len() ==> stack@[j] == regex@[n - 1 - j],
        decreases i,
    {
        i = i - 1;
        stack.push(regex[i]);
    }
    proof {
        assert(stack@ =~= rev_tokens(regex@));
    }
    let rast = match parse_regex(&mut stack) {
        Err(e) => {
            return Err(e);
        },
        Ok(t) => t,
    };
    if stack.len() != 0 {
        return Err(Error::new("Regex stoped parsing before the end"));
    }
    Ok(Box::new(rast))
}

} // verus!
