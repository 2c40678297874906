//! Simplification pass: erases classes and wildcards, adds explicit
//! concatenation.
//!
//! Pass one rewrites every class into a parenthesised alternation of its
//! member bytes (ascending; an inverse class or a wildcard first takes the
//! complement within the ASCII range below 127) and fails on a class with no
//! members.  Pass two walks the stream and puts an explicit [`Token::Concat`]
//! between a token that can end an operand and one that can begin one.
//! [`spec_simplify`] states the whole pass; [`simpilfy`] returns exactly
//! what it says.

use vstd::prelude::*;

use crate::Error;
use crate::scan::FirstRegexToken;
use crate::scan::FirstTokenView;
use crate::scan::tokens_view;

verus! {

/// Second-level token: classes and wildcards are gone, concatenation is
/// explicit.
#[derive(Copy, Clone, Debug, PartialEq)]
pub enum Token {
    Character(u8),
    MinMax(u8, u8),
    Times(u8),
    Concat,
    Alternation,
    KleenClosure,
    Question,
    Plus,
    LParen,
    RParen,
}

/// The member bytes interleaved with `|`: `b1 | b2 | ... | bk`.
pub open spec fn alt_seq(s: Seq<u8>) -> Seq<Token>
    decreases s.len(),
{
    if s.len() == 0 {
        Seq::empty()
    } else if s.len() == 1 {
        seq![Token::Character(s[0])]
    } else {
        seq![Token::Character(s[0]), Token::Alternation] + alt_seq(s.drop_first())
    }
}

/// A class lowered to `( b1 | ... | bk )`.
pub open spec fn class_tokens(s: Seq<u8>) -> Seq<Token> {
    seq![Token::LParen] + alt_seq(s) + seq![Token::RParen]
}

/// The bytes below `n` that are not in `s`, ascending.
pub open spec fn bytes_not_in(s: Seq<u8>, n: int) -> Seq<u8>
    decreases n,
{
    if n <= 0 {
        Seq::empty()
    } else if s.contains((n - 1) as u8) {
        bytes_not_in(s, n - 1)
    } else {
        bytes_not_in(s, n - 1).push((n - 1) as u8)
    }
}

/// What one scanner token lowers to.
pub open spec fn lower_token(t: FirstTokenView) -> Result<Seq<Token>, Seq<char>> {
    match t {
        FirstTokenView::CharSet(s) => if s.len() == 0 {
            Err("Cannot have an empty set []"@)
        } else {
            Ok(class_tokens(s))
        },
        FirstTokenView::InverseSet(s) => if bytes_not_in(s, 127).len() == 0 {
            Err("Cannot have an empty set []"@)
        } else {
            Ok(class_tokens(bytes_not_in(s, 127)))
        },
        FirstTokenView::Wildcard => Ok(class_tokens(bytes_not_in(Seq::empty(), 127))),
        FirstTokenView::Character(c) => Ok(seq![Token::Character(c)]),
        FirstTokenView::MinMax(lo, hi) => Ok(seq![Token::MinMax(lo, hi)]),
        FirstTokenView::Times(n) => Ok(seq![Token::Times(n)]),
        FirstTokenView::Alternation => Ok(seq![Token::Alternation]),
        FirstTokenView::KleenClosure => Ok(seq![Token::KleenClosure]),
        FirstTokenView::Question => Ok(seq![Token::Question]),
        FirstTokenView::Plus => Ok(seq![Token::Plus]),
        FirstTokenView::LParen => Ok(seq![Token::LParen]),
        FirstTokenView::RParen => Ok(seq![Token::RParen]),
    }
}

/// The class-lowering pass over a whole token sequence; it stops at the
/// first class with no members.
pub open spec fn spec_lower(ts: Seq<FirstTokenView>) -> Result<Seq<Token>, Seq<char>>
    decreases ts.len(),
{
    if ts.len() == 0 {
        Ok(Seq::empty())
    } else {
        match lower_token(ts[0]) {
            Err(m) => Err(m),
            Ok(h) => match spec_lower(ts.drop_first()) {
                Err(m) => Err(m),
                Ok(rest) => Ok(h + rest),
            },
        }
    }
}

/// Tokens that can end an operand.
pub open spec fn left_atom(t: Token) -> bool {
    match t {
        Token::Character(_) => true,
        Token::MinMax(_, _) => true,
        Token::Times(_) => true,
        Token::KleenClosure => true,
        Token::Question => true,
        Token::Plus => true,
        Token::RParen => true,
        _ => false,
    }
}

/// Tokens that can begin an operand.
pub open spec fn right_atom(t: Token) -> bool {
    match t {
        Token::Character(_) => true,
        Token::LParen => true,
        _ => false,
    }
}

/// A `Concat` goes between `a` and `b`.
pub open spec fn needs_concat(a: Token, b: Token) -> bool {
    left_atom(a) && right_atom(b)
}

/// The concatenation pass: a copy of `ts` with `Concat` between every
/// adjacent pair that needs one.
pub open spec fn spec_concat(ts: Seq<Token>) -> Seq<Token>
    decreases ts.len(),
{
    if ts.len() <= 1 {
        ts
    } else if needs_concat(ts[0], ts[1]) {
        seq![ts[0], Token::Concat] + spec_concat(ts.drop_first())
    } else {
        seq![ts[0]] + spec_concat(ts.drop_first())
    }
}

/// What simplification of a scanned token sequence yields.
pub open spec fn spec_simplify(ts: Seq<FirstTokenView>) -> Result<Seq<Token>, Seq<char>> {
    match spec_lower(ts) {
        Err(m) => Err(m),
        Ok(t) => Ok(spec_concat(t)),
    }
}

proof fn lemma_alt_seq_snoc(s: Seq<u8>, x: u8)
    requires
        s.len() >= 1,
    ensures
        alt_seq(s.push(x)) == alt_seq(s) + seq![Token::Alternation, Token::Character(x)],
    decreases s.len(),
{
    if s.len() == 1 {
        assert(s.push(x).drop_first() =~= seq![x]);
        assert(alt_seq(seq![x]) == seq![Token::Character(x)]);
        assert(alt_seq(s) == seq![Token::Character(s[0])]);
        assert(alt_seq(s.push(x)) =~= alt_seq(s) + seq![
            Token::Alternation,
            Token::Character(x),
        ]);
    } else {
        lemma_alt_seq_snoc(s.drop_first(), x);
        assert(s.push(x).drop_first() =~= s.drop_first().push(x));
        assert(alt_seq(s.push(x)) =~= alt_seq(s) + seq![
            Token::Alternation,
            Token::Character(x),
        ]);
    }
}

proof fn lemma_bytes_not_in_empty(n: int)
    ensures
        bytes_not_in(Seq::empty(), n).len() == if n >= 0 {
            n
        } else {
            0
        },
    decreases n,
{
    if n > 0 {
        lemma_bytes_not_in_empty(n - 1);
        assert(!Seq::<u8>::empty().contains((n - 1) as u8));
    }
}

fn contains_byte(v: &Vec<u8>, b: u8) -> (r: bool)
    ensures
        r == v@.contains(b),
{
    let mut i: usize = 0;
    while i < v.len()
        invariant
            i <= v@.len(),
            forall|j: int| 0 <= j < i ==> v@[j] != b,
        decreases v@.len() - i,
    {
        if v[i] == b {
            return true;
        }
        i = i + 1;
    }
    false
}

fn complement_of(v: &Vec<u8>) -> (r: Vec<u8>)
    ensures
        r@ == bytes_not_in(v@, 127),
{
    let mut comp: Vec<u8> = Vec::new();
    let mut b: usize = 0;
    while b < 127
        invariant
            b <= 127,
            comp@ == bytes_not_in(v@, b as int),
        decreases 127 - b,
    {
        if !contains_byte(v, b as u8) {
            comp.push(b as u8);
        }
        b = b + 1;
    }
    comp
}

/// Appends `( b1 | ... | bk )` for the member bytes of `v`.
fn emit_class(out: &mut Vec<Token>, v: &Vec<u8>)
    requires
        v@.len() > 0,
    ensures
        final(out)@ == old(out)@ + class_tokens(v@),
{
    let ghost base = out@;
    out.push(Token::LParen);
    let mut j: usize = 0;
    while j < v.len()
        invariant
            base == old(out)@,
            j <= v@.len(),
            v@.len() > 0,
            j == 0 ==> out@ == base + seq![Token::LParen],
            j >= 1 ==> out@ == base + seq![Token::LParen] + alt_seq(v@.take(j as int)) + seq![
                Token::Alternation,
            ],
        decreases v@.len() - j,
    {
        let ghost pre = out@;
        out.push(Token::Character(v[j]));
        out.push(Token::Alternation);
        proof {
            if j == 0 {
                assert(v@.take(1) =~= seq![v@[0]]);
                assert(alt_seq(v@.take(1)) == seq![Token::Character(v@[0])]);
                assert(out@ =~= base + seq![Token::LParen] + alt_seq(v@.take(1)) + seq![
                    Token::Alternation,
                ]);
            } else {
                lemma_alt_seq_snoc(v@.take(j as int), v@[j as int]);
                assert(v@.take(j as int).push(v@[j as int]) =~= v@.take(j + 1));
                assert(out@ =~= base + seq![Token::LParen] + alt_seq(v@.take(j + 1)) + seq![
                    Token::Alternation,
                ]);
            }
        }
        j = j + 1;
    }
    out.pop();
    out.push(Token::RParen);
    proof {
        assert(v@.take(v@.len() as int) =~= v@);
        assert(out@ =~= base + class_tokens(v@));
    }
}

/// Tells whether a `Concat` goes before `second`, given that the token on
/// the left can end an operand.
fn first_is_normal(second: &Token) -> (r: bool)
    ensures
        r == right_atom(*second),
{
    match second {
        Token::Character(_) => true,
        Token::LParen => true,
        _ => false,
    }
}

fn token_left_atom(t: &Token) -> (r: bool)
    ensures
        r == left_atom(*t),
{
    match t {
        Token::Character(_) => true,
        Token::MinMax(_, _) => true,
        Token::Times(_) => true,
        Token::KleenClosure => true,
        Token::Question => true,
        Token::Plus => true,
        Token::RParen => true,
        _ => false,
    }
}

/// Simplifies `CharSet`, `InverseSet` and `Wildcard` away and adds the
/// explicit `Concat` operator.  Returns exactly what [`spec_simplify`] says
/// of the token sequence.
pub fn simpilfy(regex: &[FirstRegexToken]) -> (r: Result<Vec<Token>, Error>)
    ensures
        match spec_simplify(tokens_view(regex@)) {
            Ok(ts) => r matches Ok(v) && v@ == ts,
            Err(m) => r matches Err(e) && e@ == m,
        },
{
    let ghost tv = tokens_view(regex@);
    let mut lowered: Vec<Token> = Vec::new();
    let mut i: usize = 0;
    proof {
        assert(tv.skip(0) =~= tv);
    }
    while i < regex.len()
        invariant
            tv == tokens_view(regex@),
            i <= regex@.len(),
            tv.len() == regex@.len(),
            match spec_lower(tv.skip(i as int)) {
                Ok(rest) => spec_lower(tv) matches Ok(all) && all == lowered@ + rest,
                Err(m) => spec_lower(tv) matches Err(m2) && m2 == m,
            },
        decreases regex@.len() - i,
    {
        let ghost pre = lowered@;
        proof {
            assert(tv.skip(i as int)[0] == tv[i as int]);
            assert(tv.skip(i as int).drop_first() =~= tv.skip(i + 1));
        }
        match &regex[i] {
            FirstRegexToken::CharSet(v) => {
                if v.len() == 0 {
                    return Err(Error::new("Cannot have an empty set []"));
                }
                emit_class(&mut lowered, v);
            },
            FirstRegexToken::InverseSet(v) => {
                let comp = complement_of(v);
                if comp.len() == 0 {
                    return Err(Error::new("Cannot have an empty set []"));
                }
                emit_class(&mut lowered, &comp);
            },
            FirstRegexToken::Wildcard => {
                let none: Vec<u8> = Vec::new();
                let comp = complement_of(&none);
                proof {
                    lemma_bytes_not_in_empty(127);
                    assert(none@ =~= Seq::<u8>::empty());
                }
                emit_class(&mut lowered, &comp);
            },
            FirstRegexToken::Character(c) => {
                lowered.push(Token::Character(*c));
            },
            FirstRegexToken::MinMax(lo, hi) => {
                lowered.push(Token::MinMax(*lo, *hi));
            },
            FirstRegexToken::Times(n) => {
                lowered.push(Token::Times(*n));
            },
            FirstRegexToken::Alternation => {
                lowered.push(Token::Alternation);
            },
            FirstRegexToken::KleenClosure => {
                lowered.push(Token::KleenClosure);
            },
            FirstRegexToken::Question => {
                lowered.push(Token::Question);
            },
            FirstRegexToken::Plus => {
                lowered.push(Token::Plus);
            },
            FirstRegexToken::LParen => {
                lowered.push(Token::LParen);
            },
            FirstRegexToken::RParen => {
                lowered.push(Token::RParen);
            },
        }
        proof {
            let h = lower_token(tv[i as int])->Ok_0;
            assert(lowered@ =~= pre + h);
            if spec_lower(tv.skip(i + 1)) is Ok {
                assert(pre + (h + spec_lower(tv.skip(i + 1))->Ok_0) =~= lowered@ + spec_lower(
                    tv.skip(i + 1),
                )->Ok_0);
            }
        }
        i = i + 1;
    }
    proof {
        assert(tv.skip(tv.len() as int) =~= Seq::<FirstTokenView>::empty());
        if spec_lower(tv) is Ok {
            assert(lowered@ + Seq::<Token>::empty() =~= lowered@);
        }
    }
    let t = lowered;
    let ghost tfull = t@;
    let mut tokens: Vec<Token> = Vec::new();
    let mut i: usize = 0;
    proof {
        assert(tfull.skip(0) =~= tfull);
        assert(Seq::<Token>::empty() + spec_concat(tfull) =~= spec_concat(tfull));
    }
    while i < t.len()
        invariant
            tfull == t@,
            i <= t@.len(),
            tokens@ + spec_concat(tfull.skip(i as int)) == spec_concat(tfull),
        decreases t@.len() - i,
    {
        let ghost pre = tokens@;
        tokens.push(t[i]);
        proof {
            assert(tfull.skip(i as int)[0] == tfull[i as int]);
            if i + 1 < tfull.len() {
                assert(tfull.skip(i as int)[1] == tfull[i + 1]);
            }
            assert(tfull.skip(i as int).drop_first() =~= tfull.skip(i + 1));
        }
        if i + 1 < t.len() {
            let insert = if token_left_atom(&t[i]) {
                first_is_normal(&t[i + 1])
            } else {
                false
            };
            if insert {
                tokens.push(Token::Concat);
                proof {
                    assert(tokens@ =~= pre + seq![tfull[i as int], Token::Concat]);
                    assert(tokens@ + spec_concat(tfull.skip(i + 1)) =~= spec_concat(tfull));
                }
            } else {
                proof {
                    assert(tokens@ =~= pre + seq![tfull[i as int]]);
                    assert(tokens@ + spec_concat(tfull.skip(i + 1)) =~= spec_concat(tfull));
                }
            }
        } else {
            proof {
                assert(tfull.skip(i as int) =~= seq![tfull[i as int]]);
                assert(tfull.skip(i + 1) =~= Seq::<Token>::empty());
                assert(tokens@ =~= pre + seq![tfull[i as int]]);
                assert(tokens@ + spec_concat(tfull.skip(i + 1)) =~= spec_concat(tfull));
            }
        }
        i = i + 1;
    }
    proof {
        assert(tfull.skip(tfull.len() as int) =~= Seq::<Token>::empty());
        assert(tokens@ =~= spec_concat(tfull));
    }
    Ok(tokens)
}

} // verus!
