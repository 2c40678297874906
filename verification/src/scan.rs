//! Lexical scanner: turns an ASCII pattern string into first-level tokens.
//!
//! The scanner works byte by byte from the front of the pattern, held as a
//! reversed stack so that the next byte is the last element.  Character
//! classes are read eagerly into their member set, `{..}` quantifiers into
//! `Times`/`MinMax` tokens.  [`spec_scan`] is the mathematical description of
//! the whole pass; [`scan`] returns exactly what it says.

use vstd::prelude::*;

use crate::Error;

verus! {

/// First-level token stream element.  A character class carries its member
/// bytes in ascending order.
#[derive(Clone, Debug, PartialEq)]
pub enum FirstRegexToken {
    Character(u8),
    MinMax(u8, u8),
    Times(u8),
    CharSet(Vec<u8>),
    InverseSet(Vec<u8>),
    Alternation,
    KleenClosure,
    Question,
    Plus,
    Wildcard,
    LParen,
    RParen,
}

/// Mathematical image of a [`FirstRegexToken`]: a class payload is the plain
/// sequence of its member bytes.
pub enum FirstTokenView {
    Character(u8),
    MinMax(u8, u8),
    Times(u8),
    CharSet(Seq<u8>),
    InverseSet(Seq<u8>),
    Alternation,
    KleenClosure,
    Question,
    Plus,
    Wildcard,
    LParen,
    RParen,
}

impl View for FirstRegexToken {
    type V = FirstTokenView;

    open spec fn view(&self) -> FirstTokenView {
        match self {
            FirstRegexToken::Character(c) => FirstTokenView::Character(*c),
            FirstRegexToken::MinMax(lo, hi) => FirstTokenView::MinMax(*lo, *hi),
            FirstRegexToken::Times(n) => FirstTokenView::Times(*n),
            FirstRegexToken::CharSet(v) => FirstTokenView::CharSet(v@),
            FirstRegexToken::InverseSet(v) => FirstTokenView::InverseSet(v@),
            FirstRegexToken::Alternation => FirstTokenView::Alternation,
            FirstRegexToken::KleenClosure => FirstTokenView::KleenClosure,
            FirstRegexToken::Question => FirstTokenView::Question,
            FirstRegexToken::Plus => FirstTokenView::Plus,
            FirstRegexToken::Wildcard => FirstTokenView::Wildcard,
            FirstRegexToken::LParen => FirstTokenView::LParen,
            FirstRegexToken::RParen => FirstTokenView::RParen,
        }
    }
}

/// The token-by-token image of a scanned token vector.
pub open spec fn tokens_view(s: Seq<FirstRegexToken>) -> Seq<FirstTokenView> {
    s.map_values(|t: FirstRegexToken| t@)
}

/// Every byte is ASCII.
pub open spec fn ascii_bytes(st: Seq<u8>) -> bool {
    forall|i: int| 0 <= i < st.len() ==> st[i] < 128
}

/// The pattern as a reversed byte stack: the last element is the first
/// character of the pattern.
pub open spec fn ascii_stack(s: Seq<char>) -> Seq<u8> {
    Seq::new(s.len(), |i: int| s[s.len() - 1 - i] as u8)
}

/// Resolution of `\x` escapes: `\0`, `\r`, `\n` and `\t` denote control
/// bytes, every other byte denotes itself.
pub open spec fn escape_char(letter: u8) -> u8 {
    if letter == 48 {
        0
    } else if letter == 114 {
        13
    } else if letter == 110 {
        10
    } else if letter == 116 {
        9
    } else {
        letter
    }
}

/// Reads a run of decimal digits off the top of the stack, accumulating onto
/// `acc`; the first non-digit (if any) is left on the stack.
pub open spec fn spec_digits(st: Seq<u8>, acc: int) -> (int, Seq<u8>)
    decreases st.len(),
{
    if st.len() == 0 {
        (acc, st)
    } else if 48 <= st.last() <= 57 {
        spec_digits(st.drop_last(), acc * 10 + (st.last() - 48))
    } else {
        (acc, st)
    }
}

/// Reads one decimal number for a `{..}` quantifier; it must fit in a byte.
pub open spec fn spec_num(st: Seq<u8>) -> Result<(u8, Seq<u8>), Seq<char>> {
    if st.len() == 0 {
        Err("Mismatched {"@)
    } else {
        let (n, rest) = spec_digits(st, 0);
        if n > 255 {
            Err("Numbers in {} must be less than 256"@)
        } else {
            Ok((n as u8, rest))
        }
    }
}

/// The bytes `lo..=hi`.
pub open spec fn range_set(lo: u8, hi: u8) -> Set<u8> {
    Set::new(|b: u8| lo <= b <= hi)
}

/// Reads the body of a character class, up to and including the closing
/// `]`.  An escaped byte is put back on the stack and rescanned, `a-b`
/// adds the whole byte range, and either range endpoint may itself be an
/// escape.  A stack that runs out before the closing `]` is an error.
pub open spec fn spec_set(st: Seq<u8>) -> Result<(Set<u8>, Seq<u8>), Seq<char>>
    decreases st.len(),
{
    if st.len() == 0 {
        Err("Mismatched []"@)
    } else {
        let c = st.last();
        let st1 = st.drop_last();
        if c == 92 {
            if st1.len() == 0 {
                Err("Cannot have \\ on end of regex"@)
            } else {
                spec_set(st1.drop_last().push(escape_char(st1.last())))
            }
        } else if c == 93 {
            Ok((Set::empty(), st1))
        } else {
            if st1.len() == 0 {
                Err("Mismatched []"@)
            } else {
                let c2 = st1.last();
                let st2 = st1.drop_last();
                if c2 == 93 {
                    Ok((Set::empty().insert(c), st2))
                } else if c2 == 45 {
                    if st2.len() == 0 {
                        Err("Mismatched []"@)
                    } else if st2.last() == 92 {
                        let st3 = st2.drop_last();
                        if st3.len() == 0 {
                            Err("Cannot have \\ on end of regex"@)
                        } else {
                            match spec_set(st3.drop_last()) {
                                Ok(p) => Ok(
                                    (p.0.union(range_set(c, escape_char(st3.last()))), p.1),
                                ),
                                Err(m) => Err(m),
                            }
                        }
                    } else {
                        match spec_set(st2.drop_last()) {
                            Ok(p) => Ok((p.0.union(range_set(c, st2.last())), p.1)),
                            Err(m) => Err(m),
                        }
                    }
                } else {
                    match spec_set(st1) {
                        Ok(p) => Ok((p.0.insert(c), p.1)),
                        Err(m) => Err(m),
                    }
                }
            }
        }
    }
}

/// Reads a `{..}` quantifier body (the `{` is already consumed): either
/// `Times(n)` or `MinMax(min, max)`.
pub open spec fn spec_scan_times(st: Seq<u8>) -> Result<
    Option<(FirstTokenView, Seq<u8>)>,
    Seq<char>,
> {
    match spec_num(st) {
        Err(m) => Err(m),
        Ok(p) => {
            let min = p.0;
            let st1 = p.1;
            if st1.len() == 0 {
                Err("Regex ends without closing {"@)
            } else if st1.last() == 125 {
                Ok(Some((FirstTokenView::Times(min), st1.drop_last())))
            } else if st1.last() == 44 {
                match spec_num(st1.drop_last()) {
                    Err(m) => Err(m),
                    Ok(q) => {
                        let max = q.0;
                        let st2 = q.1;
                        if st2.len() == 0 {
                            Err("Regex ends without closing {"@)
                        } else if st2.last() == 125 {
                            Ok(Some((FirstTokenView::MinMax(min, max), st2.drop_last())))
                        } else {
                            Err("Mismatched {}"@)
                        }
                    },
                }
            } else {
                Err("Illegal character in brackets"@)
            }
        },
    }
}

/// The member bytes of `s` below `n`, in ascending order.
pub open spec fn members_below(s: Set<u8>, n: int) -> Seq<u8>
    decreases n,
{
    if n <= 0 {
        Seq::empty()
    } else if s.contains((n - 1) as u8) {
        members_below(s, n - 1).push((n - 1) as u8)
    } else {
        members_below(s, n - 1)
    }
}

proof fn lemma_members_below_agree(s1: Set<u8>, s2: Set<u8>, n: int)
    requires
        forall|b: u8| b < n ==> s1.contains(b) == s2.contains(b),
    ensures
        members_below(s1, n) == members_below(s2, n),
    decreases n,
{
    if n > 0 {
        lemma_members_below_agree(s1, s2, n - 1);
        assert(s1.contains((n - 1) as u8) == s2.contains((n - 1) as u8));
    }
}

/// Scans one token off the top of the stack; `None` when the stack is
/// empty.
pub open spec fn spec_scan_token(st: Seq<u8>) -> Result<
    Option<(FirstTokenView, Seq<u8>)>,
    Seq<char>,
> {
    if st.len() == 0 {
        Ok(None)
    } else {
        let c = st.last();
        let st1 = st.drop_last();
        if c == 92 {
            if st1.len() == 0 {
                Err("Cannot have \\ on end of regex"@)
            } else {
                Ok(Some((FirstTokenView::Character(escape_char(st1.last())), st1.drop_last())))
            }
        } else if c == 124 {
            Ok(Some((FirstTokenView::Alternation, st1)))
        } else if c == 42 {
            Ok(Some((FirstTokenView::KleenClosure, st1)))
        } else if c == 63 {
            Ok(Some((FirstTokenView::Question, st1)))
        } else if c == 43 {
            Ok(Some((FirstTokenView::Plus, st1)))
        } else if c == 40 {
            Ok(Some((FirstTokenView::LParen, st1)))
        } else if c == 41 {
            Ok(Some((FirstTokenView::RParen, st1)))
        } else if c == 123 {
            spec_scan_times(st1)
        } else if c == 91 {
            if st1.len() == 0 {
                Err("Mismatched []"@)
            } else if st1.last() == 94 {
                match spec_set(st1.drop_last()) {
                    Err(m) => Err(m),
                    Ok(p) => Ok(
                        Some((FirstTokenView::InverseSet(members_below(p.0, 128)), p.1)),
                    ),
                }
            } else {
                match spec_set(st1) {
                    Err(m) => Err(m),
                    Ok(p) => Ok(Some((FirstTokenView::CharSet(members_below(p.0, 128)), p.1))),
                }
            }
        } else if c == 46 {
            Ok(Some((FirstTokenView::Wildcard, st1)))
        } else {
            Ok(Some((FirstTokenView::Character(c), st1)))
        }
    }
}

proof fn lemma_spec_digits_len(st: Seq<u8>, acc: int)
    ensures
        spec_digits(st, acc).1.len() <= st.len(),
    decreases st.len(),
{
    if st.len() > 0 && 48 <= st.last() <= 57 {
        lemma_spec_digits_len(st.drop_last(), acc * 10 + (st.last() - 48));
    }
}

proof fn lemma_spec_num_len(st: Seq<u8>)
    ensures
        spec_num(st) matches Ok(p) ==> p.1.len() <= st.len(),
{
    lemma_spec_digits_len(st, 0);
}

proof fn lemma_spec_set_len(st: Seq<u8>)
    ensures
        spec_set(st) matches Ok(p) ==> p.1.len() <= st.len(),
    decreases st.len(),
{
    if st.len() > 0 {
        let c = st.last();
        let st1 = st.drop_last();
        if c == 92 {
            if st1.len() > 0 {
                lemma_spec_set_len(st1.drop_last().push(escape_char(st1.last())));
            }
        } else if c != 93 {
            if st1.len() > 0 {
                let c2 = st1.last();
                let st2 = st1.drop_last();
                if c2 == 45 {
                    if st2.len() > 0 {
                        if st2.last() == 92 {
                            if st2.drop_last().len() > 0 {
                                lemma_spec_set_len(st2.drop_last().drop_last());
                            }
                        } else {
                            lemma_spec_set_len(st2.drop_last());
                        }
                    }
                } else if c2 != 93 {
                    lemma_spec_set_len(st1);
                }
            }
        }
    }
}

proof fn lemma_spec_scan_token_len(st: Seq<u8>)
    ensures
        spec_scan_token(st) matches Ok(Some(p)) ==> p.1.len() < st.len(),
{
    if st.len() > 0 {
        let c = st.last();
        let st1 = st.drop_last();
        if c == 123 {
            lemma_spec_num_len(st1);
            if spec_num(st1) is Ok {
                lemma_spec_num_len(spec_num(st1)->Ok_0.1.drop_last());
            }
        } else if c == 91 {
            if st1.len() > 0 {
                lemma_spec_set_len(st1.drop_last());
                lemma_spec_set_len(st1);
            }
        }
    }
}

/// Scans the whole stack into a token sequence.
pub open spec fn spec_scan_stack(st: Seq<u8>) -> Result<Seq<FirstTokenView>, Seq<char>>
    decreases st.len(),
        via spec_scan_stack_dec
{
    match spec_scan_token(st) {
        Err(m) => Err(m),
        Ok(None) => Ok(Seq::empty()),
        Ok(Some(p)) => match spec_scan_stack(p.1) {
            Err(m) => Err(m),
            Ok(ts) => Ok(seq![p.0] + ts),
        },
    }
}

#[via_fn]
proof fn spec_scan_stack_dec(st: Seq<u8>) {
    lemma_spec_scan_token_len(st);
}

/// What scanning a pattern yields: its token sequence, or the error the
/// scanner stops with.  Only nonempty all-ASCII patterns scan.
pub open spec fn spec_scan(s: Seq<char>) -> Result<Seq<FirstTokenView>, Seq<char>> {
    if !vstd::utf8::is_ascii_chars(s) {
        Err("This Regex Engine only supports ASCII"@)
    } else if s.len() == 0 {
        Err("Cannot have an empty regex"@)
    } else {
        spec_scan_stack(ascii_stack(s))
    }
}

fn get_escape_char(letter: u8) -> (r: u8)
    ensures
        r == escape_char(letter),
{
    match letter {
        48 => 0,
        114 => 13,
        110 => 10,
        116 => 9,
        _ => letter,
    }
}

fn get_num(stack: &mut Vec<u8>) -> (r: Result<u8, Error>)
    ensures
        final(stack)@.len() <= old(stack)@.len(),
        ascii_bytes(old(stack)@) ==> ascii_bytes(final(stack)@),
        match spec_num(old(stack)@) {
            Ok(p) => r matches Ok(n) && n == p.0 && final(stack)@ == p.1,
            Err(m) => r matches Err(e) && e@ == m,
        },
{
    if stack.len() == 0 {
        return Err(Error::new("Mismatched {"));
    }
    let ghost orig = stack@;
    let mut number: u32 = 0;
    let ghost mut gval: int = 0int;
    let mut done: bool = false;
    while !done
        invariant
            gval >= 0,
            number <= 255 ==> number == gval,
            (number > 255) <==> (gval > 255),
            stack@.len() <= orig.len(),
            ascii_bytes(orig) ==> ascii_bytes(stack@),
            !done ==> spec_digits(orig, 0) == spec_digits(stack@, gval),
            done ==> spec_digits(orig, 0) == (gval, stack@),
        decreases stack@.len() + if done { 0int } else { 1int },
    {
        match stack.pop() {
            None => {
                done = true;
            },
            Some(c) => {
                if c < 48 || c > 57 {
                    stack.push(c);
                    done = true;
                } else {
                    if number <= 255 {
                        number = number * 10 + ((c - 48) as u32);
                    }
                    proof {
                        gval = gval * 10 + (c - 48);
                    }
                }
            },
        }
    }
    if number > 255 {
        Err(Error::new("Numbers in {} must be less than 256"))
    } else {
        Ok(number as u8)
    }
}

/// The bytes whose bit is set.
pub open spec fn bits_set(bs: Seq<bool>) -> Set<u8> {
    Set::new(|b: u8| b < 128 && bs[b as int])
}

fn set_bit(bits: &mut Vec<bool>, b: u8)
    requires
        b < 128,
        old(bits)@.len() == 128,
    ensures
        final(bits)@.len() == 128,
        forall|j: int| 0 <= j < 128 ==> final(bits)@[j] == (old(bits)@[j] || j == b),
{
    bits[b as usize] = true;
}

fn set_range(bits: &mut Vec<bool>, lo: u8, hi: u8)
    requires
        lo < 128,
        hi < 128,
        old(bits)@.len() == 128,
    ensures
        final(bits)@.len() == 128,
        forall|j: int|
            0 <= j < 128 ==> final(bits)@[j] == (old(bits)@[j] || range_set(lo, hi).contains(
                j as u8,
            )),
{
    let mut b: u8 = lo;
    while b <= hi
        invariant
            lo <= b,
            b <= 128,
            lo < 128,
            hi < 128,
            b == lo || b <= hi + 1,
            bits@.len() == 128,
            old(bits)@.len() == 128,
            forall|j: int| 0 <= j < 128 ==> bits@[j] == (old(bits)@[j] || (lo <= j < b)),
        decreases hi + 1 - b,
    {
        bits[b as usize] = true;
        b = b + 1;
    }
}

spec fn set_result_joined(
    r: Result<(Set<u8>, Seq<u8>), Seq<char>>,
    acc: Set<u8>,
) -> Result<(Set<u8>, Seq<u8>), Seq<char>> {
    match r {
        Ok(p) => Ok((p.0.union(acc), p.1)),
        Err(m) => Err(m),
    }
}

fn get_set(stack: &mut Vec<u8>, bits: &mut Vec<bool>) -> (r: Result<(), Error>)
    requires
        ascii_bytes(old(stack)@),
        old(bits)@.len() == 128,
        forall|j: int| 0 <= j < 128 ==> !old(bits)@[j],
    ensures
        ascii_bytes(final(stack)@),
        final(bits)@.len() == 128,
        final(stack)@.len() <= old(stack)@.len(),
        match spec_set(old(stack)@) {
            Ok(p) => r is Ok && final(stack)@ == p.1 && forall|j: int|
                0 <= j < 128 ==> final(bits)@[j] == p.0.contains(j as u8),
            Err(m) => r matches Err(e) && e@ == m,
        },
{
    let ghost orig = stack@;
    proof {
        assert(bits_set(bits@) =~= Set::<u8>::empty());
        if spec_set(orig) is Ok {
            let p = spec_set(orig)->Ok_0;
            assert(p.0.union(bits_set(bits@)) =~= p.0);
            assert((p.0, p.1) == p);
        }
    }
    let mut done: bool = false;
    while !done
        invariant
            orig == old(stack)@,
            ascii_bytes(stack@),
            bits@.len() == 128,
            stack@.len() <= orig.len(),
            !done ==> spec_set(orig) == set_result_joined(spec_set(stack@), bits_set(bits@)),
            done ==> spec_set(orig) == Ok::<_, Seq<char>>((bits_set(bits@), stack@)),
        decreases stack@.len() + if done { 0int } else { 1int },
    {
        let ghost pre = stack@;
        let ghost pre_bits = bits@;
        match stack.pop() {
            None => {
                return Err(Error::new("Mismatched []"));
            },
            Some(c) => {
                if c == 92 {
                    match stack.pop() {
                        None => {
                            proof {
                                assert(spec_set(pre) == Err::<(Set<u8>, Seq<u8>), _>(
                                    "Cannot have \\ on end of regex"@,
                                ));
                            }
                            return Err(Error::new("Cannot have \\ on end of regex"));
                        },
                        Some(c2) => {
                            stack.push(get_escape_char(c2));
                            proof {
                                assert(stack@ =~= pre.drop_last().drop_last().push(
                                    escape_char(c2),
                                ));
                                assert(spec_set(pre) == spec_set(stack@));
                            }
                        },
                    }
                } else if c == 93 {
                    done = true;
                    proof {
                        assert(spec_set(pre) == Ok::<_, Seq<char>>((
                            Set::<u8>::empty(),
                            pre.drop_last(),
                        )));
                        assert(Set::<u8>::empty().union(bits_set(bits@)) =~= bits_set(bits@));
                    }
                } else {
                    match stack.pop() {
                        None => {
                            return Err(Error::new("Mismatched []"));
                        },
                        Some(c2) => {
                            if c2 == 93 {
                                set_bit(bits, c);
                                done = true;
                                proof {
                                    assert(spec_set(pre) == Ok::<_, Seq<char>>((
                                        Set::<u8>::empty().insert(c),
                                        pre.drop_last().drop_last(),
                                    )));
                                    assert(Set::<u8>::empty().insert(c).union(bits_set(pre_bits))
                                        =~= bits_set(bits@));
                                }
                            } else if c2 == 45 {
                                match stack.pop() {
                                    None => {
                                        return Err(Error::new("Mismatched []"));
                                    },
                                    Some(c3) => {
                                        if c3 == 92 {
                                            match stack.pop() {
                                                None => {
                                                    return Err(Error::new(
                                                        "Cannot have \\ on end of regex",
                                                    ));
                                                },
                                                Some(c4) => {
                                                    let end = get_escape_char(c4);
                                                    set_range(bits, c, end);
                                                    proof {
                                                        assert(stack@ == pre.drop_last()
                                                            .drop_last().drop_last()
                                                            .drop_last());
                                                        assert(range_set(c, end).union(
                                                            bits_set(pre_bits),
                                                        ) =~= bits_set(bits@));
                                                        if spec_set(stack@) is Ok {
                                                            let s = spec_set(stack@)->Ok_0.0;
                                                            assert(s.union(range_set(c, end))
                                                                .union(bits_set(pre_bits))
                                                                =~= s.union(bits_set(bits@)));
                                                        }
                                                    }
                                                },
                                            }
                                        } else {
                                            set_range(bits, c, c3);
                                            proof {
                                                assert(stack@ == pre.drop_last().drop_last()
                                                    .drop_last());
                                                assert(range_set(c, c3).union(
                                                    bits_set(pre_bits),
                                                ) =~= bits_set(bits@));
                                                if spec_set(stack@) is Ok {
                                                    let s = spec_set(stack@)->Ok_0.0;
                                                    assert(s.union(range_set(c, c3)).union(
                                                        bits_set(pre_bits),
                                                    ) =~= s.union(bits_set(bits@)));
                                                }
                                            }
                                        }
                                    },
                                }
                            } else {
                                set_bit(bits, c);
                                stack.push(c2);
                                proof {
                                    assert(stack@ =~= pre.drop_last());
                                    assert(Set::<u8>::empty().insert(c).union(bits_set(pre_bits))
                                        =~= bits_set(bits@));
                                    if spec_set(stack@) is Ok {
                                        let s = spec_set(stack@)->Ok_0.0;
                                        assert(s.insert(c) =~= s.union(Set::<u8>::empty().insert(
                                            c,
                                        )));
                                        assert(s.insert(c).union(bits_set(pre_bits)) =~= s.union(
                                            bits_set(bits@),
                                        ));
                                    }
                                }
                            }
                        },
                    }
                }
            },
        }
    }
    proof {
        let p = spec_set(orig)->Ok_0;
        assert(forall|j: int|
            0 <= j < 128 ==> bits@[j] == p.0.contains(j as u8)) by {
            assert(forall|j: int|
                0 <= j < 128 ==> bits_set(bits@).contains(j as u8) == bits@[j]);
        }
    }
    Ok(())
}

fn make_bits() -> (r: Vec<bool>)
    ensures
        r@.len() == 128,
        forall|j: int| 0 <= j < 128 ==> !r@[j],
{
    let mut bits: Vec<bool> = Vec::new();
    while bits.len() < 128
        invariant
            bits@.len() <= 128,
            forall|j: int| 0 <= j < bits@.len() ==> !bits@[j],
        decreases 128 - bits@.len(),
    {
        bits.push(false);
    }
    bits
}

fn collect_bits(bits: &Vec<bool>) -> (r: Vec<u8>)
    requires
        bits@.len() == 128,
    ensures
        r@ == members_below(bits_set(bits@), 128),
{
    let mut members: Vec<u8> = Vec::new();
    let mut b: usize = 0;
    while b < 128
        invariant
            b <= 128,
            bits@.len() == 128,
            members@ == members_below(bits_set(bits@), b as int),
        decreases 128 - b,
    {
        if bits[b] {
            members.push(b as u8);
        }
        b = b + 1;
    }
    members
}

fn scan_times(stack: &mut Vec<u8>) -> (r: Result<Option<FirstRegexToken>, Error>)
    ensures
        final(stack)@.len() <= old(stack)@.len(),
        ascii_bytes(old(stack)@) ==> ascii_bytes(final(stack)@),
        match spec_scan_times(old(stack)@) {
            Ok(Some(p)) => r matches Ok(Some(t)) && t@ == p.0 && final(stack)@ == p.1,
            Ok(None) => r matches Ok(None),
            Err(m) => r matches Err(e) && e@ == m,
        },
{
    let min = match get_num(stack) {
        Err(e) => {
            return Err(e);
        },
        Ok(n) => n,
    };
    match stack.pop() {
        None => {
            return Err(Error::new("Regex ends without closing {"));
        },
        Some(c) => {
            if c == 125 {
                return Ok(Some(FirstRegexToken::Times(min)));
            } else if c != 44 {
                return Err(Error::new("Illegal character in brackets"));
            }
        },
    }
    let max = match get_num(stack) {
        Err(e) => {
            return Err(e);
        },
        Ok(n) => n,
    };
    match stack.pop() {
        None => Err(Error::new("Regex ends without closing {")),
        Some(c) => {
            if c == 125 {
                Ok(Some(FirstRegexToken::MinMax(min, max)))
            } else {
                Err(Error::new("Mismatched {}"))
            }
        },
    }
}

fn scan_token(stack: &mut Vec<u8>) -> (r: Result<Option<FirstRegexToken>, Error>)
    requires
        ascii_bytes(old(stack)@),
    ensures
        ascii_bytes(final(stack)@),
        final(stack)@.len() <= old(stack)@.len(),
        match spec_scan_token(old(stack)@) {
            Ok(Some(p)) => r matches Ok(Some(t)) && t@ == p.0 && final(stack)@ == p.1,
            Ok(None) => r matches Ok(None),
            Err(m) => r matches Err(e) && e@ == m,
        },
{
    let c = match stack.pop() {
        None => {
            return Ok(None);
        },
        Some(c) => c,
    };
    if c == 92 {
        match stack.pop() {
            None => Err(Error::new("Cannot have \\ on end of regex")),
            Some(c2) => Ok(Some(FirstRegexToken::Character(get_escape_char(c2)))),
        }
    } else if c == 124 {
        Ok(Some(FirstRegexToken::Alternation))
    } else if c == 42 {
        Ok(Some(FirstRegexToken::KleenClosure))
    } else if c == 63 {
        Ok(Some(FirstRegexToken::Question))
    } else if c == 43 {
        Ok(Some(FirstRegexToken::Plus))
    } else if c == 40 {
        Ok(Some(FirstRegexToken::LParen))
    } else if c == 41 {
        Ok(Some(FirstRegexToken::RParen))
    } else if c == 123 {
        scan_times(stack)
    } else if c == 91 {
        let ghost st1 = old(stack)@.drop_last();
        let inverse = match stack.pop() {
            None => {
                return Err(Error::new("Mismatched []"));
            },
            Some(c2) => {
                if c2 == 94 {
                    true
                } else {
                    stack.push(c2);
                    proof {
                        assert(stack@ =~= st1);
                    }
                    false
                }
            },
        };
        let mut bits = make_bits();
        let ghost set_stack = stack@;
        match get_set(stack, &mut bits) {
            Err(e) => Err(e),
            Ok(()) => {
                let members = collect_bits(&bits);
                proof {
                    let p = spec_set(set_stack)->Ok_0;
                    lemma_members_below_agree(bits_set(bits@), p.0, 128);
                }
                if inverse {
                    Ok(Some(FirstRegexToken::InverseSet(members)))
                } else {
                    Ok(Some(FirstRegexToken::CharSet(members)))
                }
            },
        }
    } else if c == 46 {
        Ok(Some(FirstRegexToken::Wildcard))
    } else {
        Ok(Some(FirstRegexToken::Character(c)))
    }
}

/// Scans a pattern into first-level tokens.  Returns exactly what
/// [`spec_scan`] says: the token sequence of the pattern, or the first
/// error, with its message.
pub fn scan(regex: &str) -> (r: Result<Vec<FirstRegexToken>, Error>)
    ensures
        match spec_scan(regex@) {
            Ok(ts) => r matches Ok(v) && tokens_view(v@) == ts,
            Err(m) => r matches Err(e) && e@ == m,
        },
{
    if !regex.is_ascii() {
        return Err(Error::new("This Regex Engine only supports ASCII"));
    }
    let n = regex.unicode_len();
    if n == 0 {
        return Err(Error::new("Cannot have an empty regex"));
    }
    let mut stack: Vec<u8> = Vec::new();
    let mut i: usize = n;
    while i > 0
        invariant
            vstd::string::is_ascii(regex),
            i <= n,
            n == regex@.len(),
            stack@.len() == n - i,
            forall|j: int| 0 <= j < stack@.len() ==> stack@[j] == regex@[n - 1 - j] as u8,
        decreases i,
    {
        i = i - 1;
        stack.push(regex.get_ascii(i));
    }
    proof {
        assert(stack@ =~= ascii_stack(regex@));
        assert forall|j: int| 0 <= j < stack@.len() implies stack@[j] < 128 by {
            assert(regex@[n - 1 - j] <= '\u{7f}');
        }
    }
    let ghost orig = stack@;
    let mut tokens: Vec<FirstRegexToken> = Vec::new();
    proof {
        if spec_scan_stack(orig) is Ok {
            assert(tokens_view(tokens@) + spec_scan_stack(orig)->Ok_0 =~= spec_scan_stack(
                orig,
            )->Ok_0);
        }
    }
    loop
        invariant
            vstd::string::is_ascii(regex),
            regex@.len() > 0,
            orig == ascii_stack(regex@),
            ascii_bytes(stack@),
            match spec_scan_stack(orig) {
                Ok(ts) => spec_scan_stack(stack@) matches Ok(ts2) && ts == tokens_view(tokens@)
                    + ts2,
                Err(m) => spec_scan_stack(stack@) matches Err(m2) && m == m2,
            },
        decreases stack@.len(),
    {
        let ghost pre = stack@;
        let ghost pre_tokens = tokens@;
        proof {
            lemma_spec_scan_token_len(pre);
        }
        match scan_token(&mut stack) {
            Err(e) => {
                return Err(e);
            },
            Ok(None) => {
                proof {
                    if spec_scan_stack(orig) is Ok {
                        assert(tokens_view(tokens@) + Seq::<FirstTokenView>::empty()
                            =~= tokens_view(tokens@));
                    }
                }
                return Ok(tokens);
            },
            Ok(Some(t)) => {
                tokens.push(t);
                proof {
                    let p = spec_scan_token(pre)->Ok_0->Some_0;
                    assert(tokens_view(tokens@) =~= tokens_view(pre_tokens).push(t@));
                    if spec_scan_stack(orig) is Ok {
                        assert(spec_scan_stack(pre)->Ok_0 == seq![p.0] + spec_scan_stack(
                            stack@,
                        )->Ok_0);
                        assert(spec_scan_stack(orig)->Ok_0 =~= tokens_view(tokens@)
                            + spec_scan_stack(stack@)->Ok_0);
                    }
                }
            },
        }
    }
}

} // verus!
