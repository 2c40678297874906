use lime_lex::get_nfa;
use lime_lex::get_rast;
use lime_lex::nfa::Transition;
use lime_lex::scan::scan;
use lime_lex::scan::FirstRegexToken;
use lime_lex::Error;
use std::collections::HashSet;

/// Reference simulation of the automaton: depth-first search over pairs of
/// node index and input position, following epsilon moves freely and byte
/// moves on a match.  Accepts when the last node is reached with the whole
/// input consumed.
fn accepts(nfa: &Vec<Transition>, input: &[u8]) -> bool {
    let mut seen: HashSet<(usize, usize)> = HashSet::new();
    let mut work = vec![(0usize, 0usize)];
    while let Some((s, p)) = work.pop() {
        if !seen.insert((s, p)) {
            continue;
        }
        if s == nfa.len() - 1 && p == input.len() {
            return true;
        }
        match &nfa[s] {
            Transition::Epsilon(ts) => {
                for &t in ts {
                    work.push((t, p));
                }
            }
            Transition::Character(b, t) => {
                if p < input.len() && input[p] == *b {
                    work.push((*t, p + 1));
                }
            }
        }
    }
    false
}

#[test]
fn class_range_language() -> Result<(), Error> {
    let nfa = get_nfa("[b-d]")?;
    for byte in 0u8..128 {
        let expected = b'b' <= byte && byte <= b'd';
        assert_eq!(accepts(&nfa, &[byte]), expected);
    }
    assert!(!accepts(&nfa, b""));
    assert!(!accepts(&nfa, b"bc"));
    Ok(())
}

#[test]
fn times_language() -> Result<(), Error> {
    let nfa = get_nfa("a{3}")?;
    assert_eq!(nfa.len(), 6);
    assert!(!accepts(&nfa, b""));
    assert!(!accepts(&nfa, b"a"));
    assert!(!accepts(&nfa, b"aa"));
    assert!(accepts(&nfa, b"aaa"));
    assert!(!accepts(&nfa, b"aaaa"));
    assert!(!accepts(&nfa, b"aab"));

    let nfa = get_nfa("a{1}")?;
    assert_eq!(nfa.len(), 2);
    let nfa = get_nfa("a{5}")?;
    assert_eq!(nfa.len(), 10);

    let nfa = get_nfa("a{12}")?;
    assert_eq!(nfa.len(), 24);
    assert!(!accepts(&nfa, "a".repeat(11).as_bytes()));
    assert!(accepts(&nfa, "a".repeat(12).as_bytes()));
    assert!(!accepts(&nfa, "a".repeat(13).as_bytes()));
    let nfa = get_nfa("a{255}")?;
    assert_eq!(nfa.len(), 510);
    assert!(accepts(&nfa, "a".repeat(255).as_bytes()));
    assert!(!accepts(&nfa, "a".repeat(254).as_bytes()));
    Ok(())
}

#[test]
fn question_language() -> Result<(), Error> {
    let nfa = get_nfa("a?")?;
    assert!(accepts(&nfa, b""));
    assert!(accepts(&nfa, b"a"));
    assert!(!accepts(&nfa, b"b"));
    assert!(!accepts(&nfa, b"aa"));
    Ok(())
}

#[test]
fn kleen_and_plus_language() -> Result<(), Error> {
    let nfa = get_nfa("a*")?;
    assert!(accepts(&nfa, b""));
    assert!(accepts(&nfa, b"a"));
    assert!(accepts(&nfa, b"aaaa"));
    assert!(!accepts(&nfa, b"b"));

    let nfa = get_nfa("a+")?;
    assert!(!accepts(&nfa, b""));
    assert!(accepts(&nfa, b"a"));
    assert!(accepts(&nfa, b"aaa"));
    assert!(!accepts(&nfa, b"ab"));
    Ok(())
}

#[test]
fn min_max_language() -> Result<(), Error> {
    let nfa = get_nfa("a{0,3}")?;
    assert!(accepts(&nfa, b""));
    assert!(accepts(&nfa, b"a"));
    assert!(accepts(&nfa, b"aa"));
    assert!(accepts(&nfa, b"aaa"));
    assert!(!accepts(&nfa, b"aaaa"));

    let nfa = get_nfa("a{2,4}")?;
    assert!(!accepts(&nfa, b""));
    assert!(!accepts(&nfa, b"a"));
    assert!(accepts(&nfa, b"aa"));
    assert!(accepts(&nfa, b"aaa"));
    assert!(accepts(&nfa, b"aaaa"));
    assert!(!accepts(&nfa, b"aaaaa"));
    Ok(())
}

#[test]
fn wildcard_language() -> Result<(), Error> {
    let nfa = get_nfa(".")?;
    assert!(accepts(&nfa, b"x"));
    assert!(accepts(&nfa, &[0u8]));
    assert!(accepts(&nfa, &[126u8]));
    assert!(!accepts(&nfa, &[127u8]));
    assert!(!accepts(&nfa, b""));
    assert!(!accepts(&nfa, b"xy"));
    Ok(())
}

#[test]
fn inverse_class_language() -> Result<(), Error> {
    let nfa = get_nfa("[^a]")?;
    assert!(!accepts(&nfa, b"a"));
    assert!(accepts(&nfa, b"b"));
    assert!(accepts(&nfa, &[0u8]));
    assert!(accepts(&nfa, &[126u8]));
    assert!(!accepts(&nfa, &[127u8]));
    Ok(())
}

#[test]
fn combo_language() -> Result<(), Error> {
    let nfa = get_nfa("a(b|c)*")?;
    assert!(accepts(&nfa, b"a"));
    assert!(accepts(&nfa, b"ab"));
    assert!(accepts(&nfa, b"acbc"));
    assert!(!accepts(&nfa, b"b"));
    assert!(!accepts(&nfa, b"ad"));
    Ok(())
}

#[test]
fn escaped_range_endpoints() -> Result<(), Error> {
    let tokens = scan(r"[\n-\r]")?;
    assert_eq!(tokens.len(), 1);
    match &tokens[0] {
        FirstRegexToken::CharSet(s) => {
            assert_eq!(s, &vec![10u8, 11, 12, 13]);
        }
        _ => panic!("Unexpected token"),
    }

    let nfa = get_nfa(r"[\n-\r]")?;
    for byte in 0u8..128 {
        let expected = 10 <= byte && byte <= 13;
        assert_eq!(accepts(&nfa, &[byte]), expected);
    }
    Ok(())
}

#[test]
fn escape_characters() -> Result<(), Error> {
    let tokens = scan(r"\n\r\t\0\x")?;
    assert_eq!(
        tokens,
        [
            FirstRegexToken::Character(10),
            FirstRegexToken::Character(13),
            FirstRegexToken::Character(9),
            FirstRegexToken::Character(0),
            FirstRegexToken::Character(b'x'),
        ]
    );
    Ok(())
}

#[test]
fn rejected_patterns() {
    assert_eq!(get_nfa(""), Err(Error::new("Cannot have an empty regex")));
    assert_eq!(
        get_nfa("caf\u{e9}"),
        Err(Error::new("This Regex Engine only supports ASCII"))
    );
    assert_eq!(
        get_nfa("a\\"),
        Err(Error::new("Cannot have \\ on end of regex"))
    );
    assert_eq!(get_nfa("["), Err(Error::new("Mismatched []")));
    assert_eq!(get_nfa("a[]b"), Err(Error::new("Cannot have an empty set []")));
    assert_eq!(get_nfa("[a"), Err(Error::new("Mismatched []")));
    assert_eq!(get_nfa("[a-b"), Err(Error::new("Mismatched []")));
    assert_eq!(get_nfa("[^"), Err(Error::new("Mismatched []")));
    assert_eq!(get_nfa("[a-\\"), Err(Error::new("Cannot have \\ on end of regex")));
    assert_eq!(
        get_nfa("a{0}"),
        Err(Error::new("In {times} operator, times should be greater than zero"))
    );
    assert_eq!(
        get_nfa("a{2,1}"),
        Err(Error::new("In {min,max} operator, min should be less than max"))
    );
    assert_eq!(
        get_nfa("(a*)+"),
        Err(Error::new("Cannot have two unary operations in a row"))
    );
}

#[test]
fn lex_errors() {
    assert_eq!(
        get_nfa("a{256}"),
        Err(Error::new("Numbers in {} must be less than 256"))
    );
    assert_eq!(get_nfa("a{"), Err(Error::new("Mismatched {")));
    assert_eq!(
        get_nfa("a{2"),
        Err(Error::new("Regex ends without closing {"))
    );
    assert_eq!(
        get_nfa("a{2,3"),
        Err(Error::new("Regex ends without closing {"))
    );
    assert_eq!(
        get_nfa("a{2;3}"),
        Err(Error::new("Illegal character in brackets"))
    );
    assert_eq!(get_nfa("a{2,3)"), Err(Error::new("Mismatched {}")));
}

#[test]
fn parse_errors() {
    assert_eq!(
        get_nfa("(a"),
        Err(Error::new("Reached end of regex while parsing"))
    );
    assert_eq!(
        get_nfa(")"),
        Err(Error::new("Unexpected token, expected char or '('"))
    );
    assert_eq!(
        get_nfa("a)"),
        Err(Error::new("Regex stoped parsing before the end"))
    );
    assert_eq!(
        get_nfa("a*+"),
        Err(Error::new("Regex stoped parsing before the end"))
    );
}

#[test]
fn compile_is_deterministic() {
    let first = get_nfa("a(b|c)*d{2,4}");
    let second = get_nfa("a(b|c)*d{2,4}");
    assert_eq!(first, second);
    let first = get_rast("[f-h]x?");
    let second = get_rast("[f-h]x?");
    assert_eq!(first, second);
}

#[test]
fn error_message_accessor() {
    let e = Error::new("Mismatched []");
    assert_eq!(e.message(), "Mismatched []");
    let b = Error::new_box("Mismatched {}");
    assert_eq!(b.message(), "Mismatched {}");
}
