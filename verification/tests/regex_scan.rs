use lime_lex::scan::scan;
use lime_lex::scan::FirstRegexToken::Alternation;
use lime_lex::scan::FirstRegexToken::Character;
use lime_lex::scan::FirstRegexToken::CharSet;
use lime_lex::scan::FirstRegexToken::InverseSet;
use lime_lex::scan::FirstRegexToken::KleenClosure;
use lime_lex::scan::FirstRegexToken::LParen;
use lime_lex::scan::FirstRegexToken::MinMax;
use lime_lex::scan::FirstRegexToken::Plus;
use lime_lex::scan::FirstRegexToken::Question;
use lime_lex::scan::FirstRegexToken::RParen;
use lime_lex::scan::FirstRegexToken::Times;
use lime_lex::scan::FirstRegexToken::Wildcard;
use lime_lex::Error;
use rand::Rng;

#[test]
fn scan_basic() -> Result<(), Error> {
    let regex = r"\||*?+().a";
    let tokens = scan(regex)?;
    assert_eq!(
        tokens,
        [
            Character(b'|'),
            Alternation,
            KleenClosure,
            Question,
            Plus,
            LParen,
            RParen,
            Wildcard,
            Character(b'a')
        ]
    );
    Ok(())
}

#[test]
fn sets() -> Result<(), Error> {
    let regex = r"[a-c]";
    let tokens = scan(regex)?;
    assert_eq!(tokens.len(), 1);
    let token = tokens[0].clone();
    match token {
        CharSet(s) => {
            assert_eq!(s.len(), 3);
            assert!(s.contains(&b'a'));
            assert!(s.contains(&b'b'));
            assert!(s.contains(&b'c'));
        }
        _ => panic!("Unexpected token"),
    }

    let regex = r"[^a-c]";
    let tokens = scan(regex)?;
    assert_eq!(tokens.len(), 1);
    let token = tokens[0].clone();
    match token {
        InverseSet(s) => {
            assert_eq!(s.len(), 3);
            assert!(s.contains(&b'a'));
            assert!(s.contains(&b'b'));
            assert!(s.contains(&b'c'));
        }
        _ => panic!("Unexpected token"),
    }

    Ok(())
}

#[test]
fn brakcets() -> Result<(), Error> {
    let regex = r"a{3}";
    let tokens = scan(regex)?;
    assert_eq!(tokens, [Character(b'a'), Times(3)]);

    let regex = r"a{3,5}";
    let tokens = scan(regex)?;
    assert_eq!(tokens, [Character(b'a'), MinMax(3, 5)]);
    Ok(())
}

#[test]
#[allow(unused_must_use)]
fn scan_monkey() {
    let mut rng = rand::thread_rng();
    for _ in 0..10000 {
        let length = rng.gen_range(0, 16);
        let mut regex = String::new();
        for _ in 0..length {
            regex.push(rng.gen_range(32, 127) as u8 as char);
        }
        scan(&regex);
    }
}
