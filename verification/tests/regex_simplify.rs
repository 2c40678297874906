use lime_lex::scan::scan;
use lime_lex::simplify::simpilfy;
use lime_lex::simplify::Token::Alternation;
use lime_lex::simplify::Token::Character;
use lime_lex::simplify::Token::Concat;
use lime_lex::simplify::Token::KleenClosure;
use lime_lex::simplify::Token::LParen;
use lime_lex::simplify::Token::RParen;
use lime_lex::Error;
use rand::Rng;

#[test]
fn simplify_basic() -> Result<(), Error> {
    let regex = "aa";
    let regex = scan(regex)?;
    let tokens = simpilfy(&regex[..])?;
    assert_eq!(tokens, [Character(b'a'), Concat, Character(b'a')]);
    Ok(())
}

#[test]
fn swaping() -> Result<(), Error> {
    let regex = "[a-c]";
    let regex = scan(regex)?;
    let tokens = simpilfy(&regex[..])?;
    assert_eq!(tokens.len(), 7);
    assert_eq!(tokens[0], LParen);
    assert_eq!(tokens[6], RParen);
    assert_eq!(tokens[2], Alternation);
    assert_eq!(tokens[4], Alternation);
    assert!(tokens.contains(&Character(b'a')));
    assert!(tokens.contains(&Character(b'b')));
    assert!(tokens.contains(&Character(b'c')));

    let regex = "[^a-c]";
    let regex = scan(regex)?;
    let tokens = simpilfy(&regex[..])?;
    assert!(tokens.len() > 100);
    assert!(!tokens.contains(&Character(b'a')));
    assert!(!tokens.contains(&Character(b'b')));
    assert!(!tokens.contains(&Character(b'c')));

    Ok(())
}

#[test]
fn concat() -> Result<(), Error> {
    let regex = "a*a";
    let regex = scan(regex)?;
    let tokens = simpilfy(&regex[..])?;
    assert_eq!(tokens, [Character(b'a'), KleenClosure, Concat, Character(b'a')]);

    let regex = "a*(a)";
    let regex = scan(regex)?;
    let tokens = simpilfy(&regex[..])?;
    assert_eq!(
        tokens,
        [
            Character(b'a'),
            KleenClosure,
            Concat,
            LParen,
            Character(b'a'),
            RParen
        ]
    );
    Ok(())
}

#[test]
#[allow(unused_must_use)]
fn simplify_monkey() {
    let mut rng = rand::thread_rng();
    for _ in 0..10000 {
        let length = rng.gen_range(0, 16);
        let mut regex = String::new();
        for _ in 0..length {
            regex.push(rng.gen_range(32, 127) as u8 as char);
        }
        if let Ok(regex) = scan(&regex) {
            simpilfy(&regex[..]);
        }
    }
}
