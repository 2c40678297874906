use lime_lex::get_rast;
use lime_lex::parse::BinaryOperation::Alternation;
use lime_lex::parse::BinaryOperation::Concat;
use lime_lex::parse::RAST::Atomic;
use lime_lex::parse::RAST::Binary;
use lime_lex::parse::RAST::Unary;
use lime_lex::parse::UnaryOperation::Plus;
use lime_lex::Error;
use rand::Rng;

#[test]
fn parse_basic() -> Result<(), Error> {
    let regex = "aa";
    let regex = get_rast(regex)?;
    assert_eq!(regex, Binary(Box::new(Atomic(97)), Box::new(Atomic(97)), Concat));

    Ok(())
}

#[test]
fn parse_binary() -> Result<(), Error> {
    let regex = "aa|ab";
    let regex = get_rast(regex)?;
    let expected = Binary(
        Box::new(Atomic(b'a')),
        Box::new(Binary(
            Box::new(Atomic(b'a')),
            Box::new(Binary(Box::new(Atomic(b'a')), Box::new(Atomic(b'b')), Concat)),
            Alternation,
        )),
        Concat,
    );
    assert_eq!(regex, expected);

    let regex = "(ab)|(cd)";
    let regex = get_rast(regex)?;
    let expected = Binary(
        Box::new(Binary(Box::new(Atomic(b'a')), Box::new(Atomic(b'b')), Concat)),
        Box::new(Binary(Box::new(Atomic(b'c')), Box::new(Atomic(b'd')), Concat)),
        Alternation,
    );
    assert_eq!(regex, expected);

    Ok(())
}

#[test]
fn unary() -> Result<(), Error> {
    let regex = "a+";
    let regex = get_rast(regex)?;
    let expected = Unary(Box::new(Atomic(b'a')), Plus);
    assert_eq!(regex, expected);

    let regex = "ab+";
    let regex = get_rast(regex)?;
    let expected = Binary(
        Box::new(Atomic(b'a')),
        Box::new(Unary(Box::new(Atomic(b'b')), Plus)),
        Concat,
    );
    assert_eq!(regex, expected);

    let regex = "(ab)+";
    let regex = get_rast(regex)?;
    let expected = Unary(
        Box::new(Binary(Box::new(Atomic(b'a')), Box::new(Atomic(b'b')), Concat)),
        Plus,
    );
    assert_eq!(regex, expected);

    Ok(())
}

#[test]
#[allow(unused_must_use)]
fn parse_monkey() {
    let mut rng = rand::thread_rng();
    for _ in 0..10000 {
        let length = rng.gen_range(0, 16);
        let mut regex = String::new();
        for _ in 0..length {
            regex.push(rng.gen_range(32, 127) as u8 as char);
        }
        get_rast(&regex);
    }
}
