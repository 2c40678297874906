use lime_lex::get_rast;
use lime_lex::Error;

#[test]
fn adj_unary() {
    let regex = "a*+";
    let regex = get_rast(regex);
    assert_eq!(regex, Err(Error::new("Regex stoped parsing before the end")));

    let regex = "(a*)+";
    let regex = get_rast(regex);
    assert_eq!(
        regex,
        Err(Error::new("Cannot have two unary operations in a row"))
    );
}

#[test]
fn bad_times_min_max() {
    let regex = "a{2,1}";
    let regex = get_rast(regex);
    assert_eq!(
        regex,
        Err(Error::new("In {min,max} operator, min should be less than max"))
    );

    let regex = "a{0}";
    let regex = get_rast(regex);
    assert_eq!(
        regex,
        Err(Error::new("In {times} operator, times should be greater than zero"))
    );
}

#[test]
fn it_works() {
    assert_eq!(2 + 2, 4);
}
