use lime_lex::get_nfa;
use lime_lex::nfa::add_nfa;
use lime_lex::nfa::Range;
use lime_lex::nfa::Transition::Character;
use lime_lex::nfa::Transition::Epsilon;
use rand::Rng;

#[test]
fn nfa_test_add_epsilon() {
    let mut node = Epsilon(Vec::new());
    node.add_epsilon(1);
    node.add_epsilon(10);
    assert_eq!(node, Epsilon(vec![1, 10]));
}

#[test]
fn nfa_test_add_nfa() {
    let mut first = vec![Character(b'a', 1), Epsilon(Vec::new())];
    let second = vec![Character(b'b', 1), Epsilon(vec![0, 1])];
    let range = add_nfa(&mut first, second);
    assert_eq!(
        first,
        vec![
            Character(b'a', 1),
            Epsilon(Vec::new()),
            Character(b'b', 3),
            Epsilon(vec![2, 3])
        ]
    );
    assert_eq!(range, Range { start: 2, end: 3 });
}

#[test]
fn test_add_epsilon() {
    let mut node = Epsilon(Vec::new());
    node.add_epsilon(1);
    node.add_epsilon(10);
    assert_eq!(node, Epsilon(vec![1, 10]));
}

#[test]
fn test_add_nfa() {
    let mut first = vec![Character(b'a', 1), Epsilon(Vec::new())];
    let second = vec![Character(b'b', 1), Epsilon(vec![0, 1])];
    let range = add_nfa(&mut first, second);
    assert_eq!(
        first,
        vec![
            Character(b'a', 1),
            Epsilon(Vec::new()),
            Character(b'b', 3),
            Epsilon(vec![2, 3])
        ]
    );
    assert_eq!(range, Range { start: 2, end: 3 });
}

#[test]
fn atomic() -> Result<(), lime_lex::Error> {
    let regex = "a";
    let nfa = get_nfa(regex)?;
    assert_eq!(nfa, vec![Character(b'a', 1), Epsilon(vec![])]);
    Ok(())
}

#[test]
fn nfa_binary() -> Result<(), lime_lex::Error> {
    let regex = "ab";
    let nfa = get_nfa(regex)?;
    assert_eq!(
        nfa,
        vec![
            Character(b'a', 1),
            Epsilon(vec![2]),
            Character(b'b', 3),
            Epsilon(vec![])
        ]
    );

    let regex = "a|b";
    let nfa = get_nfa(regex)?;
    assert_eq!(
        nfa,
        vec![
            Epsilon(vec![1, 3]),
            Character(b'a', 2),
            Epsilon(vec![5]),
            Character(b'b', 4),
            Epsilon(vec![5]),
            Epsilon(vec![])
        ]
    );
    Ok(())
}

#[test]
fn unary_kleen_closure() -> Result<(), lime_lex::Error> {
    let regex = "a*";
    let nfa = get_nfa(regex)?;
    assert_eq!(
        nfa,
        vec![
            Epsilon(vec![1, 3]),
            Character(b'a', 2),
            Epsilon(vec![3]),
            Epsilon(vec![0])
        ]
    );
    Ok(())
}

#[test]
fn unary_plus() -> Result<(), lime_lex::Error> {
    let regex = "a+";
    let nfa = get_nfa(regex)?;
    assert_eq!(
        nfa,
        vec![
            Character(b'a', 1),
            Epsilon(vec![2]),
            Epsilon(vec![3, 5]),
            Character(b'a', 4),
            Epsilon(vec![5]),
            Epsilon(vec![2])
        ]
    );
    Ok(())
}

#[test]
fn unary_question() -> Result<(), lime_lex::Error> {
    let regex = "a?";
    let nfa = get_nfa(regex)?;
    assert_eq!(
        nfa,
        vec![
            Epsilon(vec![1, 3]),
            Character(b'a', 2),
            Epsilon(vec![3]),
            Epsilon(vec![])
        ]
    );
    Ok(())
}

#[test]
fn unary_times() -> Result<(), lime_lex::Error> {
    let regex = "a{3}";
    let nfa = get_nfa(regex)?;
    assert_eq!(
        nfa,
        vec![
            Character(b'a', 1),
            Epsilon(vec![2]),
            Character(b'a', 3),
            Epsilon(vec![4]),
            Character(b'a', 5),
            Epsilon(vec![]),
        ]
    );
    Ok(())
}

#[test]
fn unary_min_max() -> Result<(), lime_lex::Error> {
    let regex = "a{2,4}";
    let nfa = get_nfa(regex)?;
    assert_eq!(
        nfa,
        vec![
            Epsilon(vec![1]),
            Character(b'a', 2),
            Epsilon(vec![3]),
            Character(b'a', 4),
            Epsilon(vec![5, 8]),
            Character(b'a', 6),
            Epsilon(vec![7, 8]),
            Character(b'a', 8),
            Epsilon(vec![]),
        ]
    );

    let regex = "a{0,3}";
    let nfa = get_nfa(regex)?;
    assert_eq!(
        nfa,
        vec![
            Epsilon(vec![1, 6]),
            Character(b'a', 2),
            Epsilon(vec![3, 6]),
            Character(b'a', 4),
            Epsilon(vec![5, 6]),
            Character(b'a', 6),
            Epsilon(vec![]),
        ]
    );
    Ok(())
}

#[test]
fn test_combo() -> Result<(), lime_lex::Error> {
    let regex = "a(b|c)*";
    let nfa = get_nfa(regex)?;
    assert_eq!(
        nfa,
        vec![
            Character(b'a', 1),
            Epsilon(vec![2]),
            Epsilon(vec![3, 9]),
            Epsilon(vec![4, 6]),
            Character(b'b', 5),
            Epsilon(vec![8]),
            Character(b'c', 7),
            Epsilon(vec![8]),
            Epsilon(vec![9]),
            Epsilon(vec![2]),
        ]
    );
    Ok(())
}

#[test]
#[allow(unused_must_use)]
fn nfa_monkey() {
    let mut rng = rand::thread_rng();
    for _ in 0..10000 {
        let length = rng.gen_range(0, 16);
        let mut regex = String::new();
        for _ in 0..length {
            regex.push(rng.gen_range(32, 127) as u8 as char);
        }
        get_nfa(&regex);
    }
}
