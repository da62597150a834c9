use phonecode::render::render;
use phonecode::search::Token;

fn dictionary() -> Vec<String> {
    vec![String::from("a"), String::from("at"), String::from("Eat")]
}

#[test]
fn line_is_label_and_tokens_each_with_a_space() {
    let results = vec![(String::from("54"), vec![vec![Token::Word(0), Token::Literal('4')]])];
    assert_eq!(render(&dictionary(), &results), "54 a 4 \n");
}

#[test]
fn word_is_written_as_it_stands_in_the_dictionary() {
    let results = vec![(String::from("0/54"), vec![vec![Token::Word(2)]])];
    assert_eq!(render(&dictionary(), &results), "0/54 Eat \n");
}

#[test]
fn each_decomposition_has_its_line() {
    let results = vec![(
        String::from("5-4"),
        vec![vec![Token::Word(0), Token::Literal('4')], vec![Token::Word(1)]],
    )];
    assert_eq!(render(&dictionary(), &results), "5-4 a 4 \n5-4 at \n");
}

#[test]
fn empty_decomposition_gives_the_label_alone() {
    let results = vec![(String::from("--"), vec![vec![]])];
    assert_eq!(render(&dictionary(), &results), "-- \n");
}

#[test]
fn line_without_decomposition_is_dropped() {
    let results = vec![
        (String::from("44"), vec![]),
        (String::from("5"), vec![vec![Token::Word(0)]]),
        (String::from("77"), vec![]),
    ];
    assert_eq!(render(&dictionary(), &results), "5 a \n");
}

#[test]
fn no_results_give_no_text() {
    assert_eq!(render(&dictionary(), &vec![]), "");
    assert_eq!(render(&vec![], &vec![]), "");
}

#[test]
fn lines_follow_the_order_of_the_results() {
    let results = vec![
        (String::from("x"), vec![vec![Token::Literal('1')]]),
        (String::from("y"), vec![vec![Token::Word(1), Token::Word(0)], vec![Token::Literal('2')]]),
    ];
    assert_eq!(render(&dictionary(), &results), "x 1 \ny at a \ny 2 \n");
}
