use phonecode::search::{char_to_int, get_ans, Token};
use phonecode::trie::{build, empty_node, insert, Vertex};

fn trie_of(sequences: &Vec<Vec<usize>>) -> Vertex {
    let mut root: Vertex = Some(Box::new(empty_node()));
    build(&mut root, sequences);
    root
}

fn search(root: &Vertex, digits: &str) -> Vec<Vec<Token>> {
    get_ans(root, &String::from(digits), 0, true)
}

fn word(index: usize) -> Token {
    Token::Word(index)
}

fn literal(digit: char) -> Token {
    Token::Literal(digit)
}

#[test]
fn char_to_int_gives_the_value_of_a_digit() {
    assert_eq!(char_to_int('0'), 0);
    assert_eq!(char_to_int('1'), 1);
    assert_eq!(char_to_int('4'), 4);
    assert_eq!(char_to_int('9'), 9);
}

#[test]
fn char_to_int_gives_minus_one_for_anything_else() {
    assert_eq!(char_to_int('a'), -1);
    assert_eq!(char_to_int('/'), -1);
    assert_eq!(char_to_int(':'), -1);
    assert_eq!(char_to_int(' '), -1);
    assert_eq!(char_to_int('\u{0663}'), -1);
    assert_eq!(char_to_int('\u{ff11}'), -1);
}

#[test]
fn single_word_covers_the_whole_string() {
    let root = trie_of(&vec![vec![0, 5, 4]]);
    assert_eq!(search(&root, "054"), vec![vec![word(0)]]);
}

#[test]
fn short_word_with_literal_and_long_word() {
    let root = trie_of(&vec![vec![5], vec![5, 4]]);
    let found = search(&root, "54");
    assert!(found.contains(&vec![word(0), literal('4')]));
    assert!(found.contains(&vec![word(1)]));
    assert_eq!(found, vec![vec![word(0), literal('4')], vec![word(1)]]);
}

#[test]
fn two_digits_in_a_row_without_a_word_give_nothing() {
    let root = trie_of(&vec![vec![5]]);
    assert_eq!(search(&root, "44"), Vec::<Vec<Token>>::new());
    assert_eq!(search(&root, "544"), Vec::<Vec<Token>>::new());
    assert_eq!(search(&root, "445"), Vec::<Vec<Token>>::new());
    assert_eq!(search(&root, "5445"), Vec::<Vec<Token>>::new());
}

#[test]
fn literal_is_refused_where_the_flag_forbids_it() {
    let root = trie_of(&vec![vec![5]]);
    let digits = String::from("45");
    assert_eq!(get_ans(&root, &digits, 0, false), Vec::<Vec<Token>>::new());
    assert_eq!(get_ans(&root, &digits, 0, true), vec![vec![literal('4'), word(0)]]);
    assert_eq!(get_ans(&root, &digits, 1, false), vec![vec![word(0)]]);
}

#[test]
fn empty_string_has_the_empty_decomposition() {
    let empty: Vec<Vec<Token>> = vec![vec![]];
    assert_eq!(search(&trie_of(&vec![]), ""), empty);
    assert_eq!(search(&trie_of(&vec![vec![1], vec![2, 3]]), ""), empty);
    assert_eq!(search(&None, ""), empty);
    assert_eq!(get_ans(&trie_of(&vec![vec![1]]), &String::new(), 0, false), empty);
}

#[test]
fn start_past_the_end_has_the_empty_decomposition() {
    let root = trie_of(&vec![vec![1]]);
    let empty: Vec<Vec<Token>> = vec![vec![]];
    assert_eq!(get_ans(&root, &String::from("11"), 2, true), empty);
    assert_eq!(get_ans(&root, &String::from("11"), 5, false), empty);
}

#[test]
fn without_words_only_a_single_digit_decodes() {
    let root = trie_of(&vec![]);
    assert_eq!(search(&root, ""), vec![Vec::<Token>::new()]);
    assert_eq!(search(&root, "7"), vec![vec![literal('7')]]);
    assert_eq!(search(&root, "77"), Vec::<Vec<Token>>::new());
    assert_eq!(search(&root, "123"), Vec::<Vec<Token>>::new());
}

#[test]
fn words_elsewhere_do_not_help() {
    let root = trie_of(&vec![vec![1, 2], vec![3]]);
    assert_eq!(search(&root, "7"), vec![vec![literal('7')]]);
    assert_eq!(search(&root, "78"), Vec::<Vec<Token>>::new());
    assert_eq!(search(&root, "1"), vec![vec![literal('1')]]);
}

#[test]
fn search_twice_gives_the_same() {
    let root = trie_of(&vec![vec![5], vec![5, 4], vec![4], vec![5]]);
    let first = search(&root, "5454");
    let second = search(&root, "5454");
    assert_eq!(first, second);
    assert!(!first.is_empty());
}

#[test]
fn words_with_the_same_digits_both_appear() {
    let root = trie_of(&vec![vec![5], vec![5]]);
    assert_eq!(search(&root, "5"), vec![vec![word(0)], vec![word(1)]]);
    assert_eq!(
        search(&root, "55"),
        vec![
            vec![word(0), word(0)],
            vec![word(0), word(1)],
            vec![word(1), word(0)],
            vec![word(1), word(1)],
        ]
    );
}

#[test]
fn words_with_the_same_digits_appear_at_any_position() {
    let root = trie_of(&vec![vec![1, 2], vec![7], vec![1, 2]]);
    let found = search(&root, "7129");
    assert!(found.contains(&vec![word(1), word(0), literal('9')]));
    assert!(found.contains(&vec![word(1), word(2), literal('9')]));
    assert_eq!(
        found,
        vec![vec![word(1), word(0), literal('9')], vec![word(1), word(2), literal('9')]]
    );
}

#[test]
fn every_length_of_first_word_is_followed_up() {
    let root = trie_of(&vec![vec![1], vec![1, 2], vec![1, 2, 3], vec![2, 3], vec![3]]);
    assert_eq!(
        search(&root, "123"),
        vec![
            vec![word(0), word(3)],
            vec![word(1), word(4)],
            vec![word(2)],
        ]
    );
}

#[test]
fn a_word_that_leads_nowhere_still_forbids_the_literal() {
    let root = trie_of(&vec![vec![1]]);
    assert_eq!(search(&root, "199"), Vec::<Vec<Token>>::new());
}

#[test]
fn literal_digits_may_alternate_with_words() {
    let root = trie_of(&vec![vec![5]]);
    assert_eq!(search(&root, "4"), vec![vec![literal('4')]]);
    assert_eq!(search(&root, "45"), vec![vec![literal('4'), word(0)]]);
    assert_eq!(search(&root, "454"), vec![vec![literal('4'), word(0), literal('4')]]);
    assert_eq!(
        search(&root, "45454"),
        vec![vec![literal('4'), word(0), literal('4'), word(0), literal('4')]]
    );
}

#[test]
fn literal_is_taken_only_where_no_word_starts() {
    let root = trie_of(&vec![vec![5, 5]]);
    assert_eq!(search(&root, "55"), vec![vec![word(0)]]);
    assert_eq!(search(&root, "555"), vec![vec![word(0), literal('5')]]);
    assert_eq!(search(&root, "5"), vec![vec![literal('5')]]);
}

#[test]
fn search_starts_at_the_given_index() {
    let root = trie_of(&vec![vec![5], vec![4]]);
    let digits = String::from("954");
    assert_eq!(get_ans(&root, &digits, 1, true), vec![vec![word(0), word(1)]]);
    assert_eq!(get_ans(&root, &digits, 2, true), vec![vec![word(1)]]);
    assert_eq!(get_ans(&root, &digits, 0, true), vec![vec![literal('9'), word(0), word(1)]]);
}

#[test]
fn a_missing_root_holds_no_word() {
    let root: Vertex = None;
    assert_eq!(search(&root, "3"), vec![vec![literal('3')]]);
    assert_eq!(search(&root, "33"), Vec::<Vec<Token>>::new());
}

#[test]
fn a_marked_root_is_no_word() {
    let mut root: Vertex = Some(Box::new(empty_node()));
    insert(&mut root, 0, &vec![], 0);
    insert(&mut root, 1, &vec![5], 0);
    assert_eq!(search(&root, "5"), vec![vec![word(1)]]);
    assert_eq!(search(&root, "4"), vec![vec![literal('4')]]);
    assert_eq!(search(&root, "44"), Vec::<Vec<Token>>::new());
}

#[test]
fn the_number_of_decompositions_may_grow_fast() {
    let root = trie_of(&vec![vec![1], vec![1], vec![1, 1]]);
    assert_eq!(search(&root, "1").len(), 2);
    assert_eq!(search(&root, "11").len(), 5);
    assert_eq!(search(&root, "111").len(), 12);
    assert_eq!(search(&root, "1111").len(), 29);
}
