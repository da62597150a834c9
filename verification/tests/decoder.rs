use phonecode::decoder::{decode, solve};
use phonecode::keypad::{init_keyboard, words_to_nums};
use phonecode::search::Token;
use phonecode::trie::{build, empty_node, Vertex};

fn lines(texts: &[&str]) -> Vec<String> {
    texts.iter().map(|text| String::from(*text)).collect()
}

fn trie_of_words(words: &Vec<String>) -> Vertex {
    let numbers = init_keyboard();
    let mut root: Vertex = Some(Box::new(empty_node()));
    build(&mut root, &words_to_nums(words, &numbers));
    root
}

#[test]
fn decode_cleans_each_line_and_keeps_it_as_label() {
    let root = trie_of_words(&lines(&["a", "at"]));
    let found = decode(&root, &lines(&["5-4", "", "4/4"]));
    assert_eq!(
        found,
        vec![
            (
                String::from("5-4"),
                vec![vec![Token::Word(0), Token::Literal('4')], vec![Token::Word(1)]],
            ),
            (String::new(), vec![vec![]]),
            (String::from("4/4"), vec![]),
        ]
    );
}

#[test]
fn decode_of_no_line_is_empty() {
    let root = trie_of_words(&lines(&["a"]));
    assert_eq!(decode(&root, &vec![]), Vec::<(String, Vec<Vec<Token>>)>::new());
}

#[test]
fn solve_eat() {
    assert_eq!(solve(&lines(&["eat"]), &lines(&["054"])), "054 eat \n");
}

#[test]
fn solve_a_and_at() {
    assert_eq!(solve(&lines(&["a", "at"]), &lines(&["54"])), "54 a 4 \n54 at \n");
}

#[test]
fn solve_drops_what_cannot_be_decoded() {
    assert_eq!(solve(&lines(&["a"]), &lines(&["44", "5", "544"])), "5 a \n");
}

#[test]
fn solve_writes_words_as_given_and_labels_as_read() {
    let dict = lines(&["Eat", "e-a't"]);
    assert_eq!(solve(&dict, &lines(&["0/54"])), "0/54 Eat \n0/54 e-a't \n");
}

#[test]
fn solve_of_an_empty_line_is_the_bare_label() {
    assert_eq!(solve(&lines(&["a"]), &lines(&["", "x"])), " \nx \n");
}

#[test]
fn solve_with_a_word_without_letters() {
    let dict = lines(&["123", "a"]);
    assert_eq!(solve(&dict, &lines(&["5", "4"])), "5 a \n4 4 \n");
}

#[test]
fn solve_without_dictionary() {
    assert_eq!(solve(&vec![], &lines(&["7", "77", ""])), "7 7 \n \n");
}

#[test]
fn solve_a_phone_number() {
    let dict = lines(&["an", "blau", "Bo\"", "Boot", "bo\"s", "da", "Fee", "fern", "Fest", "fort",
        "je", "jemand", "mir", "Mix", "Mixer", "Name", "neu", "o\"d", "Ort", "so", "Tor", "Torf",
        "Wasser"]);
    let nums = lines(&["112", "5624-82", "4824", "0721/608-4067", "10/783--5", "1078-913-5",
        "381482", "04824"]);
    let expected = "5624-82 mir Tor \n5624-82 Mix Tor \n4824 Tor 4 \n4824 fort \n4824 Torf \n\
10/783--5 je Bo\" da \n10/783--5 je bo\"s 5 \n10/783--5 neu o\"d 5 \n381482 so 1 Tor \n\
04824 0 Tor 4 \n04824 0 fort \n04824 0 Torf \n";
    assert_eq!(solve(&dict, &nums), expected);
}
