use phonecode::clean::{clean_num, clean_nums};

#[test]
fn clean_num_keeps_the_digits() {
    assert_eq!(clean_num("1a2"), "12");
    assert_eq!(clean_num("0/7-9"), "079");
    assert_eq!(clean_num("5624-82"), "562482");
    assert_eq!(clean_num("0123456789"), "0123456789");
}

#[test]
fn clean_num_of_no_digit_is_empty() {
    assert_eq!(clean_num(""), "");
    assert_eq!(clean_num("abc"), "");
    assert_eq!(clean_num("-/ "), "");
}

#[test]
fn clean_num_drops_digits_of_other_scripts() {
    assert_eq!(clean_num("1\u{0663}2"), "12");
    assert_eq!(clean_num("\u{ff11}7"), "7");
    assert_eq!(clean_num("\u{e4}4\u{20ac}"), "4");
}

#[test]
fn clean_nums_pairs_the_digits_with_the_line() {
    let lines =
        vec![String::from("1a2"), String::new(), String::from("abc"), String::from("0/7-9")];
    assert_eq!(
        clean_nums(&lines),
        vec![
            (String::from("12"), String::from("1a2")),
            (String::new(), String::new()),
            (String::new(), String::from("abc")),
            (String::from("079"), String::from("0/7-9")),
        ]
    );
}

#[test]
fn clean_nums_of_nothing_is_nothing() {
    assert_eq!(clean_nums(&vec![]), Vec::<(String, String)>::new());
}
