use std::collections::HashMap;
use vstd::prelude::*;
use vstd::string::StrSliceExecFns;

verus! {

/// The lower-case form of a text, as the standard library computes it.
pub uninterp spec fn lowercase_of(text: Seq<char>) -> Seq<char>;

/// `str::to_lowercase` of the standard library: the lower-case equivalent of
/// `text` as a new string. Which characters it changes, and into what, is
/// the library's matter (Unicode's `Lowercase` property); the result depends
/// on the text alone and is known here only by its name.
#[verifier::external_body]
fn to_lowercase(text: &str) -> (lowered: String)
    ensures
        lowered@ == lowercase_of(text@),
{
    text.to_lowercase()
}

/// Whether `c` is one of the letters `a` to `z`.
pub open spec fn is_lower(c: char) -> bool {
    'a' <= c && c <= 'z'
}

/// The digit that the keypad has for the letter `c`.
pub open spec fn keypad_digit(c: char) -> usize
    recommends
        is_lower(c),
{
    if c == 'e' {
        0
    } else if c == 'j' || c == 'n' || c == 'q' {
        1
    } else if c == 'r' || c == 'w' || c == 'x' {
        2
    } else if c == 'd' || c == 's' || c == 'y' {
        3
    } else if c == 'f' || c == 't' {
        4
    } else if c == 'a' || c == 'm' {
        5
    } else if c == 'c' || c == 'i' || c == 'v' {
        6
    } else if c == 'b' || c == 'k' || c == 'u' {
        7
    } else if c == 'l' || c == 'o' || c == 'p' {
        8
    } else {
        9
    }
}

/// The keypad as a map: the code point of each letter `a` to `z` with the
/// letter's digit.
pub open spec fn keypad() -> Map<u32, usize> {
    Map::new(
        |code: u32| 'a' as u32 <= code <= 'z' as u32,
        |code: u32| keypad_digit(code as char),
    )
}

/// Whether `code` is the code point of one of `letters`.
spec fn is_code_of(letters: Seq<char>, code: u32) -> bool {
    exists|i: int| 0 <= i < letters.len() && (#[trigger] letters[i]) as u32 == code
}

/// Gives every one of `letters` the digit `digit` in `numbers`.
fn add_letters(numbers: &mut HashMap<u32, usize>, digit: usize, letters: &str)
    ensures
        forall|code: u32| #[trigger]
            final(numbers)@.contains_key(code) <==> old(numbers)@.contains_key(code) || is_code_of(
                letters@,
                code,
            ),
        forall|code: u32| is_code_of(letters@, code) ==> #[trigger] final(numbers)@[code] == digit,
        forall|code: u32|
            !is_code_of(letters@, code) && old(numbers)@.contains_key(code)
                ==> #[trigger] final(numbers)@[code] == old(numbers)@[code],
{
    let n: usize = letters.unicode_len();
    for k in 0..n
        invariant
            n == letters@.len(),
            forall|code: u32| #[trigger]
                numbers@.contains_key(code) <==> old(numbers)@.contains_key(code) || is_code_of(
                    letters@.take(k as int),
                    code,
                ),
            forall|code: u32|
                is_code_of(letters@.take(k as int), code) ==> #[trigger] numbers@[code] == digit,
            forall|code: u32|
                !is_code_of(letters@.take(k as int), code) && old(numbers)@.contains_key(code)
                    ==> #[trigger] numbers@[code] == old(numbers)@[code],
    {
        let ch = letters.get_char(k);
        numbers.insert(ch as u32, digit);
        proof {
            let before = letters@.take(k as int);
            let after = letters@.take(k + 1);
            assert forall|code: u32| is_code_of(after, code) <==> is_code_of(before, code) || code
                == ch as u32 by {
                if is_code_of(before, code) {
                    let i = choose|i: int| 0 <= i < before.len() && before[i] as u32 == code;
                    assert(after[i] as u32 == code);
                }
                if code == ch as u32 {
                    assert(after[k as int] as u32 == code);
                }
                if is_code_of(after, code) {
                    let i = choose|i: int| 0 <= i < after.len() && after[i] as u32 == code;
                    if i < k {
                        assert(before[i] as u32 == code);
                    }
                }
            }
        }
    }
    proof {
        assert(letters@.take(n as int) =~= letters@);
    }
}

/// The code points of up to three letters, one by one.
proof fn lemma_codes_of_group(letters: Seq<char>)
    requires
        letters.len() <= 3,
    ensures
        forall|code: u32| #[trigger]
            is_code_of(letters, code) <==> (letters.len() > 0 && letters[0] as u32 == code) || (
            letters.len() > 1 && letters[1] as u32 == code) || (letters.len() > 2 && letters[2]
                as u32 == code),
{
    assert forall|code: u32| #[trigger]
        is_code_of(letters, code) <==> (letters.len() > 0 && letters[0] as u32 == code) || (
        letters.len() > 1 && letters[1] as u32 == code) || (letters.len() > 2 && letters[2] as u32
            == code) by {
        if is_code_of(letters, code) {
            let i = choose|i: int|
                0 <= i < letters.len() && (#[trigger] letters[i]) as u32 == code;
            assert(i == 0 || i == 1 || i == 2);
        }
    }
}

/// The keypad: the digit of every letter `a` to `z`, under the letter's code
/// point.
pub fn init_keyboard() -> (numbers: HashMap<u32, usize>)
    ensures
        numbers@ == keypad(),
{
    let mut numbers: HashMap<u32, usize> = HashMap::new();
    proof {
        reveal_strlit("e");
        reveal_strlit("jnq");
        reveal_strlit("rwx");
        reveal_strlit("dsy");
        reveal_strlit("ft");
        reveal_strlit("am");
        reveal_strlit("civ");
        reveal_strlit("bku");
        reveal_strlit("lop");
        reveal_strlit("ghz");
        lemma_codes_of_group("e"@);
        lemma_codes_of_group("jnq"@);
        lemma_codes_of_group("rwx"@);
        lemma_codes_of_group("dsy"@);
        lemma_codes_of_group("ft"@);
        lemma_codes_of_group("am"@);
        lemma_codes_of_group("civ"@);
        lemma_codes_of_group("bku"@);
        lemma_codes_of_group("lop"@);
        lemma_codes_of_group("ghz"@);
    }
    add_letters(&mut numbers, 0, "e");
    add_letters(&mut numbers, 1, "jnq");
    add_letters(&mut numbers, 2, "rwx");
    add_letters(&mut numbers, 3, "dsy");
    add_letters(&mut numbers, 4, "ft");
    add_letters(&mut numbers, 5, "am");
    add_letters(&mut numbers, 6, "civ");
    add_letters(&mut numbers, 7, "bku");
    add_letters(&mut numbers, 8, "lop");
    add_letters(&mut numbers, 9, "ghz");
    assert(numbers@ =~= keypad());
    numbers
}

/// The digits that stand for the letters of `text`: every letter `a` to `z`
/// gives the digit that `numbers` has for its code point, and every other
/// character is passed over.
pub open spec fn digit_sequence(text: Seq<char>, numbers: Map<u32, usize>) -> Seq<usize> {
    text.filter(|c: char| is_lower(c)).map_values(|c: char| numbers[c as u32])
}

/// One more character adds its digit if it is a letter, and nothing otherwise.
pub proof fn lemma_digit_sequence_push(text: Seq<char>, c: char, numbers: Map<u32, usize>)
    ensures
        digit_sequence(text.push(c), numbers) == if is_lower(c) {
            digit_sequence(text, numbers).push(numbers[c as u32])
        } else {
            digit_sequence(text, numbers)
        },
{
    let letters = text.filter(|c: char| is_lower(c));
    text.lemma_filter_push(c, |c: char| is_lower(c));
    if is_lower(c) {
        assert(letters.push(c).map_values(|c: char| numbers[c as u32]) =~= letters.map_values(
            |c: char| numbers[c as u32],
        ).push(numbers[c as u32]));
    }
}

/// The digits of a text are digits that `numbers` has for letters: a bound on
/// these is a bound on them.
pub proof fn lemma_digit_sequence_bound(text: Seq<char>, numbers: Map<u32, usize>, bound: int)
    requires
        forall|c: char| is_lower(c) ==> numbers[#[trigger] (c as u32)] < bound,
    ensures
        forall|j: int|
            0 <= j < digit_sequence(text, numbers).len() ==> (#[trigger] digit_sequence(
                text,
                numbers,
            )[j]) < bound,
{
    let letters = text.filter(|c: char| is_lower(c));
    assert forall|j: int| 0 <= j < digit_sequence(text, numbers).len() implies (
    #[trigger] digit_sequence(text, numbers)[j]) < bound by {
        text.lemma_filter_pred(|c: char| is_lower(c), j);
        assert(is_lower(letters[j]));
    }
}

/// A text without characters has no digits.
pub proof fn lemma_digit_sequence_empty(numbers: Map<u32, usize>)
    ensures
        digit_sequence(Seq::empty(), numbers) == Seq::<usize>::empty(),
{
    Seq::<char>::empty().lemma_filter_len(|c: char| is_lower(c));
    assert(digit_sequence(Seq::empty(), numbers) =~= Seq::<usize>::empty());
}

/// The digit sequence of a text that is already in lower case.
pub fn letters_to_digits(text: &str, numbers: &HashMap<u32, usize>) -> (digits: Vec<usize>)
    requires
        forall|c: char| is_lower(c) ==> numbers@.contains_key(#[trigger] (c as u32)),
    ensures
        digits@ == digit_sequence(text@, numbers@),
{
    let mut digits: Vec<usize> = Vec::new();
    proof {
        lemma_digit_sequence_empty(numbers@);
        assert(text@.take(0) =~= Seq::<char>::empty());
    }
    for ch in it: text.chars()
        invariant
            forall|c: char| is_lower(c) ==> numbers@.contains_key(#[trigger] (c as u32)),
            it.seq() == text@,
            digits@ == digit_sequence(text@.take(it.index() as int), numbers@),
    {
        proof {
            let seen = it.index() as int;
            assert(text@.take(seen + 1) =~= text@.take(seen).push(ch));
            lemma_digit_sequence_push(text@.take(seen), ch, numbers@);
        }
        if ch >= 'a' && ch <= 'z' {
            let code: u32 = ch as u32;
            let digit: usize = *numbers.get(&code).unwrap();
            digits.push(digit);
        }
    }
    proof {
        assert(text@.take(text@.len() as int) =~= text@);
    }
    digits
}

/// The digit sequence of each word: the word is put in lower case, its
/// letters `a` to `z` are replaced by their digits under `numbers`, and all
/// other characters are dropped.
pub fn words_to_nums(words: &Vec<String>, numbers: &HashMap<u32, usize>) -> (res: Vec<Vec<usize>>)
    requires
        forall|c: char| is_lower(c) ==> numbers@.contains_key(#[trigger] (c as u32)),
    ensures
        res.len() == words.len(),
        forall|i: int|
            0 <= i < words.len() ==> (#[trigger] res[i])@ == digit_sequence(
                lowercase_of(words[i]@),
                numbers@,
            ),
{
    let mut res: Vec<Vec<usize>> = Vec::new();
    for k in 0..words.len()
        invariant
            forall|c: char| is_lower(c) ==> numbers@.contains_key(#[trigger] (c as u32)),
            res.len() == k,
            forall|i: int|
                0 <= i < k ==> (#[trigger] res[i])@ == digit_sequence(
                    lowercase_of(words[i]@),
                    numbers@,
                ),
    {
        let lowered = to_lowercase(words[k].as_str());
        let digits = letters_to_digits(lowered.as_str(), numbers);
        res.push(digits);
    }
    res
}

} // verus!
