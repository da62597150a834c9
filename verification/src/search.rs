use crate::trie::{descend, lemma_descend_dead_end, lexicon, rows, Vertex};
use vstd::prelude::*;
use vstd::string::StrSliceExecFns;

verus! {

/// One piece of a decomposition.
#[derive(Clone, Copy, Debug, PartialEq, Eq, Structural)]
pub enum Token {
    /// The dictionary word with this index.
    Word(usize),
    /// A digit that no word covers, carried through as it stands.
    Literal(char),
}

/// Whether every word index among `tokens` is below `bound`.
pub open spec fn words_below(tokens: Seq<Token>, bound: int) -> bool {
    forall|k: int|
        0 <= k < tokens.len() ==> (#[trigger] tokens[k] matches Token::Word(w) ==> w < bound)
}

/// Whether every word index in every one of `list` is below `bound`.
pub open spec fn all_below(list: Seq<Seq<Token>>, bound: int) -> bool {
    forall|d: int| 0 <= d < list.len() ==> words_below(#[trigger] list[d], bound)
}

/// Whether every index that `lex` stores is below `bound`.
pub open spec fn indexes_below(lex: Map<Seq<usize>, Seq<usize>>, bound: int) -> bool {
    forall|key: Seq<usize>, k: int|
        lex.contains_key(key) && 0 <= k < lex[key].len() ==> #[trigger] lex[key][k] < bound
}

/// Whether `c` is one of the characters `0` to `9`.
pub open spec fn is_digit(c: char) -> bool {
    '0' <= c && c <= '9'
}

/// The value of a decimal digit character, or -1 for any other character.
pub open spec fn digit_value(a: char) -> int {
    if is_digit(a) {
        a as int - '0' as int
    } else {
        -1
    }
}

/// Whether every character of `word` is a decimal digit.
pub open spec fn all_digits(word: Seq<char>) -> bool {
    forall|i: int| 0 <= i < word.len() ==> is_digit(#[trigger] word[i])
}

/// The trie key spelled by `word[start..end]`.
pub open spec fn key_of(word: Seq<char>, start: int, end: int) -> Seq<usize> {
    Seq::new((end - start) as nat, |i: int| digit_value(word[start + i]) as usize)
}

/// `token` put in front of each of `suffixes`.
pub open spec fn prepend_all(token: Token, suffixes: Seq<Seq<Token>>) -> Seq<Seq<Token>> {
    Seq::new(suffixes.len(), |i: int| seq![token] + suffixes[i])
}

/// Every word of `words` in front of every one of `suffixes`: all the
/// suffixes for the first word, then all for the second, and so on.
pub open spec fn products(words: Seq<usize>, suffixes: Seq<Seq<Token>>) -> Seq<Seq<Token>>
    decreases words.len(),
{
    if words.len() == 0 {
        Seq::empty()
    } else {
        products(words.drop_last(), suffixes) + prepend_all(Token::Word(words.last()), suffixes)
    }
}

/// Whether some key of `lex` spells `word[start..end]` for an `end` in
/// `start + 1 ..= upto`.
pub open spec fn has_word(
    lex: Map<Seq<usize>, Seq<usize>>,
    word: Seq<char>,
    start: int,
    upto: int,
) -> bool {
    exists|end: int| start < end <= upto && lex.contains_key(#[trigger] key_of(word, start, end))
}

/// The decompositions of `word[start..]` over the words of `lex`, in the
/// order in which the search finds them. `lex` gives, for the digits of each
/// word, the indexes stored for them.
///
/// Past the end there is exactly one, the empty one. Otherwise, if any word
/// starts at `start`, they are the decompositions that begin with such a
/// word. If none does, the digit at `start` may stand for itself, but only
/// where `allow_literal` holds, and the digit after it may not do the same.
pub open spec fn decompositions(
    lex: Map<Seq<usize>, Seq<usize>>,
    word: Seq<char>,
    start: int,
    allow_literal: bool,
) -> Seq<Seq<Token>>
    decreases word.len() - start, word.len() - start + 1,
{
    if start < 0 || start >= word.len() {
        seq![Seq::empty()]
    } else if has_word(lex, word, start, word.len() as int) {
        word_decompositions(lex, word, start, word.len() as int)
    } else if allow_literal {
        prepend_all(Token::Literal(word[start]), decompositions(lex, word, start + 1, false))
    } else {
        Seq::empty()
    }
}

/// The decompositions of `word[start..]` that begin with a word ending at or
/// before `upto`: shorter first words come first; for one first word, each
/// index stored for it in turn, each followed by every decomposition of the
/// rest.
pub open spec fn word_decompositions(
    lex: Map<Seq<usize>, Seq<usize>>,
    word: Seq<char>,
    start: int,
    upto: int,
) -> Seq<Seq<Token>>
    decreases word.len() - start, upto - start,
{
    if start < 0 || upto <= start || upto > word.len() {
        Seq::empty()
    } else {
        let shorter = word_decompositions(lex, word, start, upto - 1);
        let key = key_of(word, start, upto);
        if lex.contains_key(key) {
            shorter + products(lex[key], decompositions(lex, word, upto, true))
        } else {
            shorter
        }
    }
}

/// The value of the digit `a`, or -1 if `a` is no decimal digit.
pub fn char_to_int(a: char) -> (value: i32)
    ensures
        value == digit_value(a),
{
    if a >= '0' && a <= '9' {
        (a as u32 - '0' as u32) as i32
    } else {
        -1
    }
}

/// Where no word starts, no decomposition begins with a word.
pub proof fn lemma_no_word_no_decomposition(
    lex: Map<Seq<usize>, Seq<usize>>,
    word: Seq<char>,
    start: int,
    upto: int,
)
    requires
        !has_word(lex, word, start, upto),
    ensures
        word_decompositions(lex, word, start, upto) == Seq::<Seq<Token>>::empty(),
    decreases upto - start,
{
    if !(start < 0 || upto <= start || upto > word.len()) {
        assert(!lex.contains_key(key_of(word, start, upto)));
        assert forall|end: int| start < end <= upto - 1 implies !lex.contains_key(
            #[trigger] key_of(word, start, end),
        ) by {}
        lemma_no_word_no_decomposition(lex, word, start, upto - 1);
    }
}

/// Once the walk from `start` has stopped at `reached`, at `upto` or outside
/// the trie, longer first words add nothing up to `upto`.
proof fn lemma_walk_ended(root: Vertex, word: Seq<char>, start: int, reached: int, upto: int)
    requires
        0 <= start <= reached <= upto <= word.len(),
        reached < upto ==> descend(root, key_of(word, start, reached)) is None,
    ensures
        has_word(lexicon(root), word, start, upto) == has_word(lexicon(root), word, start, reached),
        word_decompositions(lexicon(root), word, start, upto) == word_decompositions(
            lexicon(root),
            word,
            start,
            reached,
        ),
    decreases upto - reached,
{
    let lex = lexicon(root);
    if reached < upto {
        lemma_walk_ended(root, word, start, reached, upto - 1);
        let key = key_of(word, start, upto);
        assert(key.take(reached - start) =~= key_of(word, start, reached));
        lemma_descend_dead_end(root, key, reached - start);
        assert(!lex.contains_key(key));
        if has_word(lex, word, start, upto) {
            let end = choose|end: int|
                start < end <= upto && lex.contains_key(#[trigger] key_of(word, start, end));
            assert(start < end <= upto - 1);
        }
        if has_word(lex, word, start, upto - 1) {
            let end = choose|end: int|
                start < end <= upto - 1 && lex.contains_key(#[trigger] key_of(word, start, end));
            assert(start < end <= upto);
        }
    }
}

/// Appends to `res`, for each of `suffixes` in turn, `token` followed by it.
fn push_prepended(res: &mut Vec<Vec<Token>>, token: Token, suffixes: &Vec<Vec<Token>>)
    ensures
        rows(final(res)@) == rows(old(res)@) + prepend_all(token, rows(suffixes@)),
{
    let ghost before = rows(res@);
    for i in 0..suffixes.len()
        invariant
            rows(res@) == before + prepend_all(token, rows(suffixes@)).take(i as int),
    {
        let suffix = &suffixes[i];
        let mut row: Vec<Token> = Vec::new();
        row.push(token);
        for j in 0..suffix.len()
            invariant
                row@ == seq![token] + suffix@.take(j as int),
        {
            row.push(suffix[j]);
            assert(suffix@.take(j + 1) =~= suffix@.take(j as int).push(suffix@[j as int]));
        }
        assert(suffix@.take(suffix.len() as int) =~= suffix@);
        let ghost previous = rows(res@);
        res.push(row);
        proof {
            let all = prepend_all(token, rows(suffixes@));
            assert(all.take(i + 1) =~= all.take(i as int).push(all[i as int]));
            assert(rows(res@) =~= previous.push(row@));
        }
    }
    proof {
        let all = prepend_all(token, rows(suffixes@));
        assert(all.take(suffixes.len() as int) =~= all);
    }
}

/// Appends to `res` every word of `words` in front of every one of `suffixes`.
fn push_products(res: &mut Vec<Vec<Token>>, words: &Vec<usize>, suffixes: &Vec<Vec<Token>>)
    ensures
        rows(final(res)@) == rows(old(res)@) + products(words@, rows(suffixes@)),
{
    let ghost before = rows(res@);
    for k in 0..words.len()
        invariant
            rows(res@) == before + products(words@.take(k as int), rows(suffixes@)),
    {
        push_prepended(res, Token::Word(words[k]), suffixes);
        proof {
            assert(words@.take(k + 1).drop_last() =~= words@.take(k as int));
        }
    }
    proof {
        assert(words@.take(words.len() as int) =~= words@);
    }
}

/// All decompositions of `word[index..]` into words of the trie under `root`
/// and single digits that no word covers.
///
/// A digit stands for itself only where no word starts at its position, and
/// then only if `can_digit` holds; the digit after it may not stand for
/// itself. Every word match is followed up, not only the first or the
/// longest, and each index stored for a match gives decompositions of its own.
pub fn get_ans(root: &Vertex, word: &String, index: usize, can_digit: bool) -> (res: Vec<
    Vec<Token>,
>)
    requires
        all_digits(word@),
    ensures
        rows(res@) == decompositions(lexicon(*root), word@, index as int, can_digit),
        index >= word@.len() ==> rows(res@) == seq![Seq::<Token>::empty()],
    decreases word@.len() - index,
{
    let text = word.as_str();
    let len: usize = text.unicode_len();
    let mut res: Vec<Vec<Token>> = Vec::new();
    if index >= len {
        res.push(Vec::new());
        assert(rows(res@) =~= seq![Seq::<Token>::empty()]);
        return res;
    }
    let mut has_word = false;
    let mut link: &Vertex = root;
    let mut i: usize = index;
    assert(key_of(word@, index as int, i as int) =~= Seq::<usize>::empty());
    assert(rows(res@) =~= Seq::<Seq<Token>>::empty());
    while i < len && link.is_some()
        invariant
            index <= i <= len,
            len == word@.len(),
            text@ == word@,
            all_digits(word@),
            *link == descend(*root, key_of(word@, index as int, i as int)),
            has_word == self::has_word(lexicon(*root), word@, index as int, i as int),
            rows(res@) == word_decompositions(lexicon(*root), word@, index as int, i as int),
        decreases len - i,
    {
        let node = link.as_ref().unwrap();
        let digit: usize = char_to_int(text.get_char(i)) as usize;
        link = &node.children[digit];
        i += 1;
        proof {
            let key = key_of(word@, index as int, i as int);
            assert(key.drop_last() =~= key_of(word@, index as int, i - 1));
            assert(key.last() == digit);
        }
        if let Some(child) = link {
            if child.is_word_end {
                has_word = true;
                let rest = get_ans(root, word, i, true);
                push_products(&mut res, &child.word_indexes, &rest);
            }
        }
        proof {
            let lex = lexicon(*root);
            if self::has_word(lex, word@, index as int, i as int) {
                let end = choose|end: int|
                    index < end <= i && lex.contains_key(
                        #[trigger] key_of(word@, index as int, end),
                    );
                assert(end == i || (index < end <= i - 1));
            }
            if self::has_word(lex, word@, index as int, i - 1) {
                let end = choose|end: int|
                    index < end <= i - 1 && lex.contains_key(
                        #[trigger] key_of(word@, index as int, end),
                    );
                assert(index < end <= i);
            }
        }
    }
    proof {
        lemma_walk_ended(*root, word@, index as int, i as int, len as int);
        if !has_word {
            lemma_no_word_no_decomposition(lexicon(*root), word@, index as int, len as int);
        }
    }
    if !has_word && can_digit {
        let rest = get_ans(root, word, index + 1, false);
        let ch = text.get_char(index);
        push_prepended(&mut res, Token::Literal(ch), &rest);
        assert(Seq::<Seq<Token>>::empty() + prepend_all(Token::Literal(ch), rows(rest@))
            =~= prepend_all(Token::Literal(ch), rows(rest@)));
    }
    res
}

} // verus!
