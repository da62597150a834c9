use crate::search::{
    all_below, all_digits, decompositions, has_word, indexes_below, key_of, prepend_all, products,
    word_decompositions, words_below, Token,
};
use crate::trie::{
    built, dictionary_lexicon, inserted, is_fresh, is_word, lexicon, positions, rows, words_at,
    Vertex,
};
use vstd::prelude::*;

verus! {

/// An empty digit string has exactly one decomposition, the empty one,
/// whatever words there are.
pub proof fn theorem_empty_input(lex: Map<Seq<usize>, Seq<usize>>, allow_literal: bool)
    ensures
        decompositions(lex, Seq::empty(), 0, allow_literal) == seq![Seq::<Token>::empty()],
{
}

/// The search is a function of the trie, the digit string, the start and the
/// flag: two results for the same arguments are the same list.
pub proof fn theorem_same_input_same_result(
    root: Vertex,
    word: Seq<char>,
    index: int,
    can_digit: bool,
    first: Vec<Vec<Token>>,
    second: Vec<Vec<Token>>,
)
    requires
        rows(first@) == decompositions(lexicon(root), word, index, can_digit),
        rows(second@) == decompositions(lexicon(root), word, index, can_digit),
    ensures
        first@.len() == second@.len(),
        forall|i: int| 0 <= i < first@.len() ==> first@[i]@ == second@[i]@,
{
    assert(rows(first@).len() == first@.len());
    assert(rows(second@).len() == second@.len());
    assert forall|i: int| 0 <= i < first@.len() implies first@[i]@ == second@[i]@ by {
        assert(rows(first@)[i] == first@[i]@);
        assert(rows(second@)[i] == second@[i]@);
    }
}

/// Where no word starts at `start` and the digit there may not stand for
/// itself, nothing can be decoded from `start` on.
pub proof fn theorem_no_fallback(lex: Map<Seq<usize>, Seq<usize>>, word: Seq<char>, start: int)
    requires
        0 <= start < word.len(),
        !has_word(lex, word, start, word.len() as int),
    ensures
        decompositions(lex, word, start, false) == Seq::<Seq<Token>>::empty(),
{
}

/// Two digits in a row that no word covers cannot be decoded: if no word
/// starts at `start` nor at `start + 1`, there is no decomposition from
/// `start` on.
pub proof fn theorem_two_uncovered_digits(
    lex: Map<Seq<usize>, Seq<usize>>,
    word: Seq<char>,
    start: int,
    allow_literal: bool,
)
    requires
        all_digits(word),
        0 <= start,
        start + 1 < word.len(),
        !has_word(lex, word, start, word.len() as int),
        !has_word(lex, word, start + 1, word.len() as int),
    ensures
        decompositions(lex, word, start, allow_literal) == Seq::<Seq<Token>>::empty(),
{
    theorem_no_fallback(lex, word, start + 1);
    assert(prepend_all(Token::Literal(word[start]), Seq::<Seq<Token>>::empty())
        =~= Seq::<Seq<Token>>::empty());
}

/// If no stretch of `word` is a word, then `word` decodes only when it is at
/// most one digit long: the empty string to the empty decomposition, a
/// single digit to itself, and anything longer not at all.
pub proof fn theorem_no_word_anywhere(lex: Map<Seq<usize>, Seq<usize>>, word: Seq<char>)
    requires
        all_digits(word),
        forall|start: int, end: int|
            0 <= start < end <= word.len() ==> !lex.contains_key(
                #[trigger] key_of(word, start, end),
            ),
    ensures
        word.len() == 0 ==> decompositions(lex, word, 0, true) == seq![Seq::<Token>::empty()],
        word.len() == 1 ==> decompositions(lex, word, 0, true) == seq![
            seq![Token::Literal(word[0])],
        ],
        word.len() >= 2 ==> decompositions(lex, word, 0, true) == Seq::<Seq<Token>>::empty(),
{
    if word.len() == 1 {
        assert(!has_word(lex, word, 0, 1));
        assert(decompositions(lex, word, 1, false) == seq![Seq::<Token>::empty()]);
        assert(prepend_all(Token::Literal(word[0]), seq![Seq::<Token>::empty()]) =~= seq![
            seq![Token::Literal(word[0])],
        ]) by {
            assert(seq![Token::Literal(word[0])] + Seq::<Token>::empty() =~= seq![
                Token::Literal(word[0]),
            ]);
        }
    } else if word.len() >= 2 {
        assert(!has_word(lex, word, 0, word.len() as int));
        assert(!has_word(lex, word, 1, word.len() as int));
        theorem_two_uncovered_digits(lex, word, 0, true);
    }
}

/// A word and a suffix taken from two lists stand together in their product.
proof fn lemma_products_contains(
    words: Seq<usize>,
    suffixes: Seq<Seq<Token>>,
    w: usize,
    suffix: Seq<Token>,
)
    requires
        words.contains(w),
        suffixes.contains(suffix),
    ensures
        products(words, suffixes).contains(seq![Token::Word(w)] + suffix),
    decreases words.len(),
{
    let target = seq![Token::Word(w)] + suffix;
    let earlier = products(words.drop_last(), suffixes);
    let newest = prepend_all(Token::Word(words.last()), suffixes);
    if words.last() == w {
        let j = choose|j: int| 0 <= j < suffixes.len() && suffixes[j] == suffix;
        assert(newest[j] == target);
        assert((earlier + newest)[earlier.len() + j] == target);
    } else {
        let i = choose|i: int| 0 <= i < words.len() && words[i] == w;
        assert(words.drop_last()[i] == w);
        lemma_products_contains(words.drop_last(), suffixes, w, suffix);
        let k = choose|k: int| 0 <= k < earlier.len() && earlier[k] == target;
        assert((earlier + newest)[k] == target);
    }
}

/// What begins with a word ending at `end` is among the decompositions that
/// begin with a word ending at or before any later `upto`.
proof fn lemma_word_decompositions_contains(
    lex: Map<Seq<usize>, Seq<usize>>,
    word: Seq<char>,
    start: int,
    end: int,
    upto: int,
    w: usize,
    suffix: Seq<Token>,
)
    requires
        0 <= start < end <= upto <= word.len(),
        lex.contains_key(key_of(word, start, end)),
        lex[key_of(word, start, end)].contains(w),
        decompositions(lex, word, end, true).contains(suffix),
    ensures
        word_decompositions(lex, word, start, upto).contains(seq![Token::Word(w)] + suffix),
    decreases upto - end,
{
    let target = seq![Token::Word(w)] + suffix;
    let shorter = word_decompositions(lex, word, start, upto - 1);
    let key = key_of(word, start, upto);
    let here = products(lex[key], decompositions(lex, word, upto, true));
    if upto == end {
        lemma_products_contains(lex[key], decompositions(lex, word, end, true), w, suffix);
        let k = choose|k: int| 0 <= k < here.len() && here[k] == target;
        assert((shorter + here)[shorter.len() + k] == target);
    } else {
        lemma_word_decompositions_contains(lex, word, start, end, upto - 1, w, suffix);
        let k = choose|k: int| 0 <= k < shorter.len() && shorter[k] == target;
        if lex.contains_key(key) {
            assert((shorter + here)[k] == target);
        }
    }
}

/// Where a word spells `word[start..end]`, each index stored for it,
/// followed by any decomposition of the rest, is a decomposition from
/// `start` on.
pub proof fn theorem_word_then_rest(
    lex: Map<Seq<usize>, Seq<usize>>,
    word: Seq<char>,
    start: int,
    end: int,
    allow_literal: bool,
    w: usize,
    suffix: Seq<Token>,
)
    requires
        0 <= start < end <= word.len(),
        lex.contains_key(key_of(word, start, end)),
        lex[key_of(word, start, end)].contains(w),
        decompositions(lex, word, end, true).contains(suffix),
    ensures
        decompositions(lex, word, start, allow_literal).contains(seq![Token::Word(w)] + suffix),
{
    assert(has_word(lex, word, start, word.len() as int));
    lemma_word_decompositions_contains(lex, word, start, end, word.len() as int, w, suffix);
}

/// `run` is a run of tokens that the search can emit from `start` on,
/// entered with `allow_literal`, and that ends just before `at`, where the
/// search goes on with `allow_at`: each word token stands for a word that
/// matches where the token begins, with one of the indexes stored for it,
/// and each literal token for the digit at a place where no word starts and
/// a literal is allowed.
pub open spec fn leads_to(
    lex: Map<Seq<usize>, Seq<usize>>,
    word: Seq<char>,
    start: int,
    allow_literal: bool,
    run: Seq<Token>,
    at: int,
    allow_at: bool,
) -> bool
    decreases run.len(),
{
    if run.len() == 0 {
        start == at && allow_literal == allow_at
    } else {
        match run.first() {
            Token::Word(w) => exists|end: int|
                {
                    &&& 0 <= start < end <= word.len()
                    &&& lex.contains_key(#[trigger] key_of(word, start, end))
                    &&& lex[key_of(word, start, end)].contains(w)
                    &&& leads_to(lex, word, end, true, run.drop_first(), at, allow_at)
                },
            Token::Literal(c) => {
                &&& 0 <= start < word.len()
                &&& allow_literal
                &&& !has_word(lex, word, start, word.len() as int)
                &&& c == word[start]
                &&& leads_to(lex, word, start + 1, false, run.drop_first(), at, allow_at)
            },
        }
    }
}

/// A run of tokens that leads from `start` to `at`, followed by a
/// decomposition from `at` on, is a decomposition from `start` on.
pub proof fn theorem_run_then_rest(
    lex: Map<Seq<usize>, Seq<usize>>,
    word: Seq<char>,
    start: int,
    allow_literal: bool,
    run: Seq<Token>,
    at: int,
    allow_at: bool,
    rest: Seq<Token>,
)
    requires
        leads_to(lex, word, start, allow_literal, run, at, allow_at),
        decompositions(lex, word, at, allow_at).contains(rest),
    ensures
        decompositions(lex, word, start, allow_literal).contains(run + rest),
    decreases run.len(),
{
    if run.len() == 0 {
        assert(run + rest =~= rest);
    } else {
        let tail = run.drop_first();
        assert(run + rest =~= seq![run.first()] + (tail + rest));
        match run.first() {
            Token::Word(w) => {
                let end = choose|end: int|
                    {
                        &&& 0 <= start < end <= word.len()
                        &&& lex.contains_key(#[trigger] key_of(word, start, end))
                        &&& lex[key_of(word, start, end)].contains(w)
                        &&& leads_to(lex, word, end, true, tail, at, allow_at)
                    };
                theorem_run_then_rest(lex, word, end, true, tail, at, allow_at, rest);
                theorem_word_then_rest(lex, word, start, end, allow_literal, w, tail + rest);
            },
            Token::Literal(c) => {
                theorem_run_then_rest(lex, word, start + 1, false, tail, at, allow_at, rest);
                let after = decompositions(lex, word, start + 1, false);
                let k = choose|k: int| 0 <= k < after.len() && after[k] == tail + rest;
                assert(prepend_all(Token::Literal(c), after)[k] == seq![Token::Literal(c)] + (tail
                    + rest));
            },
        }
    }
}

/// Words that share their digits decode alike: where two indexes are stored
/// for the word that spells `word[at..end]`, every decomposition of the whole
/// string that has the one at `at` has a twin with the other in its place.
pub proof fn theorem_shared_digits(
    lex: Map<Seq<usize>, Seq<usize>>,
    word: Seq<char>,
    run: Seq<Token>,
    at: int,
    allow_at: bool,
    end: int,
    first: usize,
    second: usize,
    suffix: Seq<Token>,
)
    requires
        leads_to(lex, word, 0, true, run, at, allow_at),
        0 <= at < end <= word.len(),
        lex.contains_key(key_of(word, at, end)),
        lex[key_of(word, at, end)].contains(first),
        lex[key_of(word, at, end)].contains(second),
        decompositions(lex, word, end, true).contains(suffix),
    ensures
        decompositions(lex, word, 0, true).contains(run + (seq![Token::Word(first)] + suffix)),
        decompositions(lex, word, 0, true).contains(run + (seq![Token::Word(second)] + suffix)),
        first != second ==> run + (seq![Token::Word(first)] + suffix) != run + (seq![
            Token::Word(second),
        ] + suffix),
{
    let one = seq![Token::Word(first)] + suffix;
    let other = seq![Token::Word(second)] + suffix;
    theorem_word_then_rest(lex, word, at, end, allow_at, first, suffix);
    theorem_word_then_rest(lex, word, at, end, allow_at, second, suffix);
    theorem_run_then_rest(lex, word, 0, true, run, at, allow_at, one);
    theorem_run_then_rest(lex, word, 0, true, run, at, allow_at, other);
    if first != second {
        assert((run + one)[run.len() as int] == Token::Word(first));
        assert((run + other)[run.len() as int] == Token::Word(second));
    }
}

/// What stands in a product is a word of the one list in front of a suffix
/// of the other.
proof fn lemma_products_member(
    words: Seq<usize>,
    suffixes: Seq<Seq<Token>>,
    x: Seq<Token>,
) -> (found: (usize, Seq<Token>))
    requires
        products(words, suffixes).contains(x),
    ensures
        words.contains(found.0),
        suffixes.contains(found.1),
        x == seq![Token::Word(found.0)] + found.1,
    decreases words.len(),
{
    let all = products(words, suffixes);
    let earlier = products(words.drop_last(), suffixes);
    let newest = prepend_all(Token::Word(words.last()), suffixes);
    let k = choose|k: int| 0 <= k < all.len() && all[k] == x;
    if words.len() == 0 {
        (0, x)
    } else if k < earlier.len() {
        assert(earlier[k] == x);
        let found = lemma_products_member(words.drop_last(), suffixes, x);
        let i = choose|i: int| 0 <= i < words.drop_last().len() && words.drop_last()[i] == found.0;
        assert(words[i] == found.0);
        found
    } else {
        let j = k - earlier.len();
        assert(newest[j] == x);
        assert(words[words.len() - 1] == words.last());
        (words.last(), suffixes[j])
    }
}

/// What begins with a word begins with a word that matches at `start`, with
/// one of the indexes stored for it, and goes on with a decomposition of the
/// rest.
proof fn lemma_word_decompositions_member(
    lex: Map<Seq<usize>, Seq<usize>>,
    word: Seq<char>,
    start: int,
    upto: int,
    x: Seq<Token>,
) -> (found: (int, usize, Seq<Token>))
    requires
        word_decompositions(lex, word, start, upto).contains(x),
    ensures
        0 <= start < found.0 <= upto <= word.len(),
        lex.contains_key(key_of(word, start, found.0)),
        lex[key_of(word, start, found.0)].contains(found.1),
        decompositions(lex, word, found.0, true).contains(found.2),
        x == seq![Token::Word(found.1)] + found.2,
    decreases upto - start,
{
    let all = word_decompositions(lex, word, start, upto);
    let k = choose|k: int| 0 <= k < all.len() && all[k] == x;
    let shorter = word_decompositions(lex, word, start, upto - 1);
    let key = key_of(word, start, upto);
    if k < shorter.len() {
        assert(shorter[k] == x);
        lemma_word_decompositions_member(lex, word, start, upto - 1, x)
    } else {
        let here = products(lex[key], decompositions(lex, word, upto, true));
        assert(here[k - shorter.len()] == x);
        let found = lemma_products_member(lex[key], decompositions(lex, word, upto, true), x);
        (upto, found.0, found.1)
    }
}

/// Every decomposition is a run of tokens that leads from its start to the
/// end of the digits. The result is the flag with which the run ends.
pub proof fn theorem_results_are_runs(
    lex: Map<Seq<usize>, Seq<usize>>,
    word: Seq<char>,
    start: int,
    allow_literal: bool,
    x: Seq<Token>,
) -> (allow_at: bool)
    requires
        all_digits(word),
        0 <= start <= word.len(),
        decompositions(lex, word, start, allow_literal).contains(x),
    ensures
        leads_to(lex, word, start, allow_literal, x, word.len() as int, allow_at),
    decreases word.len() - start,
{
    let all = decompositions(lex, word, start, allow_literal);
    let k = choose|k: int| 0 <= k < all.len() && all[k] == x;
    if start >= word.len() {
        assert(x == all[0]);
        allow_literal
    } else if has_word(lex, word, start, word.len() as int) {
        let found = lemma_word_decompositions_member(lex, word, start, word.len() as int, x);
        let allow_at = theorem_results_are_runs(lex, word, found.0, true, found.2);
        assert(x.first() == Token::Word(found.1));
        assert(x.drop_first() =~= found.2);
        assert(lex.contains_key(key_of(word, start, found.0)));
        allow_at
    } else {
        let rest = decompositions(lex, word, start + 1, false);
        assert(x == seq![Token::Literal(word[start])] + rest[k]);
        let allow_at = theorem_results_are_runs(lex, word, start + 1, false, rest[k]);
        assert(x.first() == Token::Literal(word[start]));
        assert(x.drop_first() =~= rest[k]);
        allow_at
    }
}

/// The decompositions from `start` on are the runs of tokens that lead from
/// `start` to the end of the digits, no more and no less.
pub proof fn theorem_decompositions_are_the_runs(
    lex: Map<Seq<usize>, Seq<usize>>,
    word: Seq<char>,
    start: int,
    allow_literal: bool,
    x: Seq<Token>,
)
    requires
        all_digits(word),
        0 <= start <= word.len(),
    ensures
        decompositions(lex, word, start, allow_literal).contains(x) <==> exists|allow_at: bool|
            leads_to(lex, word, start, allow_literal, x, word.len() as int, allow_at),
{
    if decompositions(lex, word, start, allow_literal).contains(x) {
        let allow_at = theorem_results_are_runs(lex, word, start, allow_literal, x);
    }
    if exists|allow_at: bool|
        leads_to(lex, word, start, allow_literal, x, word.len() as int, allow_at) {
        let allow_at = choose|allow_at: bool|
            leads_to(lex, word, start, allow_literal, x, word.len() as int, allow_at);
        let nothing = Seq::<Token>::empty();
        assert(decompositions(lex, word, word.len() as int, allow_at)[0] == nothing);
        theorem_run_then_rest(
            lex,
            word,
            start,
            allow_literal,
            x,
            word.len() as int,
            allow_at,
            nothing,
        );
        assert(x + nothing =~= x);
    }
}

/// Every position listed for `key` lies within `seqs`.
proof fn lemma_positions_bound(seqs: Seq<Seq<usize>>, key: Seq<usize>)
    requires
        seqs.len() <= usize::MAX,
    ensures
        forall|k: int|
            0 <= k < positions(seqs, key).len() ==> (#[trigger] positions(seqs, key)[k])
                < seqs.len(),
    decreases seqs.len(),
{
    if seqs.len() > 0 {
        let earlier = positions(seqs.drop_last(), key);
        lemma_positions_bound(seqs.drop_last(), key);
        assert forall|k: int| 0 <= k < positions(seqs, key).len() implies (#[trigger] positions(
            seqs,
            key,
        )[k]) < seqs.len() by {
            if k < earlier.len() {
                assert(earlier[k] < seqs.len() - 1);
            }
        }
    }
}

/// The positions of `key` in `seqs` are exactly the indexes at which `seqs`
/// holds `key`.
pub proof fn theorem_positions(seqs: Seq<Seq<usize>>, key: Seq<usize>, i: int)
    requires
        seqs.len() <= usize::MAX,
        0 <= i < seqs.len(),
    ensures
        positions(seqs, key).contains(i as usize) <==> seqs[i] == key,
    decreases seqs.len(),
{
    let earlier = positions(seqs.drop_last(), key);
    let all = positions(seqs, key);
    let newest = (seqs.len() - 1) as usize;
    lemma_positions_bound(seqs.drop_last(), key);
    if i < seqs.len() - 1 {
        theorem_positions(seqs.drop_last(), key, i);
        if earlier.contains(i as usize) {
            let k = choose|k: int| 0 <= k < earlier.len() && earlier[k] == i as usize;
            assert(all[k] == i as usize);
        }
        if all.contains(i as usize) {
            let k = choose|k: int| 0 <= k < all.len() && all[k] == i as usize;
            assert(k < earlier.len());
            assert(earlier[k] == i as usize);
        }
    } else {
        if seqs.last() == key {
            assert(all[earlier.len() as int] == newest);
        } else if all.contains(i as usize) {
            let k = choose|k: int| 0 <= k < all.len() && all[k] == i as usize;
            assert(earlier[k] < seqs.len() - 1);
        }
    }
}

/// One insertion adds one entry to what the search sees: the key with the
/// indexes that its node held, and the new index behind them.
pub proof fn theorem_insert_lexicon(
    before: Vertex,
    after: Vertex,
    key: Seq<usize>,
    word_index: usize,
)
    requires
        inserted(before, after, key, word_index),
    ensures
        lexicon(after) == lexicon(before).insert(key, words_at(before, key).push(word_index)),
{
    let expected = lexicon(before).insert(key, words_at(before, key).push(word_index));
    assert forall|path: Seq<usize>| lexicon(after).contains_key(path) == expected.contains_key(
        path,
    ) by {
        assert(is_word(after, path) == (is_word(before, path) || path == key));
    }
    assert forall|path: Seq<usize>| lexicon(after).contains_key(path) implies lexicon(after)[path]
        == expected[path] by {
        assert(words_at(after, path) == if path == key {
            words_at(before, path).push(word_index)
        } else {
            words_at(before, path)
        });
    }
    assert(lexicon(after) =~= expected);
}

/// In a trie built from a dictionary alone, the indexes stored for a digit
/// sequence are the positions of the dictionary words with these digits, and
/// the sequence is marked as a word if there is such a position: the search
/// sees the dictionary's lexicon.
pub proof fn theorem_built_from_nothing(fresh: Vertex, root: Vertex, seqs: Seq<Seq<usize>>)
    requires
        is_fresh(fresh),
        built(fresh, root, seqs),
    ensures
        forall|key: Seq<usize>| #[trigger] words_at(root, key) == positions(seqs, key),
        forall|key: Seq<usize>| #[trigger] is_word(root, key) == seqs.contains(key),
        lexicon(root) == dictionary_lexicon(seqs),
{
    assert forall|key: Seq<usize>|
        words_at(root, key) == positions(seqs, key) && is_word(root, key) == seqs.contains(
            key,
        ) by {
        assert(words_at(root, key) == words_at(fresh, key) + positions(seqs, key));
        assert(Seq::<usize>::empty() + positions(seqs, key) =~= positions(seqs, key));
        assert(is_word(root, key) == (is_word(fresh, key) || seqs.contains(key)));
    }
    assert(lexicon(root) =~= dictionary_lexicon(seqs));
}

/// The root stands for no word: in a trie built from a dictionary without an
/// empty digit sequence, the root is not marked and holds no index.
pub proof fn theorem_root_unmarked(fresh: Vertex, root: Vertex, seqs: Seq<Seq<usize>>)
    requires
        seqs.len() <= usize::MAX,
        is_fresh(fresh),
        built(fresh, root, seqs),
        forall|i: int| 0 <= i < seqs.len() ==> (#[trigger] seqs[i]).len() > 0,
    ensures
        !is_word(root, Seq::empty()),
        words_at(root, Seq::empty()) == Seq::<usize>::empty(),
{
    let key = Seq::<usize>::empty();
    let found = positions(seqs, key);
    theorem_built_from_nothing(fresh, root, seqs);
    if seqs.contains(key) {
        let i = choose|i: int| 0 <= i < seqs.len() && seqs[i] == key;
        assert(seqs[i].len() > 0);
    }
    if found.len() > 0 {
        lemma_positions_bound(seqs, key);
        theorem_positions(seqs, key, found[0] as int);
        assert(found.contains(found[0]));
        assert(seqs[found[0] as int].len() > 0);
    }
    assert(found =~= Seq::<usize>::empty());
}

/// The lexicon of a dictionary stores no index but positions in the
/// dictionary.
pub proof fn theorem_dictionary_indexes(seqs: Seq<Seq<usize>>)
    requires
        seqs.len() <= usize::MAX,
    ensures
        indexes_below(dictionary_lexicon(seqs), seqs.len() as int),
{
    let lex = dictionary_lexicon(seqs);
    assert forall|key: Seq<usize>, k: int|
        lex.contains_key(key) && 0 <= k < lex[key].len() implies #[trigger] lex[key][k]
        < seqs.len() by {
        lemma_positions_bound(seqs, key);
    }
}

/// The same for the words of a dictionary: two words at the positions `first`
/// and `second` of the dictionary, with the same digits, that match the
/// digit string at `at`, stand in twin decompositions.
pub proof fn theorem_shared_digits_of_dictionary(
    seqs: Seq<Seq<usize>>,
    word: Seq<char>,
    run: Seq<Token>,
    at: int,
    allow_at: bool,
    end: int,
    first: usize,
    second: usize,
    suffix: Seq<Token>,
)
    requires
        seqs.len() <= usize::MAX,
        first < seqs.len(),
        second < seqs.len(),
        0 <= at < end <= word.len(),
        seqs[first as int] == key_of(word, at, end),
        seqs[second as int] == key_of(word, at, end),
        leads_to(dictionary_lexicon(seqs), word, 0, true, run, at, allow_at),
        decompositions(dictionary_lexicon(seqs), word, end, true).contains(suffix),
    ensures
        decompositions(dictionary_lexicon(seqs), word, 0, true).contains(
            run + (seq![Token::Word(first)] + suffix),
        ),
        decompositions(dictionary_lexicon(seqs), word, 0, true).contains(
            run + (seq![Token::Word(second)] + suffix),
        ),
{
    let key = key_of(word, at, end);
    theorem_positions(seqs, key, first as int);
    theorem_positions(seqs, key, second as int);
    assert(seqs.contains(key));
    theorem_shared_digits(
        dictionary_lexicon(seqs),
        word,
        run,
        at,
        allow_at,
        end,
        first,
        second,
        suffix,
    );
}

/// Products of words below a bound with suffixes below it stay below it.
proof fn lemma_products_below(words: Seq<usize>, suffixes: Seq<Seq<Token>>, bound: int)
    requires
        forall|k: int| 0 <= k < words.len() ==> words[k] < bound,
        all_below(suffixes, bound),
    ensures
        all_below(products(words, suffixes), bound),
    decreases words.len(),
{
    if words.len() > 0 {
        lemma_products_below(words.drop_last(), suffixes, bound);
        let earlier = products(words.drop_last(), suffixes);
        let newest = prepend_all(Token::Word(words.last()), suffixes);
        assert forall|d: int| 0 <= d < newest.len() implies words_below(
            #[trigger] newest[d],
            bound,
        ) by {
            assert(words_below(suffixes[d], bound));
        }
        assert forall|d: int| 0 <= d < (earlier + newest).len() implies words_below(
            #[trigger] (earlier + newest)[d],
            bound,
        ) by {
            if d < earlier.len() {
                assert(words_below(earlier[d], bound));
            } else {
                assert(words_below(newest[d - earlier.len()], bound));
            }
        }
    }
}

/// A decomposition names no word but those of the lexicon: if every index
/// that `lex` stores is below `bound`, so is every word index in every
/// decomposition over `lex`.
pub proof fn theorem_indexes_from_lexicon(
    lex: Map<Seq<usize>, Seq<usize>>,
    word: Seq<char>,
    start: int,
    allow_literal: bool,
    bound: int,
)
    requires
        all_digits(word),
        indexes_below(lex, bound),
    ensures
        all_below(decompositions(lex, word, start, allow_literal), bound),
    decreases word.len() - start, word.len() - start + 1,
{
    if start < 0 || start >= word.len() {
    } else if has_word(lex, word, start, word.len() as int) {
        lemma_word_decompositions_below(lex, word, start, word.len() as int, bound);
    } else if allow_literal {
        theorem_indexes_from_lexicon(lex, word, start + 1, false, bound);
        let rest = decompositions(lex, word, start + 1, false);
        let all = prepend_all(Token::Literal(word[start]), rest);
        assert forall|d: int| 0 <= d < all.len() implies words_below(#[trigger] all[d], bound) by {
            assert(words_below(rest[d], bound));
        }
    }
}

/// The same for the decompositions that begin with a word.
proof fn lemma_word_decompositions_below(
    lex: Map<Seq<usize>, Seq<usize>>,
    word: Seq<char>,
    start: int,
    upto: int,
    bound: int,
)
    requires
        all_digits(word),
        indexes_below(lex, bound),
    ensures
        all_below(word_decompositions(lex, word, start, upto), bound),
    decreases word.len() - start, upto - start,
{
    if !(start < 0 || upto <= start || upto > word.len()) {
        lemma_word_decompositions_below(lex, word, start, upto - 1, bound);
        let shorter = word_decompositions(lex, word, start, upto - 1);
        let key = key_of(word, start, upto);
        if lex.contains_key(key) {
            theorem_indexes_from_lexicon(lex, word, upto, true, bound);
            assert forall|k: int| 0 <= k < lex[key].len() implies lex[key][k] < bound by {}
            lemma_products_below(lex[key], decompositions(lex, word, upto, true), bound);
            let here = products(lex[key], decompositions(lex, word, upto, true));
            assert forall|d: int| 0 <= d < (shorter + here).len() implies words_below(
                #[trigger] (shorter + here)[d],
                bound,
            ) by {
                if d < shorter.len() {
                    assert(words_below(shorter[d], bound));
                } else {
                    assert(words_below(here[d - shorter.len()], bound));
                }
            }
        }
    }
}

} // verus!
