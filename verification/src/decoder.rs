use crate::clean::{clean_nums, digits_only, lemma_digits_only_are_digits};
use crate::keypad::{
    digit_sequence, init_keyboard, keypad, lemma_digit_sequence_bound, lowercase_of,
    words_to_nums,
};
use crate::render::{findings, output_text, render, texts};
use crate::search::{decompositions, get_ans, words_below, Token};
use crate::theorems::{
    theorem_built_from_nothing, theorem_dictionary_indexes, theorem_indexes_from_lexicon,
};
use crate::trie::{build, dictionary_lexicon, empty_node, lexicon, rows, Vertex, SIZE};
use vstd::prelude::*;

verus! {

/// What the words of `lex` make of each of `lines`: the line as it stands,
/// with the decompositions of its digits.
pub open spec fn decoded(lex: Map<Seq<usize>, Seq<usize>>, lines: Seq<Seq<char>>) -> Seq<
    (Seq<char>, Seq<Seq<Token>>),
> {
    Seq::new(
        lines.len(),
        |i: int| (lines[i], decompositions(lex, digits_only(lines[i]), 0, true)),
    )
}

/// The digit sequences of the words of a dictionary under the keypad.
pub open spec fn dictionary_sequences(dict: Seq<Seq<char>>) -> Seq<Seq<usize>> {
    Seq::new(dict.len(), |i: int| digit_sequence(lowercase_of(dict[i]), keypad()))
}

/// Decodes every line: whatever is no digit is dropped from it, and the
/// digits are searched from their start, a literal digit allowed. Each
/// result is labelled with the line as it was given.
pub fn decode(root: &Vertex, nums: &Vec<String>) -> (res: Vec<(String, Vec<Vec<Token>>)>)
    ensures
        findings(res@) == decoded(lexicon(*root), texts(nums@)),
{
    let cleaned = clean_nums(nums);
    let mut res: Vec<(String, Vec<Vec<Token>>)> = Vec::new();
    for k in 0..cleaned.len()
        invariant
            cleaned.len() == nums.len(),
            forall|i: int|
                0 <= i < nums.len() ==> {
                    &&& (#[trigger] cleaned[i]).0@ == digits_only(nums[i]@)
                    &&& cleaned[i].1@ == nums[i]@
                },
            res.len() == k,
            forall|i: int|
                0 <= i < k ==> {
                    &&& (#[trigger] res[i]).0@ == nums[i]@
                    &&& rows(res[i].1@) == decompositions(
                        lexicon(*root),
                        digits_only(nums[i]@),
                        0,
                        true,
                    )
                },
    {
        proof {
            lemma_digits_only_are_digits(nums[k as int]@);
        }
        let found = get_ans(root, &cleaned[k].0, 0, true);
        res.push((cleaned[k].1.clone(), found));
    }
    assert(findings(res@) =~= decoded(lexicon(*root), texts(nums@)));
    res
}

/// The whole way from the lines of the dictionary and the lines to decode to
/// the text of the output: the words are turned into digits by the
/// keypad and stored in a trie under their positions, every line is decoded
/// against it, and what was found is written out line by line.
pub fn solve(dict: &Vec<String>, nums: &Vec<String>) -> (text: String)
    ensures
        text@ == output_text(
            texts(dict@),
            decoded(dictionary_lexicon(dictionary_sequences(texts(dict@))), texts(nums@)),
        ),
{
    let numbers = init_keyboard();
    let dict_nums = words_to_nums(dict, &numbers);
    let ghost seqs = dictionary_sequences(texts(dict@));
    proof {
        assert(rows(dict_nums@) =~= seqs);
        assert forall|i: int, j: int|
            0 <= i < dict_nums.len() && 0 <= j < dict_nums[i].len() implies dict_nums[i][j]
            < SIZE by {
            lemma_digit_sequence_bound(lowercase_of(dict[i]@), numbers@, SIZE as int);
        }
    }
    let mut root: Vertex = Some(Box::new(empty_node()));
    let ghost fresh = root;
    build(&mut root, &dict_nums);
    let results = decode(&root, nums);
    proof {
        theorem_built_from_nothing(fresh, root, seqs);
        theorem_dictionary_indexes(seqs);
        let found = findings(results@);
        assert(found.len() == results.len());
        assert(found.len() == texts(nums@).len());
        assert forall|i: int, j: int|
            0 <= i < results.len() && 0 <= j < results[i].1.len() implies words_below(
            #[trigger] results[i].1[j]@,
            dict.len() as int,
        ) by {
            lemma_digits_only_are_digits(nums[i]@);
            theorem_indexes_from_lexicon(
                dictionary_lexicon(seqs),
                digits_only(nums[i]@),
                0,
                true,
                dict.len() as int,
            );
            assert(texts(nums@)[i] == nums[i]@);
            assert(found[i] == decoded(dictionary_lexicon(seqs), texts(nums@))[i]);
            assert(found[i].1 == decompositions(
                dictionary_lexicon(seqs),
                digits_only(nums[i]@),
                0,
                true,
            ));
            assert(found[i].1[j] == results[i].1[j]@);
        }
    }
    render(dict, &results)
}

} // verus!
