use crate::search::{words_below, Token};
use crate::trie::rows;
use vstd::prelude::*;
use vstd::string::StringExecFns;

verus! {

/// The texts of a list of strings.
pub open spec fn texts(strings: Seq<String>) -> Seq<Seq<char>> {
    Seq::new(strings.len(), |i: int| strings[i]@)
}

/// What the search found for each line: the line as it was read, with its
/// decompositions.
pub open spec fn findings(results: Seq<(String, Vec<Vec<Token>>)>) -> Seq<
    (Seq<char>, Seq<Seq<Token>>),
> {
    Seq::new(results.len(), |i: int| (results[i].0@, rows(results[i].1@)))
}

/// How a token is written: a word token as the dictionary word with its
/// index, a literal token as its digit.
pub open spec fn token_text(dict: Seq<Seq<char>>, token: Token) -> Seq<char> {
    match token {
        Token::Word(index) => dict[index as int],
        Token::Literal(digit) => seq![digit],
    }
}

/// The tokens written one after the other, a space behind each.
pub open spec fn tokens_text(dict: Seq<Seq<char>>, tokens: Seq<Token>) -> Seq<char>
    decreases tokens.len(),
{
    if tokens.len() == 0 {
        Seq::empty()
    } else {
        tokens_text(dict, tokens.drop_last()) + token_text(dict, tokens.last()) + seq![' ']
    }
}

/// One line of output: the label, a space, the tokens and a line feed.
pub open spec fn line_text(dict: Seq<Seq<char>>, label: Seq<char>, tokens: Seq<Token>) -> Seq<
    char,
> {
    label + seq![' '] + tokens_text(dict, tokens) + seq!['\n']
}

/// One line for each decomposition, all under the same label.
pub open spec fn lines_text(
    dict: Seq<Seq<char>>,
    label: Seq<char>,
    decompositions: Seq<Seq<Token>>,
) -> Seq<char>
    decreases decompositions.len(),
{
    if decompositions.len() == 0 {
        Seq::empty()
    } else {
        lines_text(dict, label, decompositions.drop_last()) + line_text(
            dict,
            label,
            decompositions.last(),
        )
    }
}

/// The whole output: for each input line in turn, its decompositions, each
/// on a line of its own. An input line without decompositions leaves no
/// trace.
pub open spec fn output_text(
    dict: Seq<Seq<char>>,
    results: Seq<(Seq<char>, Seq<Seq<Token>>)>,
) -> Seq<char>
    decreases results.len(),
{
    if results.len() == 0 {
        Seq::empty()
    } else {
        output_text(dict, results.drop_last()) + lines_text(
            dict,
            results.last().0,
            results.last().1,
        )
    }
}

/// `String::push` of the standard library: `ch` is added at the end of
/// `text`, and nothing else changes.
#[verifier::external_body]
fn push_char(text: &mut String, ch: char)
    ensures
        final(text)@ == old(text)@.push(ch),
{
    text.push(ch)
}

/// Adds to `text` the line for one decomposition.
fn append_line(text: &mut String, dict: &Vec<String>, label: &str, tokens: &Vec<Token>)
    requires
        words_below(tokens@, dict.len() as int),
    ensures
        final(text)@ == old(text)@ + line_text(texts(dict@), label@, tokens@),
{
    let ghost before = text@;
    text.append(label);
    push_char(text, ' ');
    for k in 0..tokens.len()
        invariant
            words_below(tokens@, dict.len() as int),
            text@ == before + label@ + seq![' '] + tokens_text(
                texts(dict@),
                tokens@.take(k as int),
            ),
    {
        let ghost so_far = text@;
        assert(tokens@.take(k + 1).drop_last() =~= tokens@.take(k as int));
        match tokens[k] {
            Token::Word(index) => {
                assert(tokens@[k as int] matches Token::Word(w) ==> w < dict.len());
                text.append(dict[index].as_str());
            },
            Token::Literal(digit) => {
                push_char(text, digit);
                assert(so_far.push(digit) =~= so_far + seq![digit]);
            },
        }
        push_char(text, ' ');
        assert(text@ =~= before + label@ + seq![' '] + tokens_text(
            texts(dict@),
            tokens@.take(k + 1),
        ));
    }
    push_char(text, '\n');
    assert(tokens@.take(tokens.len() as int) =~= tokens@);
    assert(text@ =~= before + line_text(texts(dict@), label@, tokens@));
}

/// The text of the output for `results`: a line for every decomposition,
/// made of the input line it belongs to and of its tokens, each followed by
/// a space. A word token is written as the word of `dict` with its index, a
/// literal token as its digit.
pub fn render(dict: &Vec<String>, results: &Vec<(String, Vec<Vec<Token>>)>) -> (text: String)
    requires
        forall|i: int, j: int|
            0 <= i < results.len() && 0 <= j < results[i].1.len() ==> words_below(
                #[trigger] results[i].1[j]@,
                dict.len() as int,
            ),
    ensures
        text@ == output_text(texts(dict@), findings(results@)),
{
    let mut text = String::new();
    let ghost found = findings(results@);
    for i in 0..results.len()
        invariant
            found == findings(results@),
            forall|i: int, j: int|
                0 <= i < results.len() && 0 <= j < results[i].1.len() ==> words_below(
                    #[trigger] results[i].1[j]@,
                    dict.len() as int,
                ),
            text@ == output_text(texts(dict@), found.take(i as int)),
    {
        let label = results[i].0.as_str();
        let decompositions = &results[i].1;
        let ghost before = text@;
        for j in 0..decompositions.len()
            invariant
                i < results.len(),
                found == findings(results@),
                *decompositions == results[i as int].1,
                label@ == results[i as int].0@,
                forall|i: int, j: int|
                    0 <= i < results.len() && 0 <= j < results[i].1.len() ==> words_below(
                        #[trigger] results[i].1[j]@,
                        dict.len() as int,
                    ),
                text@ == before + lines_text(
                    texts(dict@),
                    label@,
                    rows(decompositions@).take(j as int),
                ),
        {
            append_line(&mut text, dict, label, &decompositions[j]);
            proof {
                let all = rows(decompositions@);
                assert(all.take(j + 1).drop_last() =~= all.take(j as int));
                assert(all.take(j + 1).last() == decompositions[j as int]@);
                assert(text@ =~= before + lines_text(texts(dict@), label@, all.take(j + 1)));
            }
        }
        proof {
            let all = rows(decompositions@);
            assert(all.take(decompositions.len() as int) =~= all);
            assert(found.take(i + 1).drop_last() =~= found.take(i as int));
            assert(found.take(i + 1).last() == (label@, all));
        }
    }
    proof {
        assert(found.take(results.len() as int) =~= found);
    }
    text
}

} // verus!
