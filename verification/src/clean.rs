use crate::search::{all_digits, is_digit};
use std::string::FromUtf8Error;
use string_builder::Builder;
use vstd::pervasive::unreached;
use vstd::prelude::*;
use vstd::utf8::{
    decode_utf8, encode_utf8, encode_utf8_decode_utf8, encode_utf8_valid_utf8, is_ascii_chars,
    is_ascii_chars_encode_utf8, valid_utf8,
};

verus! {

/// `Builder` of `string_builder`, a growable buffer of bytes. Nothing is
/// known of a value of it but what `builder_bytes` and the functions below
/// say.
#[verifier::external_type_specification]
#[verifier::external_body]
pub struct ExBuilder(Builder);

/// `FromUtf8Error` of the standard library, the error of `Builder::string`.
/// It is only carried through.
#[verifier::external_type_specification]
#[verifier::external_body]
pub struct ExFromUtf8Error(FromUtf8Error);

/// The bytes that a string builder holds, in the order in which they were
/// appended.
pub uninterp spec fn builder_bytes(builder: Builder) -> Seq<u8>;

/// `Builder::default` of `string_builder`: a builder that holds no bytes.
#[verifier::external_body]
fn new_builder() -> (builder: Builder)
    ensures
        builder_bytes(builder) == Seq::<u8>::empty(),
{
    Builder::default()
}

/// `Builder::append` of `string_builder`, for a character: the bytes of the
/// character's UTF-8 encoding are added at the end, and what the builder held
/// stays in front of them.
#[verifier::external_body]
fn append_char(builder: &mut Builder, ch: char)
    ensures
        builder_bytes(*final(builder)) == builder_bytes(*old(builder)) + encode_utf8(seq![ch]),
{
    builder.append(ch)
}

/// `Builder::string` of `string_builder`: the bytes of the builder as a
/// string. It is `String::from_utf8` on these bytes, so it succeeds exactly
/// when they are valid UTF-8, and the string is then the text that they
/// encode.
#[verifier::external_body]
fn into_string(builder: Builder) -> (text: Result<String, FromUtf8Error>)
    ensures
        text is Ok <==> valid_utf8(builder_bytes(builder)),
        text matches Ok(s) ==> s@ == decode_utf8(builder_bytes(builder)),
{
    builder.string()
}

/// The decimal digits of `text`, in their order, without anything else.
pub open spec fn digits_only(text: Seq<char>) -> Seq<char> {
    text.filter(|c: char| is_digit(c))
}

/// What `digits_only` keeps are digits.
pub proof fn lemma_digits_only_are_digits(text: Seq<char>)
    ensures
        all_digits(digits_only(text)),
{
    assert forall|i: int| 0 <= i < digits_only(text).len() implies is_digit(
        #[trigger] digits_only(text)[i],
    ) by {
        text.lemma_filter_pred(|c: char| is_digit(c), i);
    }
}

/// Digits are encoded in UTF-8 by one byte each, so that the encoding of a
/// run of digits with one more digit is the encoding of the run with the
/// encoding of the digit behind it.
proof fn lemma_encode_digit_push(kept: Seq<char>, ch: char)
    requires
        all_digits(kept),
        is_digit(ch),
    ensures
        encode_utf8(kept.push(ch)) == encode_utf8(kept) + encode_utf8(seq![ch]),
{
    let longer = kept.push(ch);
    assert(is_ascii_chars(kept)) by {
        assert forall|i: int| 0 <= i < kept.len() implies '\0' <= #[trigger] kept[i]
            <= '\u{7f}' by {
            assert(is_digit(kept[i]));
        }
    }
    assert(is_ascii_chars(seq![ch]));
    assert(is_ascii_chars(longer)) by {
        assert forall|i: int| 0 <= i < longer.len() implies '\0' <= #[trigger] longer[i]
            <= '\u{7f}' by {
            if i < kept.len() {
                assert(is_digit(kept[i]));
            }
        }
    }
    is_ascii_chars_encode_utf8(kept);
    is_ascii_chars_encode_utf8(seq![ch]);
    is_ascii_chars_encode_utf8(longer);
    let joined = encode_utf8(kept) + encode_utf8(seq![ch]);
    assert forall|i: int| 0 <= i < longer.len() implies encode_utf8(longer)[i] == joined[i] by {
        assert(longer[i] as u8 == encode_utf8(longer)[i]);
        if i < kept.len() {
            assert(kept[i] as u8 == encode_utf8(kept)[i]);
        } else {
            assert(seq![ch][0] as u8 == encode_utf8(seq![ch])[0]);
        }
    }
    assert(encode_utf8(longer) =~= joined);
}

/// The decimal digits of `num`, collected in a string builder.
pub fn clean_num(num: &str) -> (cleaned: String)
    ensures
        cleaned@ == digits_only(num@),
        all_digits(cleaned@),
{
    let mut builder = new_builder();
    proof {
        assert(num@.take(0) =~= Seq::<char>::empty());
        Seq::<char>::empty().lemma_filter_len(|c: char| is_digit(c));
        assert(digits_only(Seq::empty()) =~= Seq::<char>::empty());
    }
    for ch in it: num.chars()
        invariant
            it.seq() == num@,
            builder_bytes(builder) == encode_utf8(digits_only(num@.take(it.index() as int))),
    {
        proof {
            let seen = num@.take(it.index() as int);
            assert(num@.take(it.index() + 1) =~= seen.push(ch));
            seen.lemma_filter_push(ch, |c: char| is_digit(c));
            lemma_digits_only_are_digits(seen);
            if is_digit(ch) {
                lemma_encode_digit_push(digits_only(seen), ch);
            }
        }
        if ch >= '0' && ch <= '9' {
            append_char(&mut builder, ch);
        }
    }
    proof {
        assert(num@.take(num@.len() as int) =~= num@);
        encode_utf8_valid_utf8(digits_only(num@));
        encode_utf8_decode_utf8(digits_only(num@));
        lemma_digits_only_are_digits(num@);
    }
    match into_string(builder) {
        Ok(cleaned) => cleaned,
        Err(_) => unreached(),
    }
}

/// Each line with what is left of it when everything but its decimal digits
/// is dropped: first the digits, then the line as it was.
pub fn clean_nums(nums: &Vec<String>) -> (res: Vec<(String, String)>)
    ensures
        res.len() == nums.len(),
        forall|i: int|
            0 <= i < nums.len() ==> {
                &&& (#[trigger] res[i]).0@ == digits_only(nums[i]@)
                &&& res[i].1@ == nums[i]@
            },
{
    let mut res: Vec<(String, String)> = Vec::new();
    for k in 0..nums.len()
        invariant
            res.len() == k,
            forall|i: int|
                0 <= i < k ==> {
                    &&& (#[trigger] res[i]).0@ == digits_only(nums[i]@)
                    &&& res[i].1@ == nums[i]@
                },
    {
        let cleaned = clean_num(nums[k].as_str());
        res.push((cleaned, nums[k].clone()));
    }
    res
}

} // verus!
