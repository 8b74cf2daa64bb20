//! Text and its UTF-8 bytes: validation, comparison and order.

use vstd::prelude::*;
use vstd::string::StringSliceAdditionalSpecFns;
use vstd::utf8::decode_utf8;
use vstd::utf8::encode_utf8;
use vstd::utf8::is_char_boundary;
use vstd::utf8::length_of_first_scalar;
use vstd::utf8::pop_first_scalar;
use vstd::utf8::valid_utf8;
use crate::bytes::bytes_before;
use crate::bytes::bytes_equal;
use crate::bytes::bytes_less;
use crate::bytes::lower;
use crate::bytes::lower_all;

verus! {

/// The error that `core::str::from_utf8` reports for `bytes`, where they are
/// not UTF-8.
pub uninterp spec fn utf8_error_of(bytes: Seq<u8>) -> core::str::Utf8Error;

/// `core::str::from_utf8`: succeeds exactly on the byte strings that are
/// UTF-8, and then returns the text that has these bytes. The error it
/// reports otherwise depends on the bytes alone.
pub assume_specification[ core::str::from_utf8 ](v: &[u8]) -> (r: Result<
    &str,
    core::str::Utf8Error,
>)
    ensures
        r is Ok <==> valid_utf8(v@),
        r matches Ok(s) ==> s.spec_bytes() == v@,
        r matches Err(e) ==> e == utf8_error_of(v@),
;

/// The text that the UTF-8 bytes `bytes` stand for, or the error of their
/// validation.
pub open spec fn text_of(bytes: Seq<u8>) -> Result<Seq<char>, core::str::Utf8Error> {
    if valid_utf8(bytes) {
        Ok(decode_utf8(bytes))
    } else {
        Err(utf8_error_of(bytes))
    }
}

/// Two texts with the same UTF-8 bytes are the same text.
pub proof fn lemma_encode_injective(a: Seq<char>, b: Seq<char>)
    requires
        encode_utf8(a) == encode_utf8(b),
    ensures
        a == b,
{
    vstd::utf8::encode_utf8_decode_utf8(a);
    vstd::utf8::encode_utf8_decode_utf8(b);
}

/// Validates `bytes` as UTF-8 and returns the text they stand for.
pub fn to_text(bytes: &[u8]) -> (r: Result<&str, core::str::Utf8Error>)
    ensures
        match text_of(bytes@) {
            Ok(text) => r matches Ok(s) && s@ == text,
            Err(e) => r == Err::<&str, core::str::Utf8Error>(e),
        },
{
    match core::str::from_utf8(bytes) {
        Ok(s) => {
            proof {
                vstd::utf8::encode_utf8_decode_utf8(s@);
            }
            Ok(s)
        },
        Err(e) => Err(e),
    }
}

/// Tests whether two texts are the same.
pub fn text_equal(a: &str, b: &str) -> (r: bool)
    ensures
        r == (a@ == b@),
{
    let r = bytes_equal(a.as_bytes(), b.as_bytes());
    proof {
        if r {
            lemma_encode_injective(a@, b@);
        }
    }
    r
}

/// Tests whether `a` comes before `b` in the lexicographic order of their
/// UTF-8 bytes.
pub open spec fn text_before(a: Seq<char>, b: Seq<char>) -> bool {
    bytes_before(encode_utf8(a), encode_utf8(b))
}

/// Tests whether `a` comes before `b` in the lexicographic order of their
/// UTF-8 bytes.
pub fn text_less(a: &str, b: &str) -> (r: bool)
    ensures
        r == text_before(a@, b@),
{
    bytes_less(a.as_bytes(), b.as_bytes())
}

/// In UTF-8, an ASCII byte stands for a character of its own: a character
/// starts at it, and another one, or the end, comes right after it.
pub proof fn lemma_ascii_boundary(bytes: Seq<u8>, i: int)
    requires
        valid_utf8(bytes),
        0 <= i < bytes.len(),
        bytes[i] <= 0x7f,
    ensures
        is_char_boundary(bytes, i),
        is_char_boundary(bytes, i + 1),
    decreases bytes.len(),
{
    vstd::utf8::is_char_boundary_iff_not_is_continuation_byte(bytes, i);
    reveal_with_fuel(is_char_boundary, 2);
    if i > 0 {
        let k = length_of_first_scalar(bytes);
        let rest = pop_first_scalar(bytes);
        assert(is_char_boundary(rest, i - k));
        assert(rest[i - k] == bytes[i]);
        lemma_ascii_boundary(rest, i - k);
    }
}

/// Splits `text` at the ASCII character whose byte is at position `at`, and
/// returns what stands before it and what stands after it.
pub fn split_text(text: &str, at: usize) -> (r: (&str, &str))
    requires
        at < encode_utf8(text@).len(),
        encode_utf8(text@)[at as int] <= 0x7f,
    ensures
        encode_utf8(r.0@) == encode_utf8(text@).subrange(0, at as int),
        encode_utf8(r.1@) == encode_utf8(text@).subrange(
            at + 1,
            encode_utf8(text@).len() as int,
        ),
        r.0@ == decode_utf8(encode_utf8(text@).subrange(0, at as int)),
        r.1@ == decode_utf8(
            encode_utf8(text@).subrange(at + 1, encode_utf8(text@).len() as int),
        ),
{
    proof {
        vstd::utf8::encode_utf8_valid_utf8(text@);
        lemma_ascii_boundary(encode_utf8(text@), at as int);
    }
    let n = text.as_bytes().len();
    assert(at < n);
    let (before, _) = text.split_at(at);
    let (_, after) = text.split_at(at + 1);
    proof {
        vstd::utf8::encode_utf8_decode_utf8(before@);
        vstd::utf8::encode_utf8_decode_utf8(after@);
    }
    (before, after)
}

/// The UTF-8 bytes of two texts, one after the other, are the UTF-8 bytes of
/// the two texts joined.
pub proof fn lemma_encode_concat(a: Seq<char>, b: Seq<char>)
    ensures
        encode_utf8(a + b) == encode_utf8(a) + encode_utf8(b),
    decreases a.len(),
{
    if a.len() == 0 {
        assert(a + b =~= b);
        assert(encode_utf8(a) + encode_utf8(b) =~= encode_utf8(b));
    } else {
        assert((a + b).drop_first() =~= a.drop_first() + b);
        assert((a + b)[0] == a[0]);
        lemma_encode_concat(a.drop_first(), b);
        assert(encode_utf8(a + b) =~= encode_utf8(a) + encode_utf8(b));
    }
}

/// The UTF-8 bytes of an ASCII text are its characters.
pub proof fn lemma_encode_ascii(a: Seq<char>)
    requires
        vstd::utf8::is_ascii_chars(a),
    ensures
        encode_utf8(a).len() == a.len(),
        forall|i: int| 0 <= i < a.len() ==> #[trigger] encode_utf8(a)[i] == a[i] as u8,
{
    vstd::utf8::is_ascii_chars_encode_utf8(a);
}

/// In UTF-8, what stands before an ASCII byte and what stands after it are
/// UTF-8 too.
pub proof fn lemma_valid_around_ascii(bytes: Seq<u8>, k: int)
    requires
        valid_utf8(bytes),
        0 <= k < bytes.len(),
        bytes[k] <= 0x7f,
    ensures
        valid_utf8(bytes.subrange(0, k)),
        valid_utf8(bytes.subrange(k + 1, bytes.len() as int)),
{
    lemma_ascii_boundary(bytes, k);
    vstd::utf8::valid_utf8_split(bytes, k);
    vstd::utf8::valid_utf8_split(bytes, k + 1);
}

/// The UTF-8 bytes of the text that UTF-8 bytes stand for are these bytes.
pub proof fn lemma_encode_decode(bytes: Seq<u8>)
    requires
        valid_utf8(bytes),
    ensures
        encode_utf8(decode_utf8(bytes)) == bytes,
{
    vstd::utf8::decode_utf8_encode_utf8(bytes);
}

/// An ASCII character of a text is among the UTF-8 bytes of the text, and the
/// first byte where it is the first character.
pub proof fn lemma_ascii_char_byte(text: Seq<char>, k: int)
    requires
        0 <= k < text.len(),
        '\0' <= text[k] <= '\u{7f}',
    ensures
        exists|j: int|
            0 <= j < encode_utf8(text).len() && #[trigger] encode_utf8(text)[j] == text[k] as u8,
        k == 0 ==> encode_utf8(text).len() > 0 && encode_utf8(text)[0] == text[0] as u8,
    decreases k,
{
    vstd::utf8::char_is_scalar(text[0]);
    let head = vstd::utf8::encode_scalar(text[0] as u32);
    let rest = encode_utf8(text.drop_first());
    assert(encode_utf8(text) == head + rest);
    if k == 0 {
        let c = text[0] as u32;
        assert(c as u8 == vstd::utf8::leading_byte_width_1(c)) by (bit_vector)
            requires
                vstd::utf8::has_width_1_encoding(c),
        ;
        assert(encode_utf8(text)[0] == text[0] as u8);
    } else {
        lemma_ascii_char_byte(text.drop_first(), k - 1);
        let j = choose|j: int| 0 <= j < rest.len() && #[trigger] rest[j] == text[k] as u8;
        assert(encode_utf8(text)[head.len() + j] == rest[j]);
    }
}

/// Tests whether `text` holds no capital ASCII letter.
pub open spec fn is_lower_case(text: Seq<char>) -> bool {
    forall|k: int| 0 <= k < text.len() ==> !('A' <= #[trigger] text[k] <= 'Z')
}

/// A text holds no capital ASCII letter where its UTF-8 bytes hold none.
pub proof fn lemma_lower_case(text: Seq<char>)
    requires
        lower_all(encode_utf8(text)) == encode_utf8(text),
    ensures
        is_lower_case(text),
{
    let bytes = encode_utf8(text);
    assert forall|k: int| 0 <= k < text.len() implies !('A' <= #[trigger] text[k] <= 'Z') by {
        if 'A' <= text[k] <= 'Z' {
            lemma_ascii_char_byte(text, k);
            let j = choose|j: int| 0 <= j < bytes.len() && #[trigger] bytes[j] == text[k] as u8;
            assert(lower_all(bytes)[j] == lower(bytes[j]));
        }
    }
}

/// The text of UTF-8 bytes that hold no capital letter holds none.
pub proof fn lemma_decoded_lower_case(bytes: Seq<u8>)
    requires
        valid_utf8(bytes),
        forall|j: int| 0 <= j < bytes.len() ==> lower(#[trigger] bytes[j]) == bytes[j],
    ensures
        is_lower_case(decode_utf8(bytes)),
{
    lemma_encode_decode(bytes);
    assert(lower_all(bytes) =~= bytes);
    lemma_lower_case(decode_utf8(bytes));
}

} // verus!
