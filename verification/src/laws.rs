//! What holds of the library as a whole.

use vstd::prelude::*;
use vstd::utf8::encode_utf8;
use crate::bytes::find_byte;
use crate::bytes::lemma_find_byte;
use crate::bytes::lemma_find_byte_is;
use crate::bytes::lemma_skip_whitespace_bounds;
use crate::bytes::lemma_trimmed_is;
use crate::bytes::lemma_skip_whitespace_is;
use crate::bytes::lower;
use crate::bytes::lower_all;
use crate::bytes::skip_whitespace;
use crate::bytes::trimmed;
use crate::bytes::SLASH;
use crate::bytes::BACKSLASH;
use crate::bytes::EQUALS;
use crate::bytes::QUOTE;
use crate::bytes::SEMICOLON;
use crate::media_type::is_archive;
use crate::media_type::is_audio_or_video;
use crate::media_type::is_font;
use crate::media_type::is_image;
use crate::media_type::is_scriptable;
use crate::media_type::is_xml;
use crate::media_type::is_zip_based;
use crate::media_type::lower_case_fields;
use crate::media_type::same_mime_portion;
use crate::media_type::MediaTypeView;
use crate::params::Entries;
use crate::error::Error;
use crate::grammar::is_http_whitespace;
use crate::parse::is_extended;
use crate::parse::lemma_parameters_of_keys;
use crate::parse::lemma_subtype_lower_case;
use crate::parse::lemma_type_lower_case;
use crate::parse::parsed;
use crate::parse::structured;
use crate::render::rendered;
use crate::roundtrip::lemma_marks;
use crate::roundtrip::lemma_round_trip;
use crate::roundtrip::lemma_type_portion_tokens;
use crate::text::is_lower_case;
use crate::text::lemma_ascii_char_byte;
use crate::text::lemma_encode_concat;
use crate::text::lemma_lower_case;
use crate::tokenizer::ends_name;
use crate::tokenizer::is_read_name;
use crate::tokenizer::lemma_parameters_names;
use crate::tokenizer::tokens;
use crate::tokenizer::ends_token;
use crate::tokenizer::lemma_name_run_end_is;
use crate::tokenizer::lemma_token_end;
use crate::tokenizer::lemma_token_end_is;
use crate::tokenizer::name_at;
use crate::tokenizer::token_end;
use crate::tokenizer::type_portion;
use crate::tokenizer::MAX_TOKEN_LEN;
use crate::tokenizer::NameEnd;

verus! {

/// The type groups look at the mime type portion only: two media types with
/// the same type, tree, subtype and suffix are in the same groups, whatever
/// their parameters.
pub proof fn law_groups_ignore_parameters(a: MediaTypeView, b: MediaTypeView)
    requires
        same_mime_portion(a, b),
    ensures
        is_image(a) == is_image(b),
        is_audio_or_video(a) == is_audio_or_video(b),
        is_font(a) == is_font(b),
        is_zip_based(a) == is_zip_based(b),
        is_archive(a) == is_archive(b),
        is_xml(a) == is_xml(b),
        is_scriptable(a) == is_scriptable(b),
{
}

/// Whatever is done to the parameters of a media type, it stays in the type
/// groups in which it was.
pub proof fn law_groups_survive_parameter_change(v: MediaTypeView, parameters: Entries)
    ensures
        ({
            let w = MediaTypeView { parameters, ..v };
            &&& same_mime_portion(v, w)
            &&& is_image(v) == is_image(w)
            &&& is_audio_or_video(v) == is_audio_or_video(w)
            &&& is_font(v) == is_font(w)
            &&& is_zip_based(v) == is_zip_based(w)
            &&& is_archive(v) == is_archive(w)
            &&& is_xml(v) == is_xml(w)
            &&& is_scriptable(v) == is_scriptable(w)
        }),
{
}

/// Tests whether a key is read back as it is written: written after `; ` and
/// before `=`, it is read as the same name, and that name is not taken for an
/// extended one.
///
/// A key with whitespace in two places is not: `a b  c` is read back as
/// `a b   c`. Nor is a key that ends with `*`.
pub open spec fn key_reads_back(key: Seq<char>) -> bool {
    let written = seq![SEMICOLON, 0x20u8] + encode_utf8(key) + seq![EQUALS];
    &&& name_at(written, skip_whitespace(written, 1)) == NameEnd::Equals(
        encode_utf8(key),
        written.len() - 1,
    )
    &&& !is_extended(encode_utf8(key))
}

/// Tests whether a value is read back as it is written: it holds neither `"`
/// nor `\`, which are written as they are and then read as the end of the
/// value and as an escape.
pub open spec fn value_reads_back(value: Seq<char>) -> bool {
    forall|i: int|
        0 <= i < encode_utf8(value).len() ==> (#[trigger] encode_utf8(value)[i]) != QUOTE
            && encode_utf8(value)[i] != BACKSLASH
}

/// Tests whether each key and each value of `parameters` is read back as it
/// is written.
pub open spec fn read_back(parameters: Entries) -> bool {
    forall|i: int|
        0 <= i < parameters.len() ==> key_reads_back((#[trigger] parameters[i]).0)
            && value_reads_back(parameters[i].1)
}

/// Parsing and writing are stable: the canonical text of a media type that
/// was parsed from some text is parsed to the same media type again, where
/// each of its keys and values is read back as it is written.
pub proof fn law_round_trip(text: Seq<char>, v: MediaTypeView)
    requires
        parsed(text) == Ok::<MediaTypeView, Error>(v),
        read_back(v.parameters),
    ensures
        parsed(rendered(v)) == Ok::<MediaTypeView, Error>(v),
{
    lemma_round_trip(text, v);
}

/// What holds of every key of a parsed media type: in UTF-8 it has at most
/// `MAX_TOKEN_LEN` bytes, none of them a capital letter or `=`, and the first
/// no whitespace; so it holds no capital ASCII letter and no `=`, and does
/// not begin with whitespace.
pub open spec fn is_parsed_key(key: Seq<char>) -> bool {
    &&& is_read_name(encode_utf8(key))
    &&& is_lower_case(key)
    &&& forall|k: int| 0 <= k < key.len() ==> #[trigger] key[k] != '='
    &&& key.len() > 0 ==> key[0] != ' ' && key[0] != '\n' && key[0] != '\r' && key[0] != '\t'
}

/// Each key of a parsed media type is as `is_parsed_key` says.
pub proof fn law_parsed_keys(text: Seq<char>, v: MediaTypeView)
    requires
        parsed(text) == Ok::<MediaTypeView, Error>(v),
    ensures
        forall|i: int| 0 <= i < v.parameters.len() ==> is_parsed_key((#[trigger] v.parameters[i]).0),
{
    let s = trimmed(encode_utf8(text));
    let (type_, subtype, raw) = tokens(s)->Ok_0;
    let (_, _, end) = type_portion(s, skip_whitespace(s, 0))->Ok_0;
    lemma_parameters_names(s, end, Seq::empty());
    lemma_parameters_of_keys(raw);
    assert forall|i: int| 0 <= i < v.parameters.len() implies is_parsed_key(
        (#[trigger] v.parameters[i]).0,
    ) by {
        let key = v.parameters[i].0;
        let bytes = encode_utf8(key);
        assert(is_read_name(bytes));
        assert(lower_all(bytes) =~= bytes);
        lemma_lower_case(key);
        assert forall|k: int| 0 <= k < key.len() implies #[trigger] key[k] != '=' by {
            if key[k] == '=' {
                lemma_ascii_char_byte(key, k);
            }
        }
        if key.len() > 0 && (key[0] == ' ' || key[0] == '\n' || key[0] == '\r' || key[0] == '\t') {
            lemma_ascii_char_byte(key, 0);
        }
    }
}

/// What is parsed is in lower case: the type, the tree, the subtype, the
/// suffix and the keys of the parameters of a parsed media type hold no
/// capital ASCII letter.
pub proof fn law_parsed_lower_case(text: Seq<char>, v: MediaTypeView)
    requires
        parsed(text) == Ok::<MediaTypeView, Error>(v),
    ensures
        lower_case_fields(v),
{
    let s = trimmed(encode_utf8(text));
    let start = skip_whitespace(s, 0);
    let (type_, subtype, raw) = tokens(s)->Ok_0;
    lemma_skip_whitespace_bounds(s, 0);
    lemma_type_portion_tokens(s, start);
    lemma_type_lower_case(type_);
    lemma_subtype_lower_case(subtype);
    law_parsed_keys(text, v);
}

/// Parsing and writing are stable for every parsed media type whose keys
/// hold no whitespace and do not end with `*`, and whose values hold neither
/// `"` nor `\`.
pub proof fn law_round_trip_of_plain_keys(text: Seq<char>, v: MediaTypeView)
    requires
        parsed(text) == Ok::<MediaTypeView, Error>(v),
        forall|i: int|
            0 <= i < v.parameters.len() ==> !is_extended(
                encode_utf8((#[trigger] v.parameters[i]).0),
            ) && value_reads_back(v.parameters[i].1),
        forall|i: int, j: int|
            0 <= i < v.parameters.len() && 0 <= j < encode_utf8(v.parameters[i].0).len()
                ==> !is_http_whitespace(#[trigger] encode_utf8(v.parameters[i].0)[j]),
    ensures
        parsed(rendered(v)) == Ok::<MediaTypeView, Error>(v),
{
    law_parsed_keys(text, v);
    assert forall|i: int| 0 <= i < v.parameters.len() implies key_reads_back(
        (#[trigger] v.parameters[i]).0,
    ) by {
        let key = v.parameters[i].0;
        assert(is_parsed_key(key));
        law_plain_key_reads_back(key);
    }
    law_round_trip(text, v);
}

/// A key of at most 127 bytes that has no whitespace, no `=` and no capital
/// letter, and does not end with `*`, is read back as it is written.
pub proof fn law_plain_key_reads_back(key: Seq<char>)
    requires
        encode_utf8(key).len() <= MAX_TOKEN_LEN,
        forall|i: int|
            0 <= i < encode_utf8(key).len() ==> !ends_name(#[trigger] encode_utf8(key)[i])
                && lower(encode_utf8(key)[i]) == encode_utf8(key)[i],
        !is_extended(encode_utf8(key)),
    ensures
        key_reads_back(key),
{
    let kb = encode_utf8(key);
    let t = seq![SEMICOLON, 0x20u8] + kb + seq![EQUALS];
    let end = (2 + kb.len()) as int;
    assert(t[end] == EQUALS);
    assert(!is_extended(kb));
    if kb.len() > 0 {
        assert(t[2] == kb[0]);
    }
    lemma_skip_whitespace_is(t, 1, 2);
    assert forall|j: int| 2 <= j < end implies !ends_name(#[trigger] t[j]) by {
        assert(t[j] == kb[j - 2]);
    }
    lemma_name_run_end_is(t, 2, end);
    lemma_skip_whitespace_is(t, end, end);
    assert(t.subrange(2, end) =~= kb);
    assert(lower_all(kb) =~= kb);
    assert(Seq::<u8>::empty() + Seq::<u8>::empty() + kb =~= kb);
}

/// A type and a subtype with a `/` between them are parsed as what their
/// lower-cased tokens stand for, without parameters. The type may hold no `/`
/// and may not begin with whitespace, the subtype may hold neither whitespace
/// nor `;`, and neither may have more than `MAX_TOKEN_LEN` bytes in UTF-8.
pub proof fn law_parse_of_type_and_subtype(type_: Seq<char>, subtype: Seq<char>)
    requires
        encode_utf8(type_).len() <= MAX_TOKEN_LEN,
        encode_utf8(subtype).len() <= MAX_TOKEN_LEN,
        forall|i: int|
            0 <= i < encode_utf8(type_).len() ==> #[trigger] encode_utf8(type_)[i] != SLASH,
        encode_utf8(type_).len() > 0 ==> !is_http_whitespace(encode_utf8(type_)[0]),
        forall|i: int|
            0 <= i < encode_utf8(subtype).len() ==> !ends_token(#[trigger] encode_utf8(subtype)[i]),
    ensures
        parsed(type_ + "/"@ + subtype) == structured(
            lower_all(encode_utf8(type_)),
            lower_all(encode_utf8(subtype)),
            Seq::empty(),
        ),
{
    let t = encode_utf8(type_);
    let u = encode_utf8(subtype);
    let s = t + seq![SLASH] + u;
    let slash = t.len() as int;
    let end = s.len() as int;
    lemma_marks();
    lemma_encode_concat(type_, "/"@);
    lemma_encode_concat(type_ + "/"@, subtype);
    assert(s[slash] == SLASH);
    if t.len() > 0 {
        assert(s[0] == t[0]);
    }
    if u.len() > 0 {
        assert(s.last() == u[u.len() - 1]);
    }
    lemma_trimmed_is(s);
    lemma_skip_whitespace_is(s, 0, 0);
    assert forall|j: int| 0 <= j < slash implies #[trigger] s[j] != SLASH by {
        assert(s[j] == t[j]);
    }
    lemma_find_byte_is(s, SLASH, 0, slash);
    assert forall|j: int| slash + 1 <= j < end implies !ends_token(#[trigger] s[j]) by {
        assert(s[j] == u[j - slash - 1]);
    }
    lemma_token_end_is(s, slash + 1, end);
    assert(s.subrange(0, slash) =~= t);
    assert(s.subrange(slash + 1, end) =~= u);
}

/// Tests whether two byte strings are the same but for the case of their
/// ASCII letters.
pub open spec fn same_but_for_case(a: Seq<u8>, b: Seq<u8>) -> bool {
    &&& a.len() == b.len()
    &&& forall|i: int| 0 <= i < a.len() ==> lower(#[trigger] a[i]) == lower(b[i])
}

/// Parsing is without regard to case: a type and a subtype with a `/` between
/// them are parsed to the same media type as any text that differs from them
/// in the case of its ASCII letters only.
pub proof fn law_parse_ignores_case(
    type_: Seq<char>,
    subtype: Seq<char>,
    other_type: Seq<char>,
    other_subtype: Seq<char>,
)
    requires
        encode_utf8(type_).len() <= MAX_TOKEN_LEN,
        encode_utf8(subtype).len() <= MAX_TOKEN_LEN,
        forall|i: int|
            0 <= i < encode_utf8(type_).len() ==> #[trigger] encode_utf8(type_)[i] != SLASH,
        encode_utf8(type_).len() > 0 ==> !is_http_whitespace(encode_utf8(type_)[0]),
        forall|i: int|
            0 <= i < encode_utf8(subtype).len() ==> !ends_token(#[trigger] encode_utf8(subtype)[i]),
        same_but_for_case(encode_utf8(type_), encode_utf8(other_type)),
        same_but_for_case(encode_utf8(subtype), encode_utf8(other_subtype)),
    ensures
        parsed(type_ + "/"@ + subtype) == parsed(other_type + "/"@ + other_subtype),
{
    let t = encode_utf8(type_);
    let u = encode_utf8(subtype);
    let other_t = encode_utf8(other_type);
    let other_u = encode_utf8(other_subtype);
    assert forall|i: int| 0 <= i < other_t.len() implies #[trigger] other_t[i] != SLASH by {
        assert(t[i] != SLASH);
        assert(lower(t[i]) == lower(other_t[i]));
    }
    if other_t.len() > 0 {
        assert(lower(t[0]) == lower(other_t[0]));
    }
    assert forall|i: int| 0 <= i < other_u.len() implies !ends_token(#[trigger] other_u[i]) by {
        assert(!ends_token(u[i]));
        assert(lower(u[i]) == lower(other_u[i]));
    }
    assert(lower_all(t) =~= lower_all(other_t));
    assert(lower_all(u) =~= lower_all(other_u));
    law_parse_of_type_and_subtype(type_, subtype);
    law_parse_of_type_and_subtype(other_type, other_subtype);
}

/// The type and the subtype are read without regard to case: from two inputs
/// that are the same but for the case of their letters, the same tokens are
/// read, or both are refused.
pub proof fn law_type_portion_ignores_case(a: Seq<u8>, b: Seq<u8>, start: int)
    requires
        same_but_for_case(a, b),
        0 <= start <= a.len(),
    ensures
        type_portion(a, start) == type_portion(b, start),
{
    let slash = find_byte(a, SLASH, start);
    lemma_find_byte(a, SLASH, start);
    assert forall|j: int| start <= j < slash implies #[trigger] b[j] != SLASH by {
        assert(a[j] != SLASH);
        assert(lower(a[j]) == lower(b[j]));
    }
    if slash < a.len() {
        assert(lower(a[slash]) == lower(b[slash]));
    }
    lemma_find_byte_is(b, SLASH, start, slash);
    if slash < a.len() {
        let end = token_end(a, slash + 1);
        lemma_token_end(a, slash + 1);
        assert forall|j: int| slash + 1 <= j < end implies !ends_token(#[trigger] b[j]) by {
            assert(!ends_token(a[j]));
            assert(lower(a[j]) == lower(b[j]));
        }
        if end < a.len() {
            assert(lower(a[end]) == lower(b[end]));
        }
        lemma_token_end_is(b, slash + 1, end);
        assert(lower_all(a.subrange(start, slash)) =~= lower_all(b.subrange(start, slash))) by {
            assert forall|j: int| 0 <= j < slash - start implies lower(
                #[trigger] a.subrange(start, slash)[j],
            ) == lower(b.subrange(start, slash)[j]) by {
                assert(lower(a[start + j]) == lower(b[start + j]));
            }
        }
        assert(lower_all(a.subrange(slash + 1, end)) =~= lower_all(b.subrange(slash + 1, end))) by {
            assert forall|j: int| 0 <= j < end - slash - 1 implies lower(
                #[trigger] a.subrange(slash + 1, end)[j],
            ) == lower(b.subrange(slash + 1, end)[j]) by {
                assert(lower(a[slash + 1 + j]) == lower(b[slash + 1 + j]));
            }
        }
    }
}

} // verus!
