//! From tokens to a media type: the tokens are validated as UTF-8, the type
//! is matched against the registered names, the subtype is split into tree,
//! name and suffix, and the parameters are decoded.

use vstd::prelude::*;
use vstd::utf8::decode_utf8;
use vstd::utf8::encode_utf8;
use vstd::utf8::valid_utf8;
use crate::bytes::bytes_equal;
use crate::bytes::find_byte;
use crate::bytes::find_first;
use crate::bytes::find_last;
use crate::bytes::last_byte;
use crate::bytes::lemma_find_byte;
use crate::bytes::lemma_last_byte;
use crate::bytes::lower;
use crate::bytes::lower_all;
use crate::bytes::percent_decode;
use crate::bytes::percent_decoded;
use crate::bytes::trim;
use crate::bytes::trimmed;
use crate::bytes::APOSTROPHE;
use crate::bytes::DOT;
use crate::bytes::PLUS;
use crate::bytes::STAR;
use crate::error::Error;
use crate::media_type::lower_case_subtype;
use crate::media_type::lower_case_type;
use crate::media_type::MediaType;
use crate::media_type::MediaTypeView;
use crate::media_type::SubtypeView;
use crate::media_type::Tree;
use crate::media_type::TreeView;
use crate::media_type::Type;
use crate::media_type::TypeView;
use crate::params::lemma_put_sorted;
use crate::params::lemma_slot;
use crate::params::slot;
use crate::params::put;
use crate::params::sorted;
use crate::params::Entries;
use crate::params::Parameters;
use crate::text::lemma_decoded_lower_case;
use crate::text::lemma_encode_decode;
use crate::text::lemma_valid_around_ascii;
use crate::text::split_text;
use crate::text::utf8_error_of;
use crate::text::to_text;
use crate::tokenizer::is_read_name;
use crate::tokenizer::names_read;
use crate::tokenizer::parse_media_type;
use crate::tokenizer::raw_view;
use crate::tokenizer::tokens;
use crate::tokenizer::RawParameters;

verus! {

/// The error of a token that is not UTF-8.
pub open spec fn not_utf8(token: Seq<u8>) -> Error {
    Error::Utf8Error(utf8_error_of(token))
}

/// The text of a token, or the error of its validation as UTF-8.
pub open spec fn token_text(token: Seq<u8>) -> Result<Seq<char>, Error> {
    if valid_utf8(token) {
        Ok(decode_utf8(token))
    } else {
        Err(not_utf8(token))
    }
}

/// The top-level type that a type token stands for: any type for `*`, a
/// registered type for its name, and otherwise the unregistered type of that
/// name, which has to be UTF-8.
pub open spec fn type_of(token: Seq<u8>) -> Result<Option<TypeView>, Error> {
    if token == encode_utf8("*"@) {
        Ok(None)
    } else if token == encode_utf8("text"@) {
        Ok(Some(TypeView::Text))
    } else if token == encode_utf8("image"@) {
        Ok(Some(TypeView::Image))
    } else if token == encode_utf8("audio"@) {
        Ok(Some(TypeView::Audio))
    } else if token == encode_utf8("video"@) {
        Ok(Some(TypeView::Video))
    } else if token == encode_utf8("application"@) {
        Ok(Some(TypeView::Application))
    } else if token == encode_utf8("multipart"@) {
        Ok(Some(TypeView::Multipart))
    } else if token == encode_utf8("message"@) {
        Ok(Some(TypeView::Message))
    } else if token == encode_utf8("model"@) {
        Ok(Some(TypeView::Model))
    } else {
        match token_text(token) {
            Ok(name) => Ok(Some(TypeView::Unregistered(name))),
            Err(e) => Err(e),
        }
    }
}

/// The registration tree that a facet stands for.
pub open spec fn tree_of(facet: Seq<u8>) -> TreeView {
    if facet == encode_utf8("vnd"@) {
        TreeView::Vendor
    } else if facet == encode_utf8("prs"@) {
        TreeView::Personal
    } else if facet == encode_utf8("x"@) {
        TreeView::Private
    } else {
        TreeView::Unregistered(decode_utf8(facet))
    }
}

/// The subtype that a subtype token stands for: any subtype for `*`;
/// otherwise the token, which has to be UTF-8, is split at its last `+` into
/// what comes before and the suffix, and what comes before is split at its
/// first `.` into the facet of the tree and the name.
pub open spec fn subtype_of(token: Seq<u8>) -> Result<Option<SubtypeView>, Error> {
    let plus = last_byte(token, PLUS, token.len() as int);
    let prefix = if plus >= 0 {
        token.subrange(0, plus)
    } else {
        token
    };
    let suffix = if plus >= 0 {
        Some(decode_utf8(token.subrange(plus + 1, token.len() as int)))
    } else {
        None
    };
    let dot = find_byte(prefix, DOT, 0);
    if token == encode_utf8("*"@) {
        Ok(None)
    } else if !valid_utf8(token) {
        Err(not_utf8(token))
    } else if dot < prefix.len() {
        Ok(
            Some(
                (
                    tree_of(prefix.subrange(0, dot)),
                    decode_utf8(prefix.subrange(dot + 1, prefix.len() as int)),
                    suffix,
                ),
            ),
        )
    } else {
        Ok(Some((TreeView::Standards, decode_utf8(prefix), suffix)))
    }
}

/// The value of an extended parameter: the percent escapes of the raw value
/// are decoded, the result has to be UTF-8, and all up to its second `'` is
/// dropped: the charset, the language and the two delimiters. The value is
/// invalid where it has no two `'`.
pub open spec fn extended_value(value: Seq<u8>) -> Result<Seq<char>, Error> {
    let decoded = percent_decoded(value);
    let first = find_byte(decoded, APOSTROPHE, 0);
    let second = find_byte(decoded, APOSTROPHE, first + 1);
    if !valid_utf8(decoded) {
        Err(not_utf8(decoded))
    } else if second >= decoded.len() {
        Err(Error::Invalid)
    } else {
        Ok(decode_utf8(decoded.subrange(second + 1, decoded.len() as int)))
    }
}

/// Tests whether a parameter name is in the extended notation of RFC 2231:
/// it ends with `*`.
pub open spec fn is_extended(name: Seq<u8>) -> bool {
    name.len() > 0 && name.last() == STAR
}

/// The key and the value that a raw parameter stands for. The key of an
/// extended parameter is its name without the last `*`, and its value is
/// decoded; the key and the value of any other are its name and its value as
/// they are. The key is validated before the value.
pub open spec fn parameter_of(name: Seq<u8>, value: Seq<u8>) -> Result<
    (Seq<char>, Seq<char>),
    Error,
> {
    let key = if is_extended(name) {
        token_text(name.drop_last())
    } else {
        token_text(name)
    };
    let text = if is_extended(name) {
        extended_value(value)
    } else {
        token_text(value)
    };
    match key {
        Err(e) => Err(e),
        Ok(k) => match text {
            Err(e) => Err(e),
            Ok(v) => Ok((k, v)),
        },
    }
}

/// The parameters that raw parameters stand for. They are taken one after the
/// other, the first error ends it, and a later value replaces an earlier one
/// under the same key.
pub open spec fn parameters_of(raw: Seq<(Seq<u8>, Seq<u8>)>) -> Result<Entries, Error>
    decreases raw.len(),
{
    if raw.len() == 0 {
        Ok(Seq::empty())
    } else {
        match parameters_of(raw.drop_last()) {
            Err(e) => Err(e),
            Ok(found) => match parameter_of(raw.last().0, raw.last().1) {
                Err(e) => Err(e),
                Ok((key, value)) => Ok(put(found, key, value)),
            },
        }
    }
}

/// The UTF-8 bytes of each key that raw parameters stand for are as
/// `is_read_name` says, where the names of the raw parameters are.
pub proof fn lemma_parameters_of_keys(raw: Seq<(Seq<u8>, Seq<u8>)>)
    requires
        names_read(raw),
        parameters_of(raw) is Ok,
    ensures
        forall|j: int|
            0 <= j < parameters_of(raw)->Ok_0.len() ==> is_read_name(
                encode_utf8((#[trigger] parameters_of(raw)->Ok_0[j]).0),
            ),
    decreases raw.len(),
{
    if raw.len() > 0 {
        let front = raw.drop_last();
        assert forall|j: int| 0 <= j < front.len() implies is_read_name((#[trigger] front[j]).0) by {
            assert(front[j] == raw[j]);
        }
        lemma_parameters_of_keys(front);
        let found = parameters_of(front)->Ok_0;
        let name = raw.last().0;
        let (key, value) = parameter_of(name, raw.last().1)->Ok_0;
        let bytes = if is_extended(name) {
            name.drop_last()
        } else {
            name
        };
        lemma_encode_decode(bytes);
        assert(is_read_name(bytes)) by {
            assert(is_read_name(name));
            assert forall|j: int| 0 <= j < bytes.len() implies bytes[j] == name[j] by {}
        }
        lemma_slot(found, key, 0);
        let at = slot(found, key, 0);
        let all = put(found, key, value);
        assert forall|j: int| 0 <= j < all.len() implies is_read_name(
            encode_utf8((#[trigger] all[j]).0),
        ) by {
            if at < found.len() && found[at].0 == key {
                if j != at {
                    assert(all[j] == found[j]);
                }
            } else if j < at {
                assert(all[j] == found[j]);
            } else if j > at {
                assert(all[j] == found[j - 1]);
            }
        }
    }
}

/// The type that a token without a capital letter stands for has none in
/// its name.
pub proof fn lemma_type_lower_case(token: Seq<u8>)
    requires
        lower_all(token) == token,
        type_of(token) is Ok,
    ensures
        lower_case_type(type_of(token)->Ok_0),
{
    if type_of(token)->Ok_0 matches Some(TypeView::Unregistered(name)) {
        assert forall|j: int| 0 <= j < token.len() implies lower(#[trigger] token[j])
            == token[j] by {
            assert(lower_all(token)[j] == lower(token[j]));
        }
        lemma_decoded_lower_case(token);
    }
}

/// The subtype that a token without a capital letter stands for has none in
/// its tree, its name and its suffix.
pub proof fn lemma_subtype_lower_case(token: Seq<u8>)
    requires
        lower_all(token) == token,
        subtype_of(token) is Ok,
    ensures
        lower_case_subtype(subtype_of(token)->Ok_0),
{
    if subtype_of(token)->Ok_0 is Some {
        assert forall|j: int| 0 <= j < token.len() implies lower(#[trigger] token[j])
            == token[j] by {
            assert(lower_all(token)[j] == lower(token[j]));
        }
        let n = token.len() as int;
        let plus = last_byte(token, PLUS, n);
        lemma_last_byte(token, PLUS, n);
        let prefix = if plus >= 0 {
            token.subrange(0, plus)
        } else {
            token
        };
        if plus >= 0 {
            lemma_valid_around_ascii(token, plus);
            lemma_decoded_lower_case(token.subrange(plus + 1, n));
        }
        let dot = find_byte(prefix, DOT, 0);
        lemma_find_byte(prefix, DOT, 0);
        if dot < prefix.len() {
            lemma_valid_around_ascii(prefix, dot);
            lemma_decoded_lower_case(prefix.subrange(0, dot));
            lemma_decoded_lower_case(prefix.subrange(dot + 1, prefix.len() as int));
        } else {
            lemma_decoded_lower_case(prefix);
        }
    }
}

/// The media type that the three tokens stand for. The type is looked at
/// first, then the parameters, then the subtype; the first error is the
/// result.
pub open spec fn structured(
    type_: Seq<u8>,
    subtype: Seq<u8>,
    parameters: Seq<(Seq<u8>, Seq<u8>)>,
) -> Result<MediaTypeView, Error> {
    match type_of(type_) {
        Err(e) => Err(e),
        Ok(t) => match parameters_of(parameters) {
            Err(e) => Err(e),
            Ok(ps) => match subtype_of(subtype) {
                Err(e) => Err(e),
                Ok(s) => Ok(MediaTypeView { type_: t, subtype: s, parameters: ps }),
            },
        },
    }
}

/// The media type that a text stands for: the text without the whitespace at
/// its two ends is split into tokens, and the tokens are given their meaning.
pub open spec fn parsed(text: Seq<char>) -> Result<MediaTypeView, Error> {
    match tokens(trimmed(encode_utf8(text))) {
        Err(e) => Err(e),
        Ok((type_, subtype, parameters)) => structured(type_, subtype, parameters),
    }
}

/// Validates a token as UTF-8.
fn token_to_text(token: &[u8]) -> (r: Result<&str, Error>)
    ensures
        match token_text(token@) {
            Ok(text) => r matches Ok(found) && found@ == text && encode_utf8(found@) == token@,
            Err(e) => r == Err::<&str, Error>(e),
        },
{
    match to_text(token) {
        Ok(text) => {
            proof {
                vstd::utf8::decode_utf8_encode_utf8(token@);
            }
            Ok(text)
        },
        Err(e) => Err(Error::Utf8Error(e)),
    }
}

/// Gives a type token its meaning.
pub fn structure_type(token: &[u8]) -> (r: Result<Option<Type>, Error>)
    ensures
        match type_of(token@) {
            Ok(Some(t)) => r matches Ok(Some(found)) && found@ == t,
            Ok(None) => r matches Ok(None),
            Err(e) => r == Err::<Option<Type>, Error>(e),
        },
{
    if bytes_equal(token, "*".as_bytes()) {
        Ok(None)
    } else if bytes_equal(token, "text".as_bytes()) {
        Ok(Some(Type::Text))
    } else if bytes_equal(token, "image".as_bytes()) {
        Ok(Some(Type::Image))
    } else if bytes_equal(token, "audio".as_bytes()) {
        Ok(Some(Type::Audio))
    } else if bytes_equal(token, "video".as_bytes()) {
        Ok(Some(Type::Video))
    } else if bytes_equal(token, "application".as_bytes()) {
        Ok(Some(Type::Application))
    } else if bytes_equal(token, "multipart".as_bytes()) {
        Ok(Some(Type::Multipart))
    } else if bytes_equal(token, "message".as_bytes()) {
        Ok(Some(Type::Message))
    } else if bytes_equal(token, "model".as_bytes()) {
        Ok(Some(Type::Model))
    } else {
        match token_to_text(token) {
            Ok(name) => Ok(Some(Type::Unregistered(name.to_owned()))),
            Err(e) => Err(e),
        }
    }
}

/// Gives the facet of a registration tree its meaning.
fn structure_tree(facet: &str) -> (r: Tree)
    ensures
        r@ == tree_of(encode_utf8(facet@)),
{
    proof {
        vstd::utf8::encode_utf8_decode_utf8(facet@);
    }
    let bytes = facet.as_bytes();
    if bytes_equal(bytes, "vnd".as_bytes()) {
        Tree::Vendor
    } else if bytes_equal(bytes, "prs".as_bytes()) {
        Tree::Personal
    } else if bytes_equal(bytes, "x".as_bytes()) {
        Tree::Private
    } else {
        Tree::Unregistered(facet.to_owned())
    }
}

/// Gives a subtype token its meaning.
pub fn structure_subtype(token: &[u8]) -> (r: Result<Option<(Tree, String, Option<String>)>, Error>)
    ensures
        match subtype_of(token@) {
            Ok(Some(s)) => r matches Ok(Some(found)) && crate::media_type::subtype_view(
                Some(found),
            ) == Some(s),
            Ok(None) => r matches Ok(None),
            Err(e) => r == Err::<Option<(Tree, String, Option<String>)>, Error>(e),
        },
{
    if bytes_equal(token, "*".as_bytes()) {
        return Ok(None);
    }
    let whole = match token_to_text(token) {
        Ok(text) => text,
        Err(e) => {
            return Err(e);
        },
    };
    proof {
        lemma_last_byte(token@, PLUS, token@.len() as int);
    }
    let (prefix, suffix) = match find_last(token, PLUS) {
        Some(plus) => {
            let (before, after) = split_text(whole, plus);
            (before, Some(after.to_owned()))
        },
        None => (whole, None),
    };
    let dot = find_first(prefix.as_bytes(), DOT, 0);
    proof {
        lemma_find_byte(encode_utf8(prefix@), DOT, 0);
        vstd::utf8::encode_utf8_decode_utf8(prefix@);
    }
    if dot < prefix.as_bytes().len() {
        let (facet, name) = split_text(prefix, dot);
        Ok(Some((structure_tree(facet), name.to_owned(), suffix)))
    } else {
        Ok(Some((Tree::Standards, prefix.to_owned(), suffix)))
    }
}

/// Decodes the value of an extended parameter.
pub fn decode_extended_value(value: &[u8]) -> (r: Result<String, Error>)
    ensures
        match extended_value(value@) {
            Ok(text) => r matches Ok(found) && found@ == text,
            Err(e) => r == Err::<String, Error>(e),
        },
{
    let decoded = percent_decode(value);
    let whole = match token_to_text(decoded.as_slice()) {
        Ok(text) => text,
        Err(e) => {
            return Err(e);
        },
    };
    let n = decoded.len();
    let first = find_first(decoded.as_slice(), APOSTROPHE, 0);
    if first >= n {
        return Err(Error::Invalid);
    }
    let second = find_first(decoded.as_slice(), APOSTROPHE, first + 1);
    if second >= n {
        return Err(Error::Invalid);
    }
    proof {
        lemma_find_byte(decoded@, APOSTROPHE, first + 1);
    }
    let (_, rest) = split_text(whole, second);
    Ok(rest.to_owned())
}

/// Gives a raw parameter its meaning: its key and its value.
pub fn structure_parameter(name: &[u8], value: &[u8]) -> (r: Result<(String, String), Error>)
    ensures
        match parameter_of(name@, value@) {
            Ok((key, text)) => r matches Ok((k, v)) && k@ == key && v@ == text,
            Err(e) => r == Err::<(String, String), Error>(e),
        },
{
    let n = name.len();
    if n > 0 && name[n - 1] == STAR {
        let stripped = vstd::slice::slice_subrange(name, 0, n - 1);
        assert(stripped@ =~= name@.drop_last());
        let key = match token_to_text(stripped) {
            Ok(text) => text.to_owned(),
            Err(e) => {
                return Err(e);
            },
        };
        match decode_extended_value(value) {
            Ok(text) => Ok((key, text)),
            Err(e) => Err(e),
        }
    } else {
        let key = match token_to_text(name) {
            Ok(text) => text.to_owned(),
            Err(e) => {
                return Err(e);
            },
        };
        match token_to_text(value) {
            Ok(text) => Ok((key, text.to_owned())),
            Err(e) => Err(e),
        }
    }
}

/// Gives raw parameters their meaning, one after the other.
pub fn structure_parameters(raw: &RawParameters) -> (r: Result<Parameters, Error>)
    ensures
        match parameters_of(raw_view(raw@)) {
            Ok(ps) => r matches Ok(found) && found@ == ps && sorted(ps),
            Err(e) => r == Err::<Parameters, Error>(e),
        },
{
    proof {
        if parameters_of(raw_view(raw@)) is Ok {
            lemma_parameters_of_sorted(raw_view(raw@));
        }
    }
    let n = raw.len();
    let mut parameters = Parameters::new();
    let mut i: usize = 0;
    assert(raw_view(raw@).subrange(0, 0) =~= Seq::empty());
    while i < n
        invariant
            i <= n,
            n == raw@.len(),
            parameters_of(raw_view(raw@).subrange(0, i as int)) == Ok::<Entries, Error>(
                parameters@,
            ),
        decreases n - i,
    {
        let ghost next = raw_view(raw@).subrange(0, i + 1);
        assert(next.drop_last() =~= raw_view(raw@).subrange(0, i as int));
        assert(next.last() == raw_view(raw@)[i as int]);
        match structure_parameter(raw[i].0.as_slice(), raw[i].1.as_slice()) {
            Ok((key, value)) => {
                parameters.insert(key, value);
            },
            Err(e) => {
                proof {
                    lemma_parameters_error(raw_view(raw@), i + 1);
                }
                return Err(e);
            },
        }
        i += 1;
    }
    assert(raw_view(raw@).subrange(0, n as int) =~= raw_view(raw@));
    Ok(parameters)
}

/// The parameters that raw parameters stand for have their keys in order.
pub proof fn lemma_parameters_of_sorted(raw: Seq<(Seq<u8>, Seq<u8>)>)
    requires
        parameters_of(raw) is Ok,
    ensures
        sorted(parameters_of(raw)->Ok_0),
    decreases raw.len(),
{
    if raw.len() > 0 {
        lemma_parameters_of_sorted(raw.drop_last());
        let found = parameters_of(raw.drop_last())->Ok_0;
        let (key, value) = parameter_of(raw.last().0, raw.last().1)->Ok_0;
        lemma_put_sorted(found, key, value);
    }
}

/// An error among the first `n` raw parameters is the error of them all.
pub proof fn lemma_parameters_error(raw: Seq<(Seq<u8>, Seq<u8>)>, n: int)
    requires
        0 <= n <= raw.len(),
        parameters_of(raw.subrange(0, n)) is Err,
    ensures
        parameters_of(raw) == parameters_of(raw.subrange(0, n)),
    decreases raw.len() - n,
{
    if n < raw.len() {
        let next = raw.subrange(0, n + 1);
        assert(next.drop_last() =~= raw.subrange(0, n));
        lemma_parameters_error(raw, n + 1);
    } else {
        assert(raw.subrange(0, n) =~= raw);
    }
}

/// Gives the three tokens of a media type their meaning.
pub fn structure(type_: &[u8], subtype: &[u8], parameters: &RawParameters) -> (r: Result<
    MediaType,
    Error,
>)
    ensures
        match structured(type_@, subtype@, raw_view(parameters@)) {
            Ok(v) => r matches Ok(found) && found@ == v && sorted(v.parameters),
            Err(e) => r == Err::<MediaType, Error>(e),
        },
{
    let t = match structure_type(type_) {
        Ok(found) => found,
        Err(e) => {
            return Err(e);
        },
    };
    let ps = match structure_parameters(parameters) {
        Ok(found) => found,
        Err(e) => {
            return Err(e);
        },
    };
    let s = match structure_subtype(subtype) {
        Ok(found) => found,
        Err(e) => {
            return Err(e);
        },
    };
    Ok(MediaType { type_: t, subtype: s, parameters: ps })
}

impl MediaType {
    /// Parses a media type:
    /// top-level type name / [ tree. ] subtype name [ +suffix ] [ ; parameters ]
    pub fn parse(s: &str) -> (r: Result<MediaType, Error>)
        ensures
            match parsed(s@) {
                Ok(v) => r matches Ok(found) && found@ == v && sorted(v.parameters),
                Err(e) => r == Err::<MediaType, Error>(e),
            },
    {
        let (type_, subtype, parameters) = match parse_media_type(trim(s.as_bytes())) {
            Ok(found) => found,
            Err(e) => {
                return Err(e);
            },
        };
        structure(type_.as_slice(), subtype.as_slice(), &parameters)
    }
}

impl core::str::FromStr for MediaType {
    type Err = Error;

    /// Parses a media type, as `MediaType::parse` does.
    fn from_str(s: &str) -> (r: Result<MediaType, Error>)
        ensures
            match parsed(s@) {
                Ok(v) => r matches Ok(found) && found@ == v,
                Err(e) => r == Err::<MediaType, Error>(e),
            },
    {
        MediaType::parse(s)
    }
}

} // verus!
