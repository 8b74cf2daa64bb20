//! Why the canonical text of a parsed media type is parsed back to it.

use vstd::prelude::*;
use vstd::utf8::encode_utf8;
use vstd::utf8::valid_utf8;
use crate::bytes::DOT;
use crate::bytes::EQUALS;
use crate::bytes::PLUS;
use crate::bytes::QUOTE;
use crate::bytes::SEMICOLON;
use crate::bytes::SLASH;
use crate::bytes::STAR;
use crate::bytes::find_byte;
use crate::bytes::lemma_find_byte_is;
use crate::bytes::lower_all;
use crate::grammar::is_http_whitespace;
use crate::bytes::lemma_skip_whitespace_bounds;
use crate::bytes::lemma_skip_whitespace_is;
use crate::bytes::skip_whitespace;
use crate::bytes::BACKSLASH;
use crate::grammar::is_tchar;
use crate::grammar::is_token;
use crate::laws::key_reads_back;
use crate::laws::value_reads_back;
use crate::render::parameter_text;
use crate::render::value_text;
use crate::bytes::lemma_before_irreflexive;
use crate::bytes::lemma_trimmed_is;
use crate::bytes::trimmed;
use crate::laws::read_back;
use crate::media_type::MediaTypeView;
use crate::params::lemma_slot_is;
use crate::params::put;
use crate::params::sorted;
use crate::params::Entries;
use crate::parse::lemma_parameters_of_sorted;
use crate::parse::parameter_of;
use crate::parse::parameters_of;
use crate::parse::parsed;
use crate::parse::structured;
use crate::render::parameters_text;
use crate::render::rendered;
use crate::tokenizer::ends_name;
use crate::tokenizer::lemma_raw_position;
use crate::tokenizer::raw_position;
use crate::tokenizer::tokens;
use crate::tokenizer::lemma_quoted_is;
use crate::tokenizer::name_at;
use crate::tokenizer::next_separator;
use crate::tokenizer::parameters_from;
use crate::tokenizer::raw_insert;
use crate::tokenizer::value_at;
use crate::tokenizer::ends_token;
use crate::tokenizer::lemma_name_run_end;
use crate::tokenizer::lemma_name_run_end_is;
use crate::tokenizer::name_from;
use crate::tokenizer::name_run_end;
use crate::tokenizer::NameEnd;
use crate::tokenizer::lemma_token_end;
use crate::tokenizer::lemma_token_end_is;
use crate::tokenizer::type_portion;
use crate::tokenizer::MAX_TOKEN_LEN;
use crate::bytes::last_byte;
use crate::bytes::lemma_find_byte;
use crate::bytes::lemma_last_byte;
use crate::error::Error;
use crate::media_type::tree_prefix;
use crate::media_type::SubtypeView;
use crate::media_type::TreeView;
use crate::media_type::TypeView;
use crate::parse::subtype_of;
use crate::parse::tree_of;
use crate::parse::type_of;
use crate::render::subtype_text;
use crate::render::suffix_text;
use crate::render::type_text;
use crate::text::lemma_encode_ascii;
use crate::text::lemma_encode_decode;
use crate::text::lemma_valid_around_ascii;
use crate::text::lemma_encode_concat;

verus! {

/// The byte of a space.
pub const SPACE: u8 = 0x20;

/// The UTF-8 bytes of the marks that the canonical text is written with.
pub proof fn lemma_marks()
    ensures
        encode_utf8("*"@) == seq![STAR],
        encode_utf8("/"@) == seq![SLASH],
        encode_utf8("+"@) == seq![PLUS],
        encode_utf8("."@) == seq![DOT],
        encode_utf8("="@) == seq![EQUALS],
        encode_utf8("\""@) == seq![QUOTE],
        encode_utf8("; "@) == seq![SEMICOLON, SPACE],
        encode_utf8("vnd."@) == encode_utf8("vnd"@) + seq![DOT],
        encode_utf8("prs."@) == encode_utf8("prs"@) + seq![DOT],
        encode_utf8("x."@) == encode_utf8("x"@) + seq![DOT],
{
    reveal_strlit("*");
    reveal_strlit("/");
    reveal_strlit("+");
    reveal_strlit(".");
    reveal_strlit("=");
    reveal_strlit("\"");
    reveal_strlit("; ");
    reveal_strlit("vnd.");
    reveal_strlit("prs.");
    reveal_strlit("x.");
    reveal_strlit("vnd");
    reveal_strlit("prs");
    reveal_strlit("x");
    lemma_encode_ascii("*"@);
    lemma_encode_ascii("/"@);
    lemma_encode_ascii("+"@);
    lemma_encode_ascii("."@);
    lemma_encode_ascii("="@);
    lemma_encode_ascii("\""@);
    lemma_encode_ascii("; "@);
    assert(encode_utf8("*"@) =~= seq![STAR]);
    assert(encode_utf8("/"@) =~= seq![SLASH]);
    assert(encode_utf8("+"@) =~= seq![PLUS]);
    assert(encode_utf8("."@) =~= seq![DOT]);
    assert(encode_utf8("="@) =~= seq![EQUALS]);
    assert(encode_utf8("\""@) =~= seq![QUOTE]);
    assert(encode_utf8("; "@) =~= seq![SEMICOLON, SPACE]);
    assert("vnd."@ =~= "vnd"@ + "."@);
    assert("prs."@ =~= "prs"@ + "."@);
    assert("x."@ =~= "x"@ + "."@);
    lemma_encode_concat("vnd"@, "."@);
    lemma_encode_concat("prs"@, "."@);
    lemma_encode_concat("x"@, "."@);
}

/// The text of a type is written with the bytes of the token that the type
/// was read from.
pub proof fn lemma_type_text(token: Seq<u8>, type_: Option<TypeView>)
    requires
        type_of(token) == Ok::<Option<TypeView>, Error>(type_),
    ensures
        encode_utf8(type_text(type_)) == token,
{
    if let Some(TypeView::Unregistered(name)) = type_ {
        lemma_encode_decode(token);
    }
}

/// The prefix of a tree is written with the bytes of the facet that the tree
/// was read from, and a dot.
pub proof fn lemma_tree_prefix(facet: Seq<u8>)
    requires
        valid_utf8(facet),
    ensures
        encode_utf8(tree_prefix(tree_of(facet))) == facet + seq![DOT],
{
    lemma_marks();
    if let TreeView::Unregistered(name) = tree_of(facet) {
        lemma_encode_decode(facet);
        lemma_encode_concat(name, "."@);
    }
}

/// The text of a subtype is written with the bytes of the token that the
/// subtype was read from.
pub proof fn lemma_subtype_text(token: Seq<u8>, subtype: Option<SubtypeView>)
    requires
        subtype_of(token) == Ok::<Option<SubtypeView>, Error>(subtype),
    ensures
        encode_utf8(subtype_text(subtype)) == token,
{
    lemma_marks();
    if let Some((tree, name, suffix)) = subtype {
        let n = token.len() as int;
        let plus = last_byte(token, PLUS, n);
        lemma_last_byte(token, PLUS, n);
        let prefix = if plus >= 0 {
            token.subrange(0, plus)
        } else {
            token
        };
        let tail = if plus >= 0 {
            seq![PLUS] + token.subrange(plus + 1, n)
        } else {
            Seq::<u8>::empty()
        };
        assert(prefix + tail =~= token);
        if plus >= 0 {
            lemma_valid_around_ascii(token, plus);
            lemma_encode_decode(token.subrange(plus + 1, n));
            lemma_encode_concat("+"@, suffix->0);
        }
        assert(encode_utf8(suffix_text(suffix)) == tail);
        let dot = find_byte(prefix, DOT, 0);
        lemma_find_byte(prefix, DOT, 0);
        if dot < prefix.len() {
            let facet = prefix.subrange(0, dot);
            let rest = prefix.subrange(dot + 1, prefix.len() as int);
            lemma_valid_around_ascii(prefix, dot);
            lemma_tree_prefix(facet);
            lemma_encode_decode(rest);
            assert(facet + seq![DOT] + rest =~= prefix);
        } else {
            lemma_encode_decode(prefix);
        }
        lemma_encode_concat(tree_prefix(tree), name);
        lemma_encode_concat(tree_prefix(tree) + name, suffix_text(suffix));
    }
}

/// What holds of a type token and a subtype token as the tokenizer reads
/// them: neither is too long, neither has a capital letter, the type has no
/// `/`, and the subtype has neither whitespace nor `;`.
pub open spec fn type_tokens(type_: Seq<u8>, subtype: Seq<u8>) -> bool {
    &&& type_.len() <= MAX_TOKEN_LEN
    &&& subtype.len() <= MAX_TOKEN_LEN
    &&& lower_all(type_) == type_
    &&& lower_all(subtype) == subtype
    &&& forall|i: int| 0 <= i < type_.len() ==> #[trigger] type_[i] != SLASH
    &&& forall|i: int| 0 <= i < subtype.len() ==> !ends_token(#[trigger] subtype[i])
}

/// The tokens that the tokenizer reads are as `type_tokens` says, and the
/// type token starts with no whitespace where the reading did not.
pub proof fn lemma_type_portion_tokens(s: Seq<u8>, start: int)
    requires
        0 <= start <= s.len(),
        type_portion(s, start) is Ok,
    ensures
        type_tokens(type_portion(s, start)->Ok_0.0, type_portion(s, start)->Ok_0.1),
        start < s.len() && !is_http_whitespace(s[start]) ==> type_portion(s, start)->Ok_0.0.len()
            == 0 || !is_http_whitespace(type_portion(s, start)->Ok_0.0[0]),
{
    let (type_, subtype, end) = type_portion(s, start)->Ok_0;
    let slash = find_byte(s, SLASH, start);
    lemma_find_byte(s, SLASH, start);
    lemma_token_end(s, slash + 1);
    assert(lower_all(type_) =~= type_);
    assert(lower_all(subtype) =~= subtype);
    assert forall|i: int| 0 <= i < type_.len() implies #[trigger] type_[i] != SLASH by {
        assert(s[start + i] != SLASH);
    }
    assert forall|i: int| 0 <= i < subtype.len() implies !ends_token(#[trigger] subtype[i]) by {
        assert(!ends_token(s[slash + 1 + i]));
    }
}

/// Tokens as `type_tokens` says, written with a `/` between them and before
/// the end, whitespace or a `;`, are read as they are.
pub proof fn lemma_type_portion_reads(type_: Seq<u8>, subtype: Seq<u8>, rest: Seq<u8>)
    requires
        type_tokens(type_, subtype),
        rest.len() == 0 || ends_token(rest[0]),
    ensures
        type_portion(type_ + seq![SLASH] + subtype + rest, 0) == Ok::<
            (Seq<u8>, Seq<u8>, int),
            Error,
        >((type_, subtype, (type_.len() + 1 + subtype.len()) as int)),
{
    let s = type_ + seq![SLASH] + subtype + rest;
    let slash = type_.len() as int;
    let end = slash + 1 + subtype.len();
    assert forall|j: int| 0 <= j < slash implies #[trigger] s[j] != SLASH by {
        assert(s[j] == type_[j]);
    }
    lemma_find_byte_is(s, SLASH, 0, slash);
    assert forall|j: int| slash + 1 <= j < end implies !ends_token(#[trigger] s[j]) by {
        assert(s[j] == subtype[j - slash - 1]);
    }
    if end < s.len() {
        assert(s[end] == rest[0]);
    }
    lemma_token_end_is(s, slash + 1, end);
    assert(s.subrange(0, slash) =~= type_);
    assert(s.subrange(slash + 1, end) =~= subtype);
}

/// Tests whether `s` holds the bytes of `t` from position `d` on.
pub open spec fn holds_at(s: Seq<u8>, d: int, t: Seq<u8>) -> bool {
    &&& 0 <= d
    &&& d + t.len() <= s.len()
    &&& forall|j: int| 0 <= j < t.len() ==> s[d + j] == #[trigger] t[j]
}

/// The end of a name, with its position moved on by `d`.
pub open spec fn moved(end: NameEnd, d: int) -> NameEnd {
    match end {
        NameEnd::Equals(name, at) => NameEnd::Equals(name, at + d),
        other => other,
    }
}

/// Whitespace that ends within `t` ends at the same byte where `t` stands
/// inside `s`.
pub proof fn lemma_skip_whitespace_at(s: Seq<u8>, d: int, t: Seq<u8>, j: int)
    requires
        holds_at(s, d, t),
        0 <= j <= t.len(),
        skip_whitespace(t, j) < t.len(),
    ensures
        skip_whitespace(s, d + j) == d + skip_whitespace(t, j),
{
    let q = skip_whitespace(t, j);
    lemma_skip_whitespace_bounds(t, j);
    assert forall|k: int| d + j <= k < d + q implies is_http_whitespace(#[trigger] s[k]) by {
        assert(s[d + (k - d)] == t[k - d]);
    }
    assert(s[d + q] == t[q]);
    lemma_skip_whitespace_is(s, d + j, d + q);
}

/// A name that is read from `t`, which ends with `=`, is read in the same way
/// where `t` stands inside `s`.
pub proof fn lemma_name_from_at(
    s: Seq<u8>,
    d: int,
    t: Seq<u8>,
    j: int,
    name: Seq<u8>,
    extra: Seq<u8>,
)
    requires
        holds_at(s, d, t),
        t.len() > 0,
        t.last() == EQUALS,
        0 <= j < t.len(),
    ensures
        name_from(s, d + j, name, extra) == moved(name_from(t, j, name, extra), d),
    decreases t.len() - j,
{
    let run_end = name_run_end(t, j);
    lemma_name_run_end(t, j);
    assert(run_end < t.len()) by {
        if run_end >= t.len() {
            assert(!ends_name(t[t.len() - 1]));
        }
    }
    assert forall|k: int| d + j <= k < d + run_end implies !ends_name(#[trigger] s[k]) by {
        assert(s[d + (k - d)] == t[k - d]);
    }
    assert(s[d + run_end] == t[run_end]);
    lemma_name_run_end_is(s, d + j, d + run_end);
    let gap_end = skip_whitespace(t, run_end);
    lemma_skip_whitespace_bounds(t, run_end);
    assert(gap_end < t.len()) by {
        if gap_end >= t.len() {
            assert(is_http_whitespace(t[t.len() - 1]));
        }
    }
    lemma_skip_whitespace_at(s, d, t, run_end);
    assert(s[d + gap_end] == t[gap_end]);
    assert(s.subrange(d + j, d + run_end) =~= t.subrange(j, run_end));
    assert(s.subrange(d + run_end, d + gap_end) =~= t.subrange(run_end, gap_end));
    let read = name + extra + lower_all(t.subrange(j, run_end));
    if read.len() > MAX_TOKEN_LEN {
    } else if t[gap_end] == EQUALS {
    } else {
        lemma_name_from_at(s, d, t, gap_end, read, extra + t.subrange(run_end, gap_end));
    }
}

/// The bytes with which a value is written: the bytes of a token as they
/// are, and those of any other value between two `"`.
pub open spec fn written_value(value: Seq<char>) -> Seq<u8> {
    if is_token(value) {
        encode_utf8(value)
    } else {
        seq![QUOTE] + encode_utf8(value) + seq![QUOTE]
    }
}

/// The bytes with which a parameter is written.
pub open spec fn written(key: Seq<char>, value: Seq<char>) -> Seq<u8> {
    seq![SEMICOLON, SPACE] + encode_utf8(key) + seq![EQUALS] + written_value(value)
}

/// The text of a parameter has the bytes that `written` says.
pub proof fn lemma_written(key: Seq<char>, value: Seq<char>)
    ensures
        encode_utf8(parameter_text(key, value)) == written(key, value),
{
    lemma_marks();
    if !is_token(value) {
        lemma_encode_concat("\""@, value);
        lemma_encode_concat("\""@ + value, "\""@);
    }
    assert(encode_utf8(value_text(value)) == written_value(value));
    lemma_encode_concat("; "@, key);
    lemma_encode_concat("; "@ + key, "="@);
    lemma_encode_concat("; "@ + key + "="@, value_text(value));
}

/// The bytes of a token are those of its characters: none is whitespace, `;`
/// or `"`.
pub proof fn lemma_token_bytes(value: Seq<char>)
    requires
        is_token(value),
    ensures
        encode_utf8(value).len() == value.len(),
        forall|i: int|
            0 <= i < value.len() ==> !ends_token(#[trigger] encode_utf8(value)[i]) && encode_utf8(
                value,
            )[i] != QUOTE,
{
    assert(vstd::utf8::is_ascii_chars(value)) by {
        assert forall|i: int| 0 <= i < value.len() implies '\0' <= #[trigger] value[i]
            <= '\u{7f}' by {
            assert(is_tchar(value[i]));
        }
    }
    lemma_encode_ascii(value);
    assert forall|i: int| 0 <= i < value.len() implies !ends_token(
        #[trigger] encode_utf8(value)[i],
    ) && encode_utf8(value)[i] != QUOTE by {
        assert(is_tchar(value[i]));
        assert(encode_utf8(value)[i] == value[i] as u8);
    }
}

/// A written parameter that is read back, and that stands at `i` before the
/// end or the next `;`, is read as it is, and what follows it is read next.
pub proof fn lemma_parameter_reads(
    s: Seq<u8>,
    i: int,
    key: Seq<char>,
    value: Seq<char>,
    found: Seq<(Seq<u8>, Seq<u8>)>,
)
    requires
        holds_at(s, i, written(key, value)),
        i + written(key, value).len() == s.len() || s[i + written(key, value).len()] == SEMICOLON,
        key_reads_back(key),
        value_reads_back(value),
    ensures
        parameters_from(s, i, found) == parameters_from(
            s,
            i + written(key, value).len(),
            raw_insert(found, encode_utf8(key), encode_utf8(value)),
        ),
{
    let w = written(key, value);
    let kb = encode_utf8(key);
    let vb = encode_utf8(value);
    let t = seq![SEMICOLON, SPACE] + kb + seq![EQUALS];
    let e = i + w.len();
    assert(w[0] == SEMICOLON);
    assert(s[i + 0] == w[0]);
    assert(next_separator(s, i) == i);
    assert(holds_at(s, i, t)) by {
        assert forall|j: int| 0 <= j < t.len() implies s[i + j] == #[trigger] t[j] by {
            assert(w[j] == t[j]);
            assert(s[i + j] == w[j]);
        }
    }
    let start = skip_whitespace(t, 1);
    lemma_skip_whitespace_bounds(t, 1);
    assert(start < t.len()) by {
        if start >= t.len() {
            assert(is_http_whitespace(t[t.len() - 1]));
        }
    }
    lemma_skip_whitespace_at(s, i, t, 1);
    lemma_name_from_at(s, i, t, start, Seq::empty(), Seq::empty());
    let at = i + t.len() - 1;
    assert(name_at(s, skip_whitespace(s, i + 1)) == NameEnd::Equals(kb, at));
    let v = at + 1;
    assert(written_value(value).len() > 0);
    assert(s[i + (v - i)] == w[v - i]);
    assert(w[v - i] == written_value(value)[0]);
    if is_token(value) {
        lemma_token_bytes(value);
        assert(s[v] == vb[0]);
        lemma_skip_whitespace_is(s, v, v);
        assert forall|j: int| v <= j < e implies !ends_token(#[trigger] s[j]) by {
            assert(s[i + (j - i)] == w[j - i]);
            assert(w[j - i] == vb[j - v]);
        }
        lemma_token_end_is(s, v, e);
        assert(s.subrange(v, e) =~= vb) by {
            assert forall|j: int| 0 <= j < vb.len() implies s.subrange(v, e)[j] == vb[j] by {
                assert(s[i + (v + j - i)] == w[v + j - i]);
            }
        }
        assert(value_at(s, v) == (vb, e));
    } else {
        assert(s[v] == QUOTE);
        lemma_skip_whitespace_is(s, v, v);
        let q = e - 1;
        assert(s[i + (q - i)] == w[q - i]);
        assert(s[q] == QUOTE);
        assert forall|j: int| v + 1 <= j < q implies (#[trigger] s[j]) != QUOTE && s[j]
            != BACKSLASH by {
            assert(s[i + (j - i)] == w[j - i]);
            assert(w[j - i] == vb[j - v - 1]);
        }
        lemma_quoted_is(s, v + 1, q);
        assert(s.subrange(v + 1, q) =~= vb) by {
            assert forall|j: int| 0 <= j < vb.len() implies s.subrange(v + 1, q)[j] == vb[j] by {
                assert(s[i + (v + 1 + j - i)] == w[v + 1 + j - i]);
            }
        }
        assert(value_at(s, v) == (vb, e));
    }
}

/// The bytes with which parameters are written, one after the other.
pub open spec fn written_all(parameters: Entries) -> Seq<u8>
    decreases parameters.len(),
{
    if parameters.len() == 0 {
        Seq::empty()
    } else {
        written_all(parameters.drop_last()) + written(parameters.last().0, parameters.last().1)
    }
}

/// The raw parameters that parameters are written as.
pub open spec fn raw_of(parameters: Entries) -> Seq<(Seq<u8>, Seq<u8>)> {
    Seq::new(
        parameters.len(),
        |i: int| (encode_utf8(parameters[i].0), encode_utf8(parameters[i].1)),
    )
}

/// The text of parameters has the bytes that `written_all` says.
pub proof fn lemma_written_all(parameters: Entries)
    ensures
        encode_utf8(parameters_text(parameters)) == written_all(parameters),
    decreases parameters.len(),
{
    if parameters.len() > 0 {
        lemma_written_all(parameters.drop_last());
        lemma_written(parameters.last().0, parameters.last().1);
        lemma_encode_concat(
            parameters_text(parameters.drop_last()),
            parameter_text(parameters.last().0, parameters.last().1),
        );
    }
}

/// What is written for the first `j` parameters stands at the start of what
/// is written for them all, and the next one stands right after it.
pub proof fn lemma_written_prefix(parameters: Entries, j: int)
    requires
        0 <= j <= parameters.len(),
    ensures
        holds_at(written_all(parameters), 0, written_all(parameters.subrange(0, j))),
        j < parameters.len() ==> holds_at(
            written_all(parameters),
            written_all(parameters.subrange(0, j)).len() as int,
            written(parameters[j].0, parameters[j].1),
        ),
        j < parameters.len() ==> written_all(parameters.subrange(0, j + 1)) == written_all(
            parameters.subrange(0, j),
        ) + written(parameters[j].0, parameters[j].1),
        j == parameters.len() ==> written_all(parameters.subrange(0, j)) == written_all(
            parameters,
        ),
    decreases parameters.len() - j,
{
    let all = written_all(parameters);
    let first = written_all(parameters.subrange(0, j));
    if j == parameters.len() {
        assert(parameters.subrange(0, j) =~= parameters);
    } else {
        let next = parameters.subrange(0, j + 1);
        let one = written(parameters[j].0, parameters[j].1);
        assert(next.drop_last() =~= parameters.subrange(0, j));
        assert(next.last() == parameters[j]);
        assert(written_all(next) == first + one);
        lemma_written_prefix(parameters, j + 1);
        assert forall|k: int| 0 <= k < first.len() implies all[0 + k] == #[trigger] first[k] by {
            assert(written_all(next)[k] == first[k]);
            assert(all[0 + k] == written_all(next)[k]);
        }
        assert forall|k: int| 0 <= k < one.len() implies all[first.len() + k] == #[trigger] one[k] by {
            assert(written_all(next)[first.len() + k] == one[k]);
            assert(all[0 + (first.len() + k)] == written_all(next)[first.len() + k]);
        }
    }
}

/// Where written parameters stand at the end of `s`, each stands before the
/// end or the `;` of the next.
pub proof fn lemma_written_next(s: Seq<u8>, head: int, parameters: Entries, j: int)
    requires
        0 <= head,
        head + written_all(parameters).len() == s.len(),
        holds_at(s, head, written_all(parameters)),
        0 <= j < parameters.len(),
    ensures
        ({
            let at = head + written_all(parameters.subrange(0, j)).len();
            let one = written(parameters[j].0, parameters[j].1);
            &&& holds_at(s, at, one)
            &&& at + one.len() == head + written_all(parameters.subrange(0, j + 1)).len()
            &&& at + one.len() == s.len() || s[at + one.len()] == SEMICOLON
        }),
{
    let all = written_all(parameters);
    let first = written_all(parameters.subrange(0, j));
    let at = head + first.len();
    let one = written(parameters[j].0, parameters[j].1);
    lemma_written_prefix(parameters, j);
    lemma_written_prefix(parameters, j + 1);
    assert forall|k: int| 0 <= k < one.len() implies s[at + k] == #[trigger] one[k] by {
        assert(all[first.len() + k] == one[k]);
        assert(s[head + (first.len() + k)] == all[first.len() + k]);
    }
    if j + 1 < parameters.len() {
        let next = written(parameters[j + 1].0, parameters[j + 1].1);
        let m = (first.len() + one.len()) as int;
        assert((first + one).len() == m);
        assert(next[0] == SEMICOLON);
        assert(all[m + 0] == next[0]);
        assert(s[head + m] == all[m]);
    }
}

/// The next of parameters with different keys is put behind those that were
/// found before it.
pub proof fn lemma_raw_insert_next(parameters: Entries, j: int)
    requires
        sorted(parameters),
        0 <= j < parameters.len(),
    ensures
        raw_insert(
            raw_of(parameters).subrange(0, j),
            encode_utf8(parameters[j].0),
            encode_utf8(parameters[j].1),
        ) == raw_of(parameters).subrange(0, j + 1),
{
    let found = raw_of(parameters).subrange(0, j);
    let kb = encode_utf8(parameters[j].0);
    let vb = encode_utf8(parameters[j].1);
    lemma_raw_position(found, kb, 0);
    let q = raw_position(found, kb, 0);
    if q < found.len() {
        assert(found[q].0 == encode_utf8(parameters[q].0));
        assert(crate::text::text_before(parameters[q].0, parameters[j].0));
        lemma_before_irreflexive(kb, 0);
    }
    assert(raw_insert(found, kb, vb) =~= raw_of(parameters).subrange(0, j + 1));
}

/// Written parameters that are read back and have different keys, standing
/// at the end of `s`, are read as they are.
pub proof fn lemma_parameters_read(s: Seq<u8>, head: int, parameters: Entries, j: int)
    requires
        0 <= head,
        head + written_all(parameters).len() == s.len(),
        holds_at(s, head, written_all(parameters)),
        sorted(parameters),
        read_back(parameters),
        0 <= j <= parameters.len(),
    ensures
        parameters_from(
            s,
            head + written_all(parameters.subrange(0, j)).len(),
            raw_of(parameters).subrange(0, j),
        ) == Ok::<Seq<(Seq<u8>, Seq<u8>)>, Error>(raw_of(parameters)),
    decreases parameters.len() - j,
{
    let at = head + written_all(parameters.subrange(0, j)).len();
    let found = raw_of(parameters).subrange(0, j);
    if j == parameters.len() {
        lemma_written_prefix(parameters, j);
        assert(found =~= raw_of(parameters));
        assert(next_separator(s, at) == at);
    } else {
        let key = parameters[j].0;
        let value = parameters[j].1;
        lemma_written_next(s, head, parameters, j);
        assert(key_reads_back(key) && value_reads_back(value));
        lemma_parameter_reads(s, at, key, value, found);
        lemma_raw_insert_next(parameters, j);
        lemma_parameters_read(s, head, parameters, j + 1);
    }
}

/// Parameters in the order of their keys, with no extended key among them,
/// are what the raw parameters that they are written as stand for.
pub proof fn lemma_parameters_of_raw(parameters: Entries, j: int)
    requires
        sorted(parameters),
        read_back(parameters),
        0 <= j <= parameters.len(),
    ensures
        parameters_of(raw_of(parameters).subrange(0, j)) == Ok::<Entries, Error>(
            parameters.subrange(0, j),
        ),
    decreases j,
{
    let raw = raw_of(parameters).subrange(0, j);
    if j == 0 {
        assert(parameters.subrange(0, j) =~= Seq::empty());
    } else {
        lemma_parameters_of_raw(parameters, j - 1);
        assert(raw.drop_last() =~= raw_of(parameters).subrange(0, j - 1));
        let before = parameters.subrange(0, j - 1);
        let (key, value) = parameters[j - 1];
        assert(raw.last() == (encode_utf8(key), encode_utf8(value)));
        vstd::utf8::encode_utf8_valid_utf8(key);
        vstd::utf8::encode_utf8_valid_utf8(value);
        vstd::utf8::encode_utf8_decode_utf8(key);
        vstd::utf8::encode_utf8_decode_utf8(value);
        assert(key_reads_back(key));
        assert(parameter_of(raw.last().0, raw.last().1) == Ok::<(Seq<char>, Seq<char>), Error>(
            (key, value),
        ));
        assert forall|k: int| 0 <= k < before.len() implies crate::text::text_before(
            (#[trigger] before[k]).0,
            key,
        ) by {
            assert(crate::text::text_before(parameters[k].0, parameters[j - 1].0));
        }
        lemma_slot_is(before, key, 0, before.len() as int);
        assert(put(before, key, value) =~= parameters.subrange(0, j));
    }
}

/// What is written for parameters, if there are any, starts with `;` and
/// does not end with whitespace.
pub proof fn lemma_written_ends(parameters: Entries)
    requires
        parameters.len() > 0,
    ensures
        written_all(parameters).len() > 0,
        written_all(parameters)[0] == SEMICOLON,
        !is_http_whitespace(written_all(parameters).last()),
{
    let all = written_all(parameters);
    lemma_written_prefix(parameters, 0);
    assert(parameters.subrange(0, 0) =~= Seq::empty());
    let one = written(parameters[0].0, parameters[0].1);
    assert(one[0] == SEMICOLON);
    assert(all[0int + 0] == one[0]);
    let value = parameters.last().1;
    let last = written(parameters.last().0, value);
    assert(all.last() == last.last());
    if is_token(value) {
        lemma_token_bytes(value);
        assert(!ends_token(encode_utf8(value)[value.len() - 1]));
    }
}

/// The canonical text of a media type that was parsed, and whose parameters
/// are read back as they are written, is parsed to the same media type.
pub proof fn lemma_round_trip(text: Seq<char>, v: MediaTypeView)
    requires
        parsed(text) == Ok::<MediaTypeView, Error>(v),
        read_back(v.parameters),
    ensures
        parsed(rendered(v)) == Ok::<MediaTypeView, Error>(v),
{
    let s0 = trimmed(encode_utf8(text));
    let (t0, u0, r0) = tokens(s0)->Ok_0;
    let start = skip_whitespace(s0, 0);
    lemma_skip_whitespace_bounds(s0, 0);
    lemma_type_portion_tokens(s0, start);
    assert(structured(t0, u0, r0) == Ok::<MediaTypeView, Error>(v));
    lemma_type_text(t0, v.type_);
    lemma_subtype_text(u0, v.subtype);
    lemma_parameters_of_sorted(r0);
    let ps = v.parameters;
    lemma_written_all(ps);
    lemma_marks();
    let all = written_all(ps);
    let b = encode_utf8(rendered(v));
    lemma_encode_concat(type_text(v.type_), "/"@);
    lemma_encode_concat(type_text(v.type_) + "/"@, subtype_text(v.subtype));
    lemma_encode_concat(
        type_text(v.type_) + "/"@ + subtype_text(v.subtype),
        parameters_text(ps),
    );
    assert(b == t0 + seq![SLASH] + u0 + all);
    let head = (t0.len() + 1 + u0.len()) as int;
    if ps.len() > 0 {
        lemma_written_ends(ps);
    } else {
        assert(all =~= Seq::<u8>::empty());
    }
    assert(!is_http_whitespace(b[0])) by {
        if t0.len() > 0 {
            assert(b[0] == t0[0]);
        } else {
            assert(b[0] == SLASH);
        }
    }
    assert(!is_http_whitespace(b.last())) by {
        if ps.len() > 0 {
            assert(b.last() == all.last());
        } else if u0.len() > 0 {
            assert(b.last() == u0.last());
            assert(!ends_token(u0[u0.len() - 1]));
        } else {
            assert(b.last() == SLASH);
        }
    }
    lemma_trimmed_is(b);
    lemma_skip_whitespace_is(b, 0, 0);
    lemma_type_portion_reads(t0, u0, all);
    assert(holds_at(b, head, all));
    lemma_parameters_read(b, head, ps, 0);
    assert(ps.subrange(0, 0) =~= Seq::empty());
    assert(raw_of(ps).subrange(0, 0) =~= Seq::empty());
    assert(parameters_from(b, head, Seq::empty()) == Ok::<Seq<(Seq<u8>, Seq<u8>)>, Error>(
        raw_of(ps),
    ));
    lemma_parameters_of_raw(ps, ps.len() as int);
    assert(ps.subrange(0, ps.len() as int) =~= ps);
    assert(raw_of(ps).subrange(0, ps.len() as int) =~= raw_of(ps));
    assert(tokens(b) == Ok::<(Seq<u8>, Seq<u8>, Seq<(Seq<u8>, Seq<u8>)>), Error>(
        (t0, u0, raw_of(ps)),
    ));
}

} // verus!
