//! The canonical text of a media type.

use vstd::prelude::*;
use vstd::string::StringExecFns;
use crate::grammar::is_token;
use crate::grammar::token;
use crate::media_type::name_of_type;
use crate::media_type::tree_prefix;
use crate::media_type::MediaType;
use crate::media_type::MediaTypeView;
use crate::media_type::SubtypeView;
use crate::media_type::TypeView;
use crate::params::Entries;

verus! {

/// The text of the type: its name, or `*` for any type.
pub open spec fn type_text(type_: Option<TypeView>) -> Seq<char> {
    match type_ {
        Some(t) => name_of_type(t),
        None => "*"@,
    }
}

/// The text of the suffix: `+` and the suffix, or nothing.
pub open spec fn suffix_text(suffix: Option<Seq<char>>) -> Seq<char> {
    match suffix {
        Some(text) => "+"@ + text,
        None => Seq::empty(),
    }
}

/// The text of the subtype: the prefix of its tree, its name and its suffix,
/// or `*` for any subtype.
pub open spec fn subtype_text(subtype: Option<SubtypeView>) -> Seq<char> {
    match subtype {
        Some((tree, name, suffix)) => tree_prefix(tree) + name + suffix_text(suffix),
        None => "*"@,
    }
}

/// The text of a value: the value itself where it is a token, and otherwise
/// the value between two `"`, with nothing escaped in it.
pub open spec fn value_text(value: Seq<char>) -> Seq<char> {
    if is_token(value) {
        value
    } else {
        "\""@ + value + "\""@
    }
}

/// The text of one parameter: `; `, the key, `=` and the text of the value.
pub open spec fn parameter_text(key: Seq<char>, value: Seq<char>) -> Seq<char> {
    "; "@ + key + "="@ + value_text(value)
}

/// The text of the parameters, one after the other.
pub open spec fn parameters_text(parameters: Entries) -> Seq<char>
    decreases parameters.len(),
{
    if parameters.len() == 0 {
        Seq::empty()
    } else {
        parameters_text(parameters.drop_last()) + parameter_text(
            parameters.last().0,
            parameters.last().1,
        )
    }
}

/// The canonical text of a media type: the type, `/`, the subtype, and the
/// parameters in the order of their keys.
pub open spec fn rendered(v: MediaTypeView) -> Seq<char> {
    type_text(v.type_) + "/"@ + subtype_text(v.subtype) + parameters_text(v.parameters)
}

impl MediaType {
    /// The canonical text of this media type. Its parameters come in the
    /// order of their keys; a value that is no token stands between two `"`,
    /// with nothing escaped in it.
    pub fn to_string(&self) -> (r: String)
        ensures
            r@ == rendered(self@),
    {
        let mut out = String::new();
        match &self.type_ {
            Some(t) => out.append(t.as_str()),
            None => out.append("*"),
        }
        out.append("/");
        match &self.subtype {
            Some(subtype) => {
                out.append(subtype.0.to_string().as_str());
                out.append(subtype.1.as_str());
                match &subtype.2 {
                    Some(suffix) => {
                        out.append("+");
                        out.append(suffix.as_str());
                    },
                    None => {},
                }
            },
            None => out.append("*"),
        }
        let ghost head = out@;
        assert(head =~= type_text(self@.type_) + "/"@ + subtype_text(self@.subtype));
        let n = self.parameters.len();
        let mut i: usize = 0;
        assert(self@.parameters.subrange(0, 0) =~= Entries::empty());
        while i < n
            invariant
                i <= n,
                n == self@.parameters.len(),
                out@ == head + parameters_text(self@.parameters.subrange(0, i as int)),
            decreases n - i,
        {
            let key = self.parameters.key_at(i);
            let value = self.parameters.value_at(i);
            let ghost before = out@;
            let ghost next = self@.parameters.subrange(0, i + 1);
            assert(next.drop_last() =~= self@.parameters.subrange(0, i as int));
            assert(next.last() == self@.parameters[i as int]);
            out.append("; ");
            out.append(key.as_str());
            out.append("=");
            if token(value.as_str()) {
                out.append(value.as_str());
            } else {
                out.append("\"");
                out.append(value.as_str());
                out.append("\"");
            }
            assert(out@ =~= before + parameter_text(key@, value@));
            assert(out@ =~= head + parameters_text(next));
            i += 1;
        }
        assert(self@.parameters.subrange(0, n as int) =~= self@.parameters);
        out
    }
}

} // verus!
