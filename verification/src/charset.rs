//! Charset names, as the `charsets` crate knows them.

use vstd::prelude::*;
use charsets::Charset;
use crate::error::Error;

verus! {

/// A charset name of the `charsets` crate. Nothing of it is visible to
/// proofs but what the two functions below say.
#[verifier::external_type_specification]
#[verifier::external_body]
pub struct ExCharset(charsets::Charset);

/// The charset that the `charsets` crate finds for `name`.
pub uninterp spec fn charset_lookup(name: Seq<char>) -> Option<charsets::Charset>;

/// The name under which the `charsets` crate writes `charset`.
pub uninterp spec fn charset_name(charset: charsets::Charset) -> Seq<char>;

/// `<Charset as FromStr>::from_str`: looks `name` up in the crate's table of
/// charsets, which depends on `name` alone, and finds a charset for every
/// name: the registered one, or an unregistered one that carries the name.
/// The crate's only error, which holds nothing and which this call never
/// gives, becomes `None`.
#[verifier::external_body]
pub(crate) fn lookup_charset(name: &str) -> (r: Option<Charset>)
    ensures
        r == charset_lookup(name@),
        r is Some,
{
    match name.parse::<Charset>() {
        Ok(charset) => Some(charset),
        Err(_) => None,
    }
}

/// `<Charset as Display>::fmt`, through `to_string`: the name of `charset` in
/// the crate's table, or the name that an unregistered charset carries.
#[verifier::external_body]
pub(crate) fn charset_text(charset: &Charset) -> (r: String)
    ensures
        r@ == charset_name(*charset),
{
    charset.to_string()
}

/// `Charset::Utf8`, which the crate's table writes as `utf-8`.
#[verifier::external_body]
pub(crate) fn utf8_charset() -> (r: Charset)
    ensures
        charset_name(r) == "utf-8"@,
{
    Charset::Utf8
}

/// What the `charset` parameter of a media type stands for: no charset where
/// the parameter is absent, and none where no charset is found for its name.
pub open spec fn charset_of(parameter: Option<Seq<char>>) -> Result<Charset, Error> {
    match parameter {
        None => Err(Error::NotFound),
        Some(name) => charset_found(charset_lookup(name)),
    }
}

/// The result of a lookup as a result of this library.
pub open spec fn charset_found(found: Option<Charset>) -> Result<Charset, Error> {
    match found {
        Some(charset) => Ok(charset),
        None => Err(Error::Invalid),
    }
}

/// Turns the result of a lookup into a result of this library: a name for
/// which no charset was found is invalid.
pub fn found_charset(found: Option<Charset>) -> (r: Result<Charset, Error>)
    ensures
        r == charset_found(found),
{
    match found {
        Some(charset) => Ok(charset),
        None => Err(Error::Invalid),
    }
}

} // verus!
