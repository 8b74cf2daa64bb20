use media_types::charset::found_charset;
use media_types::{Charset, Error};

#[test]
fn test_error_description() {
    assert_eq!(Error::Invalid.description(), "given media type is invalid");
    assert_eq!(Error::NotFound.description(), "given parameter not found");
    let error = Error::Utf8Error(std::str::from_utf8(b"\xff").unwrap_err());
    assert_eq!(error.description(), "decoding as UTF-8 failed");
    assert_ne!(Error::Invalid, Error::NotFound);
    assert_ne!(error, Error::Invalid);
}

#[test]
fn test_found_charset() {
    assert_eq!(found_charset(Some(Charset::Utf8)), Ok(Charset::Utf8));
    assert_eq!(found_charset(None), Err(Error::Invalid));
}
