use media_types::parse::{decode_extended_value, structure, structure_parameter, structure_parameters, structure_subtype, structure_type};
use media_types::{Application, Audio, Image, Message, Model, Multipart, Personal, Private, Standards, Text, Vendor, Video};
use media_types::{Charset, Error, MediaType, Parameters, Tree, Type};

fn parse(input: &str) -> MediaType {
    MediaType::parse(input).unwrap()
}

#[test]
fn test_wildcard_identity() {
    assert_eq!(MediaType::parse("*/*"), Ok(MediaType::wildcard()));
    assert_eq!(parse("*/*").type_, None);
    assert_eq!(parse("*/*").subtype, None);
    assert!(parse("*/*").parameters.is_empty());
}

#[test]
fn test_case_insensitivity() {
    assert_eq!(MediaType::parse("TEXT/PLAIN"), MediaType::parse("text/plain"));
    assert_eq!(parse("Application/VND.Ms-Excel+XML; CharSet=x"), parse("application/vnd.ms-excel+xml; charset=x"));
    assert_ne!(parse("text/plain; charset=UTF-8"), parse("text/plain; charset=utf-8"));
}

#[test]
fn test_parsed_text_is_lower_case() {
    let tag = parse("FOO/Bar.BAZ+Qux; KEY=Value; Other*=UTF-8''A%20B");
    assert_eq!(tag.type_, Some(Type::Unregistered("foo".into())));
    assert_eq!(tag.tree(), Some(&Tree::Unregistered("bar".into())));
    assert_eq!(tag.sub(), Some(&"baz".to_string()));
    assert_eq!(tag.suffix(), Some(&"qux".to_string()));
    assert_eq!(tag.parameters.len(), 2);
    assert_eq!(tag.parameters.key_at(0), "key");
    assert_eq!(tag.parameters.value_at(0), "Value");
    assert_eq!(tag.parameters.key_at(1), "other");
    assert_eq!(tag.parameters.value_at(1), "A B");
}

#[test]
fn test_parsed_keys() {
    let tag = parse("a/b;  \t K1 = v; A B=c; =d");
    assert_eq!(tag.parameters.len(), 3);
    assert_eq!(tag.parameters.key_at(0), "");
    assert_eq!(tag.parameters.key_at(1), "a b");
    assert_eq!(tag.parameters.key_at(2), "k1");
    for i in 0..tag.parameters.len() {
        let key = tag.parameters.key_at(i);
        assert!(key.len() <= 127);
        assert!(!key.contains('='));
        assert!(!key.chars().any(|c| c.is_ascii_uppercase()));
        assert!(!key.starts_with(|c| c == ' ' || c == '\t' || c == '\r' || c == '\n'));
    }
}

#[test]
fn test_round_trip_of_plain_keys() {
    for input in ["Text/Plain; B=\"x y\"; A=1", "a/b; k*=utf-8''v%20w; l=", "*/*;x=y;x=z"] {
        let tag = parse(input);
        assert_eq!(MediaType::parse(&tag.to_string()), Ok(tag));
    }
}

#[test]
fn test_parts() {
    let tag = parse("text/plain");
    assert_eq!(tag.type_, Some(Text));
    assert_eq!(tag.sub(), Some(&"plain".to_string()));
    assert_eq!(tag.tree(), Some(&Standards));
    assert_eq!(tag.suffix(), None);

    let tag = parse("application/vnd.oasis.opendocument.text");
    assert_eq!(tag.type_, Some(Application));
    assert_eq!(tag.tree(), Some(&Vendor));
    assert_eq!(tag.sub(), Some(&"oasis.opendocument.text".to_string()));

    let tag = parse("image/svg+xml");
    assert_eq!(tag.type_, Some(Image));
    assert_eq!(tag.sub(), Some(&"svg".to_string()));
    assert_eq!(tag.suffix(), Some(&"xml".to_string()));

    let tag = parse("audio/*");
    assert_eq!(tag.type_, Some(Audio));
    assert_eq!(tag.subtype, None);
    assert_eq!(tag.tree(), None);
    assert_eq!(tag.sub(), None);

    assert_eq!(MediaType::parse(""), Err(Error::Invalid));
}

#[test]
fn test_extended_parameter() {
    let tag = parse("application/x-stuff; title*=\"us-ascii'en-us'This is%20%2A%2A%2Afun%2A%2A%2A\"");
    assert_eq!(tag.parameters.get("title"), Some(&"This is ***fun***".to_string()));
    assert_eq!(tag.parameters.get("title*"), None);
    let tag = parse("application/x-stuff; title*=us-ascii'en-us'This%20is%20%2A%2A%2Afun%2A%2A%2A");
    assert_eq!(tag.parameters.get("title"), Some(&"This is ***fun***".to_string()));
    let tag = parse("application/x-stuff; title*=us-ascii'en-us'This is%20%2A%2A%2Afun%2A%2A%2A");
    assert_eq!(tag.parameters.get("title"), Some(&"This".to_string()));
    assert_eq!(tag.parameters.len(), 1);
    let tag = parse("example/*; codecs*=''fo%2e");
    assert_eq!(tag.parameters.get("codecs"), Some(&"fo.".to_string()));
    let tag = parse("example/*; codecs*=\"''%25%20xz, gork\"");
    assert_eq!(tag.parameters.get("codecs"), Some(&"% xz, gork".to_string()));
    let tag = parse("a/b; k*=utf-8'de'caf%C3%A9");
    assert_eq!(tag.parameters.get("k"), Some(&"caf\u{e9}".to_string()));
    let tag = parse("a/b; k*=a'b'c'd");
    assert_eq!(tag.parameters.get("k"), Some(&"c'd".to_string()));
    let tag = parse("a/b; k*=%27%27x");
    assert_eq!(tag.parameters.get("k"), Some(&"x".to_string()));
    let tag = parse("a/b; k=1; k*=''2");
    assert_eq!(tag.parameters.get("k"), Some(&"2".to_string()));
    let tag = parse("a/b; k*=''2; k=1");
    assert_eq!(tag.parameters.get("k"), Some(&"1".to_string()));
    let tag = parse("a/b; k**=''2");
    assert_eq!(tag.parameters.get("k*"), Some(&"2".to_string()));
}

#[test]
fn test_extended_parameter_failures() {
    assert_eq!(MediaType::parse("a/b; k*=value"), Err(Error::Invalid));
    assert_eq!(MediaType::parse("a/b; k*=charset'value"), Err(Error::Invalid));
    assert_eq!(MediaType::parse("a/b; k*="), Err(Error::Invalid));
    assert_eq!(MediaType::parse("a/b; k*"), Err(Error::Invalid));
    assert_eq!(decode_extended_value(b"''"), Ok(String::new()));
    assert_eq!(decode_extended_value(b"a'b"), Err(Error::Invalid));
    let expected = std::str::from_utf8(b"''\xff").unwrap_err();
    assert_eq!(MediaType::parse("a/b; k*=''%ff"), Err(Error::Utf8Error(expected)));
    assert_eq!(decode_extended_value(b"%ff"), Err(Error::Utf8Error(std::str::from_utf8(b"\xff").unwrap_err())));
}

#[test]
fn test_parse_trims() {
    assert_eq!(parse("  text/plain  "), parse("text/plain"));
    assert_eq!(parse("\r\n\ttext/plain; a=b\r\n"), parse("text/plain;a=b"));
    assert_eq!(MediaType::parse("   "), Err(Error::Invalid));
    assert_eq!(MediaType::parse("\t\r\n"), Err(Error::Invalid));
    let tag = parse("text/plain; flag ");
    assert_eq!(tag.parameters.get("flag"), Some(&String::new()));
    assert_eq!(tag.parameters.len(), 1);
    let tag = parse("text/plain; a=\"b ");
    assert_eq!(tag.parameters.get("a"), Some(&"b".to_string()));
}

#[test]
fn test_parse_failures() {
    assert_eq!(MediaType::parse("text"), Err(Error::Invalid));
    assert_eq!(MediaType::parse("text plain"), Err(Error::Invalid));
    assert_eq!(MediaType::parse(&format!("{}/plain", "t".repeat(128))), Err(Error::Invalid));
    assert_eq!(MediaType::parse(&format!("text/{}", "p".repeat(128))), Err(Error::Invalid));
    assert_eq!(MediaType::parse(&format!("text/plain; {}=1", "k".repeat(128))), Err(Error::Invalid));
    assert_eq!(MediaType::parse(&format!("text/plain;{}=1", "K".repeat(128))), Err(Error::Invalid));
    let parsed = MediaType::parse(&format!("text/plain; {}=1", "k".repeat(127))).unwrap();
    assert_eq!(parsed.parameters.get(&"k".repeat(127)), Some(&String::from("1")));
    assert!(MediaType::parse(&format!("{}/plain", "t".repeat(127))).is_ok());
    assert!("text".parse::<MediaType>().is_err());
}

#[test]
fn test_types() {
    assert_eq!(parse("text/x").type_, Some(Text));
    assert_eq!(parse("image/x").type_, Some(Image));
    assert_eq!(parse("audio/x").type_, Some(Audio));
    assert_eq!(parse("video/x").type_, Some(Video));
    assert_eq!(parse("application/x").type_, Some(Application));
    assert_eq!(parse("multipart/x").type_, Some(Multipart));
    assert_eq!(parse("message/x").type_, Some(Message));
    assert_eq!(parse("model/x").type_, Some(Model));
    assert_eq!(parse("MODEL/x").type_, Some(Model));
    assert_eq!(parse("font/x").type_, Some(Type::Unregistered("font".into())));
    assert_eq!(parse("/x").type_, Some(Type::Unregistered(String::new())));
    assert_eq!(parse("te xt/x").type_, Some(Type::Unregistered("te xt".into())));
    assert_eq!(parse("*/x").type_, None);
    assert_eq!(parse("*/x").sub(), Some(&"x".to_string()));
    assert_ne!(Type::Unregistered("text".into()), Text);
    assert_eq!(Type::Unregistered("a".into()), Type::Unregistered("a".into()));
    assert_ne!(Type::Unregistered("a".into()), Type::Unregistered("b".into()));
    assert_eq!(structure_type(b"text"), Ok(Some(Text)));
    assert_eq!(structure_type(b"*"), Ok(None));
    assert_eq!(structure_type(b"Text"), Ok(Some(Type::Unregistered("Text".into()))));
    assert_eq!(structure_type(b"caf\xc3\xa9"), Ok(Some(Type::Unregistered("caf\u{e9}".into()))));
    assert_eq!(
        structure_type(b"a\xffb"),
        Err(Error::Utf8Error(std::str::from_utf8(b"a\xffb").unwrap_err()))
    );
}

#[test]
fn test_type_names() {
    assert_eq!(Text.as_str(), "text");
    assert_eq!(Image.to_string(), "image");
    assert_eq!(Audio.to_string(), "audio");
    assert_eq!(Video.to_string(), "video");
    assert_eq!(Application.to_string(), "application");
    assert_eq!(Multipart.to_string(), "multipart");
    assert_eq!(Message.to_string(), "message");
    assert_eq!(Model.to_string(), "model");
    assert_eq!(Type::Unregistered("font".into()).to_string(), "font");
    assert_eq!(Standards.to_string(), "");
    assert_eq!(Vendor.to_string(), "vnd.");
    assert_eq!(Personal.to_string(), "prs.");
    assert_eq!(Private.to_string(), "x.");
    assert_eq!(Tree::Unregistered("spam".into()).to_string(), "spam.");
}

#[test]
fn test_subtypes() {
    let sub = |tree: Tree, name: &str, suffix: Option<&str>| {
        Ok(Some((tree, name.to_string(), suffix.map(|s| s.to_string()))))
    };
    assert_eq!(structure_subtype(b"*"), Ok(None));
    assert_eq!(structure_subtype(b"plain"), sub(Standards, "plain", None));
    assert_eq!(structure_subtype(b""), sub(Standards, "", None));
    assert_eq!(structure_subtype(b"svg+xml"), sub(Standards, "svg", Some("xml")));
    assert_eq!(structure_subtype(b"a+b+c"), sub(Standards, "a+b", Some("c")));
    assert_eq!(structure_subtype(b"a+"), sub(Standards, "a", Some("")));
    assert_eq!(structure_subtype(b"+xml"), sub(Standards, "", Some("xml")));
    assert_eq!(structure_subtype(b"*+xml"), sub(Standards, "*", Some("xml")));
    assert_eq!(structure_subtype(b"vnd.ms-excel"), sub(Vendor, "ms-excel", None));
    assert_eq!(structure_subtype(b"prs.me"), sub(Personal, "me", None));
    assert_eq!(structure_subtype(b"x.y.z"), sub(Private, "y.z", None));
    assert_eq!(structure_subtype(b"spam.eggs"), sub(Tree::Unregistered("spam".into()), "eggs", None));
    assert_eq!(structure_subtype(b".eggs"), sub(Tree::Unregistered(String::new()), "eggs", None));
    assert_eq!(structure_subtype(b"vnd."), sub(Vendor, "", None));
    assert_eq!(structure_subtype(b"vnd.a.b+c.d"), sub(Vendor, "a.b", Some("c.d")));
    assert_eq!(structure_subtype(b"a+b.c"), sub(Standards, "a", Some("b.c")));
    assert_eq!(structure_subtype(b"x-stuff"), sub(Standards, "x-stuff", None));
    assert_eq!(
        structure_subtype(b"caf\xc3\xa9.\xc3\xa9+\xc3\xa9"),
        sub(Tree::Unregistered("caf\u{e9}".into()), "\u{e9}", Some("\u{e9}"))
    );
    assert_eq!(
        structure_subtype(b"a+\xff"),
        Err(Error::Utf8Error(std::str::from_utf8(b"a+\xff").unwrap_err()))
    );
    assert_ne!(Tree::Unregistered("vnd".into()), Vendor);
}

#[test]
fn test_structure_order_of_errors() {
    let bad = |bytes: &[u8]| Error::Utf8Error(std::str::from_utf8(bytes).unwrap_err());
    let parameters = vec![(b"k".to_vec(), b"\xfe".to_vec())];
    assert_eq!(structure(b"\xff", b"\xfd", &parameters), Err(bad(b"\xff")));
    assert_eq!(structure(b"text", b"\xfd", &parameters), Err(bad(b"\xfe")));
    assert_eq!(structure(b"text", b"\xfd", &vec![]), Err(bad(b"\xfd")));
    let parameters = vec![(b"k*".to_vec(), b"x".to_vec()), (b"\xfc".to_vec(), b"v".to_vec())];
    assert_eq!(structure(b"text", b"plain", &parameters), Err(Error::Invalid));
    let parameters = vec![(b"\xfc".to_vec(), b"v".to_vec()), (b"k*".to_vec(), b"x".to_vec())];
    assert_eq!(structure(b"text", b"plain", &parameters), Err(bad(b"\xfc")));
    assert_eq!(structure_parameter(b"\xfb*", b"x"), Err(bad(b"\xfb")));
    assert_eq!(structure_parameter(b"\xfb", b"\xfa"), Err(bad(b"\xfb")));
    assert_eq!(structure_parameter(b"k", b"v"), Ok(("k".to_string(), "v".to_string())));
    assert_eq!(structure_parameter(b"", b""), Ok((String::new(), String::new())));
    assert_eq!(structure_parameter(b"*", b"''v"), Ok((String::new(), "v".to_string())));
    let tag = structure(b"text", b"plain", &vec![(b"b".to_vec(), b"1".to_vec()), (b"a".to_vec(), b"2".to_vec())]).unwrap();
    assert_eq!(tag.to_string(), "text/plain; a=2; b=1");
    assert_eq!(structure_parameters(&vec![]).unwrap(), Parameters::new());
}

#[test]
fn test_boundary() {
    let tag = parse("multipart/mixed; boundary=\"simple boundary\"");
    assert_eq!(tag.boundary(), Ok("simple boundary"));
    let long = "a".repeat(129);
    let tag = parse(&format!("multipart/mixed; boundary={}", long));
    assert_eq!(tag.boundary(), Err(Error::Invalid));
    let tag = parse(&format!("multipart/mixed; boundary={}", "a".repeat(70)));
    assert_eq!(tag.boundary().map(|b| b.len()), Ok(70));
    let tag = parse(&format!("multipart/mixed; boundary={}", "a".repeat(71)));
    assert_eq!(tag.boundary(), Err(Error::Invalid));
    assert_eq!(parse("multipart/mixed").boundary(), Err(Error::NotFound));
    assert_eq!(parse("multipart/mixed; boundary=\"\"").boundary(), Err(Error::Invalid));
    assert_eq!(parse("multipart/mixed; boundary=\"a \"").boundary(), Err(Error::Invalid));
    assert_eq!(parse("multipart/mixed; boundary=a*b").boundary(), Err(Error::Invalid));
    assert_eq!(parse("multipart/mixed; Boundary=x").boundary(), Ok("x"));
}

#[test]
fn test_charset() {
    assert_eq!(parse("text/plain; charset=iso-8859-1").charset(), Ok(Charset::Iso88591));
    assert_eq!(parse("text/plain; charset=UTF-8").charset(), Ok(Charset::Utf8));
    assert_eq!(parse("text/plain; charset=us-ascii").charset(), Ok(Charset::UsAscii));
    assert_eq!(parse("text/plain; charset=klingon").charset(), Ok(Charset::Unregistered("klingon".into())));
    assert_eq!(parse("text/plain; charset=\"\"").charset(), Ok(Charset::Unregistered("".into())));
    assert_eq!(parse("text/plain").charset(), Err(Error::NotFound));
    assert_eq!(parse("text/plain; boundary=x").charset(), Err(Error::NotFound));
}

#[test]
fn test_set_charset() {
    let mut tag = parse("text/plain");
    assert_eq!(tag.set_charset(Charset::Iso88591), None);
    assert_eq!(tag.parameters.get("charset"), Some(&"ISO-8859-1".to_string()));
    assert_eq!(tag.to_string(), "text/plain; charset=ISO-8859-1");
    assert_eq!(tag.set_charset_utf8(), Some("ISO-8859-1".to_string()));
    assert_eq!(tag.parameters.get("charset"), Some(&"utf-8".to_string()));
    assert_eq!(tag.charset(), Ok(Charset::Utf8));
    assert_eq!(tag.set_charset(Charset::Unregistered("klingon".into())), Some("utf-8".to_string()));
    assert_eq!(tag.to_string(), "text/plain; charset=klingon");
    assert_eq!(tag.type_, Some(Text));
    assert_eq!(tag.sub(), Some(&"plain".to_string()));
    let mut tag = MediaType::wildcard();
    assert_eq!(tag.set_charset_utf8(), None);
    assert_eq!(tag.to_string(), "*/*; charset=utf-8");
}

#[test]
fn test_mime_portion() {
    let a = parse("text/html; charset=utf-8");
    let b = parse("text/html");
    let c = parse("text/plain");
    assert!(a.eq_mime_portion(&b));
    assert!(!a.ne_mime_portion(&b));
    assert_ne!(a, b);
    assert!(!a.eq_mime_portion(&c));
    assert!(a.ne_mime_portion(&c));
    assert!(parse("*/*").eq_mime_portion(&MediaType::wildcard()));
    assert!(!parse("text/*").eq_mime_portion(&parse("text/plain")));
    assert!(!parse("image/svg+xml").eq_mime_portion(&parse("image/svg")));
    assert!(!parse("image/vnd.svg").eq_mime_portion(&parse("image/prs.svg")));
    assert!(parse("image/vnd.svg+xml").eq_mime_portion(&MediaType::new_with_suffix(Image, Vendor, "svg", "xml")));
    assert_eq!(MediaType::default(), MediaType::wildcard());
    assert_eq!(a.clone(), a);
}

#[test]
fn test_classification() {
    assert!(parse("image/png").is_image_type());
    assert!(parse("image/*").is_image_type());
    assert!(!parse("text/png").is_image_type());
    assert!(!parse("*/*").is_image_type());
    assert!(!MediaType::wildcard_subtype(Type::Unregistered("image".into())).is_image_type());

    assert!(parse("audio/mpeg").is_audio_or_video_type());
    assert!(parse("video/*").is_audio_or_video_type());
    assert!(parse("application/ogg").is_audio_or_video_type());
    assert!(!parse("application/vnd.ogg").is_audio_or_video_type());
    assert!(!parse("application/ogg+xml").is_audio_or_video_type());
    assert!(!parse("text/ogg").is_audio_or_video_type());

    for name in ["font-ttf", "font-cff", "font-off", "font-sfnt", "vnd.ms-opentype", "font-woff", "vnd.ms-fontobject"] {
        assert!(parse(&format!("application/{}", name)).is_font_type(), "{}", name);
        assert!(!parse(&format!("text/{}", name)).is_font_type(), "{}", name);
    }
    assert!(!parse("application/ms-opentype").is_font_type());
    assert!(!parse("application/vnd.font-ttf").is_font_type());
    assert!(!parse("application/font-woff2").is_font_type());

    assert!(parse("application/zip").is_zip_based_type());
    assert!(parse("application/epub+zip").is_zip_based_type());
    assert!(parse("text/anything+zip").is_zip_based_type());
    assert!(!parse("text/zip").is_zip_based_type());
    assert!(!parse("application/gzip").is_zip_based_type());

    assert!(parse("application/x-rar-compressed").is_archive_type());
    assert!(parse("application/zip").is_archive_type());
    assert!(parse("application/x-gzip").is_archive_type());
    assert!(!parse("application/x.gzip").is_archive_type());
    assert!(!parse("application/epub+zip").is_archive_type());
    assert!(!parse("text/zip").is_archive_type());

    assert!(parse("text/xml").is_xml_type());
    assert!(parse("application/xml").is_xml_type());
    assert!(parse("image/svg+xml").is_xml_type());
    assert!(!parse("image/xml").is_xml_type());
    assert!(!parse("text/vnd.xml").is_xml_type());
    assert!(!parse("text/*").is_xml_type());

    assert!(parse("text/html").is_scriptable_mime_type());
    assert!(parse("application/pdf").is_scriptable_mime_type());
    assert!(!parse("application/html").is_scriptable_mime_type());
    assert!(!parse("text/pdf").is_scriptable_mime_type());
    assert!(!parse("text/html+xml").is_scriptable_mime_type());
}

#[test]
fn test_classification_ignores_parameters() {
    for input in ["image/png", "application/ogg", "application/font-woff", "application/zip", "text/xml", "text/html", "a/b+zip"] {
        let plain = parse(input);
        let mut with = parse(input);
        with.parameters.insert("charset".into(), "x".into());
        with.parameters.insert("q".into(), "0.5".into());
        assert_eq!(plain.is_image_type(), with.is_image_type());
        assert_eq!(plain.is_audio_or_video_type(), with.is_audio_or_video_type());
        assert_eq!(plain.is_font_type(), with.is_font_type());
        assert_eq!(plain.is_zip_based_type(), with.is_zip_based_type());
        assert_eq!(plain.is_archive_type(), with.is_archive_type());
        assert_eq!(plain.is_xml_type(), with.is_xml_type());
        assert_eq!(plain.is_scriptable_mime_type(), with.is_scriptable_mime_type());
        with.parameters.remove("charset");
        with.parameters.remove("q");
        assert_eq!(plain, with);
    }
}

#[test]
fn test_format_in_key_order() {
    let mut tag = MediaType::new_with_suffix(Type::Unregistered("example".into()), Private, "foobar", "xml");
    tag.parameters.insert("charset".into(), "US-ASCII".into());
    tag.parameters.insert("boundary".into(), "foo ,".into());
    tag.parameters.insert("z".into(), "1".into());
    assert_eq!(tag.to_string(), "example/x.foobar+xml; boundary=\"foo ,\"; charset=US-ASCII; z=1");
}

#[test]
fn test_rendering() {
    assert_eq!(parse("*/plain").to_string(), "*/plain");
    assert_eq!(parse("*/vnd.a+b; k=v").to_string(), "*/vnd.a+b; k=v");
    assert_eq!(parse("text/*; k=v").to_string(), "text/*; k=v");
    assert_eq!(parse("/").to_string(), "/");
    assert_eq!(parse("a/b; k=").to_string(), "a/b; k=\"\"");
    assert_eq!(parse("a/b; k").to_string(), "a/b; k=\"\"");
    assert_eq!(parse("a/b; k=\"x\\\"y\"").to_string(), "a/b; k=\"x\"y\"");
    assert_eq!(parse("a/b; k=caf\u{e9}").to_string(), "a/b; k=\"caf\u{e9}\"");
    assert_eq!(parse("a/b; Z=1; a=2; B=3; aa=4").to_string(), "a/b; a=2; aa=4; b=3; z=1");
    assert_eq!(parse("a/b; \u{e9}=1; z=2; ~=3").to_string(), "a/b; z=2; ~=3; \u{e9}=1");
    assert_eq!(MediaType::new(Text, Tree::Unregistered(String::new()), "x").to_string(), "text/.x");
}

#[test]
fn test_round_trip() {
    for input in [
        "text/plain",
        "*/*",
        "audio/*",
        "*/plain",
        "/",
        "image/svg+xml",
        "application/vnd.oasis.opendocument.text",
        "example/spam.eggs+a.b",
        "te xt/pl\"ain",
        "a;b/c",
        "video/3gpp2; codecs=\"sevc, s263\"",
        "multipart/mixed; boundary=\"simple boundary\"; charset=utf-8",
        "a/b; k=\"\"; l=\"a;b\"; m=tok",
        "a/b; a b=c",
        "a/b; =v",
        "a/b; a;b=c",
        "caf\u{e9}/\u{e9}; \u{e9}=\u{e9}",
        "a/b; title*=''x",
    ] {
        let first = parse(input);
        let second = parse(&first.to_string());
        assert_eq!(second, first, "{}", input);
        assert_eq!(second.to_string(), first.to_string(), "{}", input);
    }
}

#[test]
fn test_round_trip_limits() {
    let quoted = parse("a/b; k=\"x\\\"y\"");
    assert_ne!(parse(&quoted.to_string()), quoted);
    let backslash = parse("a/b; k=\"x\\\\y\"");
    assert_ne!(parse(&backslash.to_string()), backslash);
    let spaced = parse("a/b; a b c=d");
    assert_ne!(parse(&spaced.to_string()), spaced);
    let starred = parse("a/b; k**=''v");
    assert_ne!(MediaType::parse(&starred.to_string()), Ok(starred));
}
