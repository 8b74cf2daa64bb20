use media_types::tokenizer::{parse_media_type, parse_parameters, parse_type_portion, parse_value, raw_find, raw_put};
use media_types::Error;

fn pair(name: &str, value: &str) -> (Vec<u8>, Vec<u8>) {
    (name.as_bytes().to_vec(), value.as_bytes().to_vec())
}

fn tokens(input: &str) -> Result<(String, String, Vec<(Vec<u8>, Vec<u8>)>), Error> {
    parse_media_type(input.as_bytes()).map(|(type_, subtype, parameters)| {
        (String::from_utf8(type_).unwrap(), String::from_utf8(subtype).unwrap(), parameters)
    })
}

fn parameters(input: &str) -> Vec<(Vec<u8>, Vec<u8>)> {
    parse_media_type(input.as_bytes()).unwrap().2
}

#[test]
fn test_type_portion() {
    let mut s = 0;
    assert_eq!(parse_type_portion(b"Text/Plain; a=b", &mut s), Ok((b"text".to_vec(), b"plain".to_vec())));
    assert_eq!(s, 10);
    let mut s = 2;
    assert_eq!(parse_type_portion(b"  a/b c", &mut s), Ok((b"a".to_vec(), b"b".to_vec())));
    assert_eq!(s, 5);
    let mut s = 0;
    assert_eq!(parse_type_portion(b"text/", &mut s), Ok((b"text".to_vec(), b"".to_vec())));
    assert_eq!(s, 5);
    let mut s = 0;
    assert_eq!(parse_type_portion(b"/plain", &mut s), Ok((b"".to_vec(), b"plain".to_vec())));
    assert_eq!(s, 6);
    let mut s = 0;
    assert_eq!(parse_type_portion(b"te xt/pl/ain", &mut s), Ok((b"te xt".to_vec(), b"pl/ain".to_vec())));
    assert_eq!(s, 12);
}

#[test]
fn test_type_portion_failures() {
    let mut s = 0;
    assert_eq!(parse_type_portion(b"text", &mut s), Err(Error::Invalid));
    assert_eq!(s, 0);
    let mut s = 0;
    assert_eq!(parse_type_portion(b"", &mut s), Err(Error::Invalid));
    assert_eq!(s, 0);
    let mut s = 9;
    assert_eq!(parse_type_portion(b"a/b", &mut s), Err(Error::Invalid));
    assert_eq!(s, 9);
    let mut s = 3;
    assert_eq!(parse_type_portion(b"a/b", &mut s), Err(Error::Invalid));
    assert_eq!(s, 3);
}

#[test]
fn test_token_length_limits() {
    let long = "a".repeat(127);
    let too_long = "a".repeat(128);
    assert!(tokens(&format!("{}/b", long)).is_ok());
    assert_eq!(tokens(&format!("{}/b", too_long)), Err(Error::Invalid));
    assert!(tokens(&format!("a/{}", long)).is_ok());
    assert_eq!(tokens(&format!("a/{}", too_long)), Err(Error::Invalid));
    assert!(tokens(&format!("a/{};x=y", long)).is_ok());
    assert_eq!(tokens(&format!("a/{};x=y", too_long)), Err(Error::Invalid));
    assert_eq!(tokens(&format!("a/b;{}", long)).unwrap().2, vec![pair(&long, "")]);
    assert_eq!(tokens(&format!("a/b;{}", too_long)), Err(Error::Invalid));
    assert_eq!(tokens(&format!("a/b;{}=v", long)).unwrap().2, vec![pair(&long, "v")]);
    assert_eq!(tokens(&format!("a/b;{}=v", too_long)), Err(Error::Invalid));
    assert_eq!(tokens(&format!("a/b;{}=1", "a".repeat(300))), Err(Error::Invalid));
    assert_eq!(tokens(&format!("a/b;{} =v", long)).unwrap().2, vec![pair(&long, "v")]);
    assert_eq!(tokens(&format!("a/b;{} =v", too_long)), Err(Error::Invalid));
    assert_eq!(tokens(&format!("a/b;{}", too_long.to_uppercase())), Err(Error::Invalid));
    let spaces = " ".repeat(200);
    assert_eq!(tokens(&format!("a/b;k{}=v", spaces)).unwrap().2, vec![pair("k", "v")]);
    assert_eq!(tokens(&format!("a/b;k{}x=v", spaces)), Err(Error::Invalid));
    assert_eq!(tokens(&format!("a/b;k{}", spaces)), Err(Error::Invalid));
}

#[test]
fn test_name_length_counts_gathered_whitespace() {
    let gap = " ".repeat(41);
    let name = format!("a{}b{}{}c", gap, gap, gap);
    assert_eq!(name.len(), 126);
    assert_eq!(tokens(&format!("a/b;a{}b{}c=v", gap, gap)).unwrap().2, vec![pair(&name, "v")]);
    assert_eq!(tokens(&format!("a/b;a{}b{}cc=v", gap, gap)).unwrap().2.len(), 1);
    assert_eq!(tokens(&format!("a/b;a{}b{}ccc=v", gap, gap)), Err(Error::Invalid));
    let wide = " ".repeat(42);
    assert_eq!(tokens(&format!("a/b;a{}b{}c=v", wide, wide)), Err(Error::Invalid));
}

#[test]
fn test_media_type_tokens() {
    assert_eq!(tokens("text/plain"), Ok(("text".into(), "plain".into(), vec![])));
    assert_eq!(tokens(" \t\r\nTEXT/PLAIN"), Ok(("text".into(), "plain".into(), vec![])));
    assert_eq!(tokens("text/plain "), Ok(("text".into(), "plain".into(), vec![])));
    assert_eq!(tokens("text/plain;"), Ok(("text".into(), "plain".into(), vec![])));
    assert_eq!(tokens("text/plain; "), Ok(("text".into(), "plain".into(), vec![])));
    assert_eq!(tokens("text/plain junk"), Ok(("text".into(), "plain".into(), vec![])));
    assert_eq!(tokens(""), Err(Error::Invalid));
    assert_eq!(tokens("   "), Err(Error::Invalid));
    assert_eq!(tokens("text"), Err(Error::Invalid));
    assert_eq!(
        tokens("Text/HTML;Charset=\"utf-8\""),
        Ok(("text".into(), "html".into(), vec![pair("charset", "utf-8")]))
    );
}

#[test]
fn test_parameter_values() {
    assert_eq!(parameters("a/b; k=v"), vec![pair("k", "v")]);
    assert_eq!(parameters("a/b;k=v;l=w"), vec![pair("k", "v"), pair("l", "w")]);
    assert_eq!(parameters("a/b ; K = V "), vec![pair("k", "V")]);
    assert_eq!(parameters("a/b; k=\"v w\"; l=x"), vec![pair("k", "v w"), pair("l", "x")]);
    assert_eq!(parameters("a/b; k=\"v;w\"; l=x"), vec![pair("k", "v;w"), pair("l", "x")]);
    assert_eq!(parameters("a/b; k=\"v\\\"w\""), vec![pair("k", "v\"w")]);
    assert_eq!(parameters("a/b; k=\"v\\\\w\""), vec![pair("k", "v\\w")]);
    assert_eq!(parameters("a/b; k=\"v\\"), vec![pair("k", "v\\")]);
    assert_eq!(parameters("a/b; k=\"unterminated"), vec![pair("k", "unterminated")]);
    assert_eq!(parameters("a/b; k=\""), vec![pair("k", "")]);
    assert_eq!(parameters("a/b; k=\"\""), vec![pair("k", "")]);
    assert_eq!(parameters("a/b; k="), vec![pair("k", "")]);
    assert_eq!(parameters("a/b; k=;l=w"), vec![pair("k", ""), pair("l", "w")]);
    assert_eq!(parameters("a/b; k=v\"w"), vec![pair("k", "v\"w")]);
    assert_eq!(parameters("a/b; k=v junk; l=w"), vec![pair("k", "v"), pair("l", "w")]);
    assert_eq!(parameters("a/b; k=v \"junk; more\"; l=w"), vec![pair("k", "v"), pair("l", "w")]);
    assert_eq!(parameters("a/b; k=v ju\"nk; l=w"), vec![pair("k", "v"), pair("l", "w")]);
    assert_eq!(parameters("a/b; =v"), vec![pair("", "v")]);
    assert_eq!(parameters("a/b; k==v"), vec![pair("k", "=v")]);
    assert_eq!(parameters("a/b; a;b=c"), vec![pair("a;b", "c")]);
}

#[test]
fn test_parameter_names() {
    assert_eq!(parameters("a/b; k"), vec![pair("k", "")]);
    assert_eq!(parameters("a/b; K"), vec![pair("k", "")]);
    assert_eq!(parameters("a/b; k=v; k"), vec![pair("k", "v")]);
    assert_eq!(parameters("a/b; k=v; l"), vec![pair("k", "v"), pair("l", "")]);
    assert_eq!(parameters("a/b; k "), vec![pair("k ", "")]);
    assert_eq!(parameters("a/b; a b=c"), vec![pair("a b", "c")]);
    assert_eq!(parameters("a/b; a b c=d"), vec![pair("a b  c", "d")]);
    assert_eq!(parameters("a/b; a\tb c d=e"), vec![pair("a\tb\t c\t  d", "e")]);
    assert_eq!(parameters("a/b; a b"), vec![pair("a b", "")]);
    assert_eq!(parameters("a/b; a b "), vec![pair("a b  ", "")]);
}

#[test]
fn test_parameter_overwrite() {
    assert_eq!(parameters("a/b; k=1; k=2"), vec![pair("k", "2")]);
    assert_eq!(parameters("a/b; k=1; l=2; K=3"), vec![pair("k", "3"), pair("l", "2")]);
    assert_eq!(parameters("a/b; k=1; l=2; k=3; m=4; l=5"), vec![pair("k", "3"), pair("l", "5"), pair("m", "4")]);
}

#[test]
fn test_parse_value() {
    let mut s = 2;
    assert_eq!(parse_value(b"k=value; l", &mut s), b"value");
    assert_eq!(s, 7);
    let mut s = 2;
    assert_eq!(parse_value(b"k=\"a b\\\"c\" x", &mut s), b"a b\"c");
    assert_eq!(s, 10);
    let mut s = 2;
    assert_eq!(parse_value(b"k=", &mut s), b"");
    assert_eq!(s, 2);
    let mut s = 9;
    assert_eq!(parse_value(b"k=", &mut s), b"");
    assert_eq!(s, 9);
    let mut s = 0;
    assert_eq!(parse_value(b"\"open", &mut s), b"open");
    assert_eq!(s, 5);
    let mut s = 0;
    assert_eq!(parse_value(b" x", &mut s), b"");
    assert_eq!(s, 0);
}

#[test]
fn test_parse_parameters_cursor() {
    let input = b"a/b; k=v; l=w";
    let mut s = 3;
    assert_eq!(parse_parameters(input, &mut s), Ok(vec![pair("k", "v"), pair("l", "w")]));
    assert_eq!(s, input.len());
    let mut s = 40;
    assert_eq!(parse_parameters(input, &mut s), Ok(vec![]));
    assert_eq!(s, 40);
    let long = format!("a/b;{}", "n".repeat(200));
    let mut s = 3;
    assert_eq!(parse_parameters(long.as_bytes(), &mut s), Err(Error::Invalid));
    assert_eq!(s, 3);
}

#[test]
fn test_raw_parameters() {
    let mut parameters = vec![pair("k", "1"), pair("l", "2")];
    assert_eq!(raw_find(&parameters, b"k"), 0);
    assert_eq!(raw_find(&parameters, b"l"), 1);
    assert_eq!(raw_find(&parameters, b"m"), 2);
    raw_put(&mut parameters, b"k".to_vec(), b"3".to_vec());
    assert_eq!(parameters, vec![pair("k", "3"), pair("l", "2")]);
    raw_put(&mut parameters, b"m".to_vec(), b"4".to_vec());
    assert_eq!(parameters, vec![pair("k", "3"), pair("l", "2"), pair("m", "4")]);
}

#[test]
fn test_tokens_keep_bytes_that_are_not_utf8() {
    let (type_, subtype, parameters) = parse_media_type(b"\xffA/\xfeB; \xfdK=\xfcV").unwrap();
    assert_eq!(type_, b"\xffa");
    assert_eq!(subtype, b"\xfeb");
    assert_eq!(parameters, vec![(b"\xfdk".to_vec(), b"\xfcV".to_vec())]);
}
