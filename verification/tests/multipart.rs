use stratum::http::{ErrorKind, HttpError};
use stratum::multipart::{parse_multipart, FieldDisposition, FormPart, MultipartForm};

fn part(name: Option<&str>, filename: Option<&str>, content: &[u8]) -> FormPart {
    FormPart {
        mime: "text/plain".to_string(),
        disposition: Some(FieldDisposition {
            name: name.map(|n| n.to_string()),
            filename: filename.map(|n| n.to_string()),
        }),
        content: content.to_vec(),
    }
}

fn bare(content: &[u8]) -> FormPart {
    FormPart { mime: "application/octet-stream".to_string(), disposition: None, content: content.to_vec() }
}

fn form(parts: Vec<FormPart>) -> MultipartForm {
    match parse_multipart(parts) {
        Ok(f) => f,
        Err(e) => panic!("refused: {}", e.message),
    }
}

fn err<T>(r: Result<T, HttpError>) -> HttpError {
    match r {
        Ok(_) => panic!("expected a refusal"),
        Err(e) => e,
    }
}

#[test]
fn fields_are_found_by_name() {
    let f = form(vec![part(Some("title"), None, b"hello"), part(Some("count"), None, b"12")]);
    assert_eq!(f.entries().len(), 2);
    assert_eq!(f.get("title").ok().unwrap().content, b"hello".to_vec());
    assert_eq!(f.get_content_str("title").ok().unwrap(), "hello");
    assert_eq!(f.get_parsed_content::<i64>("count").ok().unwrap(), 12);
    assert_eq!(f.get_parsed_content::<i32>("count").ok().unwrap(), 12);
    assert_eq!(f.get_parsed_content::<i16>("count").ok().unwrap(), 12);
}

#[test]
fn a_later_part_replaces_an_earlier_one() {
    let f = form(vec![
        part(Some("a"), Some("first.txt"), b"1"),
        part(Some("b"), None, b"2"),
        part(Some("a"), Some("second.txt"), b"3"),
    ]);
    assert_eq!(f.entries().len(), 2);
    let a = f.get("a").ok().unwrap();
    assert_eq!(a.content, b"3".to_vec());
    assert_eq!(a.disposition.filename.as_deref(), Some("second.txt"));
    assert_eq!(f.position("b").map(|i| f.entries()[i].0.clone()), Some("b".to_string()));
}

#[test]
fn parts_without_disposition_are_skipped() {
    let f = form(vec![bare(b"junk"), part(Some("x"), None, b"1"), bare(b"more")]);
    assert_eq!(f.entries().len(), 1);
    assert_eq!(f.entries()[0].0, "x");
}

#[test]
fn a_part_without_a_name_refuses_the_form() {
    let e = err(parse_multipart(vec![part(Some("x"), None, b"1"), part(None, Some("f.txt"), b"2")]));
    assert_eq!(e.kind, ErrorKind::BadRequest);
    assert_eq!(e.message, "Missing form name in ContentDisposition");
}

#[test]
fn an_empty_body_is_an_empty_form() {
    let f = form(Vec::new());
    assert!(f.entries().is_empty());
    assert!(f.position("x").is_none());
}

#[test]
fn a_missing_field_is_a_bad_request() {
    let f = form(vec![part(Some("x"), None, b"1")]);
    let e = err(f.get("y"));
    assert_eq!(e.kind, ErrorKind::BadRequest);
    assert_eq!(e.message, "Could not find y");
    assert_eq!(err(f.get_content_str("y")).message, "Could not find y");
    assert_eq!(err(f.get_parsed_content::<i64>("y")).message, "Could not find y");
}

#[test]
fn invalid_text_is_a_bad_request() {
    let f = form(vec![part(Some("bin"), None, &[0xff, 0x41])]);
    let e = err(f.get_content_str("bin"));
    assert_eq!(e.kind, ErrorKind::BadRequest);
    assert_eq!(e.message, "Could not parse bin as string: invalid utf-8 sequence of 1 bytes from index 0");
    let e = err(f.get_parsed_content::<i32>("bin"));
    assert_eq!(e.message, "Could not parse bin as string: invalid utf-8 sequence of 1 bytes from index 0");
}

#[test]
fn a_field_that_is_no_number_is_a_bad_request() {
    let f = form(vec![part(Some("n"), None, b"twelve"), part(Some("big"), None, b"70000")]);
    let e = err(f.get_parsed_content::<i64>("n"));
    assert_eq!(e.kind, ErrorKind::BadRequest);
    assert_eq!(e.message, "Could not parse n");
    assert_eq!(f.get_parsed_content::<i32>("big").ok().unwrap(), 70000);
    assert_eq!(err(f.get_parsed_content::<i16>("big")).message, "Could not parse big");
}

#[test]
fn numbers_are_read_without_trimming() {
    let f = form(vec![part(Some("n"), None, b" 5")]);
    assert_eq!(err(f.get_parsed_content::<i64>("n")).message, "Could not parse n");
}

#[test]
fn a_form_never_holds_a_name_twice() {
    let f = form(vec![
        part(Some("a"), None, b"1"),
        part(Some("a"), None, b"2"),
        part(Some("b"), None, b"3"),
        part(Some("a"), None, b"4"),
    ]);
    let names: Vec<&str> = f.entries().iter().map(|(n, _)| n.as_str()).collect();
    assert_eq!(names.len(), 2);
    assert!(names.contains(&"a") && names.contains(&"b"));
}
