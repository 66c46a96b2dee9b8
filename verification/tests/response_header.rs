use northstar::response_header::{
    HeaderError, Meta, MetaError, Mime, ResponseHeader, Status,
};

#[test]
fn input_accepts_valid_prompt() {
    let header = ResponseHeader::input("Name?").unwrap();
    assert_eq!(header.status().code(), 10);
    assert_eq!(header.meta().as_str(), "Name?");
}

#[test]
fn input_refuses_newline() {
    let err = ResponseHeader::input("a\nb").unwrap_err();
    assert_eq!(err, HeaderError::InvalidInputPrompt(MetaError::ContainsNewline));
}

#[test]
fn input_refuses_too_long_prompt() {
    let prompt = "x".repeat(1025);
    let err = ResponseHeader::input(&prompt).unwrap_err();
    assert_eq!(err, HeaderError::InvalidInputPrompt(MetaError::TooLong));
}

#[test]
fn input_accepts_prompt_at_limit() {
    let prompt = "x".repeat(1024);
    let header = ResponseHeader::input(&prompt).unwrap();
    assert_eq!(header.meta().as_str(), prompt);
}

#[test]
fn input_counts_bytes_not_characters() {
    let ok = "é".repeat(512);
    assert!(ResponseHeader::input(&ok).is_ok());
    let too_long = "é".repeat(513);
    let err = ResponseHeader::input(&too_long).unwrap_err();
    assert_eq!(err, HeaderError::InvalidInputPrompt(MetaError::TooLong));
}

#[test]
fn input_lossy_cuts_at_newline() {
    let header = ResponseHeader::input_lossy("first\nsecond");
    assert_eq!(header.status().code(), 10);
    assert_eq!(header.meta().as_str(), "first");
}

#[test]
fn input_lossy_cuts_at_byte_limit() {
    let header = ResponseHeader::input_lossy(&"x".repeat(2000));
    assert_eq!(header.meta().as_str().len(), 1024);
    let header = ResponseHeader::input_lossy(&"é".repeat(600));
    assert_eq!(header.meta().as_str(), "é".repeat(512));
}

#[test]
fn input_lossy_agrees_with_input_on_valid_prompt() {
    let strict = ResponseHeader::input("Your name?").unwrap();
    let lossy = ResponseHeader::input_lossy("Your name?");
    assert_eq!(strict.meta().as_str(), lossy.meta().as_str());
    assert_eq!(strict.status().code(), lossy.status().code());
}

#[test]
fn success_carries_media_type() {
    let mime = Mime::parse("text/gemini").unwrap();
    let header = ResponseHeader::success(&mime);
    assert_eq!(header.status().code(), 20);
    assert_eq!(header.meta().as_str(), "text/gemini");
}

#[test]
fn media_type_is_rendered_by_the_mime_crate() {
    let mime = Mime::parse("TEXT/Gemini; charset=UTF-8").unwrap();
    assert_eq!(mime.as_str(), "text/gemini; charset=utf-8");
    let header = ResponseHeader::success(&mime);
    assert_eq!(header.meta().as_str(), "text/gemini; charset=utf-8");
}

#[test]
fn media_type_that_does_not_parse() {
    assert!(Mime::parse("not a media type").is_none());
}

#[test]
fn server_error_accepts_valid_reason() {
    let header = ResponseHeader::server_error("boom").unwrap();
    assert_eq!(header.status().code(), 50);
    assert_eq!(header.meta().as_str(), "boom");
}

#[test]
fn server_error_refuses_invalid_reason() {
    let err = ResponseHeader::server_error("a\nb").unwrap_err();
    assert_eq!(err, HeaderError::InvalidServerErrorReason(MetaError::ContainsNewline));
    let err = ResponseHeader::server_error(&"y".repeat(1500)).unwrap_err();
    assert_eq!(err, HeaderError::InvalidServerErrorReason(MetaError::TooLong));
}

#[test]
fn server_error_lossy_cuts_reason() {
    let header = ResponseHeader::server_error_lossy("oops\nmore");
    assert_eq!(header.status().code(), 50);
    assert_eq!(header.meta().as_str(), "oops");
}

#[test]
fn fixed_responses() {
    let header = ResponseHeader::not_found();
    assert_eq!(header.status().code(), 51);
    assert_eq!(header.meta().as_str(), "Not found");
    let header = ResponseHeader::client_certificate_required();
    assert_eq!(header.status().code(), 60);
    assert_eq!(header.meta().as_str(), "No certificate provided");
    let header = ResponseHeader::certificate_not_authorized();
    assert_eq!(header.status().code(), 61);
    assert_eq!(
        header.meta().as_str(),
        "Your certificate is not authorized to view this content"
    );
}

#[test]
fn status_codes() {
    assert_eq!(Status::input().code(), 10);
    assert_eq!(Status::success().code(), 20);
    assert_eq!(Status::permanent_failure().code(), 50);
    assert_eq!(Status::not_found().code(), 51);
    assert_eq!(Status::client_certificate_required().code(), 60);
    assert_eq!(Status::certificate_not_authorized().code(), 61);
}

#[test]
fn meta_new_and_new_lossy() {
    assert_eq!(Meta::new("ok").unwrap().as_str(), "ok");
    assert_eq!(Meta::new("a\nb").unwrap_err(), MetaError::ContainsNewline);
    assert_eq!(Meta::new_lossy("a\nb").as_str(), "a");
    assert_eq!(Meta::new_lossy("").as_str(), "");
    assert_eq!(Meta::MAX_LEN, 1024);
}

#[test]
fn meta_lossy_is_idempotent() {
    let once = Meta::new_lossy(&"ab\u{10348}".repeat(400));
    let twice = Meta::new_lossy(once.as_str());
    assert_eq!(once.as_str(), twice.as_str());
    assert!(once.as_str().len() <= 1024);
}

#[test]
fn header_clone_keeps_fields() {
    let header = ResponseHeader::not_found();
    let copy = header.clone();
    assert_eq!(copy.status, Status::not_found());
    assert_eq!(copy.meta, header.meta);
}
