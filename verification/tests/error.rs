use amp_format::Error;

#[test]
fn an_error_is_shown_as_a_line() {
    assert_eq!("Error: boom", Error::Message("boom".to_string()).to_string());
    assert_eq!("Error: Bad data", Error::BadData.to_string());
    assert_eq!("Error: Unexpected EOF", Error::Eof.to_string());
    assert_eq!(
        "Error: Unexpected trailing characters",
        Error::TrailingCharacters.to_string()
    );
}

#[test]
fn an_error_has_a_description() {
    assert_eq!("boom", Error::Message("boom".to_string()).description());
    assert_eq!("unexpected end of file", Error::Eof.description());
    assert_eq!("characters after the end", Error::TrailingCharacters.description());
    assert_eq!("bad or malformed data", Error::BadData.description());
}

#[test]
fn a_custom_error_keeps_its_message() {
    assert_eq!(Error::Message("missing field".to_string()), Error::custom("missing field"));
    assert_eq!(Error::Message(String::new()), Error::custom(""));
    assert_eq!(Error::custom("x"), Error::custom("x").clone());
}

#[test]
fn an_unsupported_kind_is_named() {
    assert_eq!(
        Error::Message("a tuple is not supported".to_string()),
        Error::unsupported("a tuple")
    );
}
