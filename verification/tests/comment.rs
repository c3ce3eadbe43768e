use cinnamon::parse::{comment, Parsed};

#[test]
fn just_hash() {
    assert_eq!(comment(&b"#"[..]), Parsed::Done(&b""[..], "".to_owned()));
}

#[test]
fn text() {
    assert_eq!(
        comment(&b"# text"[..]),
        Parsed::Done(&b""[..], " text".to_owned())
    );
}

#[test]
fn another_line() {
    assert_eq!(
        comment(&b"# text\n# other text"[..]),
        Parsed::Done(&b"# other text"[..], " text".to_owned())
    );
}

#[test]
fn windows_line_ending() {
    assert_eq!(
        comment(&b"# text\r\n"[..]),
        Parsed::Done(&b""[..], " text".to_owned())
    );
}

#[test]
fn escaped_newline() {
    assert_eq!(
        comment(&b"# text\\n"[..]),
        Parsed::Done(&b""[..], " text\\n".to_owned())
    );
}

#[test]
fn carriage_return_alone_is_an_error() {
    assert!(comment(&b"# text\rmore\n"[..]).is_err());
    assert!(comment(&b"# text\r"[..]).is_err());
}

#[test]
fn no_hash_is_no_comment() {
    assert!(comment(&b"text"[..]).is_err());
    assert!(comment(&b""[..]).is_err());
}

#[test]
fn quotes_and_backslashes_are_kept() {
    assert_eq!(
        comment(&b"#a \"b\" \\\"c\nrest"[..]),
        Parsed::Done(&b"rest"[..], "a \"b\" \\\"c".to_owned())
    );
}
