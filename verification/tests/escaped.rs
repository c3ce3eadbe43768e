use cinnamon::parse::{escaped, Parsed};

#[test]
fn escaped_empty_string() {
    assert_eq!(escaped(&b""[..]), Parsed::Done(&b""[..], "".to_owned()));
}

#[test]
fn no_problem_characters() {
    assert_eq!(
        escaped(&b"foo"[..]),
        Parsed::Done(&b""[..], "foo".to_owned())
    );
}

#[test]
fn unescaped_terminal() {
    assert_eq!(
        escaped(&b"f\"oo"[..]),
        Parsed::Done(&b"\"oo"[..], "f".to_owned())
    );
}

#[test]
fn escaped_terminal() {
    assert_eq!(
        escaped(&b"f\\\"oo"[..]),
        Parsed::Done(&b""[..], "f\"oo".to_owned())
    );
}

#[test]
fn multiple_escaped_terminals() {
    assert_eq!(
        escaped(&b"f\\\"o\\\"o"[..]),
        Parsed::Done(&b""[..], "f\"o\"o".to_owned())
    );
}

#[test]
fn escaped_after_unescaped() {
    assert_eq!(
        escaped(&b"f\"o\\\"o"[..]),
        Parsed::Done(&b"\"o\\\"o"[..], "f".to_owned())
    );
}

#[test]
fn immediate_terminal() {
    assert_eq!(
        escaped(&b"\""[..]),
        Parsed::Done(&b"\""[..], "".to_owned())
    );
}

#[test]
fn newline() {
    assert_eq!(
        escaped(&b"\\n"[..]),
        Parsed::Done(&b""[..], "\\n".to_owned())
    );
}

#[test]
fn other_escapes() {
    assert_eq!(
        escaped(&b"\\t\\r\\'"[..]),
        Parsed::Done(&b""[..], "\\t\\r\\'".to_owned())
    );
}

#[test]
fn starts_with_escaped_terminal() {
    assert_eq!(
        escaped(&b"\\\""[..]),
        Parsed::Done(&b""[..], "\"".to_owned())
    );
}

#[test]
fn backslash_at_the_end_is_an_error() {
    assert!(escaped(&b"foo\\"[..]).is_err());
}

#[test]
fn two_backslashes_before_a_quote() {
    assert_eq!(
        escaped(&b"a\\\\\"b"[..]),
        Parsed::Done(&b""[..], "a\\\"b".to_owned())
    );
}

#[test]
fn text_beyond_ascii_is_kept() {
    assert_eq!(
        escaped("gr\u{fc}\u{df}e\" x".as_bytes()),
        Parsed::Done(&b"\" x"[..], "gr\u{fc}\u{df}e".to_owned())
    );
}

#[test]
fn bytes_that_are_not_text_are_an_error() {
    assert!(escaped(&[b'a', 0xff, b'b'][..]).is_err());
}
