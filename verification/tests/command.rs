use cinnamon::ast::Command;
use cinnamon::parse::{arg, command, command_line, Parsed};

#[test]
fn alpha() {
    assert_eq!(
        command_line(&b"echo;"[..]),
        Parsed::Done(&b""[..], Command::new("echo", vec![]))
    );
}

#[test]
fn alpha_numeric() {
    assert_eq!(
        command_line(&b"echo2;"[..]),
        Parsed::Done(&b""[..], Command::new("echo2", vec![]))
    );
}

#[test]
fn includes_path() {
    assert_eq!(
        command_line(&b"/bin/echo;"[..]),
        Parsed::Done(&b""[..], Command::new("/bin/echo", vec![]))
    );
}

#[test]
fn command_empty_string() {
    assert!(command_line(&b";"[..]).is_err());
    assert_eq!(arg(&b""[..]), Parsed::Done(&b""[..], "".to_owned()));
}

#[test]
fn bare_word_argument() {
    assert_eq!(
        command_line(&b"echo foo;"[..]),
        Parsed::Done(&b""[..], Command::new("echo", vec!["foo"]))
    );
}

#[test]
fn three_bare_word_arguments() {
    assert_eq!(
        command_line(&b"echo foo bar baz;"[..]),
        Parsed::Done(&b""[..], Command::new("echo", vec!["foo", "bar", "baz"]))
    );
}

#[test]
fn extra_spaces() {
    assert_eq!(
        command_line(&b"echo foo    bar;"[..]),
        Parsed::Done(&b""[..], Command::new("echo", vec!["foo", "bar"]))
    );
}

#[test]
fn numeric_argument() {
    assert_eq!(arg(&b"5"[..]), Parsed::Done(&b""[..], "5".to_owned()));
}

#[test]
fn path_argument() {
    assert_eq!(
        arg(&b"/bin/bash"[..]),
        Parsed::Done(&b""[..], "/bin/bash".to_owned())
    );
}

#[test]
fn special_characters() {
    assert_eq!(
        arg(&b"foo-_.,baz"[..]),
        Parsed::Done(&b""[..], "foo-_.,baz".to_owned())
    );
}

#[test]
fn semicolon() {
    assert_eq!(
        arg(&b"foo;"[..]),
        Parsed::Done(&b";"[..], "foo".to_owned())
    );
}

#[test]
fn empty_quotes() {
    assert_eq!(arg(&b"\"\""[..]), Parsed::Done(&b""[..], "".to_owned()));
}

#[test]
fn semicolon_wrapped_in_quotes() {
    assert_eq!(arg(&b"\";\""[..]), Parsed::Done(&b""[..], ";".to_owned()));
}

#[test]
fn spaces_in_quotes() {
    assert_eq!(
        arg(&b"\"foo bar baz\""[..]),
        Parsed::Done(&b""[..], "foo bar baz".to_owned())
    );
}

#[test]
fn single_quote() {
    assert!(arg(&b"\""[..]).is_err());
}

#[test]
fn escaped_single_quote() {
    assert_eq!(
        arg(&b"\"\\\"\""[..]),
        Parsed::Done(&b""[..], "\"".to_owned())
    );
}

#[test]
fn bare_word_and_escaped_quote() {
    assert_eq!(
        arg(&b"foo\\\"bar"[..]),
        Parsed::Done(&b""[..], "foo\"bar".to_owned())
    );
}

#[test]
fn newline_in_bare_word() {
    assert_eq!(
        arg(&b"foo\nbar"[..]),
        Parsed::Done(&b"\nbar"[..], "foo".to_owned())
    );
}

#[test]
fn escaped_newline_in_bare_word() {
    assert_eq!(
        arg(&b"foo\\nbar"[..]),
        Parsed::Done(&b""[..], "foo\\nbar".to_owned())
    );
}

#[test]
fn braces() {
    assert!(arg(&b"{}"[..]).is_err());
}

#[test]
fn quotes_next_to_bare_words() {
    assert!(command_line(&b"echo foo\"bar\";"[..]).is_err());
}

#[test]
fn newlines_between_bare_words() {
    assert_eq!(
        command_line(&b"echo foo\nbar;"[..]),
        Parsed::Done(&b""[..], Command::new("echo", vec!["foo", "bar"]))
    );
}

#[test]
fn surrounded_in_parens() {
    assert_eq!(
        command(&b"(echo foo bar)"[..]),
        Parsed::Done(&b""[..], Command::new("echo", vec!["foo", "bar"]))
    );
}

#[test]
fn three_parens() {
    assert_eq!(
        command(&b"(((echo foo bar)))"[..]),
        Parsed::Done(&b""[..], Command::new("echo", vec!["foo", "bar"]))
    );
}

#[test]
fn parens_change_nothing() {
    let plain = command_line(&b"echo foo bar;"[..]);
    assert_eq!(plain, command_line(&b"(echo foo bar);"[..]));
    assert_eq!(plain, command_line(&b"((((echo foo bar))));"[..]));
}

#[test]
fn blanks_inside_parens_and_before_the_semicolon() {
    let plain = command_line(&b"echo foo;"[..]);
    assert_eq!(plain, command_line(&b"( echo foo ) ;"[..]));
    assert_eq!(plain, command_line(&b"(\n(\techo   foo\r\n)\n)\n;"[..]));
    assert_eq!(plain, command_line(&b"echo foo ;"[..]));
}

#[test]
fn unbalanced_parens() {
    assert!(command(&b"((echo foo)"[..]).is_err());
    assert!(command_line(&b"(echo foo));"[..]).is_err());
    assert!(command(&b"()"[..]).is_err());
}

#[test]
fn missing_semicolon() {
    assert!(command_line(&b"echo foo"[..]).is_err());
    assert!(command_line(&b"echo foo\n"[..]).is_err());
}

#[test]
fn quoted_argument_keeps_its_blanks() {
    assert_eq!(
        command_line(&b"echo \"a b\";"[..]),
        Parsed::Done(&b""[..], Command::new("echo", vec!["a b"]))
    );
}

#[test]
fn quoted_and_bare_arguments_side_by_side() {
    assert_eq!(
        command_line(&b"echo \"a;b\" c \"\" d;"[..]),
        Parsed::Done(&b""[..], Command::new("echo", vec!["a;b", "c", "", "d"]))
    );
}

#[test]
fn an_argument_needs_a_blank_before_it() {
    assert!(command_line(&b"echo\"foo\";"[..]).is_err());
    assert!(command_line(&b"echo-n;"[..]).is_err());
}

#[test]
fn name_stops_at_the_first_other_byte() {
    assert_eq!(
        command(&b"a/b9Z-x"[..]),
        Parsed::Done(&b"-x"[..], Command::new("a/b9Z", vec![]))
    );
    assert!(command(&b"-x"[..]).is_err());
    assert!(command(&b""[..]).is_err());
}

#[test]
fn blanks_after_the_last_argument_are_left() {
    assert_eq!(
        command(&b"echo foo  "[..]),
        Parsed::Done(&b"  "[..], Command::new("echo", vec!["foo"]))
    );
}

#[test]
fn backslash_before_a_quote_is_the_quote() {
    assert_eq!(arg(&b"\\\""[..]), Parsed::Done(&b""[..], "\"".to_owned()));
    assert_eq!(arg(&b"\"a\\\"b\""[..]), Parsed::Done(&b""[..], "a\"b".to_owned()));
    assert_eq!(arg(&b"a\\\"b c"[..]), Parsed::Done(&b" c"[..], "a\"b".to_owned()));
}

#[test]
fn backslash_before_another_byte_stays() {
    assert_eq!(arg(&b"\\n"[..]), Parsed::Done(&b""[..], "\\n".to_owned()));
    assert_eq!(arg(&b"\\t"[..]), Parsed::Done(&b""[..], "\\t".to_owned()));
    assert_eq!(arg(&b"\\'"[..]), Parsed::Done(&b""[..], "\\'".to_owned()));
    assert_eq!(arg(&b"\"\\n\""[..]), Parsed::Done(&b""[..], "\\n".to_owned()));
    assert_eq!(arg(&b"\\;"[..]), Parsed::Done(&b";"[..], "\\".to_owned()));
    assert_eq!(arg(&b"\\\\x"[..]), Parsed::Done(&b""[..], "\\\\x".to_owned()));
}

#[test]
fn backslash_at_the_end_of_a_word_is_an_error() {
    assert!(arg(&b"foo\\"[..]).is_err());
    assert!(arg(&b"\"foo\\"[..]).is_err());
}

#[test]
fn unterminated_quote() {
    assert!(arg(&b"\"foo"[..]).is_err());
    assert!(command_line(&b"echo \"foo;"[..]).is_err());
}

#[test]
fn argument_that_is_not_text() {
    assert!(arg(&[0xc3, 0x28][..]).is_err());
    assert!(command_line(&[b'e', b' ', 0xff, b';'][..]).is_err());
    assert_eq!(
        arg("\u{e9}t\u{e9} x".as_bytes()),
        Parsed::Done(&b" x"[..], "\u{e9}t\u{e9}".to_owned())
    );
}

#[test]
fn word_stops_at_each_reserved_byte() {
    for stop in [b' ', b'\t', b'\r', b'\n', b';', b'"', b'{', b')'] {
        let input = [b'a', b'b', stop, b'c'];
        assert_eq!(
            arg(&input[..]),
            Parsed::Done(&input[2..], "ab".to_owned())
        );
        assert!(arg(&input[2..]).is_err());
    }
    assert_eq!(arg(&b"a(b}#c"[..]), Parsed::Done(&b""[..], "a(b}#c".to_owned()));
}

#[test]
fn no_args_is_new_without_arguments() {
    assert_eq!(Command::no_args("foo"), Command::new("foo", vec![]));
    assert_eq!(Command::no_args("foo").command, "foo");
    assert_eq!(Command::new(1, vec![2, 3]).args, vec!["2".to_owned(), "3".to_owned()]);
}
