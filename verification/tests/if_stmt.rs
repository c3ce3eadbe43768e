use cinnamon::ast::{Block, Command, Conditional, AST};
use cinnamon::parse::{if_stmt, Parsed};

#[test]
fn if_stmt_true_and_empty_block() {
    assert_eq!(
        if_stmt(&b"if true {}"[..]),
        Parsed::Done(
            &b""[..],
            Conditional::new(
                Command::new("true", vec![]),
                AST::Block(Block(vec![])),
                None
            )
        )
    );
}

#[test]
fn block_with_statements() {
    assert_eq!(
        if_stmt(
            &b"if true {
                      echo foo;
                      echo bar;
                    }"[..]
        ),
        Parsed::Done(
            &b""[..],
            Conditional::new(
                Command::new("true", vec![]),
                AST::Block(Block(vec![
                    AST::Command(Command::new("echo", vec!["foo"])),
                    AST::Command(Command::new("echo", vec!["bar"])),
                ])),
                None,
            )
        )
    );
}

#[test]
fn empty_else_block() {
    assert_eq!(
        if_stmt(&b"if false {} else {}"[..]),
        Parsed::Done(
            &b""[..],
            Conditional::new(
                Command::new("false", vec![]),
                AST::Block(Block(vec![])),
                Some(AST::Block(Block(vec![])))
            )
        )
    );
}

#[test]
fn empty_else_if() {
    assert_eq!(
        if_stmt(&b"if false {} else if false {}"[..]),
        Parsed::Done(
            &b""[..],
            Conditional::new(
                Command::new("false", vec![]),
                AST::Block(Block(vec![])),
                Some(AST::If(Conditional::new(
                    Command::new("false", vec![]),
                    AST::Block(Block(vec![])),
                    None
                )))
            )
        )
    );
}

#[test]
fn a_blank_must_follow_if() {
    assert!(if_stmt(&b"iftrue {}"[..]).is_err());
    assert!(if_stmt(&b"if(true) {}"[..]).is_err());
    assert!(if_stmt(&b"if"[..]).is_err());
    assert!(if_stmt(&b"i"[..]).is_err());
}

#[test]
fn predicate_in_parens_and_a_command_as_branch() {
    assert_eq!(
        if_stmt(&b"if (test a) echo yes; else echo no;"[..]),
        Parsed::Done(
            &b""[..],
            Conditional::new(
                Command::new("test", vec!["a"]),
                AST::Command(Command::new("echo", vec!["yes"])),
                Some(AST::Command(Command::new("echo", vec!["no"])))
            )
        )
    );
}

#[test]
fn else_without_a_statement_is_left_in_the_input() {
    assert_eq!(
        if_stmt(&b"if true {} else"[..]),
        Parsed::Done(
            &b" else"[..],
            Conditional::new(
                Command::new("true", vec![]),
                AST::Block(Block(vec![])),
                None
            )
        )
    );
}

#[test]
fn else_needs_no_blanks_around_it() {
    assert_eq!(
        if_stmt(&b"if true {}else{}x"[..]),
        Parsed::Done(
            &b"x"[..],
            Conditional::new(
                Command::new("true", vec![]),
                AST::Block(Block(vec![])),
                Some(AST::Block(Block(vec![])))
            )
        )
    );
}

#[test]
fn missing_branch() {
    assert!(if_stmt(&b"if true"[..]).is_err());
    assert!(if_stmt(&b"if true ;"[..]).is_err());
    assert!(if_stmt(&b"if true {"[..]).is_err());
}
