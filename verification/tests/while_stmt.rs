use cinnamon::ast::{Block, Command, While, AST};
use cinnamon::parse::{while_stmt, Parsed};

#[test]
fn while_stmt_true_and_empty_block() {
    assert_eq!(
        while_stmt(&b"while true {}"[..]),
        Parsed::Done(
            &b""[..],
            While::new(Command::new("true", vec![]), AST::Block(Block(vec![])))
        )
    );
}

#[test]
fn a_blank_must_follow_while() {
    assert!(while_stmt(&b"whiletrue {}"[..]).is_err());
    assert!(while_stmt(&b"while(true) {}"[..]).is_err());
    assert!(while_stmt(&b"whil"[..]).is_err());
}

#[test]
fn body_of_one_command() {
    assert_eq!(
        while_stmt(&b"while (test -f lock)\n\tsleep 1;\nrest"[..]),
        Parsed::Done(
            &b"\nrest"[..],
            While::new(
                Command::new("test", vec!["-f", "lock"]),
                AST::Command(Command::new("sleep", vec!["1"]))
            )
        )
    );
}

#[test]
fn loop_inside_a_loop() {
    assert_eq!(
        while_stmt(&b"while (a) while (b) {}"[..]),
        Parsed::Done(
            &b""[..],
            While::new(
                Command::new("a", vec![]),
                AST::While(While::new(
                    Command::new("b", vec![]),
                    AST::Block(Block(vec![]))
                ))
            )
        )
    );
}

#[test]
fn words_after_the_predicate_are_its_arguments() {
    assert_eq!(
        while_stmt(&b"while a while b {}"[..]),
        Parsed::Done(
            &b""[..],
            While::new(
                Command::new("a", vec!["while", "b"]),
                AST::Block(Block(vec![]))
            )
        )
    );
}
