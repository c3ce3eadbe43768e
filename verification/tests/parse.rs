use cinnamon::ast::{Block, Command, Conditional, While, AST};
use cinnamon::parse::{ast, block, parse_tree, script, Parse, ParseError, Parsed};

#[test]
fn parse_empty_is_empty_list() {
    let file: Vec<u8> = "".into();

    assert_eq!(file.parse().unwrap(), vec![]);
}

#[test]
fn parse_comment_is_comment() {
    let file: Vec<u8> = "# This is a comment!".into();

    assert_eq!(
        file.parse().unwrap(),
        vec![AST::Comment(" This is a comment!".to_owned())]
    );
}

#[test]
fn parse_empty_line() {
    let file: Vec<u8> = "\n".into();

    assert_eq!(file.parse().unwrap(), vec![]);
}

#[test]
fn parse_empty_line_between_comments() {
    let file: Vec<u8> = "# Comment\n\n# Another".into();

    assert_eq!(
        file.parse().unwrap(),
        vec![
            AST::Comment(" Comment".to_owned()),
            AST::Comment(" Another".to_owned()),
        ]
    );
}

#[test]
fn parse_trailing_characters() {
    let file: Vec<u8> = vec![1];
    let parse = file.parse();

    assert!(parse.is_err(), "Expected {:?} to be an error", parse);
}

#[test]
fn mod_empty_is_empty_list() {
    let file: Vec<u8> = "".into();

    assert_eq!(file.parse().unwrap(), vec![]);
}

#[test]
fn mod_comment_is_comment() {
    let file: Vec<u8> = "# This is a comment!".into();

    assert_eq!(
        file.parse().unwrap(),
        vec![AST::Comment(" This is a comment!".to_owned())]
    );
}

#[test]
fn mod_empty_line() {
    let file: Vec<u8> = "\n".into();

    assert_eq!(file.parse().unwrap(), vec![]);
}

#[test]
fn mod_empty_line_between_comments() {
    let file: Vec<u8> = "# Comment\n\n# Another".into();

    assert_eq!(
        file.parse().unwrap(),
        vec![
            AST::Comment(" Comment".to_owned()),
            AST::Comment(" Another".to_owned()),
        ]
    );
}

#[test]
fn mod_trailing_characters() {
    let file: Vec<u8> = vec![1];
    let parse = file.parse();

    assert!(parse.is_err(), "Expected {:?} to be an error", parse);
}

fn echo(word: &str) -> AST {
    AST::Command(Command::new("echo", vec![word]))
}

#[test]
fn comment_with_its_line_end() {
    assert_eq!(
        script(&b"# hello\n"[..]),
        Ok(vec![AST::Comment(" hello".to_owned())])
    );
}

#[test]
fn command_with_two_arguments() {
    assert_eq!(
        script(&b"echo foo bar;"[..]),
        Ok(vec![AST::Command(Command::new("echo", vec!["foo", "bar"]))])
    );
}

#[test]
fn conditional_with_both_branches() {
    assert_eq!(
        script(&b"if true {echo yes;} else {echo no;}"[..]),
        Ok(vec![AST::If(Conditional::new(
            Command::new("true", vec![]),
            AST::Block(Block(vec![echo("yes")])),
            Some(AST::Block(Block(vec![echo("no")])))
        ))])
    );
}

#[test]
fn loop_with_a_block() {
    assert_eq!(
        script(&b"while true {echo x;}"[..]),
        Ok(vec![AST::While(While::new(
            Command::new("true", vec![]),
            AST::Block(Block(vec![echo("x")]))
        ))])
    );
}

#[test]
fn quoted_argument_is_one_argument() {
    assert_eq!(
        script(&b"echo \"a b\";"[..]),
        Ok(vec![AST::Command(Command::new("echo", vec!["a b"]))])
    );
}

#[test]
fn one_byte_that_starts_nothing() {
    for byte in [b';', b'}', b')', b'"', b'\\', b'-', 0u8, 0xffu8] {
        assert_eq!(script(&[byte][..]), Err(ParseError));
    }
}

#[test]
fn blanks_between_tokens_change_nothing() {
    let tight = script(&b"if a {b c;d;}else{e;}while (f)g;{}#h\ni;"[..]);
    let loose = script(
        &b" \n if \t a  {\r\n b  \n c ;\n\n d ; } \n else \n { e ;\t} while\n(\tf )\ng ; { }  #h\n i ; \n"[..],
    );
    assert!(tight.is_ok());
    assert_eq!(tight, loose);
    assert_eq!(
        tight,
        Ok(vec![
            AST::If(Conditional::new(
                Command::new("a", vec![]),
                AST::Block(Block(vec![
                    AST::Command(Command::new("b", vec!["c"])),
                    AST::Command(Command::new("d", vec![])),
                ])),
                Some(AST::Block(Block(vec![AST::Command(Command::new("e", vec![]))])))
            )),
            AST::While(While::new(
                Command::new("f", vec![]),
                AST::Command(Command::new("g", vec![]))
            )),
            AST::Block(Block(vec![])),
            AST::Comment("h".to_owned()),
            AST::Command(Command::new("i", vec![])),
        ])
    );
}

#[test]
fn block_of_blanks_is_empty() {
    assert_eq!(script(&b"{ \n }"[..]), Ok(vec![AST::Block(Block(vec![]))]));
    assert_eq!(
        block(&b"{ }x"[..]),
        Parsed::Done(&b"x"[..], Block(vec![]))
    );
}

#[test]
fn unbalanced_braces() {
    assert!(script(&b"{"[..]).is_err());
    assert!(script(&b"{echo a;"[..]).is_err());
    assert!(script(&b"{echo a;}}"[..]).is_err());
    assert!(script(&b"}"[..]).is_err());
    assert!(block(&b"{{}"[..]).is_err());
}

#[test]
fn nothing_is_kept_of_a_script_with_an_error() {
    assert_eq!(script(&b"echo a; echo b; echo"[..]), Err(ParseError));
    assert_eq!(script(&b"echo a; \"b\";"[..]), Err(ParseError));
    assert_eq!(script(&b"echo \"a;"[..]), Err(ParseError));
    assert_eq!(script(&b"# a\r# b\n"[..]), Err(ParseError));
}

#[test]
fn keywords_that_lead_nowhere_are_names() {
    assert_eq!(
        script(&b"if true; whilex; ifconfig eth0;"[..]),
        Ok(vec![
            AST::Command(Command::new("if", vec!["true"])),
            AST::Command(Command::new("whilex", vec![])),
            AST::Command(Command::new("ifconfig", vec!["eth0"])),
        ])
    );
}

#[test]
fn statement_takes_the_first_kind_that_fits() {
    assert_eq!(
        ast(&b"{} rest"[..]),
        Parsed::Done(&b" rest"[..], AST::Block(Block(vec![])))
    );
    assert_eq!(
        ast(&b"#c\nrest"[..]),
        Parsed::Done(&b"rest"[..], AST::Comment("c".to_owned()))
    );
    assert_eq!(
        ast(&b"a b;rest"[..]),
        Parsed::Done(&b"rest"[..], AST::Command(Command::new("a", vec!["b"])))
    );
    assert!(ast(&b" a;"[..]).is_err());
    assert!(ast(&b""[..]).is_err());
}

#[test]
fn tree_stops_where_statements_stop() {
    assert_eq!(
        parse_tree(&b" a; b; } c;"[..]),
        Parsed::Done(
            &b"} c;"[..],
            vec![
                AST::Command(Command::new("a", vec![])),
                AST::Command(Command::new("b", vec![])),
            ]
        )
    );
    assert_eq!(parse_tree(&b"  "[..]), Parsed::Done(&b""[..], vec![]));
    assert_eq!(parse_tree(&b")"[..]), Parsed::Done(&b")"[..], vec![]));
}

#[test]
fn nested_blocks_and_else_if() {
    assert_eq!(
        script(&b"{{a;}{}} if b {} else if c {} else {d;}"[..]),
        Ok(vec![
            AST::Block(Block(vec![
                AST::Block(Block(vec![AST::Command(Command::new("a", vec![]))])),
                AST::Block(Block(vec![])),
            ])),
            AST::If(Conditional::new(
                Command::new("b", vec![]),
                AST::Block(Block(vec![])),
                Some(AST::If(Conditional::new(
                    Command::new("c", vec![]),
                    AST::Block(Block(vec![])),
                    Some(AST::Block(Block(vec![AST::Command(Command::new(
                        "d",
                        vec![]
                    ))])))
                )))
            )),
        ])
    );
}

#[test]
fn trait_and_function_agree() {
    let inputs: [&[u8]; 4] = [b"a;", b"a", b"# x", b"{ a; } b"];
    for input in inputs {
        assert_eq!(input.to_vec().parse(), script(input));
    }
}

#[test]
fn blank_after_a_bare_predicate_starts_an_argument() {
    assert_eq!(
        script(&b"if a#c\n"[..]),
        Ok(vec![AST::If(Conditional::new(
            Command::new("a", vec![]),
            AST::Comment("c".to_owned()),
            None
        ))])
    );
    assert_eq!(script(&b"if a #c\n"[..]), Err(ParseError));
    assert_eq!(
        script(&b"if (a) #c\n"[..]),
        Ok(vec![AST::If(Conditional::new(
            Command::new("a", vec![]),
            AST::Comment("c".to_owned()),
            None
        ))])
    );
}

#[test]
fn else_belongs_to_the_nearest_if() {
    assert_eq!(
        script(&b"if (a) if (b) c; else d;"[..]),
        Ok(vec![AST::If(Conditional::new(
            Command::new("a", vec![]),
            AST::If(Conditional::new(
                Command::new("b", vec![]),
                AST::Command(Command::new("c", vec![])),
                Some(AST::Command(Command::new("d", vec![])))
            )),
            None
        ))])
    );
}

#[test]
fn brackets_and_quotes_in_any_layout() {
    let expected = Ok(vec![
        AST::If(Conditional::new(
            Command::new("test", vec!["-f", "a b"]),
            AST::Block(Block(vec![AST::Command(Command::new("rm", vec!["a b"]))])),
            Some(AST::While(While::new(
                Command::new("false", vec![]),
                AST::Comment(" never".to_owned()),
            ))),
        )),
        AST::Command(Command::new("echo", vec!["say \"hi\"", ""])),
    ]);
    let tight = &b"if (test \"-f\" \"a b\"){(rm \"a b\");}else while (false)# never\n(echo \"say \\\"hi\\\"\" \"\");"[..];
    let loose = &b"\n if \t ( test  \"-f\"\n\"a b\" )\n{\n\t( rm \"a b\" ) ;\n}\nelse\n\twhile  ( false )\n\t\t# never\n\n( echo\t\"say \\\"hi\\\"\" \"\" )\n;\n"[..];

    assert_eq!(script(tight), expected);
    assert_eq!(script(loose), expected);
}
