use crate::ast::{Call, Node};
use crate::grammar::{
    word_else, word_if, word_while, BACKSLASH, CLOSE_BRACE, CLOSE_PAREN, HASH, LF, OPEN_BRACE,
    OPEN_PAREN, QUOTE, SEMICOLON, SPACE,
};
use vstd::prelude::*;
use vstd::utf8::encode_utf8;

verus! {

/// The bytes of a word with a backslash before each quote.
pub open spec fn escape(bytes: Seq<u8>) -> Seq<u8>
    decreases bytes.len(),
{
    if bytes.len() == 0 {
        Seq::empty()
    } else if bytes[0] == QUOTE {
        seq![BACKSLASH, QUOTE] + escape(bytes.skip(1))
    } else {
        seq![bytes[0]] + escape(bytes.skip(1))
    }
}

/// An argument written between quotes.
pub open spec fn quoted(text: Seq<char>) -> Seq<u8> {
    seq![QUOTE] + escape(encode_utf8(text)) + seq![QUOTE]
}

/// The blanks that a layout puts where blanks are needed: those it has for the place, or
/// one space where it has none.
pub open spec fn wide(pad: spec_fn(nat) -> Seq<u8>, at: nat) -> Seq<u8> {
    if pad(at).len() > 0 {
        pad(at)
    } else {
        seq![SPACE]
    }
}

/// Arguments written one after the other, each between quotes and after blanks. `at` is
/// where in the script this text starts; the layout `pad` says which blanks stand where.
pub open spec fn write_args(args: Seq<Seq<char>>, at: nat, pad: spec_fn(nat) -> Seq<u8>) -> Seq<
    u8,
>
    decreases args.len(),
{
    if args.len() == 0 {
        Seq::empty()
    } else {
        let first = wide(pad, at) + quoted(args[0]);
        first + write_args(args.skip(1), at + first.len(), pad)
    }
}

/// A command written between brackets: `(`, the name, the arguments, `)`, with the blanks
/// of the layout after `(` and before `)`.
pub open spec fn write_command(call: Call, at: nat, pad: spec_fn(nat) -> Seq<u8>) -> Seq<u8> {
    let head = seq![OPEN_PAREN] + pad(at + 1) + encode_utf8(call.name);
    let body = head + write_args(call.args, at + head.len(), pad);
    body + pad(at + body.len()) + seq![CLOSE_PAREN]
}

/// What follows `if` or `while`: blanks, the predicate between brackets, the blanks of the
/// layout, and the statement.
pub open spec fn write_guarded(
    call: Call,
    node: Node,
    at: nat,
    pad: spec_fn(nat) -> Seq<u8>,
) -> Seq<u8>
    decreases node, 1nat,
{
    let gap = wide(pad, at);
    let test = gap + write_command(call, at + gap.len(), pad);
    let before = test + pad(at + test.len());
    before + write_statement(node, at + before.len(), pad)
}

/// `else` and the second branch of a conditional, with the blanks of the layout around
/// `else`.
pub open spec fn write_else(node: Node, at: nat, pad: spec_fn(nat) -> Seq<u8>) -> Seq<u8>
    decreases node, 1nat,
{
    let word = pad(at) + word_else();
    let before = word + pad(at + word.len());
    before + write_statement(node, at + before.len(), pad)
}

/// A statement as text. Commands stand between brackets and arguments between quotes, so
/// that nothing depends on what a word looks like; `at` is where in the script the text
/// starts, and the layout `pad` says which blanks stand at which place.
pub open spec fn write_statement(node: Node, at: nat, pad: spec_fn(nat) -> Seq<u8>) -> Seq<u8>
    decreases node, 0nat,
{
    match node {
        Node::Comment(text) => seq![HASH] + encode_utf8(text) + seq![LF],
        Node::Command(call) => {
            let command = write_command(call, at, pad);
            command + pad(at + command.len()) + seq![SEMICOLON]
        },
        Node::If(call, then, otherwise) => {
            let first = word_if() + write_guarded(call, *then, at + 2, pad);
            match otherwise {
                None => first,
                Some(other) => first + write_else(*other, at + first.len(), pad),
            }
        },
        Node::Block(statements) => {
            let body = seq![OPEN_BRACE] + write_statements(statements, 0, at + 1, pad);
            body + pad(at + body.len()) + seq![CLOSE_BRACE]
        },
        Node::While(call, body) => word_while() + write_guarded(call, *body, at + 5, pad),
    }
}

/// The statements from index `from` on as text, each after the blanks of the layout.
pub open spec fn write_statements(
    statements: Seq<Node>,
    from: nat,
    at: nat,
    pad: spec_fn(nat) -> Seq<u8>,
) -> Seq<u8>
    decreases statements, statements.len() - from,
{
    if from >= statements.len() {
        Seq::empty()
    } else {
        let first = pad(at) + write_statement(statements[from as int], at + pad(at).len(), pad);
        first + write_statements(statements, from + 1, at + first.len(), pad)
    }
}

/// A script as text: its statements, and the blanks of the layout after the last.
pub open spec fn write_script(statements: Seq<Node>, pad: spec_fn(nat) -> Seq<u8>) -> Seq<u8> {
    let body = write_statements(statements, 0, 0, pad);
    body + pad(body.len())
}

} // verus!
