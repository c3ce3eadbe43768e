use crate::ast::{Call, Node};
use crate::grammar::{
    blanks, block, command, command_line, comment, conditional, guarded, in_class, otherwise,
    script, span, statement, statements, tail, while_loop, Class,
};
use crate::laws::{lemma_name_is_a_path, lemma_span_bound, name_ok};
use crate::render::write_script;
use crate::round_trip::{
    all_ok, call_ok, layout, lemma_script_round_trip, line_ok, node_ok, open_ended, text_ok,
};
use crate::text::lemma_low_chars_are_bytes;
use vstd::prelude::*;
use vstd::utf8::{char_u32_cast, decode_utf8, decode_utf8_encode_utf8, encode_utf8};

verus! {

/// No argument of any command in the statement, predicates too, ends in a backslash.
pub open spec fn texts_ok(node: Node) -> bool
    decreases node,
{
    match node {
        Node::Comment(_) => true,
        Node::Command(call) => args_ok(call),
        Node::If(call, then, otherwise) => args_ok(call) && texts_ok(*then) && match otherwise {
            Some(other) => texts_ok(*other),
            None => true,
        },
        Node::Block(statements) => all_texts_ok(statements),
        Node::While(call, body) => args_ok(call) && texts_ok(*body),
    }
}

/// No argument of the command ends in a backslash.
pub open spec fn args_ok(call: Call) -> bool {
    forall|i: int| 0 <= i < call.args.len() ==> text_ok(#[trigger] call.args[i])
}

/// No argument of any command in the statements ends in a backslash.
pub open spec fn all_texts_ok(statements: Seq<Node>) -> bool
    decreases statements,
{
    forall|i: int| 0 <= i < statements.len() ==> texts_ok(#[trigger] statements[i])
}

/// What is left after `a` bytes and then `b` more is what is left after `a + b`.
proof fn lemma_tail_tail(s: Seq<u8>, a: nat, b: nat)
    ensures
        tail(tail(s, a), b) == tail(s, a + b),
{
    if a + b <= s.len() {
        assert(s.skip(a as int).skip(b as int) =~= s.skip((a + b) as int));
    } else if a <= s.len() {
    } else {
        assert(tail(tail(s, a), b) =~= Seq::<u8>::empty());
    }
}

/// The text of a comment that was read holds no line end.
pub proof fn lemma_comment_is_a_line(s: Seq<u8>)
    ensures
        comment(s) matches Some(found) ==> line_ok(found.0),
{
    reveal(comment);
    if comment(s) is Some {
        let n = span(s.skip(1), Class::Line);
        let bytes = s.subrange(1, (1 + n) as int);
        let text = decode_utf8(bytes);
        lemma_span_bound(s.skip(1), Class::Line);
        decode_utf8_encode_utf8(bytes);
        assert forall|i: int| 0 <= i < text.len() implies (#[trigger] text[i]) != '\r' && text[i]
            != '\n' by {
            if text[i] == '\r' || text[i] == '\n' {
                assert('\r' as u32 == 13 && '\n' as u32 == 10);
                lemma_low_chars_are_bytes(text, i);
                let j = choose|j: int|
                    0 <= j < encode_utf8(text).len() && (#[trigger] encode_utf8(text)[j]) as u32
                        == text[i] as u32;
                assert(bytes[j] == s.skip(1)[j]);
                assert(in_class(s.skip(1)[j], Class::Line));
            }
        }
    }
}

/// A statement that an `else` could follow on was not followed by one: where a statement
/// that was read is, or ends in, a conditional without a second branch, no `else` and
/// statement stand after it.
pub proof fn lemma_else_is_taken(s: Seq<u8>)
    ensures
        statement(s) matches Some(found) ==> (open_ended(found.0) ==> otherwise(
            tail(s, found.1),
        ) is None),
    decreases s.len(),
{
    if block(s) is Some {
    } else if conditional(s) is Some {
        match guarded(s, 2) {
            Some((call, then, n)) => {
                let t = tail(s, n);
                match otherwise(t) {
                    Some((other, m)) => {
                        let from = blanks(t) + 4 + blanks(tail(t, blanks(t) + 4));
                        lemma_else_is_taken(tail(t, from));
                        lemma_tail_tail(s, n, from);
                        lemma_tail_tail(s, n + from, (m - from) as nat);
                    },
                    None => {},
                }
            },
            None => {},
        }
    } else if while_loop(s) is Some {
        let gap = blanks(tail(s, 5));
        match command(tail(s, 5 + gap)) {
            Some((call, n)) => {
                let at = 5 + gap + n + blanks(tail(s, 5 + gap + n));
                lemma_else_is_taken(tail(s, at));
                match statement(tail(s, at)) {
                    Some((body, m)) => {
                        lemma_tail_tail(s, at, m);
                    },
                    None => {},
                }
            },
            None => {},
        }
    } else {
    }
}

/// The statements that were read can be written so that they are read back, unless an
/// argument among them ends in a backslash.
proof fn lemma_statements_are_ok(s: Seq<u8>)
    requires
        all_texts_ok(statements(s).0),
    ensures
        all_ok(statements(s).0),
    decreases s.len(), 3nat,
{
    let gap = blanks(s);
    if s.len() > 0 {
        match statement(tail(s, gap)) {
            Some((node, n)) => {
                if n > 0 {
                    let more = statements(tail(s, gap + n)).0;
                    let all = seq![node] + more;
                    assert(texts_ok(all[0]));
                    assert forall|i: int| 0 <= i < more.len() implies texts_ok(
                        #[trigger] more[i],
                    ) by {
                        assert(all[i + 1] == more[i]);
                    }
                    lemma_statement_is_ok(tail(s, gap));
                    lemma_statements_are_ok(tail(s, gap + n));
                    assert forall|i: int| 0 <= i < all.len() implies node_ok(
                        #[trigger] all[i],
                    ) by {
                        if i > 0 {
                            assert(all[i] == more[i - 1]);
                        }
                    }
                }
            },
            None => {},
        }
    }
}

/// A statement that was read can be written so that it is read back, unless an argument
/// in it ends in a backslash.
proof fn lemma_statement_is_ok(s: Seq<u8>)
    ensures
        statement(s) matches Some(found) ==> (texts_ok(found.0) ==> node_ok(found.0)),
    decreases s.len(), 2nat,
{
    if block(s) is Some {
        if s.len() > 0 && all_texts_ok(statements(tail(s, 1)).0) {
            lemma_statements_are_ok(tail(s, 1));
        }
    } else if conditional(s) is Some {
        lemma_guarded_is_ok(s, 2);
        match guarded(s, 2) {
            Some((call, then, n)) => {
                lemma_otherwise_is_ok(tail(s, n));
                lemma_guarded_leaves_no_else(s, 2);
            },
            None => {},
        }
    } else if while_loop(s) is Some {
        lemma_guarded_is_ok(s, 5);
    } else {
        lemma_comment_is_a_line(s);
        reveal(command_line);
        if command(s) is Some {
            lemma_name_is_a_path(s);
        }
    }
}

/// What was read after `if` or `while` can be written so that it is read back, unless an
/// argument in it ends in a backslash.
proof fn lemma_guarded_is_ok(s: Seq<u8>, word: nat)
    ensures
        guarded(s, word) matches Some(found) ==> name_ok(found.0.name) && (texts_ok(found.1)
            ==> node_ok(found.1)),
    decreases s.len(), 0nat,
{
    let gap = blanks(tail(s, word));
    if !(s.len() == 0 || word == 0 || gap == 0) {
        match command(tail(s, word + gap)) {
            Some((call, n)) => {
                lemma_name_is_a_path(tail(s, word + gap));
                let at = word + gap + n + blanks(tail(s, word + gap + n));
                lemma_statement_is_ok(tail(s, at));
            },
            None => {},
        }
    }
}

/// Where `else` and a statement stand after what was read after `if`, the first branch is
/// not open to another `else`.
proof fn lemma_guarded_leaves_no_else(s: Seq<u8>, word: nat)
    ensures
        guarded(s, word) matches Some(found) ==> (open_ended(found.1) ==> otherwise(
            tail(s, found.2),
        ) is None),
{
    let gap = blanks(tail(s, word));
    if !(s.len() == 0 || word == 0 || gap == 0) {
        match command(tail(s, word + gap)) {
            Some((call, n)) => {
                let at = word + gap + n + blanks(tail(s, word + gap + n));
                lemma_else_is_taken(tail(s, at));
                match statement(tail(s, at)) {
                    Some((node, m)) => {
                        lemma_tail_tail(s, at, m);
                    },
                    None => {},
                }
            },
            None => {},
        }
    }
}

/// What was read after `else` can be written so that it is read back, unless an argument
/// in it ends in a backslash.
proof fn lemma_otherwise_is_ok(s: Seq<u8>)
    ensures
        otherwise(s) matches Some(found) ==> (texts_ok(found.0) ==> node_ok(found.0)),
    decreases s.len(), 0nat,
{
    let at = blanks(s);
    if s.len() > 0 {
        let from = at + 4 + blanks(tail(s, at + 4));
        lemma_statement_is_ok(tail(s, from));
    }
}

/// A script that is read can be written again with brackets around each command and quotes
/// around each argument, in any layout, and is then read as the same statements. This
/// holds of every script in which no argument ends in a backslash: between quotes, a
/// backslash at the end would be read with the closing quote.
pub proof fn lemma_every_layout_reads_the_same(s: Seq<u8>, pad: spec_fn(nat) -> Seq<u8>)
    requires
        layout(pad),
        script(s) matches Some(tree) && all_texts_ok(tree),
    ensures
        script(write_script(script(s)->0, pad)) == script(s),
{
    lemma_statements_are_ok(s);
    lemma_script_round_trip(script(s)->0, pad);
}

} // verus!
