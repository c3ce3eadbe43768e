use crate::ast::{Call, Node};
use crate::grammar;
use crate::grammar::{
    blanks, in_class, is_blank, span, starts_with, tail, unescape, word_else, word_if,
    word_while, Class, BACKSLASH, CLOSE_BRACE, CLOSE_PAREN, HASH, LF, OPEN_BRACE, OPEN_PAREN,
    QUOTE, SEMICOLON,
};
use crate::laws::{all_blank, is_path_char, lemma_blanks_join, lemma_span_bound, name_ok};
use crate::render::{
    escape, quoted, wide, write_args, write_command, write_else, write_guarded, write_script,
    write_statement, write_statements,
};
use crate::text::{lemma_encoded_is_text, lemma_last_byte, lemma_low_bytes_are_chars};
use vstd::prelude::*;
use vstd::utf8::{encode_utf8, is_ascii_chars, is_ascii_chars_encode_utf8};

verus! {

/// An argument that can be written between quotes: one that does not end in a backslash.
pub open spec fn text_ok(text: Seq<char>) -> bool {
    text.len() > 0 ==> text.last() != '\\'
}

/// A command that can be written.
pub open spec fn call_ok(call: Call) -> bool {
    name_ok(call.name) && forall|i: int|
        0 <= i < call.args.len() ==> text_ok(#[trigger] call.args[i])
}

/// A layout: blanks, and nothing else, at every place.
pub open spec fn layout(pad: spec_fn(nat) -> Seq<u8>) -> bool {
    forall|at: nat| all_blank(#[trigger] pad(at))
}

/// What is left of `a` and `b` after `a` is `b`.
proof fn lemma_tail_concat(a: Seq<u8>, b: Seq<u8>)
    ensures
        tail(a + b, a.len()) == b,
        (a + b).skip(a.len() as int) == b,
{
    assert((a + b).skip(a.len() as int) =~= b);
}

/// Blanks before a byte that is no blank are skipped, and no more.
proof fn lemma_blanks_then(run: Seq<u8>, rest: Seq<u8>)
    requires
        all_blank(run),
        rest.len() == 0 || !is_blank(rest[0]),
    ensures
        blanks(run + rest) == run.len(),
        tail(run + rest, run.len()) == rest,
{
    lemma_blanks_join(run, rest);
    lemma_tail_concat(run, rest);
}

/// The blanks that stand where blanks are needed are blanks, and at least one.
proof fn lemma_wide(pad: spec_fn(nat) -> Seq<u8>, at: nat)
    requires
        layout(pad),
    ensures
        all_blank(wide(pad, at)),
        wide(pad, at).len() > 0,
{
    assert(all_blank(pad(at)));
}

/// A name that was written is read as it stands, up to the first byte that no name holds.
pub proof fn lemma_name_round_trip(name: Seq<char>, rest: Seq<u8>)
    requires
        name_ok(name),
        rest.len() == 0 || !in_class(rest[0], Class::Path),
    ensures
        grammar::path(encode_utf8(name) + rest) == Some((name, encode_utf8(name).len())),
        encode_utf8(name).len() == name.len(),
        !is_blank(encode_utf8(name)[0]),
        encode_utf8(name)[0] != OPEN_PAREN,
{
    let bytes = encode_utf8(name);
    let all = bytes + rest;
    assert(is_ascii_chars(name));
    is_ascii_chars_encode_utf8(name);
    assert forall|i: int| 0 <= i < bytes.len() implies in_class(
        #[trigger] bytes[i],
        Class::Path,
    ) by {
        assert(is_path_char(name[i]));
        assert(name[i] as u8 == bytes[i]);
    }
    lemma_span_exact(bytes, rest, Class::Path);
    assert(all.subrange(0, bytes.len() as int) =~= bytes);
    lemma_encoded_is_text(name);
    assert(in_class(bytes[0], Class::Path));
}

/// A run of bytes of one class before a byte of another is the whole run, and no more.
proof fn lemma_span_exact(run: Seq<u8>, rest: Seq<u8>, class: Class)
    requires
        forall|i: int| 0 <= i < run.len() ==> in_class(#[trigger] run[i], class),
        rest.len() == 0 || !in_class(rest[0], class),
    ensures
        span(run + rest, class) == run.len(),
    decreases run.len(),
{
    if run.len() == 0 {
        assert(run + rest =~= rest);
    } else {
        assert(in_class(run[0], class));
        assert((run + rest).skip(1) =~= run.skip(1) + rest);
        assert forall|i: int| 0 <= i < run.skip(1).len() implies in_class(
            #[trigger] run.skip(1)[i],
            class,
        ) by {
            assert(run.skip(1)[i] == run[i + 1]);
        }
        lemma_span_exact(run.skip(1), rest, class);
    }
}

/// Bytes written with a backslash before each quote are read back as they were, up to the
/// quote that ends them, unless they end in a backslash.
pub proof fn lemma_escape_round_trip(bytes: Seq<u8>, rest: Seq<u8>)
    requires
        bytes.len() > 0 ==> bytes.last() != BACKSLASH,
    ensures
        unescape(escape(bytes) + seq![QUOTE] + rest, true) == Some((bytes, escape(bytes).len())),
    decreases bytes.len(),
{
    let end = seq![QUOTE] + rest;
    let all = escape(bytes) + seq![QUOTE] + rest;
    assert(all =~= escape(bytes) + end);
    if bytes.len() == 0 {
        assert(all =~= end);
    } else {
        let more = bytes.skip(1);
        let inner = escape(more) + seq![QUOTE] + rest;
        assert(inner =~= escape(more) + end);
        if more.len() > 0 {
            assert(more.last() == bytes.last());
        }
        lemma_escape_round_trip(more, rest);
        assert(seq![bytes[0]] + more =~= bytes);
        if bytes[0] == QUOTE {
            assert(all =~= seq![BACKSLASH, QUOTE] + inner);
            assert(all.skip(2) =~= inner);
        } else {
            assert(all =~= seq![bytes[0]] + inner);
            assert(all.skip(1) =~= inner);
            if bytes[0] == BACKSLASH {
                assert(more.len() > 0);
                assert(inner[0] != QUOTE) by {
                    if more[0] == QUOTE {
                        assert(escape(more)[0] == BACKSLASH);
                    } else {
                        assert(escape(more)[0] == more[0]);
                    }
                }
                assert(all[1] == inner[0]);
            }
        }
    }
}

/// A text does not end in a backslash byte unless it ends in a backslash.
proof fn lemma_text_end(text: Seq<char>)
    requires
        text_ok(text),
    ensures
        encode_utf8(text).len() > 0 ==> encode_utf8(text).last() != BACKSLASH,
{
    if text.len() > 0 {
        lemma_last_byte(text);
        if encode_utf8(text).last() == BACKSLASH {
            let c = text.last();
            assert(c as u32 == 92);
            assert('\\' as u32 == 92);
            vstd::utf8::char_u32_cast(c, 92u32);
            vstd::utf8::char_u32_cast('\\', 92u32);
        }
    } else {
        assert(encode_utf8(text) =~= Seq::<u8>::empty());
    }
}

/// An argument that was written between quotes is read as it stands.
pub proof fn lemma_quoted_round_trip(text: Seq<char>, rest: Seq<u8>)
    requires
        text_ok(text),
    ensures
        grammar::arg(quoted(text) + rest) == Some((text, quoted(text).len())),
        quoted(text).len() >= 2,
        quoted(text)[0] == QUOTE,
{
    let bytes = encode_utf8(text);
    let body = escape(bytes) + seq![QUOTE] + rest;
    let all = quoted(text) + rest;
    lemma_text_end(text);
    lemma_escape_round_trip(bytes, rest);
    lemma_encoded_is_text(text);
    assert(all =~= seq![QUOTE] + body);
    assert(all.skip(1) =~= body);
    assert(all[(escape(bytes).len() + 1) as int] == QUOTE);
}

/// After its blanks, `rest` goes on with `)`.
pub open spec fn closes(rest: Seq<u8>) -> bool {
    blanks(rest) < rest.len() && rest[blanks(rest) as int] == CLOSE_PAREN
}

/// Blanks and `)` hold no argument.
proof fn lemma_no_args(rest: Seq<u8>)
    requires
        closes(rest),
    ensures
        grammar::args(rest) == (Seq::<Seq<char>>::empty(), 0nat),
{
    let gap = blanks(rest);
    if gap > 0 {
        let r = tail(rest, gap);
        assert(r[0] == CLOSE_PAREN);
    }
}

/// Blanks and an argument before more arguments are read as one more argument.
proof fn lemma_args_shape(
    gap: Seq<u8>,
    word: Seq<u8>,
    after: Seq<u8>,
    text: Seq<char>,
    more: (Seq<Seq<char>>, nat),
)
    requires
        all_blank(gap),
        gap.len() > 0,
        word.len() > 0,
        !is_blank(word[0]),
        grammar::arg(word + after) == Some((text, word.len())),
        grammar::args(after) == more,
    ensures
        grammar::args(gap + word + after) == (
            seq![text] + more.0,
            gap.len() + word.len() + more.1,
        ),
{
    let all = gap + word + after;
    assert(all =~= gap + (word + after));
    assert((word + after)[0] == word[0]);
    lemma_blanks_then(gap, word + after);
    assert(tail(all, gap.len() + word.len()) =~= after);
}

/// Arguments that were written are read as they stand, up to the `)` after them.
pub proof fn lemma_args_round_trip(
    args: Seq<Seq<char>>,
    at: nat,
    pad: spec_fn(nat) -> Seq<u8>,
    rest: Seq<u8>,
)
    requires
        layout(pad),
        forall|i: int| 0 <= i < args.len() ==> text_ok(#[trigger] args[i]),
        closes(rest),
    ensures
        grammar::args(write_args(args, at, pad) + rest) == (args, write_args(args, at, pad).len()),
        args.len() > 0 ==> write_args(args, at, pad).len() > 0 && is_blank(
            write_args(args, at, pad)[0],
        ),
    decreases args.len(),
{
    let written = write_args(args, at, pad);
    if args.len() == 0 {
        assert(written + rest =~= rest);
        lemma_no_args(rest);
        assert(args =~= Seq::<Seq<char>>::empty());
    } else {
        let gap = wide(pad, at);
        let word = quoted(args[0]);
        let others = write_args(args.skip(1), at + (gap + word).len(), pad);
        let after = others + rest;
        lemma_wide(pad, at);
        assert(text_ok(args[0]));
        lemma_quoted_round_trip(args[0], after);
        assert forall|i: int| 0 <= i < args.skip(1).len() implies text_ok(
            #[trigger] args.skip(1)[i],
        ) by {
            assert(args.skip(1)[i] == args[i + 1]);
        }
        lemma_args_round_trip(args.skip(1), at + (gap + word).len(), pad, rest);
        lemma_args_shape(gap, word, after, args[0], (args.skip(1), others.len()));
        assert(written + rest =~= gap + word + after);
        assert(seq![args[0]] + args.skip(1) =~= args);
        assert(written[0] == gap[0]);
    }
}

/// A name and its arguments that were written are read as the command they are, up to the
/// `)` after them.
proof fn lemma_plain_command_round_trip(
    call: Call,
    at: nat,
    pad: spec_fn(nat) -> Seq<u8>,
    rest: Seq<u8>,
)
    requires
        layout(pad),
        call_ok(call),
        closes(rest),
    ensures
        grammar::command(encode_utf8(call.name) + write_args(call.args, at, pad) + rest) == Some(
            (call, encode_utf8(call.name).len() + write_args(call.args, at, pad).len()),
        ),
{
    reveal_with_fuel(grammar::command, 1);
    let name = encode_utf8(call.name);
    let written = write_args(call.args, at, pad);
    let after = written + rest;
    let all = name + written + rest;
    assert(all =~= name + after);
    lemma_args_round_trip(call.args, at, pad, rest);
    assert(after.len() > 0 && !in_class(after[0], Class::Path)) by {
        if call.args.len() > 0 {
            assert(after[0] == written[0]);
        } else {
            assert(written =~= Seq::<u8>::empty());
            assert(after =~= rest);
            lemma_span_bound(rest, Class::Blank);
            if blanks(rest) > 0 {
                assert(is_blank(rest[0]));
            }
        }
    }
    lemma_name_round_trip(call.name, after);
    lemma_tail_concat(name, after);
    assert(all[0] == name[0]);
}

/// A command between brackets, with blanks inside them, is read as the command.
proof fn lemma_brackets_around(
    before: Seq<u8>,
    core: Seq<u8>,
    last: Seq<u8>,
    rest: Seq<u8>,
    call: Call,
)
    requires
        all_blank(before),
        all_blank(last),
        core.len() > 0,
        !is_blank(core[0]),
        grammar::command(core + (last + seq![CLOSE_PAREN] + rest)) == Some((call, core.len())),
    ensures
        grammar::command(seq![OPEN_PAREN] + before + core + last + seq![CLOSE_PAREN] + rest)
            == Some((call, 1 + before.len() + core.len() + last.len() + 1)),
{
    let end = last + seq![CLOSE_PAREN] + rest;
    let inner = core + end;
    let all = seq![OPEN_PAREN] + before + core + last + seq![CLOSE_PAREN] + rest;
    assert(all =~= seq![OPEN_PAREN] + (before + inner));
    assert(all[0] == OPEN_PAREN);
    assert(all.skip(1) =~= before + inner);
    assert(inner[0] == core[0]);
    lemma_blanks_then(before, inner);
    let open = 1 + before.len();
    assert(tail(all, open) =~= inner);
    let n = core.len();
    assert(tail(all, open + n) =~= end);
    assert(end =~= last + (seq![CLOSE_PAREN] + rest));
    lemma_blanks_then(last, seq![CLOSE_PAREN] + rest);
    let close = open + n + last.len();
    assert(all[close as int] == CLOSE_PAREN);
    assert(blanks(all.skip(1)) == before.len());
    assert(blanks(tail(all, open + n)) == last.len());
    reveal_with_fuel(grammar::command, 1);
}

/// A command that was written is read as it stands, whatever follows it.
pub proof fn lemma_command_round_trip(
    call: Call,
    at: nat,
    pad: spec_fn(nat) -> Seq<u8>,
    rest: Seq<u8>,
)
    requires
        layout(pad),
        call_ok(call),
    ensures
        grammar::command(write_command(call, at, pad) + rest) == Some(
            (call, write_command(call, at, pad).len()),
        ),
        write_command(call, at, pad).len() > 0,
        write_command(call, at, pad)[0] == OPEN_PAREN,
{
    let before = pad(at + 1);
    let name = encode_utf8(call.name);
    let head = seq![OPEN_PAREN] + before + name;
    let written = write_args(call.args, at + head.len(), pad);
    let body = head + written;
    let last = pad(at + body.len());
    let end = last + seq![CLOSE_PAREN] + rest;
    let core = name + written;
    assert(all_blank(before) && all_blank(last));
    assert(closes(end)) by {
        assert(end =~= last + (seq![CLOSE_PAREN] + rest));
        lemma_blanks_then(last, seq![CLOSE_PAREN] + rest);
    }
    lemma_plain_command_round_trip(call, at + head.len(), pad, end);
    lemma_name_round_trip(call.name, Seq::empty());
    assert(core[0] == name[0]);
    assert(core + end =~= name + written + end);
    lemma_brackets_around(before, core, last, rest, call);
    assert(write_command(call, at, pad) + rest =~= seq![OPEN_PAREN] + before + core + last
        + seq![CLOSE_PAREN] + rest);
    assert(write_command(call, at, pad)[0] == OPEN_PAREN);
}

/// After its blanks, `rest` goes on with `else`.
pub open spec fn else_next(rest: Seq<u8>) -> bool {
    starts_with(tail(rest, blanks(rest)), word_else())
}

/// After its blanks, `rest` is at its end or goes on with `}`.
pub open spec fn ends(rest: Seq<u8>) -> bool {
    blanks(rest) == rest.len() || (blanks(rest) < rest.len() && rest[blanks(rest) as int]
        == CLOSE_BRACE)
}

/// The first byte of a statement as it is written here: `{`, `#`, `(`, `i` or `w`.
pub open spec fn starts_statement(b: u8) -> bool {
    b == OPEN_BRACE || b == HASH || b == OPEN_PAREN || b == 105 || b == 119
}

/// An `else` after the statement would be read as a part of it: the statement is, or ends
/// in, a conditional without a second branch.
pub open spec fn open_ended(node: Node) -> bool
    decreases node,
{
    match node {
        Node::If(_, _, None) => true,
        Node::If(_, _, Some(other)) => open_ended(*other),
        Node::While(_, body) => open_ended(*body),
        _ => false,
    }
}

/// A comment that can be written: one that holds no line end.
pub open spec fn line_ok(text: Seq<char>) -> bool {
    forall|i: int| 0 <= i < text.len() ==> (#[trigger] text[i]) != '\r' && text[i] != '\n'
}

/// A statement that can be written so that it is read back: names are names, no argument
/// ends in a backslash, no comment holds a line end, and no first branch that an `else`
/// follows is open to it.
pub open spec fn node_ok(node: Node) -> bool
    decreases node,
{
    match node {
        Node::Comment(text) => line_ok(text),
        Node::Command(call) => call_ok(call),
        Node::If(call, then, otherwise) => call_ok(call) && node_ok(*then) && match otherwise {
            Some(other) => node_ok(*other) && !open_ended(*then),
            None => true,
        },
        Node::Block(statements) => all_ok(statements),
        Node::While(call, body) => call_ok(call) && node_ok(*body),
    }
}

/// Every statement of the list can be written so that it is read back.
pub open spec fn all_ok(statements: Seq<Node>) -> bool
    decreases statements,
{
    forall|i: int| 0 <= i < statements.len() ==> node_ok(#[trigger] statements[i])
}

/// Input that does not start with the first byte of a word does not start with the word.
proof fn lemma_other_start(s: Seq<u8>, word: Seq<u8>)
    requires
        word.len() > 0,
        s.len() == 0 || s[0] != word[0],
    ensures
        !starts_with(s, word),
{
    if s.len() >= word.len() {
        assert(s.subrange(0, word.len() as int)[0] == s[0]);
    }
}

/// A word and anything after it start with the word.
proof fn lemma_word_start(word: Seq<u8>, rest: Seq<u8>)
    ensures
        starts_with(word + rest, word),
{
    assert((word + rest).subrange(0, word.len() as int) =~= word);
}

/// Nothing, and `}`, start no statement and no `else`.
proof fn lemma_nothing_starts(r: Seq<u8>)
    requires
        r.len() == 0 || r[0] == CLOSE_BRACE,
    ensures
        grammar::statement(r) is None,
        !starts_with(r, word_else()),
{
    reveal(grammar::comment);
    reveal(grammar::command_line);
    reveal_with_fuel(grammar::command, 1);
    lemma_other_start(r, word_if());
    lemma_other_start(r, word_while());
    lemma_other_start(r, word_else());
    assert(span(r, Class::Path) == 0);
}

/// Where `rest` ends the statements, it holds none, and no `else`.
proof fn lemma_ends(rest: Seq<u8>)
    requires
        ends(rest),
    ensures
        grammar::statements(rest) == (Seq::<Node>::empty(), 0nat),
        !else_next(rest),
{
    lemma_nothing_starts(tail(rest, blanks(rest)));
}

/// A comment that was written is read as it stands.
pub proof fn lemma_comment_round_trip(text: Seq<char>, rest: Seq<u8>)
    requires
        line_ok(text),
    ensures
        grammar::statement(seq![HASH] + encode_utf8(text) + seq![LF] + rest) == Some(
            (Node::Comment(text), encode_utf8(text).len() + 2),
        ),
{
    let bytes = encode_utf8(text);
    let all = seq![HASH] + bytes + seq![LF] + rest;
    let end = seq![LF] + rest;
    reveal(grammar::comment);
    assert forall|i: int| 0 <= i < bytes.len() implies in_class(
        #[trigger] bytes[i],
        Class::Line,
    ) by {
        if bytes[i] == 13 || bytes[i] == 10 {
            lemma_low_bytes_are_chars(text, i);
            let k = choose|k: int|
                0 <= k < text.len() && (#[trigger] text[k]) as u32 == encode_utf8(text)[i];
            let c = text[k];
            assert(c != '\r' && c != '\n');
            assert('\r' as u32 == 13 && '\n' as u32 == 10);
            if bytes[i] == 13 {
                assert(c as u32 == 13u32);
                vstd::utf8::char_u32_cast(c, 13u32);
                vstd::utf8::char_u32_cast('\r', 13u32);
            } else {
                assert(c as u32 == 10u32);
                vstd::utf8::char_u32_cast(c, 10u32);
                vstd::utf8::char_u32_cast('\n', 10u32);
            }
        }
    }
    lemma_span_exact(bytes, end, Class::Line);
    assert(all.skip(1) =~= bytes + end);
    assert(all.subrange(1, (1 + bytes.len()) as int) =~= bytes);
    assert(all[(1 + bytes.len()) as int] == LF);
    lemma_encoded_is_text(text);
    lemma_other_start(all, word_if());
    lemma_other_start(all, word_while());
    assert(all[0] == HASH);
    assert(grammar::comment(all) == Some((text, bytes.len() + 2)));
}

/// A command that was written with its `;` is read as it stands.
pub proof fn lemma_command_line_round_trip(
    call: Call,
    at: nat,
    pad: spec_fn(nat) -> Seq<u8>,
    rest: Seq<u8>,
)
    requires
        layout(pad),
        call_ok(call),
    ensures
        grammar::statement(write_statement(Node::Command(call), at, pad) + rest) == Some(
            (Node::Command(call), write_statement(Node::Command(call), at, pad).len()),
        ),
        write_statement(Node::Command(call), at, pad)[0] == OPEN_PAREN,
{
    let command = write_command(call, at, pad);
    let gap = pad(at + command.len());
    let end = gap + seq![SEMICOLON] + rest;
    let all = write_statement(Node::Command(call), at, pad) + rest;
    assert(all_blank(gap));
    lemma_command_round_trip(call, at, pad, end);
    assert(all =~= command + end);
    lemma_tail_concat(command, end);
    assert(end =~= gap + (seq![SEMICOLON] + rest));
    lemma_blanks_then(gap, seq![SEMICOLON] + rest);
    assert(all[(command.len() + gap.len()) as int] == SEMICOLON);
    assert(all[0] == OPEN_PAREN);
    reveal(grammar::comment);
    reveal(grammar::command_line);
    lemma_other_start(all, word_if());
    lemma_other_start(all, word_while());
    assert(grammar::command_line(all) == Some((call, command.len() + gap.len() + 1)));
}

/// Statements between `{` and `}`, with blanks before the `}`, are read as a block.
proof fn lemma_block_shape(
    inner: Seq<u8>,
    last: Seq<u8>,
    rest: Seq<u8>,
    nodes: Seq<Node>,
)
    requires
        all_blank(last),
        grammar::statements(inner + (last + seq![CLOSE_BRACE] + rest)) == (nodes, inner.len()),
    ensures
        grammar::statement(seq![OPEN_BRACE] + inner + last + seq![CLOSE_BRACE] + rest) == Some(
            (Node::Block(nodes), inner.len() + last.len() + 2),
        ),
{
    let end = last + seq![CLOSE_BRACE] + rest;
    let all = seq![OPEN_BRACE] + inner + last + seq![CLOSE_BRACE] + rest;
    assert(all =~= seq![OPEN_BRACE] + (inner + end));
    assert(tail(all, 1) =~= inner + end);
    assert(tail(all, 1 + inner.len()) =~= end);
    assert(end =~= last + (seq![CLOSE_BRACE] + rest));
    lemma_blanks_then(last, seq![CLOSE_BRACE] + rest);
    assert(all[(1 + inner.len() + last.len()) as int] == CLOSE_BRACE);
    assert(all[0] == OPEN_BRACE);
    assert(grammar::block(all) == Some((Node::Block(nodes), inner.len() + last.len() + 2)));
}

/// After a keyword: blanks, a command, blanks and a statement are read as the two.
proof fn lemma_guarded_shape(
    word: Seq<u8>,
    gap: Seq<u8>,
    test: Seq<u8>,
    mid: Seq<u8>,
    body: Seq<u8>,
    rest: Seq<u8>,
    call: Call,
    node: Node,
)
    requires
        word.len() > 0,
        all_blank(gap),
        gap.len() > 0,
        all_blank(mid),
        test.len() > 0,
        !is_blank(test[0]),
        body.len() > 0,
        !is_blank(body[0]),
        grammar::command(test + (mid + body + rest)) == Some((call, test.len())),
        grammar::statement(body + rest) == Some((node, body.len())),
    ensures
        grammar::guarded(word + gap + test + mid + body + rest, word.len()) == Some(
            (call, node, word.len() + gap.len() + test.len() + mid.len() + body.len()),
        ),
{
    let all = word + gap + test + mid + body + rest;
    let after_word = gap + (test + (mid + body + rest));
    assert(all =~= word + after_word);
    lemma_tail_concat(word, after_word);
    assert((test + (mid + body + rest))[0] == test[0]);
    lemma_blanks_then(gap, test + (mid + body + rest));
    assert(tail(all, word.len() + gap.len()) =~= test + (mid + body + rest));
    let n = test.len();
    assert(tail(all, word.len() + gap.len() + n) =~= mid + (body + rest));
    assert((body + rest)[0] == body[0]);
    lemma_blanks_then(mid, body + rest);
    assert(tail(all, word.len() + gap.len() + n + mid.len()) =~= body + rest);
}

/// Blanks, `else`, blanks and a statement are read as that statement.
proof fn lemma_otherwise_shape(
    before: Seq<u8>,
    after: Seq<u8>,
    other: Seq<u8>,
    rest: Seq<u8>,
    node: Node,
)
    requires
        all_blank(before),
        all_blank(after),
        other.len() > 0,
        !is_blank(other[0]),
        grammar::statement(other + rest) == Some((node, other.len())),
    ensures
        grammar::otherwise(before + word_else() + after + other + rest) == Some(
            (node, before.len() + 4 + after.len() + other.len()),
        ),
{
    let all = before + word_else() + after + other + rest;
    let from_else = word_else() + (after + (other + rest));
    assert(all =~= before + from_else);
    assert(word_else()[0] == 101);
    assert(from_else[0] == 101);
    lemma_blanks_then(before, from_else);
    lemma_word_start(word_else(), after + (other + rest));
    assert(tail(all, before.len() + 4) =~= after + (other + rest));
    assert((other + rest)[0] == other[0]);
    lemma_blanks_then(after, other + rest);
    assert(tail(all, before.len() + 4 + after.len()) =~= other + rest);
}

/// `if` with a command and a statement is read as a conditional, with a second branch
/// where `else` and a statement follow.
proof fn lemma_conditional_shape(head: Seq<u8>, rest: Seq<u8>, call: Call, then: Node)
    requires
        starts_with(head + rest, word_if()),
        grammar::guarded(head + rest, 2) == Some((call, then, head.len())),
    ensures
        grammar::statement(head + rest) == match grammar::otherwise(rest) {
            Some((other, m)) => Some(
                (Node::If(call, Box::new(then), Some(Box::new(other))), head.len() + m),
            ),
            None => Some((Node::If(call, Box::new(then), None), head.len())),
        },
{
    let all = head + rest;
    lemma_tail_concat(head, rest);
    assert(all.subrange(0, 2)[0] == all[0]);
    assert(word_if()[0] == 105);
    assert(all[0] != OPEN_BRACE);
    assert(grammar::block(all) is None);
    assert(grammar::conditional(all) is Some);
}

/// `while` with a command and a statement is read as a loop.
proof fn lemma_while_shape(head: Seq<u8>, rest: Seq<u8>, call: Call, body: Node)
    requires
        starts_with(head + rest, word_while()),
        grammar::guarded(head + rest, 5) == Some((call, body, head.len())),
    ensures
        grammar::statement(head + rest) == Some((Node::While(call, Box::new(body)), head.len())),
{
    let all = head + rest;
    assert(all.subrange(0, 5)[0] == all[0]);
    assert(word_while()[0] == 119);
    assert(all[0] != OPEN_BRACE);
    assert(grammar::block(all) is None);
    lemma_other_start(all, word_if());
    assert(grammar::conditional(all) is None);
    assert(grammar::while_loop(all) == Some((Node::While(call, Box::new(body)), head.len())));
}

/// What was written after `if` or `while` is read as the command and the statement that
/// were written.
proof fn lemma_guarded_round_trip(
    word: Seq<u8>,
    call: Call,
    node: Node,
    at: nat,
    pad: spec_fn(nat) -> Seq<u8>,
    rest: Seq<u8>,
)
    requires
        word.len() > 0,
        layout(pad),
        call_ok(call),
        node_ok(node),
        open_ended(node) ==> !else_next(rest),
    ensures
        grammar::guarded(word + write_guarded(call, node, at, pad) + rest, word.len()) == Some(
            (call, node, word.len() + write_guarded(call, node, at, pad).len()),
        ),
    decreases node, 2nat,
{
    let gap = wide(pad, at);
    let test = write_command(call, at + gap.len(), pad);
    let mid = pad(at + (gap + test).len());
    let before = gap + test + mid;
    let body = write_statement(node, at + before.len(), pad);
    lemma_wide(pad, at);
    assert(all_blank(mid));
    lemma_statement_round_trip(node, at + before.len(), pad, rest);
    lemma_command_round_trip(call, at + gap.len(), pad, mid + body + rest);
    assert(!is_blank(body[0]));
    lemma_guarded_shape(word, gap, test, mid, body, rest, call, node);
    assert(word + write_guarded(call, node, at, pad) + rest =~= word + gap + test + mid + body
        + rest);
    assert(write_guarded(call, node, at, pad).len() == gap.len() + test.len() + mid.len()
        + body.len());
}

/// A block that was written is read as it stands.
proof fn lemma_block_round_trip(
    node: Node,
    statements: Seq<Node>,
    at: nat,
    pad: spec_fn(nat) -> Seq<u8>,
    rest: Seq<u8>,
)
    requires
        node == Node::Block(statements),
        layout(pad),
        node_ok(node),
    ensures
        grammar::statement(write_statement(node, at, pad) + rest) == Some(
            (node, write_statement(node, at, pad).len()),
        ),
        write_statement(node, at, pad)[0] == OPEN_BRACE,
    decreases node, 0nat,
{
    let written = write_statement(node, at, pad);
    let inner = write_statements(statements, 0, at + 1, pad);
    let last = pad(at + 1 + inner.len());
    assert(all_blank(last));
    let end = last + seq![CLOSE_BRACE] + rest;
    assert(ends(end)) by {
        assert(end =~= last + (seq![CLOSE_BRACE] + rest));
        lemma_blanks_then(last, seq![CLOSE_BRACE] + rest);
    }
    assert(all_ok(statements));
    lemma_statements_round_trip(statements, 0, at + 1, pad, end);
    assert(statements.skip(0) =~= statements);
    lemma_block_shape(inner, last, rest, statements);
    assert((seq![OPEN_BRACE] + inner).len() == 1 + inner.len());
    assert(written =~= seq![OPEN_BRACE] + inner + last + seq![CLOSE_BRACE]);
    assert(written + rest =~= seq![OPEN_BRACE] + inner + last + seq![CLOSE_BRACE] + rest);
    assert(written[0] == OPEN_BRACE);
}

/// A loop that was written is read as it stands.
proof fn lemma_while_round_trip(
    node: Node,
    call: Call,
    body: Node,
    at: nat,
    pad: spec_fn(nat) -> Seq<u8>,
    rest: Seq<u8>,
)
    requires
        node == Node::While(call, Box::new(body)),
        layout(pad),
        node_ok(node),
        open_ended(node) ==> !else_next(rest),
    ensures
        grammar::statement(write_statement(node, at, pad) + rest) == Some(
            (node, write_statement(node, at, pad).len()),
        ),
        write_statement(node, at, pad)[0] == 119,
    decreases node, 0nat,
{
    let written = write_statement(node, at, pad);
    let guarded = write_guarded(call, body, at + 5, pad);
    lemma_guarded_round_trip(word_while(), call, body, at + 5, pad, rest);
    let head = word_while() + guarded;
    lemma_word_start(word_while(), guarded + rest);
    assert(head + rest =~= word_while() + (guarded + rest));
    lemma_while_shape(head, rest, call, body);
    assert(written == head);
    assert(word_while()[0] == 119);
    assert(written[0] == word_while()[0]);
}

/// A conditional without a second branch that was written is read as it stands.
proof fn lemma_if_round_trip(
    node: Node,
    call: Call,
    then: Node,
    at: nat,
    pad: spec_fn(nat) -> Seq<u8>,
    rest: Seq<u8>,
)
    requires
        node == Node::If(call, Box::new(then), None),
        layout(pad),
        node_ok(node),
        !else_next(rest),
    ensures
        grammar::statement(write_statement(node, at, pad) + rest) == Some(
            (node, write_statement(node, at, pad).len()),
        ),
        write_statement(node, at, pad)[0] == 105,
    decreases node, 0nat,
{
    let written = write_statement(node, at, pad);
    let guarded = write_guarded(call, then, at + 2, pad);
    let head = word_if() + guarded;
    lemma_guarded_round_trip(word_if(), call, then, at + 2, pad, rest);
    lemma_word_start(word_if(), guarded + rest);
    assert(head + rest =~= word_if() + (guarded + rest));
    lemma_conditional_shape(head, rest, call, then);
    assert(grammar::otherwise(rest) is None);
    assert(written == head);
    assert(word_if()[0] == 105);
    assert(written[0] == word_if()[0]);
}

/// `else` and the branch after it that were written are read as that branch.
proof fn lemma_else_round_trip(
    node: Node,
    at: nat,
    pad: spec_fn(nat) -> Seq<u8>,
    rest: Seq<u8>,
)
    requires
        layout(pad),
        node_ok(node),
        open_ended(node) ==> !else_next(rest),
    ensures
        grammar::otherwise(write_else(node, at, pad) + rest) == Some(
            (node, write_else(node, at, pad).len()),
        ),
    decreases node, 2nat,
{
    let before = pad(at);
    let word = before + word_else();
    let after = pad(at + word.len());
    let other = write_statement(node, at + (word + after).len(), pad);
    assert(all_blank(before) && all_blank(after));
    lemma_statement_round_trip(node, at + (word + after).len(), pad, rest);
    assert(!is_blank(other[0]));
    lemma_otherwise_shape(before, after, other, rest, node);
    assert(write_else(node, at, pad) + rest =~= before + word_else() + after + other + rest);
}

/// A conditional with both branches that was written is read as it stands.
proof fn lemma_if_else_round_trip(
    node: Node,
    call: Call,
    then: Node,
    branch: Node,
    at: nat,
    pad: spec_fn(nat) -> Seq<u8>,
    rest: Seq<u8>,
)
    requires
        node == Node::If(call, Box::new(then), Some(Box::new(branch))),
        layout(pad),
        node_ok(node),
        open_ended(node) ==> !else_next(rest),
    ensures
        grammar::statement(write_statement(node, at, pad) + rest) == Some(
            (node, write_statement(node, at, pad).len()),
        ),
        write_statement(node, at, pad)[0] == 105,
    decreases node, 0nat,
{
    let guarded = write_guarded(call, then, at + 2, pad);
    let head = word_if() + guarded;
    let second = write_else(branch, at + head.len(), pad);
    let end = second + rest;
    lemma_else_round_trip(branch, at + head.len(), pad, rest);
    lemma_guarded_round_trip(word_if(), call, then, at + 2, pad, end);
    lemma_word_start(word_if(), guarded + end);
    assert(head + end =~= word_if() + (guarded + end));
    assert(head + end =~= word_if() + guarded + end);
    lemma_conditional_shape(head, end, call, then);
    assert(write_statement(node, at, pad) == head + second);
    assert(head + second + rest =~= head + end);
    assert(word_if()[0] == 105);
    assert((head + second)[0] == word_if()[0]);
}

/// A statement that was written is read as it stands, whatever layout it was written in.
pub proof fn lemma_statement_round_trip(
    node: Node,
    at: nat,
    pad: spec_fn(nat) -> Seq<u8>,
    rest: Seq<u8>,
)
    requires
        layout(pad),
        node_ok(node),
        open_ended(node) ==> !else_next(rest),
    ensures
        grammar::statement(write_statement(node, at, pad) + rest) == Some(
            (node, write_statement(node, at, pad).len()),
        ),
        write_statement(node, at, pad).len() > 0,
        starts_statement(write_statement(node, at, pad)[0]),
    decreases node, 1nat,
{
    match node {
        Node::Comment(text) => {
            lemma_comment_round_trip(text, rest);
            assert(write_statement(node, at, pad)[0] == HASH);
        },
        Node::Command(call) => {
            lemma_command_line_round_trip(call, at, pad, rest);
        },
        Node::Block(statements) => {
            lemma_block_round_trip(node, statements, at, pad, rest);
        },
        Node::While(call, body) => {
            lemma_while_round_trip(node, call, *body, at, pad, rest);
        },
        Node::If(call, then, None) => {
            lemma_if_round_trip(node, call, *then, at, pad, rest);
        },
        Node::If(call, then, Some(branch)) => {
            lemma_if_else_round_trip(node, call, *then, *branch, at, pad, rest);
        },
    }
}

/// Blanks and a statement before more statements are read as one more statement.
proof fn lemma_statements_shape(
    gap: Seq<u8>,
    one: Seq<u8>,
    after: Seq<u8>,
    node: Node,
    more: (Seq<Node>, nat),
)
    requires
        all_blank(gap),
        one.len() > 0,
        starts_statement(one[0]),
        grammar::statement(one + after) == Some((node, one.len())),
        grammar::statements(after) == more,
    ensures
        grammar::statements(gap + one + after) == (
            seq![node] + more.0,
            gap.len() + one.len() + more.1,
        ),
        !else_next(gap + one + after),
{
    let all = gap + one + after;
    assert(all =~= gap + (one + after));
    assert((one + after)[0] == one[0]);
    lemma_blanks_then(gap, one + after);
    assert(tail(all, gap.len() + one.len()) =~= after);
    assert(word_else()[0] == 101);
    lemma_other_start(one + after, word_else());
}

/// Statements that were written are read as they stand, up to the end of the input or to
/// the `}` after them.
pub proof fn lemma_statements_round_trip(
    statements: Seq<Node>,
    from: nat,
    at: nat,
    pad: spec_fn(nat) -> Seq<u8>,
    rest: Seq<u8>,
)
    requires
        layout(pad),
        from <= statements.len(),
        forall|i: int| from <= i < statements.len() ==> node_ok(#[trigger] statements[i]),
        ends(rest),
    ensures
        grammar::statements(write_statements(statements, from, at, pad) + rest) == (
            statements.skip(from as int),
            write_statements(statements, from, at, pad).len(),
        ),
        !else_next(write_statements(statements, from, at, pad) + rest),
    decreases statements, statements.len() - from,
{
    let written = write_statements(statements, from, at, pad);
    if from >= statements.len() {
        assert(written + rest =~= rest);
        lemma_ends(rest);
        assert(statements.skip(from as int) =~= Seq::<Node>::empty());
    } else {
        let node = statements[from as int];
        let gap = pad(at);
        let one = write_statement(node, at + gap.len(), pad);
        let others = write_statements(statements, from + 1, at + (gap + one).len(), pad);
        let after = others + rest;
        assert(all_blank(gap));
        lemma_statements_round_trip(statements, from + 1, at + (gap + one).len(), pad, rest);
        lemma_statement_round_trip(node, at + gap.len(), pad, after);
        lemma_statements_shape(
            gap,
            one,
            after,
            node,
            (statements.skip((from + 1) as int), others.len()),
        );
        assert(written + rest =~= gap + one + after);
        assert(seq![node] + statements.skip((from + 1) as int) =~= statements.skip(from as int));
    }
}

/// A script that was written is read as it stands: the statements that were written, in
/// their order, whatever blanks the layout has put between the tokens.
pub proof fn lemma_script_round_trip(statements: Seq<Node>, pad: spec_fn(nat) -> Seq<u8>)
    requires
        layout(pad),
        all_ok(statements),
    ensures
        grammar::script(write_script(statements, pad)) == Some(statements),
{
    let body = write_statements(statements, 0, 0, pad);
    let last = pad(body.len());
    let none = Seq::<u8>::empty();
    assert(all_blank(last));
    lemma_blanks_then(last, none);
    assert(last + none =~= last);
    assert(ends(last));
    lemma_statements_round_trip(statements, 0, 0, pad, last);
    assert(statements.skip(0) =~= statements);
    lemma_tail_concat(body, last);
}

} // verus!
