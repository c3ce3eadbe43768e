use crate::ast::{Call, Node};
use crate::grammar::{
    arg, args, blanks, block, command, command_line, conditional, ends_word, guarded, in_class,
    is_blank, otherwise, script, span, statement, statements, tail, unescape, while_loop,
    with_byte, Class, BACKSLASH, CLOSE_BRACE, CLOSE_PAREN, OPEN_BRACE, OPEN_PAREN, QUOTE,
};
use crate::text::{
    ascii, lemma_ascii_is_text, lemma_encoded_is_text, lemma_low_bytes_are_chars,
};
use vstd::prelude::*;
use vstd::utf8::{char_u32_cast, decode_utf8, encode_utf8, valid_utf8};

verus! {

/// Every byte of `run` is a blank.
pub open spec fn all_blank(run: Seq<u8>) -> bool {
    forall|i: int| 0 <= i < run.len() ==> is_blank(#[trigger] run[i])
}

/// No byte of `text` is a backslash or ends a word: inside quotes, only a quote does.
pub open spec fn plain(text: Seq<u8>, quoted: bool) -> bool {
    forall|i: int|
        0 <= i < text.len() ==> (#[trigger] text[i]) != BACKSLASH && if quoted {
            text[i] != QUOTE
        } else {
            !ends_word(text[i])
        }
}

/// `n` times the byte `b`.
pub open spec fn repeat(b: u8, n: nat) -> Seq<u8> {
    Seq::new(n, |i: int| b)
}

/// `bytes` before the bytes of a result, `bytes.len()` more input bytes having been read.
pub open spec fn with_bytes(bytes: Seq<u8>, rest: Option<(Seq<u8>, nat)>) -> Option<
    (Seq<u8>, nat),
> {
    match rest {
        Some((more, n)) => Some((bytes + more, bytes.len() + n)),
        None => None,
    }
}

/// A run of blanks before any input is skipped with the blanks that the input starts with.
pub proof fn lemma_blanks_join(run: Seq<u8>, s: Seq<u8>)
    requires
        all_blank(run),
    ensures
        blanks(run + s) == run.len() + blanks(s),
    decreases run.len(),
{
    if run.len() == 0 {
        assert(run + s =~= s);
    } else {
        assert(is_blank(run[0]));
        assert((run + s).skip(1) =~= run.skip(1) + s);
        assert forall|i: int| 0 <= i < run.skip(1).len() implies is_blank(
            #[trigger] run.skip(1)[i],
        ) by {
            assert(run.skip(1)[i] == run[i + 1]);
        }
        lemma_blanks_join(run.skip(1), s);
    }
}

/// More blanks before a list of statements change neither the statements nor where the list
/// ends.
pub proof fn lemma_blanks_before_statements(run: Seq<u8>, s: Seq<u8>)
    requires
        all_blank(run),
        s.len() > 0,
    ensures
        statements(run + s).0 == statements(s).0,
        statements(run + s).1 == if statements(s).1 == 0 {
            0
        } else {
            run.len() + statements(s).1
        },
{
    let gap = blanks(s);
    let all = run + s;
    lemma_blanks_join(run, s);
    lemma_span_bound(s, Class::Blank);
    assert(tail(all, run.len() + gap) =~= tail(s, gap));
    match crate::grammar::statement(tail(s, gap)) {
        Some((node, n)) => {
            assert(tail(all, run.len() + gap + n) =~= tail(s, gap + n));
        },
        None => {},
    }
}

/// More blanks before a script change nothing in what it is read as.
pub proof fn lemma_blanks_before_script(run: Seq<u8>, s: Seq<u8>)
    requires
        all_blank(run),
    ensures
        script(run + s) == script(s),
{
    let all = run + s;
    if s.len() == 0 {
        assert(all =~= run);
        lemma_blanks_join(run, s);
        if run.len() > 0 {
            lemma_statements_of_blanks(run);
        }
        assert(tail(run, 0) =~= run);
        assert(tail(s, 0) =~= s);
    } else {
        lemma_blanks_before_statements(run, s);
        if statements(s).1 == 0 {
            assert(tail(all, 0) =~= all);
            assert(tail(s, 0) =~= s);
            lemma_blanks_join(run, s);
        } else {
            let n = statements(s).1;
            if n <= s.len() {
                assert(tail(all, run.len() + n) =~= tail(s, n));
            } else {
                assert(tail(all, run.len() + n) =~= tail(s, n));
            }
        }
    }
}

/// More blanks between the arguments of a command, or before the first, change neither the
/// arguments nor, counted from the end, where they stop.
pub proof fn lemma_blanks_before_args(run: Seq<u8>, s: Seq<u8>)
    requires
        all_blank(run),
        s.len() > 0,
        is_blank(s[0]),
    ensures
        args(run + s).0 == args(s).0,
        args(run + s).1 == if args(s).1 == 0 {
            0
        } else {
            run.len() + args(s).1
        },
{
    let gap = blanks(s);
    let all = run + s;
    lemma_blanks_join(run, s);
    lemma_span_bound(s, Class::Blank);
    assert(tail(all, run.len() + gap) =~= tail(s, gap));
    match arg(tail(s, gap)) {
        Some((text, n)) => {
            assert(tail(all, run.len() + gap + n) =~= tail(s, gap + n));
        },
        None => {},
    }
}

/// What was read, `n` bytes later.
pub open spec fn later<T>(found: Option<(T, nat)>, n: nat) -> Option<(T, nat)> {
    match found {
        Some((value, m)) => Some((value, m + n)),
        None => None,
    }
}

/// The input after a run of blanks and `n` more bytes is the input without the run after
/// `n` bytes.
proof fn lemma_tail_after_run(head: Seq<u8>, run: Seq<u8>, s: Seq<u8>, n: nat)
    ensures
        tail(head + run + s, head.len() + run.len() + n) == tail(head + s, head.len() + n),
{
    if n <= s.len() {
        assert((head + run + s).skip((head.len() + run.len() + n) as int) =~= (head
            + s).skip((head.len() + n) as int));
    }
}

/// More blanks after `(` change nothing in how the command in the brackets is read.
pub proof fn lemma_blanks_after_open_bracket(run: Seq<u8>, s: Seq<u8>)
    requires
        all_blank(run),
    ensures
        command(seq![OPEN_PAREN] + run + s) == later(command(seq![OPEN_PAREN] + s), run.len()),
{
    reveal_with_fuel(command, 1);
    let head = seq![OPEN_PAREN];
    let wide = head + run + s;
    let tight = head + s;
    assert(wide.skip(1) =~= run + s);
    assert(tight.skip(1) =~= s);
    lemma_blanks_join(run, s);
    let open = 1 + blanks(s);
    lemma_tail_after_run(head, run, s, blanks(s));
    match command(tail(tight, open)) {
        Some((call, n)) => {
            lemma_tail_after_run(head, run, s, blanks(s) + n);
            let close = open + n + blanks(tail(tight, open + n));
            if close < tight.len() {
                assert(wide[(close + run.len()) as int] == tight[close as int]);
            }
        },
        None => {},
    }
}

/// More blanks after `{` change nothing in how the block is read.
pub proof fn lemma_blanks_after_open_brace(run: Seq<u8>, s: Seq<u8>)
    requires
        all_blank(run),
    ensures
        block(seq![OPEN_BRACE] + run + s) == later(block(seq![OPEN_BRACE] + s), run.len()),
{
    let head = seq![OPEN_BRACE];
    let wide = head + run + s;
    let tight = head + s;
    assert(tail(wide, 1) =~= run + s);
    assert(tail(tight, 1) =~= s);
    if s.len() == 0 {
        assert(run + s =~= run);
        lemma_blanks_join(run, s);
        if run.len() > 0 {
            lemma_statements_of_blanks(run);
        }
        lemma_span_bound(run, Class::Blank);
    } else {
        lemma_blanks_before_statements(run, s);
        let n = statements(s).1;
        if n == 0 {
            lemma_tail_after_run(head, run, s, 0);
            assert(tail(wide, 1) == run + s);
            lemma_blanks_join(run, s);
            let close = 1 + blanks(s);
            if close < tight.len() {
                assert(wide[(close + run.len()) as int] == tight[close as int]);
            }
        } else {
            lemma_tail_after_run(head, run, s, n);
            let close = 1 + n + blanks(tail(tight, 1 + n));
            if close < tight.len() {
                assert(wide[(close + run.len()) as int] == tight[close as int]);
            }
        }
    }
}

/// More blanks after `if` or `while`, where one is already, change nothing in how the
/// command and the statement after it are read.
pub proof fn lemma_blanks_after_keyword(word: Seq<u8>, run: Seq<u8>, s: Seq<u8>)
    requires
        all_blank(run),
        word.len() > 0,
        s.len() > 0,
        is_blank(s[0]),
    ensures
        guarded(word + run + s, word.len()) == match guarded(word + s, word.len()) {
            Some((call, node, n)) => Some((call, node, n + run.len())),
            None => None,
        },
{
    let wide = word + run + s;
    let tight = word + s;
    assert(tail(wide, word.len()) =~= run + s);
    assert(tail(tight, word.len()) =~= s);
    lemma_blanks_join(run, s);
    let gap = blanks(s);
    assert(gap > 0);
    lemma_tail_after_run(word, run, s, gap);
    match command(tail(tight, word.len() + gap)) {
        Some((call, n)) => {
            lemma_tail_after_run(word, run, s, gap + n);
            let at = gap + n + blanks(tail(tight, word.len() + gap + n));
            lemma_tail_after_run(word, run, s, at);
        },
        None => {},
    }
}

/// A run of bytes of one class is no longer than the input.
pub proof fn lemma_span_bound(s: Seq<u8>, class: Class)
    ensures
        span(s, class) <= s.len(),
        span(s, class) < s.len() ==> !in_class(s[span(s, class) as int], class),
        forall|i: int| 0 <= i < span(s, class) ==> in_class(#[trigger] s[i], class),
    decreases s.len(),
{
    if s.len() > 0 && in_class(s[0], class) {
        lemma_span_bound(s.skip(1), class);
        assert forall|i: int| 0 <= i < span(s, class) implies in_class(
            #[trigger] s[i],
            class,
        ) by {
            if i > 0 {
                assert(s[i] == s.skip(1)[i - 1]);
            }
        }
    }
}

/// Input that is all blanks holds no statement.
proof fn lemma_statements_of_blanks(run: Seq<u8>)
    requires
        all_blank(run),
        run.len() > 0,
    ensures
        statements(run).1 == 0,
        statements(run).0 == Seq::<crate::ast::Node>::empty(),
{
    let none = Seq::<u8>::empty();
    assert(run + none =~= run);
    lemma_blanks_join(run, none);
    assert(tail(run, run.len()) =~= none);
    lemma_nothing_in_nothing();
}

/// The empty input starts with no statement.
proof fn lemma_nothing_in_nothing()
    ensures
        crate::grammar::statement(Seq::<u8>::empty()) is None,
{
    reveal(crate::grammar::comment);
    reveal(crate::grammar::command_line);
    reveal_with_fuel(crate::grammar::command, 1);
    let none = Seq::<u8>::empty();
    assert(span(none, Class::Path) == 0);
}

/// Bytes that are neither backslashes nor the end of a word are read as they stand, and
/// reading goes on after them.
pub proof fn lemma_plain_bytes_stay(text: Seq<u8>, rest: Seq<u8>, quoted: bool)
    requires
        plain(text, quoted),
    ensures
        unescape(text + rest, quoted) == with_bytes(text, unescape(rest, quoted)),
    decreases text.len(),
{
    let all = text + rest;
    if text.len() == 0 {
        assert(all =~= rest);
        match unescape(rest, quoted) {
            Some((more, n)) => {
                assert(text + more =~= more);
            },
            None => {},
        }
    } else {
        let first = text[0];
        assert(all[0] == first);
        assert(all.skip(1) =~= text.skip(1) + rest);
        assert forall|i: int| 0 <= i < text.skip(1).len() implies (#[trigger] text.skip(1)[i])
            != BACKSLASH && if quoted {
            text.skip(1)[i] != QUOTE
        } else {
            !ends_word(text.skip(1)[i])
        } by {
            assert(text.skip(1)[i] == text[i + 1]);
        }
        lemma_plain_bytes_stay(text.skip(1), rest, quoted);
        match unescape(rest, quoted) {
            Some((more, n)) => {
                assert(seq![first] + (text.skip(1) + more) =~= text + more);
            },
            None => {},
        }
    }
}

/// Text between quotes that holds neither a quote nor a backslash is the argument, as it
/// stands.
pub proof fn lemma_quoted_text_is_kept(text: Seq<u8>, rest: Seq<u8>)
    requires
        plain(text, true),
        valid_utf8(text),
    ensures
        arg(seq![QUOTE] + text + seq![QUOTE] + rest) == Some(
            (decode_utf8(text), text.len() + 2),
        ),
{
    let all = seq![QUOTE] + text + seq![QUOTE] + rest;
    let inside = seq![QUOTE] + rest;
    assert(all.skip(1) =~= text + inside);
    lemma_plain_bytes_stay(text, inside, true);
    assert(unescape(inside, true) == Some((Seq::<u8>::empty(), 0nat)));
    assert(text + Seq::<u8>::empty() =~= text);
    assert(all[(text.len() + 1) as int] == QUOTE);
}

/// A string that holds neither a quote nor a backslash, written between quotes, is the
/// argument, unchanged.
pub proof fn lemma_quoted_string_is_kept(text: Seq<char>, rest: Seq<u8>)
    requires
        forall|i: int| 0 <= i < text.len() ==> (#[trigger] text[i]) != '"' && text[i] != '\\',
    ensures
        arg(seq![QUOTE] + encode_utf8(text) + seq![QUOTE] + rest) == Some(
            (text, encode_utf8(text).len() + 2),
        ),
{
    let bytes = encode_utf8(text);
    assert forall|i: int| 0 <= i < bytes.len() implies (#[trigger] bytes[i]) != BACKSLASH
        && bytes[i] != QUOTE by {
        if bytes[i] == BACKSLASH || bytes[i] == QUOTE {
            lemma_low_bytes_are_chars(text, i);
            let k = choose|k: int|
                0 <= k < text.len() && (#[trigger] text[k]) as u32 == encode_utf8(text)[i];
            let c = text[k];
            assert(c != '"' && c != '\\');
            assert('"' as u32 == 34 && '\\' as u32 == 92);
            if bytes[i] == QUOTE {
                assert(c as u32 == 34u32);
                char_u32_cast(c, 34u32);
                char_u32_cast('"', 34u32);
            } else {
                assert(c as u32 == 92u32);
                char_u32_cast(c, 92u32);
                char_u32_cast('\\', 92u32);
            }
        }
    }
    lemma_encoded_is_text(text);
    lemma_quoted_text_is_kept(bytes, rest);
}

/// A backslash before a quote is read as the quote, inside quotes and outside, wherever in
/// a word the two stand.
pub proof fn lemma_escaped_quote_is_a_quote(
    before: Seq<u8>,
    rest: Seq<u8>,
    quoted: bool,
)
    requires
        plain(before, quoted),
    ensures
        unescape(before + seq![BACKSLASH, QUOTE] + rest, quoted) == match unescape(
            rest,
            quoted,
        ) {
            Some((more, n)) => Some((before + seq![QUOTE] + more, before.len() + 2 + n)),
            None => None,
        },
{
    let pair = seq![BACKSLASH, QUOTE] + rest;
    assert(before + seq![BACKSLASH, QUOTE] + rest =~= before + pair);
    lemma_plain_bytes_stay(before, pair, quoted);
    assert(pair.skip(2) =~= rest);
    match unescape(rest, quoted) {
        Some((more, n)) => {
            assert(before + (seq![QUOTE] + more) =~= before + seq![QUOTE] + more);
        },
        None => {},
    }
}

/// A backslash before a byte that is not a quote stays a backslash, and the byte after it
/// is read as it stands: the two are in the word unchanged. This is stated for a byte that
/// is itself neither a backslash nor the end of the word.
pub proof fn lemma_other_backslash_stays(
    before: Seq<u8>,
    byte: u8,
    rest: Seq<u8>,
    quoted: bool,
)
    requires
        plain(before, quoted),
        plain(seq![byte], quoted),
        byte != QUOTE,
    ensures
        unescape(before + seq![BACKSLASH, byte] + rest, quoted) == match unescape(
            rest,
            quoted,
        ) {
            Some((more, n)) => Some(
                (before + seq![BACKSLASH, byte] + more, before.len() + 2 + n),
            ),
            None => None,
        },
{
    let pair = seq![BACKSLASH, byte] + rest;
    assert(before + seq![BACKSLASH, byte] + rest =~= before + pair);
    lemma_plain_bytes_stay(before, pair, quoted);
    let second = seq![byte] + rest;
    assert(pair.skip(1) =~= second);
    assert(second.skip(1) =~= rest);
    assert(seq![byte][0] == byte);
    assert(unescape(second, quoted) == with_byte(byte, 1, unescape(rest, quoted)));
    assert(unescape(pair, quoted) == with_byte(BACKSLASH, 1, unescape(second, quoted)));
    match unescape(rest, quoted) {
        Some((more, n)) => {
            assert(before + (seq![BACKSLASH] + (seq![byte] + more)) =~= before
                + seq![BACKSLASH, byte] + more);
        },
        None => {},
    }
}

/// A command starts with a byte that is no blank, and takes at least one byte.
proof fn lemma_command_starts(s: Seq<u8>)
    requires
        command(s) is Some,
    ensures
        s.len() > 0,
        !is_blank(s[0]),
        command(s) matches Some(found) && found.1 > 0,
{
    reveal_with_fuel(command, 1);
    if s.len() > 0 && s[0] == OPEN_PAREN {
    } else {
        lemma_span_bound(s, Class::Path);
    }
}

/// Brackets around a command change nothing: a command that is read up to a closing
/// bracket is read as the same command inside any number of pairs of brackets.
pub proof fn lemma_brackets_change_nothing(
    inner: Seq<u8>,
    rest: Seq<u8>,
    call: Call,
    depth: nat,
)
    requires
        command(inner + repeat(CLOSE_PAREN, depth) + rest) == Some((call, inner.len())),
    ensures
        command(repeat(OPEN_PAREN, depth) + inner + repeat(CLOSE_PAREN, depth) + rest) == Some(
            (call, inner.len() + 2 * depth),
        ),
{
    lemma_brackets(inner, rest, call, depth, depth);
}

/// `pairs` pairs of brackets around a command that `depth` closing brackets follow.
proof fn lemma_brackets(inner: Seq<u8>, rest: Seq<u8>, call: Call, depth: nat, pairs: nat)
    requires
        pairs <= depth,
        command(inner + repeat(CLOSE_PAREN, depth) + rest) == Some((call, inner.len())),
    ensures
        command(repeat(OPEN_PAREN, pairs) + inner + repeat(CLOSE_PAREN, depth) + rest) == Some(
            (call, inner.len() + 2 * pairs),
        ),
    decreases pairs,
{
    let closing = repeat(CLOSE_PAREN, depth);
    let all = repeat(OPEN_PAREN, pairs) + inner + closing + rest;
    if pairs == 0 {
        assert(all =~= inner + closing + rest);
    } else {
        let fewer = (pairs - 1) as nat;
        let within = repeat(OPEN_PAREN, fewer) + inner + closing + rest;
        lemma_brackets(inner, rest, call, depth, fewer);
        lemma_command_starts(within);
        reveal_with_fuel(command, 1);
        assert(all[0] == OPEN_PAREN);
        assert(all.skip(1) =~= within);
        assert(blanks(within) == 0);
        assert(tail(all, 1) =~= within);
        let n = inner.len() + 2 * fewer;
        let after = tail(all, 1 + n);
        assert(after =~= closing.skip(fewer as int) + rest);
        assert(after[0] == CLOSE_PAREN);
        assert(blanks(after) == 0);
        assert(all[(1 + n) as int] == CLOSE_PAREN);
    }
}

/// An ASCII letter or digit, or `/`.
pub open spec fn is_path_char(c: char) -> bool {
    ('0' <= c && c <= '9') || ('A' <= c && c <= 'Z') || ('a' <= c && c <= 'z') || c == '/'
}

/// A name of a program: not empty, and made of ASCII letters, digits and `/`.
pub open spec fn name_ok(name: Seq<char>) -> bool {
    name.len() > 0 && forall|i: int| 0 <= i < name.len() ==> is_path_char(#[trigger] name[i])
}

/// Every command in the statement, predicates too, has a name that is one.
pub open spec fn well_named(node: Node) -> bool
    decreases node,
{
    match node {
        Node::Comment(_) => true,
        Node::Command(call) => name_ok(call.name),
        Node::If(call, then, otherwise) => name_ok(call.name) && well_named(*then)
            && match otherwise {
            Some(other) => well_named(*other),
            None => true,
        },
        Node::Block(statements) => all_well_named(statements),
        Node::While(call, body) => name_ok(call.name) && well_named(*body),
    }
}

/// Every command in the statements has a name that is one.
pub open spec fn all_well_named(statements: Seq<Node>) -> bool
    decreases statements,
{
    forall|i: int| 0 <= i < statements.len() ==> well_named(#[trigger] statements[i])
}

/// The name of a command that was read is never empty, and holds only ASCII letters, digits
/// and `/`: they are the bytes of the input, one for one.
pub proof fn lemma_name_is_a_path(s: Seq<u8>)
    requires
        command(s) is Some,
    ensures
        command(s) matches Some(found) && name_ok(found.0.name),
    decreases s.len(),
{
    reveal_with_fuel(command, 1);
    if s.len() > 0 && s[0] == OPEN_PAREN {
        let open = 1 + blanks(s.skip(1));
        lemma_name_is_a_path(tail(s, open));
    } else {
        let n = span(s, Class::Path);
        let bytes = s.subrange(0, n as int);
        lemma_span_bound(s, Class::Path);
        assert forall|i: int| 0 <= i < bytes.len() implies (#[trigger] bytes[i]) < 128 by {
            assert(in_class(s[i], Class::Path));
        }
        lemma_ascii_is_text(bytes);
        let name = ascii(bytes);
        assert forall|i: int| 0 <= i < name.len() implies is_path_char(#[trigger] name[i]) by {
            assert(in_class(s[i], Class::Path));
            assert(name[i] == bytes[i] as char);
        }
    }
}

/// In every script that is read, every command has a name that is one.
pub proof fn lemma_script_is_well_named(s: Seq<u8>)
    requires
        script(s) is Some,
    ensures
        script(s) matches Some(tree) && all_well_named(tree),
{
    lemma_statements_are_well_named(s);
}

/// In the statements that are read, every command has a name that is one.
proof fn lemma_statements_are_well_named(s: Seq<u8>)
    ensures
        all_well_named(statements(s).0),
    decreases s.len(), 3nat,
{
    let gap = blanks(s);
    if s.len() > 0 {
        match statement(tail(s, gap)) {
            Some((node, n)) => {
                if n > 0 {
                    lemma_statement_is_well_named(tail(s, gap));
                    lemma_statements_are_well_named(tail(s, gap + n));
                    let more = statements(tail(s, gap + n)).0;
                    let all = seq![node] + more;
                    assert forall|i: int| 0 <= i < all.len() implies well_named(
                        #[trigger] all[i],
                    ) by {
                        if i > 0 {
                            assert(all[i] == more[i - 1]);
                        }
                    }
                }
            },
            None => {},
        }
    }
}

/// In a statement that is read, every command has a name that is one.
proof fn lemma_statement_is_well_named(s: Seq<u8>)
    ensures
        statement(s) matches Some(found) ==> well_named(found.0),
    decreases s.len(), 2nat,
{
    if block(s) is Some {
        if s.len() > 0 {
            lemma_statements_are_well_named(tail(s, 1));
        }
    } else if conditional(s) is Some {
        lemma_guarded_is_well_named(s, 2);
        match guarded(s, 2) {
            Some((call, then, n)) => {
                lemma_otherwise_is_well_named(tail(s, n));
            },
            None => {},
        }
    } else if while_loop(s) is Some {
        lemma_guarded_is_well_named(s, 5);
    } else {
        reveal(command_line);
        if command(s) is Some {
            lemma_name_is_a_path(s);
        }
    }
}

/// In what is read after `if` or `while`, every command has a name that is one.
proof fn lemma_guarded_is_well_named(s: Seq<u8>, word: nat)
    ensures
        guarded(s, word) matches Some(found) ==> name_ok(found.0.name) && well_named(found.1),
    decreases s.len(), 0nat,
{
    let gap = blanks(tail(s, word));
    if !(s.len() == 0 || word == 0 || gap == 0) {
        match command(tail(s, word + gap)) {
            Some((call, n)) => {
                lemma_name_is_a_path(tail(s, word + gap));
                let at = word + gap + n + blanks(tail(s, word + gap + n));
                lemma_statement_is_well_named(tail(s, at));
            },
            None => {},
        }
    }
}

/// In what is read after `else`, every command has a name that is one.
proof fn lemma_otherwise_is_well_named(s: Seq<u8>)
    ensures
        otherwise(s) matches Some(found) ==> well_named(found.0),
    decreases s.len(), 0nat,
{
    let at = blanks(s);
    if s.len() > 0 {
        let from = at + 4 + blanks(tail(s, at + 4));
        lemma_statement_is_well_named(tail(s, from));
    }
}

} // verus!
