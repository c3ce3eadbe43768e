use crate::ast::{Call, Node};
use vstd::prelude::*;
use vstd::utf8::{decode_utf8, valid_utf8};

verus! {

/// Tab.
pub const TAB: u8 = 9;

/// Line feed.
pub const LF: u8 = 10;

/// Carriage return.
pub const CR: u8 = 13;

/// Space.
pub const SPACE: u8 = 32;

/// `"`.
pub const QUOTE: u8 = 34;

/// `#`.
pub const HASH: u8 = 35;

/// `(`.
pub const OPEN_PAREN: u8 = 40;

/// `)`.
pub const CLOSE_PAREN: u8 = 41;

/// `/`.
pub const SLASH: u8 = 47;

/// `;`.
pub const SEMICOLON: u8 = 59;

/// `\`.
pub const BACKSLASH: u8 = 92;

/// `{`.
pub const OPEN_BRACE: u8 = 123;

/// `}`.
pub const CLOSE_BRACE: u8 = 125;

/// A class of bytes that a run of input may be made of.
#[derive(Clone, Copy, PartialEq, Eq, Debug)]
pub enum Class {
    /// Space, tab, carriage return, line feed.
    Blank,
    /// ASCII letters and digits, and `/`.
    Path,
    /// Anything but carriage return and line feed.
    Line,
}

/// Space, tab, carriage return or line feed.
pub open spec fn is_blank(b: u8) -> bool {
    b == SPACE || b == TAB || b == CR || b == LF
}

/// An ASCII digit or letter.
pub open spec fn is_alphanumeric(b: u8) -> bool {
    (48 <= b && b <= 57) || (65 <= b && b <= 90) || (97 <= b && b <= 122)
}

/// The bytes that end a bare word.
pub open spec fn ends_word(b: u8) -> bool {
    is_blank(b) || b == SEMICOLON || b == QUOTE || b == BACKSLASH || b == OPEN_BRACE || b
        == CLOSE_PAREN
}

/// `b` is a byte of `class`.
pub open spec fn in_class(b: u8, class: Class) -> bool {
    match class {
        Class::Blank => is_blank(b),
        Class::Path => is_alphanumeric(b) || b == SLASH,
        Class::Line => b != CR && b != LF,
    }
}

/// The input from its byte `n` on; nothing where the input is shorter.
pub open spec fn tail(s: Seq<u8>, n: nat) -> Seq<u8> {
    if n <= s.len() {
        s.skip(n as int)
    } else {
        Seq::empty()
    }
}

/// How many bytes at the start of `s` are of `class`.
pub open spec fn span(s: Seq<u8>, class: Class) -> nat
    decreases s.len(),
{
    if s.len() > 0 && in_class(s[0], class) {
        1 + span(s.skip(1), class)
    } else {
        0
    }
}

/// How many blank bytes `s` starts with.
pub open spec fn blanks(s: Seq<u8>) -> nat {
    span(s, Class::Blank)
}

/// `s` starts with the bytes of `word`.
pub open spec fn starts_with(s: Seq<u8>, word: Seq<u8>) -> bool {
    s.len() >= word.len() && s.subrange(0, word.len() as int) == word
}

/// The text that a token's bytes stand for: none unless they are UTF-8.
pub open spec fn text_of(bytes: Seq<u8>) -> Option<Seq<char>> {
    if valid_utf8(bytes) {
        Some(decode_utf8(bytes))
    } else {
        None
    }
}

/// A result with `byte` before its bytes, `width` input bytes having been read for it.
pub open spec fn with_byte(byte: u8, width: nat, rest: Option<(Seq<u8>, nat)>) -> Option<
    (Seq<u8>, nat),
> {
    match rest {
        Some((bytes, n)) => Some((seq![byte] + bytes, width + n)),
        None => None,
    }
}

/// The bytes of a word read from the start of `s`, and how many input bytes they took.
/// The word ends before the first byte that is not part of one: a quote inside quotes; a
/// blank, `;`, `"`, `{` or `)` outside; or the end of the input. A backslash before a quote
/// stands for the quote, and both are taken; any other backslash stands for itself, and
/// what follows it is read as if no backslash came before. A backslash at the very end of
/// the input is an error.
pub open spec fn unescape(s: Seq<u8>, quoted: bool) -> Option<(Seq<u8>, nat)>
    decreases s.len(),
{
    if s.len() == 0 {
        Some((Seq::empty(), 0))
    } else if s[0] == BACKSLASH {
        if s.len() == 1 {
            None
        } else if s[1] == QUOTE {
            with_byte(QUOTE, 2, unescape(s.skip(2), quoted))
        } else {
            with_byte(BACKSLASH, 1, unescape(s.skip(1), quoted))
        }
    } else if (quoted && s[0] == QUOTE) || (!quoted && ends_word(s[0])) {
        Some((Seq::empty(), 0))
    } else {
        with_byte(s[0], 1, unescape(s.skip(1), quoted))
    }
}

/// A token: `bytes` as text, `n` input bytes having been read. None unless the bytes are
/// UTF-8.
pub open spec fn token(bytes: Seq<u8>, n: nat) -> Option<(Seq<char>, nat)> {
    match text_of(bytes) {
        Some(text) => Some((text, n)),
        None => None,
    }
}

/// The name of a program: one or more ASCII letters, digits and `/`.
pub open spec fn path(s: Seq<u8>) -> Option<(Seq<char>, nat)> {
    let n = span(s, Class::Path);
    if n == 0 {
        None
    } else {
        token(s.subrange(0, n as int), n)
    }
}

/// The text between quotes: everything up to the first quote that no backslash precedes,
/// or to the end of the input.
pub open spec fn escaped(s: Seq<u8>) -> Option<(Seq<char>, nat)> {
    match unescape(s, true) {
        Some((bytes, n)) => token(bytes, n),
        None => None,
    }
}

/// An argument without quotes. It cannot start with a byte that ends a word, other than a
/// backslash; at the end of the input it is the empty word.
pub open spec fn bare_word(s: Seq<u8>) -> Option<(Seq<char>, nat)> {
    if s.len() > 0 && s[0] != BACKSLASH && ends_word(s[0]) {
        None
    } else {
        match unescape(s, false) {
            Some((bytes, n)) => token(bytes, n),
            None => None,
        }
    }
}

/// An argument: text between two quotes, or a bare word.
pub open spec fn arg(s: Seq<u8>) -> Option<(Seq<char>, nat)> {
    if s.len() > 0 && s[0] == QUOTE {
        match escaped(s.skip(1)) {
            Some((text, n)) => if n + 1 < s.len() && s[(n + 1) as int] == QUOTE {
                Some((text, n + 2))
            } else {
                None
            },
            None => None,
        }
    } else {
        bare_word(s)
    }
}

/// The arguments of a command, each after at least one blank, and how many bytes they took.
/// The blanks after the last argument are not taken.
pub open spec fn args(s: Seq<u8>) -> (Seq<Seq<char>>, nat)
    decreases s.len(),
{
    let gap = blanks(s);
    if gap == 0 {
        (Seq::empty(), 0)
    } else {
        match arg(tail(s, gap)) {
            Some((text, n)) => if n > 0 {
                let more = args(tail(s, gap + n));
                (seq![text] + more.0, gap + n + more.1)
            } else {
                (Seq::empty(), 0)
            },
            None => (Seq::empty(), 0),
        }
    }
}

/// A command: a name with its arguments, or a command between `(` and `)`, with blanks
/// allowed inside the brackets.
#[verifier::opaque]
pub open spec fn command(s: Seq<u8>) -> Option<(Call, nat)>
    decreases s.len(),
{
    if s.len() > 0 && s[0] == OPEN_PAREN {
        let open = 1 + blanks(s.skip(1));
        match command(tail(s, open)) {
            Some((call, n)) => {
                let close = open + n + blanks(tail(s, open + n));
                if close < s.len() && s[close as int] == CLOSE_PAREN {
                    Some((call, close + 1))
                } else {
                    None
                }
            },
            None => None,
        }
    } else {
        match path(s) {
            Some((name, n)) => {
                let rest = args(tail(s, n));
                Some((Call { name, args: rest.0 }, n + rest.1))
            },
            None => None,
        }
    }
}

/// A command, then `;`, with blanks allowed between the two.
#[verifier::opaque]
pub open spec fn command_line(s: Seq<u8>) -> Option<(Call, nat)> {
    match command(s) {
        Some((call, n)) => {
            let end = n + blanks(tail(s, n));
            if end < s.len() && s[end as int] == SEMICOLON {
                Some((call, end + 1))
            } else {
                None
            }
        },
        None => None,
    }
}

/// A comment: `#`, then the text up to the end of the line or of the input. The line ends
/// with a line feed, or with a carriage return and a line feed, which are taken and are not
/// part of the text. A carriage return without a line feed after it is an error.
#[verifier::opaque]
pub open spec fn comment(s: Seq<u8>) -> Option<(Seq<char>, nat)> {
    if s.len() > 0 && s[0] == HASH {
        let n = span(s.skip(1), Class::Line);
        let end = 1 + n;
        let text = s.subrange(1, end as int);
        if end == s.len() {
            token(text, end)
        } else if s[end as int] == LF {
            token(text, end + 1)
        } else if end + 1 < s.len() && s[(end + 1) as int] == LF {
            token(text, end + 2)
        } else {
            None
        }
    } else {
        None
    }
}

/// The bytes of `if`.
pub open spec fn word_if() -> Seq<u8> {
    seq![105u8, 102u8]
}

/// The bytes of `else`.
pub open spec fn word_else() -> Seq<u8> {
    seq![101u8, 108u8, 115u8, 101u8]
}

/// The bytes of `while`.
pub open spec fn word_while() -> Seq<u8> {
    seq![119u8, 104u8, 105u8, 108u8, 101u8]
}

/// Statements, with blanks allowed before each, and how many bytes they took. The blanks
/// after the last statement are not taken.
pub open spec fn statements(s: Seq<u8>) -> (Seq<Node>, nat)
    decreases s.len(), 3nat,
{
    let gap = blanks(s);
    if s.len() == 0 {
        (Seq::empty(), 0)
    } else {
        match statement(tail(s, gap)) {
            Some((node, n)) => if n > 0 {
                let more = statements(tail(s, gap + n));
                (seq![node] + more.0, gap + n + more.1)
            } else {
                (Seq::empty(), 0)
            },
            None => (Seq::empty(), 0),
        }
    }
}

/// One statement: a block, a conditional, a loop, a comment or a command with its `;`, the
/// first in this order that the input starts with.
pub open spec fn statement(s: Seq<u8>) -> Option<(Node, nat)>
    decreases s.len(), 2nat,
{
    if block(s) is Some {
        block(s)
    } else if conditional(s) is Some {
        conditional(s)
    } else if while_loop(s) is Some {
        while_loop(s)
    } else {
        match comment(s) {
            Some((text, n)) => Some((Node::Comment(text), n)),
            None => match command_line(s) {
                Some((call, n)) => Some((Node::Command(call), n)),
                None => None,
            },
        }
    }
}

/// A block: `{`, statements, `}`, with blanks allowed before the `}`.
pub open spec fn block(s: Seq<u8>) -> Option<(Node, nat)>
    decreases s.len(), 1nat,
{
    if s.len() > 0 && s[0] == OPEN_BRACE {
        let body = statements(tail(s, 1));
        let close = 1 + body.1 + blanks(tail(s, 1 + body.1));
        if close < s.len() && s[close as int] == CLOSE_BRACE {
            Some((Node::Block(body.0), close + 1))
        } else {
            None
        }
    } else {
        None
    }
}

/// What follows `if` or `while`, a keyword of `word` bytes: at least one blank, a command,
/// and a statement, with blanks allowed before the statement.
pub open spec fn guarded(s: Seq<u8>, word: nat) -> Option<(Call, Node, nat)>
    decreases s.len(), 0nat,
{
    let gap = blanks(tail(s, word));
    if s.len() == 0 || word == 0 || gap == 0 {
        None
    } else {
        match command(tail(s, word + gap)) {
            Some((call, n)) => {
                let at = word + gap + n + blanks(tail(s, word + gap + n));
                match statement(tail(s, at)) {
                    Some((node, m)) => Some((call, node, at + m)),
                    None => None,
                }
            },
            None => None,
        }
    }
}

/// What may follow the first branch of a conditional: `else` and a statement, with blanks
/// allowed around `else`.
pub open spec fn otherwise(s: Seq<u8>) -> Option<(Node, nat)>
    decreases s.len(), 0nat,
{
    let at = blanks(s);
    if s.len() > 0 && starts_with(tail(s, at), word_else()) {
        let from = at + 4 + blanks(tail(s, at + 4));
        match statement(tail(s, from)) {
            Some((other, m)) => Some((other, from + m)),
            None => None,
        }
    } else {
        None
    }
}

/// A conditional: `if`, a command and a statement and, where `else` and a statement follow,
/// those too.
pub open spec fn conditional(s: Seq<u8>) -> Option<(Node, nat)>
    decreases s.len(), 1nat,
{
    if starts_with(s, word_if()) {
        match guarded(s, 2) {
            Some((call, then, n)) => match otherwise(tail(s, n)) {
                Some((other, m)) => Some(
                    (Node::If(call, Box::new(then), Some(Box::new(other))), n + m),
                ),
                None => Some((Node::If(call, Box::new(then), None), n)),
            },
            None => None,
        }
    } else {
        None
    }
}

/// A loop: `while`, a command and a statement.
pub open spec fn while_loop(s: Seq<u8>) -> Option<(Node, nat)>
    decreases s.len(), 1nat,
{
    if starts_with(s, word_while()) {
        match guarded(s, 5) {
            Some((call, body, n)) => Some((Node::While(call, Box::new(body)), n)),
            None => None,
        }
    } else {
        None
    }
}

/// Statements and the blanks after them, and how many bytes both took.
pub open spec fn tree(s: Seq<u8>) -> (Seq<Node>, nat) {
    let all = statements(s);
    (all.0, all.1 + blanks(tail(s, all.1)))
}

/// A script: statements up to the end of the input, with blanks allowed before, between
/// and after them. None where anything else is in the input.
pub open spec fn script(s: Seq<u8>) -> Option<Seq<Node>> {
    if tree(s).1 == s.len() {
        Some(tree(s).0)
    } else {
        None
    }
}

} // verus!
