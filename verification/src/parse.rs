use crate::ast::{nodes, texts, Block, Command, Conditional, Node, While, AST};
use crate::grammar;
use crate::grammar::{
    blanks, starts_with, word_else, word_if, word_while, Class, CLOSE_BRACE, CLOSE_PAREN,
    OPEN_BRACE, OPEN_PAREN, SEMICOLON,
};
use crate::lex::{arg_at, comment_at, escaped_at, lemma_tail_skip, path_at, span_at};
use vstd::prelude::*;
use vstd::slice::slice_subrange;

verus! {

/// The texts of a list of strings with one more are the texts of the list and the text of
/// that one.
proof fn lemma_texts_push(v: Seq<String>, word: String)
    ensures
        texts(v.push(word)) == texts(v).push(word@),
{
    assert(texts(v.push(word)) =~= texts(v).push(word@));
}

/// The trees of a list of statements with one more are the trees of the list and the tree
/// of that one.
proof fn lemma_nodes_push(v: Seq<AST>, statement: AST)
    ensures
        nodes(v.push(statement)) == nodes(v).push(statement@),
{
    assert(nodes(v.push(statement)) =~= nodes(v).push(statement@));
}

/// Reads the arguments of a command from `from` on, and says where the last one ends.
pub(crate) fn args_at(data: &[u8], from: usize) -> (r: (Vec<String>, usize))
    requires
        from <= data@.len(),
    ensures
        texts(r.0@) == grammar::args(data@.skip(from as int)).0,
        r.1 == from + grammar::args(data@.skip(from as int)).1,
        r.1 <= data@.len(),
{
    let mut out: Vec<String> = Vec::new();
    let mut at: usize = from;
    proof {
        assert(texts(out@) + grammar::args(data@.skip(at as int)).0 =~= grammar::args(
            data@.skip(at as int),
        ).0);
    }
    loop
        invariant
            from <= at <= data@.len(),
            grammar::args(data@.skip(from as int)).0 == texts(out@) + grammar::args(
                data@.skip(at as int),
            ).0,
            grammar::args(data@.skip(from as int)).1 == (at - from) + grammar::args(
                data@.skip(at as int),
            ).1,
        decreases data@.len() - at,
    {
        let ghost here = data@.skip(at as int);
        let start = span_at(data, at, Class::Blank);
        proof {
            lemma_tail_skip(data@, at as int, (start - at) as nat);
            assert(texts(out@) + Seq::<Seq<char>>::empty() =~= texts(out@));
        }
        if start == at {
            return (out, at);
        }
        match arg_at(data, start) {
            Some((word, end)) => {
                if end == start {
                    return (out, at);
                }
                proof {
                    lemma_tail_skip(data@, at as int, (end - at) as nat);
                    lemma_texts_push(out@, word);
                    let more = grammar::args(data@.skip(end as int));
                    assert(texts(out@) + (seq![word@] + more.0) =~= texts(out@).push(word@)
                        + more.0);
                }
                out.push(word);
                at = end;
            },
            None => {
                return (out, at);
            },
        }
    }
}

/// Reads a command at `from`.
pub(crate) fn command_at(data: &[u8], from: usize) -> (r: Option<(Command, usize)>)
    requires
        from <= data@.len(),
    ensures
        match grammar::command(data@.skip(from as int)) {
            Some((call, n)) => r matches Some((c, end)) && c@ == call && end == from + n && end
                <= data@.len(),
            None => r is None,
        },
    decreases data@.len() - from,
{
    proof {
        reveal_with_fuel(grammar::command, 1);
    }
    if from < data.len() && data[from] == OPEN_PAREN {
        proof {
            assert(data@.skip(from as int).skip(1) =~= data@.skip(from + 1));
        }
        let inner = span_at(data, from + 1, Class::Blank);
        proof {
            lemma_tail_skip(data@, from as int, (inner - from) as nat);
        }
        match command_at(data, inner) {
            Some((command, end)) => {
                proof {
                    lemma_tail_skip(data@, from as int, (end - from) as nat);
                }
                let close = span_at(data, end, Class::Blank);
                if close < data.len() && data[close] == CLOSE_PAREN {
                    Some((command, close + 1))
                } else {
                    None
                }
            },
            None => None,
        }
    } else {
        match path_at(data, from) {
            Some((name, end)) => {
                proof {
                    lemma_tail_skip(data@, from as int, (end - from) as nat);
                }
                let (args, last) = args_at(data, end);
                Some((Command { command: name, args }, last))
            },
            None => None,
        }
    }
}

/// Reads a command and its `;` at `from`.
pub(crate) fn command_line_at(data: &[u8], from: usize) -> (r: Option<(Command, usize)>)
    requires
        from <= data@.len(),
    ensures
        match grammar::command_line(data@.skip(from as int)) {
            Some((call, n)) => r matches Some((c, end)) && c@ == call && end == from + n && end
                <= data@.len(),
            None => r is None,
        },
{
    proof {
        reveal(grammar::command_line);
    }
    match command_at(data, from) {
        Some((command, end)) => {
            proof {
                lemma_tail_skip(data@, from as int, (end - from) as nat);
            }
            let last = span_at(data, end, Class::Blank);
            if last < data.len() && data[last] == SEMICOLON {
                Some((command, last + 1))
            } else {
                None
            }
        },
        None => None,
    }
}

/// Whether `if` stands at `from`.
pub(crate) fn if_at(data: &[u8], from: usize) -> (r: bool)
    requires
        from <= data@.len(),
    ensures
        r == starts_with(data@.skip(from as int), word_if()),
{
    let r = data.len() - from >= 2 && data[from] == 105 && data[from + 1] == 102;
    proof {
        let s = data@.skip(from as int);
        if s.len() >= 2 {
            let head = s.subrange(0, 2);
            assert(head[0] == s[0] && head[1] == s[1]);
            if r {
                assert(head =~= word_if());
            } else {
                assert(word_if()[0] == 105 && word_if()[1] == 102);
            }
        }
    }
    r
}

/// Whether `else` stands at `from`.
pub(crate) fn else_at(data: &[u8], from: usize) -> (r: bool)
    requires
        from <= data@.len(),
    ensures
        r == starts_with(data@.skip(from as int), word_else()),
{
    let r = data.len() - from >= 4 && data[from] == 101 && data[from + 1] == 108 && data[from
        + 2] == 115 && data[from + 3] == 101;
    proof {
        let s = data@.skip(from as int);
        if s.len() >= 4 {
            let head = s.subrange(0, 4);
            assert(head[0] == s[0] && head[1] == s[1] && head[2] == s[2] && head[3] == s[3]);
            if r {
                assert(head =~= word_else());
            } else {
                assert(word_else()[0] == 101 && word_else()[1] == 108 && word_else()[2] == 115
                    && word_else()[3] == 101);
            }
        }
    }
    r
}

/// Whether `while` stands at `from`.
pub(crate) fn while_at(data: &[u8], from: usize) -> (r: bool)
    requires
        from <= data@.len(),
    ensures
        r == starts_with(data@.skip(from as int), word_while()),
{
    let r = data.len() - from >= 5 && data[from] == 119 && data[from + 1] == 104 && data[from
        + 2] == 105 && data[from + 3] == 108 && data[from + 4] == 101;
    proof {
        let s = data@.skip(from as int);
        if s.len() >= 5 {
            let head = s.subrange(0, 5);
            assert(head[0] == s[0] && head[1] == s[1] && head[2] == s[2] && head[3] == s[3]
                && head[4] == s[4]);
            if r {
                assert(head =~= word_while());
            } else {
                assert(word_while()[0] == 119 && word_while()[1] == 104 && word_while()[2]
                    == 105 && word_while()[3] == 108 && word_while()[4] == 101);
            }
        }
    }
    r
}

/// Reads statements from `from` on, and says where the last one ends.
pub(crate) fn statements_at(data: &[u8], from: usize) -> (r: (Vec<AST>, usize))
    requires
        from <= data@.len(),
    ensures
        nodes(r.0@) == grammar::statements(data@.skip(from as int)).0,
        r.1 == from + grammar::statements(data@.skip(from as int)).1,
        r.1 <= data@.len(),
    decreases data@.len() - from, 3nat,
{
    let mut out: Vec<AST> = Vec::new();
    let mut at: usize = from;
    proof {
        assert(nodes(out@) + grammar::statements(data@.skip(at as int)).0
            =~= grammar::statements(data@.skip(at as int)).0);
    }
    loop
        invariant
            from <= at <= data@.len(),
            grammar::statements(data@.skip(from as int)).0 == nodes(out@) + grammar::statements(
                data@.skip(at as int),
            ).0,
            grammar::statements(data@.skip(from as int)).1 == (at - from) + grammar::statements(
                data@.skip(at as int),
            ).1,
        decreases data@.len() - at,
    {
        proof {
            assert(nodes(out@) + Seq::<Node>::empty() =~= nodes(out@));
        }
        if at >= data.len() {
            return (out, at);
        }
        let start = span_at(data, at, Class::Blank);
        proof {
            lemma_tail_skip(data@, at as int, (start - at) as nat);
        }
        match statement_at(data, start) {
            Some((statement, end)) => {
                if end == start {
                    return (out, at);
                }
                proof {
                    lemma_tail_skip(data@, at as int, (end - at) as nat);
                    lemma_nodes_push(out@, statement);
                    let more = grammar::statements(data@.skip(end as int));
                    assert(nodes(out@) + (seq![statement@] + more.0) =~= nodes(out@).push(
                        statement@,
                    ) + more.0);
                }
                out.push(statement);
                at = end;
            },
            None => {
                return (out, at);
            },
        }
    }
}

/// Reads one statement at `from`.
pub(crate) fn statement_at(data: &[u8], from: usize) -> (r: Option<(AST, usize)>)
    requires
        from <= data@.len(),
    ensures
        match grammar::statement(data@.skip(from as int)) {
            Some((node, n)) => r matches Some((a, end)) && a@ == node && end == from + n && end
                <= data@.len(),
            None => r is None,
        },
    decreases data@.len() - from, 2nat,
{
    if let Some((block, end)) = block_at(data, from) {
        return Some((AST::Block(block), end));
    }
    if let Some((conditional, end)) = conditional_at(data, from) {
        return Some((AST::If(conditional), end));
    }
    if let Some((repeat, end)) = while_loop_at(data, from) {
        return Some((AST::While(repeat), end));
    }
    if let Some((words, end)) = comment_at(data, from) {
        return Some((AST::Comment(words), end));
    }
    match command_line_at(data, from) {
        Some((command, end)) => Some((AST::Command(command), end)),
        None => None,
    }
}

/// Reads a block at `from`.
pub(crate) fn block_at(data: &[u8], from: usize) -> (r: Option<(Block, usize)>)
    requires
        from <= data@.len(),
    ensures
        match grammar::block(data@.skip(from as int)) {
            Some((node, n)) => r matches Some((b, end)) && b@ == node && end == from + n && end
                <= data@.len(),
            None => r is None,
        },
    decreases data@.len() - from, 1nat,
{
    if from >= data.len() || data[from] != OPEN_BRACE {
        return None;
    }
    proof {
        lemma_tail_skip(data@, from as int, 1);
    }
    let (body, end) = statements_at(data, from + 1);
    proof {
        lemma_tail_skip(data@, from as int, (end - from) as nat);
    }
    let close = span_at(data, end, Class::Blank);
    if close < data.len() && data[close] == CLOSE_BRACE {
        Some((Block(body), close + 1))
    } else {
        None
    }
}

/// Reads what follows a keyword of `word` bytes at `from`: blanks, a command and a
/// statement.
pub(crate) fn guarded_at(data: &[u8], from: usize, word: usize) -> (r: Option<(Command, AST, usize)>)
    requires
        0 < word,
        from + word <= data@.len(),
    ensures
        match grammar::guarded(data@.skip(from as int), word as nat) {
            Some((call, node, n)) => r matches Some((c, a, end)) && c@ == call && a@ == node
                && end == from + n && end <= data@.len(),
            None => r is None,
        },
    decreases data@.len() - from, 0nat,
{
    let _ = data.len();
    proof {
        lemma_tail_skip(data@, from as int, word as nat);
    }
    let start = span_at(data, from + word, Class::Blank);
    if start == from + word {
        return None;
    }
    proof {
        lemma_tail_skip(data@, from as int, (start - from) as nat);
    }
    match command_at(data, start) {
        Some((command, end)) => {
            proof {
                lemma_tail_skip(data@, from as int, (end - from) as nat);
            }
            let next = span_at(data, end, Class::Blank);
            proof {
                lemma_tail_skip(data@, from as int, (next - from) as nat);
            }
            match statement_at(data, next) {
                Some((statement, last)) => Some((command, statement, last)),
                None => None,
            }
        },
        None => None,
    }
}

/// Reads `else` and the statement after it at `from`, if they are there.
pub(crate) fn els_at(data: &[u8], from: usize) -> (r: Option<(AST, usize)>)
    requires
        from <= data@.len(),
    ensures
        match grammar::otherwise(data@.skip(from as int)) {
            Some((node, n)) => r matches Some((a, end)) && a@ == node && end == from + n && end
                <= data@.len(),
            None => r is None,
        },
    decreases data@.len() - from, 0nat,
{
    let at = span_at(data, from, Class::Blank);
    proof {
        lemma_tail_skip(data@, from as int, (at - from) as nat);
    }
    if !else_at(data, at) {
        return None;
    }
    let _ = data.len();
    proof {
        lemma_tail_skip(data@, from as int, (at + 4 - from) as nat);
    }
    let start = span_at(data, at + 4, Class::Blank);
    proof {
        lemma_tail_skip(data@, from as int, (start - from) as nat);
    }
    statement_at(data, start)
}

/// Reads a conditional at `from`.
pub(crate) fn conditional_at(data: &[u8], from: usize) -> (r: Option<(Conditional, usize)>)
    requires
        from <= data@.len(),
    ensures
        match grammar::conditional(data@.skip(from as int)) {
            Some((node, n)) => r matches Some((c, end)) && c@ == node && end == from + n && end
                <= data@.len(),
            None => r is None,
        },
    decreases data@.len() - from, 1nat,
{
    if !if_at(data, from) {
        return None;
    }
    match guarded_at(data, from, 2) {
        Some((predicate, then, end)) => {
            proof {
                lemma_tail_skip(data@, from as int, (end - from) as nat);
            }
            match els_at(data, end) {
                Some((other, last)) => Some(
                    (Conditional::new(predicate, then, Some(other)), last),
                ),
                None => Some((Conditional::new(predicate, then, None), end)),
            }
        },
        None => None,
    }
}

/// Reads a loop at `from`.
pub(crate) fn while_loop_at(data: &[u8], from: usize) -> (r: Option<(While, usize)>)
    requires
        from <= data@.len(),
    ensures
        match grammar::while_loop(data@.skip(from as int)) {
            Some((node, n)) => r matches Some((w, end)) && w@ == node && end == from + n && end
                <= data@.len(),
            None => r is None,
        },
    decreases data@.len() - from, 1nat,
{
    if !while_at(data, from) {
        return None;
    }
    match guarded_at(data, from, 5) {
        Some((predicate, body, end)) => Some((While::new(predicate, body), end)),
        None => None,
    }
}

/// What a parser made of the start of its input: a value and the input that is left, or
/// nothing.
#[derive(Debug, PartialEq, Eq)]
pub enum Parsed<'a, T> {
    Done(&'a [u8], T),
    Error,
}

impl<'a, T> Parsed<'a, T> {
    /// Whether the parser found what it reads.
    pub fn is_done(&self) -> (r: bool)
        ensures
            r == (self is Done),
    {
        match self {
            Parsed::Done(_, _) => true,
            Parsed::Error => false,
        }
    }

    /// Whether the parser found nothing.
    pub fn is_err(&self) -> (r: bool)
        ensures
            r == (self is Error),
    {
        match self {
            Parsed::Done(_, _) => false,
            Parsed::Error => true,
        }
    }
}

impl<'a, T: View> Parsed<'a, T> {
    /// This is what reading `input` gives where the grammar gives `expected`: the value
    /// and, after the bytes that were read, the rest of the input; or nothing.
    pub open spec fn reads(self, input: Seq<u8>, expected: Option<(T::V, nat)>) -> bool {
        match expected {
            Some((value, n)) => self matches Parsed::Done(rest, x) && x@ == value && n
                <= input.len() && rest@ == input.skip(n as int),
            None => self is Error,
        }
    }
}

/// The script could not be read as a whole. Nothing says where or why.
#[derive(Debug, PartialEq, Eq, Clone, Copy)]
pub struct ParseError;

/// The text between quotes at the start of `input`, up to the closing quote, which is left
/// in the input.
pub fn escaped<'a>(input: &'a [u8]) -> (r: Parsed<'a, String>)
    ensures
        r.reads(input@, grammar::escaped(input@)),
{
    proof {
        assert(input@.skip(0) =~= input@);
    }
    match escaped_at(input, 0) {
        Some((word, end)) => Parsed::Done(slice_subrange(input, end, input.len()), word),
        None => Parsed::Error,
    }
}

/// The argument at the start of `input`.
pub fn arg<'a>(input: &'a [u8]) -> (r: Parsed<'a, String>)
    ensures
        r.reads(input@, grammar::arg(input@)),
{
    proof {
        assert(input@.skip(0) =~= input@);
    }
    match arg_at(input, 0) {
        Some((word, end)) => Parsed::Done(slice_subrange(input, end, input.len()), word),
        None => Parsed::Error,
    }
}

/// The comment at the start of `input`.
pub fn comment<'a>(input: &'a [u8]) -> (r: Parsed<'a, String>)
    ensures
        r.reads(input@, grammar::comment(input@)),
{
    proof {
        assert(input@.skip(0) =~= input@);
    }
    match comment_at(input, 0) {
        Some((words, end)) => Parsed::Done(slice_subrange(input, end, input.len()), words),
        None => Parsed::Error,
    }
}

/// The command at the start of `input`.
pub fn command<'a>(input: &'a [u8]) -> (r: Parsed<'a, Command>)
    ensures
        r.reads(input@, grammar::command(input@)),
{
    proof {
        assert(input@.skip(0) =~= input@);
    }
    match command_at(input, 0) {
        Some((command, end)) => Parsed::Done(slice_subrange(input, end, input.len()), command),
        None => Parsed::Error,
    }
}

/// The command at the start of `input`, with its `;`.
pub fn command_line<'a>(input: &'a [u8]) -> (r: Parsed<'a, Command>)
    ensures
        r.reads(input@, grammar::command_line(input@)),
{
    proof {
        assert(input@.skip(0) =~= input@);
    }
    match command_line_at(input, 0) {
        Some((command, end)) => Parsed::Done(slice_subrange(input, end, input.len()), command),
        None => Parsed::Error,
    }
}

/// The block at the start of `input`.
pub fn block<'a>(input: &'a [u8]) -> (r: Parsed<'a, Block>)
    ensures
        r.reads(input@, grammar::block(input@)),
{
    proof {
        assert(input@.skip(0) =~= input@);
    }
    match block_at(input, 0) {
        Some((block, end)) => Parsed::Done(slice_subrange(input, end, input.len()), block),
        None => Parsed::Error,
    }
}

/// The conditional at the start of `input`.
pub fn if_stmt<'a>(input: &'a [u8]) -> (r: Parsed<'a, Conditional>)
    ensures
        r.reads(input@, grammar::conditional(input@)),
{
    proof {
        assert(input@.skip(0) =~= input@);
    }
    match conditional_at(input, 0) {
        Some((conditional, end)) => Parsed::Done(
            slice_subrange(input, end, input.len()),
            conditional,
        ),
        None => Parsed::Error,
    }
}

/// The loop at the start of `input`.
pub fn while_stmt<'a>(input: &'a [u8]) -> (r: Parsed<'a, While>)
    ensures
        r.reads(input@, grammar::while_loop(input@)),
{
    proof {
        assert(input@.skip(0) =~= input@);
    }
    match while_loop_at(input, 0) {
        Some((repeat, end)) => Parsed::Done(slice_subrange(input, end, input.len()), repeat),
        None => Parsed::Error,
    }
}

/// The statement at the start of `input`.
pub fn ast<'a>(input: &'a [u8]) -> (r: Parsed<'a, AST>)
    ensures
        r.reads(input@, grammar::statement(input@)),
{
    proof {
        assert(input@.skip(0) =~= input@);
    }
    match statement_at(input, 0) {
        Some((statement, end)) => Parsed::Done(
            slice_subrange(input, end, input.len()),
            statement,
        ),
        None => Parsed::Error,
    }
}

/// The statements at the start of `input`, with the blanks around them. There may be none:
/// this never fails.
pub fn parse_tree<'a>(input: &'a [u8]) -> (r: Parsed<'a, Vec<AST>>)
    ensures
        r matches Parsed::Done(rest, statements) && nodes(statements@) == grammar::tree(
            input@,
        ).0 && grammar::tree(input@).1 <= input@.len() && rest@ == input@.skip(
            grammar::tree(input@).1 as int,
        ),
{
    proof {
        assert(input@.skip(0) =~= input@);
    }
    let (statements, end) = statements_at(input, 0);
    proof {
        lemma_tail_skip(input@, 0, end as nat);
    }
    let last = span_at(input, end, Class::Blank);
    Parsed::Done(slice_subrange(input, last, input.len()), statements)
}

/// Reads a whole script: its statements, in order, or an error where the input is not a
/// script from its first byte to its last.
pub fn script(input: &[u8]) -> (r: Result<Vec<AST>, ParseError>)
    ensures
        match grammar::script(input@) {
            Some(tree) => r matches Ok(statements) && nodes(statements@) == tree,
            None => r is Err,
        },
{
    proof {
        assert(input@.skip(0) =~= input@);
    }
    let (statements, end) = statements_at(input, 0);
    proof {
        lemma_tail_skip(input@, 0, end as nat);
    }
    let last = span_at(input, end, Class::Blank);
    if last == input.len() {
        Ok(statements)
    } else {
        Err(ParseError)
    }
}

/// Input that can be read as a script.
pub trait Parse: Sized {
    /// The bytes of the input.
    spec fn bytes(&self) -> Seq<u8>;

    /// Reads the input as a script: all of it, or nothing.
    fn parse(self) -> (r: Result<Vec<AST>, ParseError>)
        ensures
            match grammar::script(self.bytes()) {
                Some(tree) => r matches Ok(statements) && nodes(statements@) == tree,
                None => r is Err,
            },
    ;
}

impl Parse for Vec<u8> {
    open spec fn bytes(&self) -> Seq<u8> {
        self@
    }

    fn parse(self) -> (r: Result<Vec<AST>, ParseError>) {
        script(self.as_slice())
    }
}

} // verus!
