use crate::grammar;
use crate::grammar::{
    ends_word, in_class, is_blank, span, tail, unescape, Class, BACKSLASH, CLOSE_PAREN, CR, HASH,
    LF, OPEN_BRACE, QUOTE, SEMICOLON, SLASH, SPACE, TAB,
};
use crate::text::text;
use vstd::prelude::*;
use vstd::slice::{slice_subrange, slice_to_vec};

verus! {

/// The input that is left at `from + k` is what is left, after `k` bytes, of the input
/// left at `from`.
pub(crate) proof fn lemma_tail_skip(s: Seq<u8>, from: int, k: nat)
    requires
        0 <= from,
        from + k <= s.len(),
    ensures
        tail(s.skip(from), k) == s.skip(from + k),
        s.skip(from).len() == s.len() - from,
{
    assert(s.skip(from).skip(k as int) =~= s.skip(from + k));
}

/// Space, tab, carriage return or line feed.
pub fn blank(b: u8) -> (r: bool)
    ensures
        r == is_blank(b),
{
    b == SPACE || b == TAB || b == CR || b == LF
}

/// Whether `b` is a byte of `class`.
pub fn of_class(b: u8, class: Class) -> (r: bool)
    ensures
        r == in_class(b, class),
{
    match class {
        Class::Blank => blank(b),
        Class::Path => (48 <= b && b <= 57) || (65 <= b && b <= 90) || (97 <= b && b <= 122) || b
            == SLASH,
        Class::Line => b != CR && b != LF,
    }
}

/// Whether `b` ends a bare word.
pub fn word_end(b: u8) -> (r: bool)
    ensures
        r == ends_word(b),
{
    blank(b) || b == SEMICOLON || b == QUOTE || b == BACKSLASH || b == OPEN_BRACE || b
        == CLOSE_PAREN
}

/// The end of the run of `class` bytes that starts at `from`.
pub(crate) fn span_at(data: &[u8], from: usize, class: Class) -> (end: usize)
    requires
        from <= data@.len(),
    ensures
        end == from + span(data@.skip(from as int), class),
        end <= data@.len(),
{
    let mut at: usize = from;
    while at < data.len() && of_class(data[at], class)
        invariant
            from <= at <= data@.len(),
            span(data@.skip(from as int), class) == (at - from) + span(
                data@.skip(at as int),
                class,
            ),
        decreases data@.len() - at,
    {
        proof {
            assert(data@.skip(at as int).skip(1) =~= data@.skip(at + 1));
        }
        at += 1;
    }
    at
}

/// Reads the bytes of a word from `from` on, with the escapes undone, and says where it ends.
pub(crate) fn unescape_at(data: &[u8], from: usize, quoted: bool) -> (r: Option<(Vec<u8>, usize)>)
    requires
        from <= data@.len(),
    ensures
        match unescape(data@.skip(from as int), quoted) {
            Some((bytes, n)) => r matches Some((word, end)) && word@ == bytes && end == from + n
                && end <= data@.len(),
            None => r is None,
        },
{
    let mut word: Vec<u8> = Vec::new();
    let mut at: usize = from;
    while at < data.len()
        invariant
            from <= at <= data@.len(),
            unescape(data@.skip(from as int), quoted) == match unescape(
                data@.skip(at as int),
                quoted,
            ) {
                Some((bytes, n)) => Some((word@ + bytes, ((at - from) + n) as nat)),
                None => None,
            },
        decreases data@.len() - at,
    {
        let ghost here = data@.skip(at as int);
        let ghost before = word@;
        proof {
            assert(here.skip(1) =~= data@.skip(at + 1));
            if at + 2 <= data@.len() {
                assert(here.skip(2) =~= data@.skip(at + 2));
            }
        }
        let b = data[at];
        if b == BACKSLASH {
            if at + 1 >= data.len() {
                return None;
            }
            if data[at + 1] == QUOTE {
                word.push(QUOTE);
                at += 2;
                proof {
                    match unescape(data@.skip(at as int), quoted) {
                        Some((bytes, n)) => {
                            assert(before + (seq![QUOTE] + bytes) =~= word@ + bytes);
                        },
                        None => {},
                    }
                }
            } else {
                word.push(BACKSLASH);
                at += 1;
                proof {
                    match unescape(data@.skip(at as int), quoted) {
                        Some((bytes, n)) => {
                            assert(before + (seq![BACKSLASH] + bytes) =~= word@ + bytes);
                        },
                        None => {},
                    }
                }
            }
        } else if (quoted && b == QUOTE) || (!quoted && word_end(b)) {
            proof {
                assert(before + Seq::<u8>::empty() =~= before);
            }
            return Some((word, at));
        } else {
            word.push(b);
            at += 1;
            proof {
                match unescape(data@.skip(at as int), quoted) {
                    Some((bytes, n)) => {
                        assert(before + (seq![b] + bytes) =~= word@ + bytes);
                    },
                    None => {},
                }
            }
        }
    }
    proof {
        assert(word@ + Seq::<u8>::empty() =~= word@);
    }
    Some((word, at))
}

/// Reads the name of a program at `from`.
pub(crate) fn path_at(data: &[u8], from: usize) -> (r: Option<(String, usize)>)
    requires
        from <= data@.len(),
    ensures
        match grammar::path(data@.skip(from as int)) {
            Some((name, n)) => r matches Some((x, end)) && x@ == name && end == from + n && end
                <= data@.len(),
            None => r is None,
        },
{
    let end = span_at(data, from, Class::Path);
    if end == from {
        return None;
    }
    proof {
        assert(data@.skip(from as int).subrange(0, end - from) =~= data@.subrange(
            from as int,
            end as int,
        ));
    }
    match text(slice_to_vec(slice_subrange(data, from, end))) {
        Some(name) => Some((name, end)),
        None => None,
    }
}

/// Reads the text between quotes, `from` being the place after the opening quote.
pub(crate) fn escaped_at(data: &[u8], from: usize) -> (r: Option<(String, usize)>)
    requires
        from <= data@.len(),
    ensures
        match grammar::escaped(data@.skip(from as int)) {
            Some((word, n)) => r matches Some((x, end)) && x@ == word && end == from + n && end
                <= data@.len(),
            None => r is None,
        },
{
    match unescape_at(data, from, true) {
        Some((bytes, end)) => match text(bytes) {
            Some(word) => Some((word, end)),
            None => None,
        },
        None => None,
    }
}

/// Reads a bare word at `from`.
pub(crate) fn bare_word_at(data: &[u8], from: usize) -> (r: Option<(String, usize)>)
    requires
        from <= data@.len(),
    ensures
        match grammar::bare_word(data@.skip(from as int)) {
            Some((word, n)) => r matches Some((x, end)) && x@ == word && end == from + n && end
                <= data@.len(),
            None => r is None,
        },
{
    if from < data.len() && data[from] != BACKSLASH && word_end(data[from]) {
        return None;
    }
    match unescape_at(data, from, false) {
        Some((bytes, end)) => match text(bytes) {
            Some(word) => Some((word, end)),
            None => None,
        },
        None => None,
    }
}

/// Reads an argument at `from`: text between quotes, or a bare word.
pub(crate) fn arg_at(data: &[u8], from: usize) -> (r: Option<(String, usize)>)
    requires
        from <= data@.len(),
    ensures
        match grammar::arg(data@.skip(from as int)) {
            Some((word, n)) => r matches Some((x, end)) && x@ == word && end == from + n && end
                <= data@.len(),
            None => r is None,
        },
{
    if from < data.len() && data[from] == QUOTE {
        proof {
            assert(data@.skip(from as int).skip(1) =~= data@.skip(from + 1));
        }
        match escaped_at(data, from + 1) {
            Some((word, end)) => {
                if end < data.len() && data[end] == QUOTE {
                    Some((word, end + 1))
                } else {
                    None
                }
            },
            None => None,
        }
    } else {
        bare_word_at(data, from)
    }
}

/// Reads a comment at `from`.
pub(crate) fn comment_at(data: &[u8], from: usize) -> (r: Option<(String, usize)>)
    requires
        from <= data@.len(),
    ensures
        match grammar::comment(data@.skip(from as int)) {
            Some((words, n)) => r matches Some((x, end)) && x@ == words && end == from + n
                && end <= data@.len(),
            None => r is None,
        },
{
    proof {
        reveal(grammar::comment);
    }
    if from >= data.len() || data[from] != HASH {
        return None;
    }
    proof {
        assert(data@.skip(from as int).skip(1) =~= data@.skip(from + 1));
    }
    let end = span_at(data, from + 1, Class::Line);
    proof {
        assert(data@.skip(from as int).subrange(1, end - from) =~= data@.subrange(
            from + 1,
            end as int,
        ));
    }
    let after = if end == data.len() {
        end
    } else if data[end] == LF {
        end + 1
    } else if end + 1 < data.len() && data[end + 1] == LF {
        end + 2
    } else {
        return None;
    };
    match text(slice_to_vec(slice_subrange(data, from + 1, end))) {
        Some(words) => Some((words, after)),
        None => None,
    }
}

} // verus!
