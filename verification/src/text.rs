use crate::grammar::text_of;
use vstd::prelude::*;
use vstd::utf8::{
    char_is_scalar, decode_utf8, encode_scalar, encode_utf8, encode_utf8_decode_utf8,
    encode_utf8_valid_utf8, has_width_1_encoding, is_ascii_chars, is_ascii_chars_encode_utf8,
    valid_utf8,
};

verus! {

/// Turns the bytes of a token into text, through `String::from_utf8` of the standard
/// library. Believed, not proved: the call succeeds exactly on bytes that are UTF-8, and the
/// string it gives then holds the characters that those bytes encode.
#[verifier::external_body]
pub(crate) fn decode(bytes: Vec<u8>) -> (text: Option<String>)
    ensures
        text is Some <==> valid_utf8(bytes@),
        text matches Some(t) ==> t@ == decode_utf8(bytes@),
{
    match String::from_utf8(bytes) {
        Ok(text) => Some(text),
        Err(_) => None,
    }
}

/// The text of a token, if its bytes are UTF-8.
pub fn text(bytes: Vec<u8>) -> (text: Option<String>)
    ensures
        match text_of(bytes@) {
            Some(t) => text matches Some(x) && x@ == t,
            None => text is None,
        },
{
    decode(bytes)
}

/// The characters that ASCII bytes stand for, one for one.
pub open spec fn ascii(bytes: Seq<u8>) -> Seq<char> {
    Seq::new(bytes.len(), |i: int| bytes[i] as char)
}

/// Bytes below 128 are text, and each is the character of its own number.
pub proof fn lemma_ascii_is_text(bytes: Seq<u8>)
    requires
        forall|i: int| 0 <= i < bytes.len() ==> (#[trigger] bytes[i]) < 128,
    ensures
        text_of(bytes) == Some(ascii(bytes)),
{
    let chars = ascii(bytes);
    assert(is_ascii_chars(chars)) by {
        assert forall|i: int| 0 <= i < chars.len() implies '\0' <= #[trigger] chars[i]
            <= '\u{7f}' by {
            assert(bytes[i] < 128);
        }
    }
    is_ascii_chars_encode_utf8(chars);
    assert(encode_utf8(chars) =~= bytes) by {
        assert forall|i: int| 0 <= i < bytes.len() implies encode_utf8(chars)[i]
            == bytes[i] by {
            assert(bytes[i] < 128);
            assert(chars[i] as u8 == encode_utf8(chars)[i]);
        }
    }
    encode_utf8_valid_utf8(chars);
    encode_utf8_decode_utf8(chars);
}

/// The bytes of text are text again, and stand for the same characters.
pub proof fn lemma_encoded_is_text(chars: Seq<char>)
    ensures
        text_of(encode_utf8(chars)) == Some(chars),
{
    encode_utf8_valid_utf8(chars);
    encode_utf8_decode_utf8(chars);
}

/// A character below 128 is encoded as the one byte of its own number; any other character
/// as two or more bytes, none of them below 128.
proof fn lemma_scalar_bytes(c: char)
    ensures
        (c as u32) < 128 ==> encode_scalar(c as u32) == seq![c as u8] && (c as u8) as u32
            == c as u32,
        (c as u32) >= 128 ==> encode_scalar(c as u32).len() >= 2 && forall|i: int|
            0 <= i < encode_scalar(c as u32).len() ==> (#[trigger] encode_scalar(c as u32)[i])
                >= 128,
        encode_scalar(c as u32).len() >= 1,
{
    let v = c as u32;
    char_is_scalar(c);
    if has_width_1_encoding(v) {
        assert((v & 0x7F) as u8 == v as u8) by (bit_vector)
            requires
                v <= 0x7F,
        ;
        assert(encode_scalar(v) =~= seq![c as u8]);
    } else {
        let lead2 = 0xC0u8 | ((v >> 6) & 0x1F) as u8;
        let lead3 = 0xE0u8 | ((v >> 12) & 0x0F) as u8;
        let lead4 = 0xF0u8 | ((v >> 18) & 0x7) as u8;
        let last = 0x80u8 | (v & 0x3F) as u8;
        let second = 0x80u8 | ((v >> 6) & 0x3F) as u8;
        let third = 0x80u8 | ((v >> 12) & 0x3F) as u8;
        assert(lead2 >= 128 && lead3 >= 128 && lead4 >= 128 && last >= 128 && second >= 128
            && third >= 128) by (bit_vector)
            requires
                lead2 == 0xC0u8 | ((v >> 6) & 0x1F) as u8,
                lead3 == 0xE0u8 | ((v >> 12) & 0x0F) as u8,
                lead4 == 0xF0u8 | ((v >> 18) & 0x7) as u8,
                last == 0x80u8 | (v & 0x3F) as u8,
                second == 0x80u8 | ((v >> 6) & 0x3F) as u8,
                third == 0x80u8 | ((v >> 12) & 0x3F) as u8,
        ;
    }
}

/// The bytes of two texts, one after the other, are the bytes of the two as one text.
proof fn lemma_encode_concat(a: Seq<char>, b: Seq<char>)
    ensures
        encode_utf8(a + b) == encode_utf8(a) + encode_utf8(b),
    decreases a.len(),
{
    if a.len() == 0 {
        assert(a + b =~= b);
        assert(encode_utf8(a) + encode_utf8(b) =~= encode_utf8(b));
    } else {
        assert((a + b).drop_first() =~= a.drop_first() + b);
        lemma_encode_concat(a.drop_first(), b);
        assert(encode_scalar(a[0] as u32) + (encode_utf8(a.drop_first()) + encode_utf8(b))
            =~= encode_utf8(a) + encode_utf8(b));
    }
}

/// Every byte below 128 among the bytes of a text is one of its characters.
pub proof fn lemma_low_bytes_are_chars(chars: Seq<char>, at: int)
    requires
        0 <= at < encode_utf8(chars).len(),
        encode_utf8(chars)[at] < 128,
    ensures
        exists|i: int| 0 <= i < chars.len() && (#[trigger] chars[i]) as u32 == encode_utf8(
            chars,
        )[at],
    decreases chars.len(),
{
    if chars.len() > 0 {
        let first = encode_scalar(chars[0] as u32);
        let rest = chars.drop_first();
        lemma_scalar_bytes(chars[0]);
        if at < first.len() {
            assert(encode_utf8(chars)[at] == first[at]);
            assert(chars[0] as u32 == encode_utf8(chars)[at]);
        } else {
            assert(encode_utf8(chars)[at] == encode_utf8(rest)[at - first.len()]);
            lemma_low_bytes_are_chars(rest, at - first.len());
            let i = choose|i: int|
                0 <= i < rest.len() && (#[trigger] rest[i]) as u32 == encode_utf8(rest)[at
                    - first.len()];
            assert(chars[i + 1] == rest[i]);
        }
    }
}

/// The bytes of a text that is not empty are not empty, and where the last of them is below
/// 128 it is the last character.
pub proof fn lemma_last_byte(chars: Seq<char>)
    requires
        chars.len() > 0,
    ensures
        encode_utf8(chars).len() > 0,
        encode_utf8(chars).last() < 128 ==> chars.last() as u32 == encode_utf8(chars).last(),
{
    let front = chars.drop_last();
    let back = seq![chars.last()];
    assert(chars =~= front + back);
    lemma_encode_concat(front, back);
    lemma_scalar_bytes(chars.last());
    let none = Seq::<char>::empty();
    assert(back.drop_first() =~= none);
    assert(encode_utf8(none) =~= Seq::<u8>::empty());
    assert(back[0] == chars.last());
    assert(encode_utf8(back) == encode_scalar(back[0] as u32) + encode_utf8(back.drop_first()));
    assert(encode_utf8(back) =~= encode_scalar(chars.last() as u32));
}

/// Every character below 128 of a text is, as a byte, among the bytes of the text.
pub proof fn lemma_low_chars_are_bytes(chars: Seq<char>, at: int)
    requires
        0 <= at < chars.len(),
        (chars[at] as u32) < 128,
    ensures
        exists|j: int|
            0 <= j < encode_utf8(chars).len() && (#[trigger] encode_utf8(chars)[j]) as u32
                == chars[at] as u32,
    decreases chars.len(),
{
    let first = encode_scalar(chars[0] as u32);
    let rest = chars.drop_first();
    lemma_scalar_bytes(chars[0]);
    if at == 0 {
        assert(encode_utf8(chars)[0] == first[0]);
    } else {
        assert(rest[at - 1] == chars[at]);
        lemma_low_chars_are_bytes(rest, at - 1);
        let j = choose|j: int|
            0 <= j < encode_utf8(rest).len() && (#[trigger] encode_utf8(rest)[j]) as u32
                == rest[at - 1] as u32;
        assert(encode_utf8(chars)[first.len() + j] == encode_utf8(rest)[j]);
    }
}

} // verus!
