//! Replacing the HTML entities of a text by the characters they stand for.

use vstd::prelude::*;
use vstd::utf8::*;

verus! {

/// What `html_escape::decode_html_entities_to_string` writes for a text:
/// the text with each named or numeric character reference that the crate
/// knows replaced by its character, and everything else as it was.
pub uninterp spec fn entities_decoded(text: Seq<char>) -> Seq<char>;

/// Calls `html_escape::decode_html_entities_to_string` with an empty string
/// to write to, and hands that string back. Believed without proof: what is
/// written depends on the text alone.
#[verifier::external_body]
fn decode_entities(text: &str) -> (decoded: String)
    ensures
        decoded@ == entities_decoded(text@),
{
    let mut decoded = String::new();
    html_escape::decode_html_entities_to_string(text, &mut decoded);
    decoded
}

/// A text with its entities decoded. Every entity begins with `&`, so a
/// text without that character is its own decoding.
pub open spec fn decoded(text: Seq<char>) -> Seq<char> {
    if text.contains('&') {
        entities_decoded(text)
    } else {
        text
    }
}

/// The text that the fragments are looked for in: the source text, decoded
/// where that was asked for.
pub open spec fn prepared(source: Seq<char>, html_decode: bool) -> Seq<char> {
    if html_decode {
        decoded(source)
    } else {
        source
    }
}

/// The encoding of one character holds a byte below 128 only as the
/// encoding of that very character.
proof fn lemma_ascii_byte_in_scalar(c: char, byte: u8)
    requires
        byte <= 0x7f,
    ensures
        encode_scalar(c as u32).contains(byte) <==> c == byte as char,
{
    let scalar = c as u32;
    let bytes = encode_scalar(scalar);
    char_is_scalar(c);
    if has_width_1_encoding(scalar) {
        assert((scalar & 0x7F) as u8 == scalar) by (bit_vector)
            requires
                scalar <= 0x7f,
        ;
        if c == byte as char {
            assert(bytes[0] == byte);
        }
        if bytes.contains(byte) {
            char_u32_cast(c, scalar);
        }
    } else {
        // Every byte of a longer encoding has its highest bit set.
        assert forall|x: u8|
            0xC0u8 | x >= 0x80 && 0xE0u8 | x >= 0x80 && 0xF0u8 | x >= 0x80 && 0x80u8 | x
                >= 0x80 by {
            assert(0xC0u8 | x >= 0x80 && 0xE0u8 | x >= 0x80 && 0xF0u8 | x >= 0x80 && 0x80u8 | x
                >= 0x80) by (bit_vector);
        }
        assert forall|i: int| 0 <= i < bytes.len() implies bytes[i] >= 0x80 by {}
    }
}

/// A byte below 128 stands in the UTF-8 encoding of a text exactly where
/// the character with that code stands in the text.
pub proof fn lemma_ascii_byte_in_text(text: Seq<char>, byte: u8)
    requires
        byte <= 0x7f,
    ensures
        encode_utf8(text).contains(byte) <==> text.contains(byte as char),
    decreases text.len(),
{
    if text.len() > 0 {
        let head = encode_scalar(text[0] as u32);
        let tail = encode_utf8(text.drop_first());
        lemma_ascii_byte_in_scalar(text[0], byte);
        lemma_ascii_byte_in_text(text.drop_first(), byte);
        if encode_utf8(text).contains(byte) {
            let i = choose|i: int| 0 <= i < (head + tail).len() && (head + tail)[i] == byte;
            if i < head.len() {
                assert(head[i] == byte);
            } else {
                assert(tail[i - head.len()] == byte);
                let j = choose|j: int|
                    0 <= j < text.drop_first().len() && text.drop_first()[j] == byte as char;
                assert(text[j + 1] == byte as char);
            }
        }
        if text.contains(byte as char) {
            let j = choose|j: int| 0 <= j < text.len() && text[j] == byte as char;
            if j == 0 {
                let i = choose|i: int| 0 <= i < head.len() && head[i] == byte;
                assert((head + tail)[i] == byte);
            } else {
                assert(text.drop_first()[j - 1] == byte as char);
                let i = choose|i: int| 0 <= i < tail.len() && tail[i] == byte;
                assert((head + tail)[head.len() + i] == byte);
            }
        }
    }
}

/// Whether a text holds the character `&`.
pub fn holds_ampersand(text: &str) -> (found: bool)
    ensures
        found == text@.contains('&'),
{
    let bytes = text.as_bytes();
    let mut found = false;
    let mut i: usize = 0;
    while i < bytes.len()
        invariant
            i <= bytes@.len(),
            found ==> bytes@.contains(0x26u8),
            !found ==> forall|k: int| 0 <= k < i ==> bytes@[k] != 0x26u8,
        decreases bytes@.len() - i,
    {
        if bytes[i] == 0x26 {
            found = true;
        }
        i = i + 1;
    }
    proof {
        lemma_ascii_byte_in_text(text@, 0x26u8);
    }
    found
}

/// The text with its HTML entities decoded.
pub fn decode_html_entities(text: &str) -> (result: String)
    ensures
        result@ == decoded(text@),
        !text@.contains('&') ==> result@ == text@,
{
    if holds_ampersand(text) {
        decode_entities(text)
    } else {
        text.to_owned()
    }
}

/// The text that the fragments are looked for in: the source text, with its
/// HTML entities decoded where `html_decode` is set.
pub fn prepare_text(source: &str, html_decode: bool) -> (text: String)
    ensures
        text@ == prepared(source@, html_decode),
        !source@.contains('&') ==> text@ == source@,
{
    if html_decode {
        decode_html_entities(source)
    } else {
        source.to_owned()
    }
}

} // verus!
