//! Bytes and text: the one call that turns bytes into a `String`, and what
//! is known of text that is plain ASCII.

use vstd::prelude::*;
use vstd::utf8::{encode_utf8, is_ascii_chars, valid_utf8};

verus! {

/// `String::from_utf8` of std: the bytes become a `String` exactly when they
/// are valid UTF-8, and the `String` then holds those very bytes.
#[verifier::external_body]
pub(crate) fn text_from_utf8(bytes: Vec<u8>) -> (r: Option<String>)
    ensures
        r is Some <==> valid_utf8(bytes@),
        r matches Some(text) ==> encode_utf8(text@) == bytes@,
{
    String::from_utf8(bytes).ok()
}

/// The characters that ASCII bytes stand for, one for one.
pub open spec fn ascii_chars(bytes: Seq<u8>) -> Seq<char> {
    Seq::new(bytes.len(), |i: int| bytes[i] as char)
}

/// Whether every byte is below 128.
pub open spec fn is_ascii_bytes(bytes: Seq<u8>) -> bool {
    forall|i: int| 0 <= i < bytes.len() ==> #[trigger] bytes[i] < 128
}

/// ASCII bytes are the UTF-8 encoding of their characters.
pub proof fn lemma_ascii_bytes_encode(bytes: Seq<u8>)
    requires
        is_ascii_bytes(bytes),
    ensures
        is_ascii_chars(ascii_chars(bytes)),
        encode_utf8(ascii_chars(bytes)) == bytes,
        valid_utf8(bytes),
{
    let chars = ascii_chars(bytes);
    assert(is_ascii_chars(chars)) by {
        assert forall|i: int| 0 <= i < chars.len() implies '\0' <= #[trigger] chars[i]
            <= '\u{7f}' by {
            assert(bytes[i] < 128);
        }
    }
    vstd::utf8::is_ascii_chars_encode_utf8(chars);
    assert(encode_utf8(chars) =~= bytes) by {
        assert forall|i: int| 0 <= i < bytes.len() implies encode_utf8(chars)[i] == bytes[i] by {
            assert(chars[i] as u8 == encode_utf8(chars)[i]);
            assert(bytes[i] < 128);
        }
    }
    vstd::utf8::encode_utf8_valid_utf8(chars);
}

/// The bytes of ASCII text are its characters, one for one.
pub proof fn lemma_ascii_text_bytes(text: Seq<char>)
    requires
        is_ascii_chars(text),
    ensures
        encode_utf8(text).len() == text.len(),
        is_ascii_bytes(encode_utf8(text)),
        ascii_chars(encode_utf8(text)) == text,
{
    vstd::utf8::is_ascii_chars_encode_utf8(text);
    let bytes = encode_utf8(text);
    assert forall|i: int| 0 <= i < bytes.len() implies #[trigger] bytes[i] < 128 by {
        assert(text[i] as u8 == bytes[i]);
        assert('\0' <= text[i] <= '\u{7f}');
    }
    assert(ascii_chars(bytes) =~= text) by {
        assert forall|i: int| 0 <= i < text.len() implies ascii_chars(bytes)[i] == text[i] by {
            assert(text[i] as u8 == bytes[i]);
            assert('\0' <= text[i] <= '\u{7f}');
        }
    }
}

/// Valid UTF-8 that is cut at an ASCII byte is valid UTF-8 on both sides of
/// that byte.
pub proof fn lemma_cut_at_ascii(bytes: Seq<u8>, at: int)
    requires
        valid_utf8(bytes),
        0 <= at < bytes.len(),
        bytes[at] < 128,
    ensures
        valid_utf8(bytes.take(at)),
        valid_utf8(bytes.skip(at + 1)),
{
    vstd::utf8::is_char_boundary_iff_not_is_continuation_byte(bytes, at);
    vstd::utf8::valid_utf8_split(bytes, at);
    let tail = bytes.subrange(at, bytes.len() as int);
    assert(bytes.take(at) =~= bytes.subrange(0, at));
    assert(tail[0] == bytes[at]);
    assert(vstd::utf8::pop_first_scalar(tail) =~= bytes.skip(at + 1));
}

/// The `String` that valid UTF-8 spells.
pub(crate) fn utf8_string(bytes: Vec<u8>) -> (text: String)
    requires
        valid_utf8(bytes@),
    ensures
        encode_utf8(text@) == bytes@,
{
    text_from_utf8(bytes).unwrap()
}

/// The `String` that ASCII bytes spell.
pub(crate) fn ascii_string(bytes: Vec<u8>) -> (text: String)
    requires
        is_ascii_bytes(bytes@),
    ensures
        text@ == ascii_chars(bytes@),
{
    proof {
        lemma_ascii_bytes_encode(bytes@);
    }
    let ghost spelled = ascii_chars(bytes@);
    let text = text_from_utf8(bytes).unwrap();
    proof {
        vstd::utf8::encode_utf8_decode_utf8(text@);
        vstd::utf8::encode_utf8_decode_utf8(spelled);
    }
    text
}

/// The bytes of `text`, if it is plain ASCII.
pub(crate) fn ascii_bytes(text: &str) -> (r: Option<&[u8]>)
    ensures
        r is Some <==> is_ascii_chars(text@),
        r matches Some(bytes) ==> {
            &&& bytes@.len() == text@.len()
            &&& is_ascii_bytes(bytes@)
            &&& ascii_chars(bytes@) == text@
        },
{
    if text.is_ascii() {
        proof {
            lemma_ascii_text_bytes(text@);
        }
        Some(text.as_bytes())
    } else {
        None
    }
}

} // verus!
