//! Facts about UTF-8 that relate what the formatter writes, which is text,
//! to what the parser reads, which is bytes.

use vstd::prelude::*;
use vstd::utf8::{
    valid_utf8,
    decode_utf8,
    encode_utf8,
    encode_scalar,
    is_ascii_chars,
    is_ascii_chars_encode_utf8,
    encode_utf8_decode_utf8,
    encode_utf8_valid_utf8,
    decode_utf8_encode_utf8,
    char_is_scalar,
    char_u32_cast,
};

verus! {

/// An ASCII character is encoded as the byte with its number; every byte of
/// the encoding of any other character is 0x80 or more.
pub proof fn lemma_encode_scalar(c: char)
    ensures
        encode_scalar(c as u32).len() >= 1,
        (c as u32) < 0x80 ==> encode_scalar(c as u32) == seq![c as u8],
        (c as u32) >= 0x80 ==> forall|j: int|
            0 <= j < encode_scalar(c as u32).len() ==> (#[trigger] encode_scalar(c as u32)[j])
                >= 0x80,
{
    let u = c as u32;
    char_is_scalar(c);
    if u < 0x80 {
        assert((u & 0x7F) as u8 == u as u8) by (bit_vector)
            requires
                u < 0x80,
        ;
        assert(encode_scalar(u) =~= seq![c as u8]);
    } else {
        assert(forall|x: u8| #![auto] (0x80u8 | x) >= 0x80) by (bit_vector);
        assert(forall|x: u8| #![auto] (0xC0u8 | x) >= 0x80) by (bit_vector);
        assert(forall|x: u8| #![auto] (0xE0u8 | x) >= 0x80) by (bit_vector);
        assert(forall|x: u8| #![auto] (0xF0u8 | x) >= 0x80) by (bit_vector);
    }
}

/// The number of an ASCII character is the same as a `u8` and as a `u32`.
pub proof fn lemma_ascii_casts(c: char)
    ensures
        (c as u32) < 0x80 ==> (c as u8) as u32 == c as u32,
        (c as u32) >= 0x80 ==> c as int >= 0x80,
{
}

/// A character is determined by its number.
pub proof fn lemma_char_of_byte(c: char, k: u8)
    requires
        c as u32 == k as u32,
    ensures
        c == k as char,
{
    char_u32_cast(c, k as u32);
}

/// The encoding of a concatenation is the concatenation of the encodings.
pub proof fn lemma_encode_concat(a: Seq<char>, b: Seq<char>)
    ensures
        encode_utf8(a + b) == encode_utf8(a) + encode_utf8(b),
    decreases a.len(),
{
    if a.len() == 0 {
        assert(a + b =~= b);
        assert(encode_utf8(a) + encode_utf8(b) =~= encode_utf8(b));
    } else {
        lemma_encode_concat(a.drop_first(), b);
        assert((a + b).drop_first() =~= a.drop_first() + b);
        assert(encode_utf8(a + b) =~= encode_utf8(a) + encode_utf8(b));
    }
}

/// The encoding of a single character.
pub proof fn lemma_encode_one(c: char)
    ensures
        encode_utf8(seq![c]) == encode_scalar(c as u32),
{
    assert(seq![c].drop_first() =~= Seq::<char>::empty());
    assert(encode_utf8(Seq::<char>::empty()) =~= Seq::<u8>::empty());
    assert(encode_utf8(seq![c]) =~= encode_scalar(c as u32));
}

/// Whether the ASCII byte `k` occurs in `bytes`.
pub open spec fn has_byte(bytes: Seq<u8>, k: u8) -> bool {
    exists|j: int| 0 <= j < bytes.len() && bytes[j] == k
}

/// Whether the character with the number `k` occurs in `text`.
pub open spec fn has_char(text: Seq<char>, k: u8) -> bool {
    exists|i: int| 0 <= i < text.len() && text[i] as u32 == k as u32
}

/// An ASCII byte occurs in the encoding of a text exactly if the character
/// with that number occurs in the text.
pub proof fn lemma_encode_has_byte(text: Seq<char>, k: u8)
    requires
        k < 0x80,
    ensures
        has_byte(encode_utf8(text), k) == has_char(text, k),
    decreases text.len(),
{
    if text.len() == 0 {
    } else {
        let head = encode_scalar(text[0] as u32);
        let rest = text.drop_first();
        lemma_encode_has_byte(rest, k);
        lemma_encode_scalar(text[0]);
        assert(encode_utf8(text) == head + encode_utf8(rest));
        if has_char(text, k) {
            let i = choose|i: int| 0 <= i < text.len() && text[i] as u32 == k as u32;
            if i == 0 {
                lemma_ascii_casts(text[0]);
                assert(encode_utf8(text)[0] == head[0]);
                assert(encode_utf8(text)[0] == k);
            } else {
                assert(rest[i - 1] == text[i]);
                assert(has_char(rest, k));
                let j = choose|j: int| 0 <= j < encode_utf8(rest).len() && encode_utf8(rest)[j] == k;
                assert(encode_utf8(text)[head.len() + j] == k);
            }
        }
        if has_byte(encode_utf8(text), k) {
            let j = choose|j: int| 0 <= j < encode_utf8(text).len() && encode_utf8(text)[j] == k;
            if j < head.len() {
                assert(head[j] == k);
                lemma_ascii_casts(text[0]);
                assert(text[0] as u32 == k as u32);
            } else {
                assert(encode_utf8(rest)[j - head.len()] == k);
                assert(has_byte(encode_utf8(rest), k));
                let i = choose|i: int| 0 <= i < rest.len() && rest[i] as u32 == k as u32;
                assert(text[i + 1] == rest[i]);
            }
        }
    }
}

/// The characters with the numbers of the given ASCII bytes.
pub open spec fn ascii_text(bytes: Seq<u8>) -> Seq<char> {
    Seq::new(bytes.len(), |i: int| bytes[i] as char)
}

/// Whether every byte is below 0x80.
pub open spec fn all_ascii(bytes: Seq<u8>) -> bool {
    forall|i: int| 0 <= i < bytes.len() ==> (#[trigger] bytes[i]) < 0x80
}

/// ASCII bytes are valid UTF-8, and they decode to the characters with
/// their numbers, which encode to them again.
pub proof fn lemma_ascii(bytes: Seq<u8>)
    requires
        all_ascii(bytes),
    ensures
        valid_utf8(bytes),
        decode_utf8(bytes) == ascii_text(bytes),
        encode_utf8(ascii_text(bytes)) == bytes,
{
    let text = ascii_text(bytes);
    assert(is_ascii_chars(text));
    is_ascii_chars_encode_utf8(text);
    assert(encode_utf8(text) =~= bytes);
    encode_utf8_valid_utf8(text);
    encode_utf8_decode_utf8(text);
}

/// A text decoded from bytes encodes to these bytes again.
pub proof fn lemma_decode_encode(bytes: Seq<u8>)
    requires
        valid_utf8(bytes),
    ensures
        encode_utf8(decode_utf8(bytes)) == bytes,
{
    decode_utf8_encode_utf8(bytes);
}

/// An encoded text is valid UTF-8 and decodes to the text.
pub proof fn lemma_encode_decode(text: Seq<char>)
    ensures
        valid_utf8(encode_utf8(text)),
        decode_utf8(encode_utf8(text)) == text,
{
    encode_utf8_valid_utf8(text);
    encode_utf8_decode_utf8(text);
}

} // verus!
