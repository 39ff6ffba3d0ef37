//! Byte-addressed slices of UTF-8 text.

use vstd::prelude::*;
use vstd::string::StringSliceAdditionalSpecFns;
use vstd::utf8::{
    decode_utf8, encode_scalar, encode_utf8, has_width_1_encoding, is_char_boundary, is_scalar,
    last_continuation_byte, leading_byte_width_1, leading_byte_width_2, leading_byte_width_3,
    leading_byte_width_4, second_last_continuation_byte, third_last_continuation_byte,
};

verus! {

/// Whether the bytes `start..end` of `text` are a slice of it: in bounds, in
/// order, and cut between characters.
pub open spec fn is_slice(text: Seq<char>, start: int, end: int) -> bool {
    &&& 0 <= start <= end <= encode_utf8(text).len()
    &&& is_char_boundary(encode_utf8(text), start)
    &&& is_char_boundary(encode_utf8(text), end)
}

/// The characters that the bytes `start..end` of `text` encode.
pub open spec fn slice_of(text: Seq<char>, start: int, end: int) -> Seq<char> {
    decode_utf8(encode_utf8(text).subrange(start, end))
}

/// A boundary of a text that lies before another one is a boundary of the
/// prefix that the other cuts off.
pub proof fn lemma_boundary_of_prefix(bytes: Seq<u8>, start: int, end: int)
    requires
        vstd::utf8::valid_utf8(bytes),
        0 <= start <= end <= bytes.len(),
        is_char_boundary(bytes, start),
        is_char_boundary(bytes, end),
    ensures
        vstd::utf8::valid_utf8(bytes.subrange(0, end)),
        is_char_boundary(bytes.subrange(0, end), start),
        vstd::utf8::valid_utf8(bytes.subrange(start, end)),
{
    let prefix = bytes.subrange(0, end);
    vstd::utf8::valid_utf8_split(bytes, end);
    if start < end {
        vstd::utf8::is_char_boundary_iff_not_is_continuation_byte(bytes, start);
        vstd::utf8::is_char_boundary_iff_not_is_continuation_byte(prefix, start);
        assert(prefix[start] == bytes[start]);
    } else {
        vstd::utf8::is_char_boundary_start_end_of_seq(prefix);
    }
    vstd::utf8::valid_utf8_split(prefix, start);
    assert(prefix.subrange(start, prefix.len() as int) =~= bytes.subrange(start, end));
}

/// Slicing a slice: the bytes of `slice_of` are the bytes of the range.
pub proof fn lemma_slice_bytes(text: Seq<char>, start: int, end: int)
    requires
        is_slice(text, start, end),
    ensures
        encode_utf8(slice_of(text, start, end)) == encode_utf8(text).subrange(start, end),
{
    vstd::utf8::encode_utf8_valid_utf8(text);
    lemma_boundary_of_prefix(encode_utf8(text), start, end);
    vstd::utf8::decode_utf8_encode_utf8(encode_utf8(text).subrange(start, end));
}

/// A slice that is cut once more is its two parts, one after the other.
pub proof fn lemma_slice_splits(text: Seq<char>, start: int, middle: int, end: int)
    requires
        is_slice(text, start, middle),
        is_slice(text, middle, end),
    ensures
        slice_of(text, start, end) == slice_of(text, start, middle) + slice_of(text, middle, end),
{
    let bytes = encode_utf8(text);
    let part = bytes.subrange(start, end);
    vstd::utf8::encode_utf8_valid_utf8(text);
    lemma_boundary_of_prefix(bytes, start, end);
    if start < end {
        if middle < end {
            vstd::utf8::is_char_boundary_iff_not_is_continuation_byte(bytes, middle);
            vstd::utf8::is_char_boundary_iff_not_is_continuation_byte(part, middle - start);
            assert(part[middle - start] == bytes[middle]);
        } else {
            vstd::utf8::is_char_boundary_start_end_of_seq(part);
        }
    } else {
        vstd::utf8::is_char_boundary_start_end_of_seq(part);
    }
    vstd::utf8::decode_utf8_split(part, middle - start);
    assert(part.subrange(0, middle - start) =~= bytes.subrange(start, middle));
    assert(part.subrange(middle - start, part.len() as int) =~= bytes.subrange(middle, end));
}

/// The bytes of a character hold an ASCII byte exactly if the character is that
/// one.
proof fn lemma_ascii_in_scalar(scalar: u32, byte: u8)
    requires
        is_scalar(scalar),
        byte < 0x80,
    ensures
        encode_scalar(scalar).contains(byte) <==> scalar == byte as u32,
{
    assert(leading_byte_width_2(scalar) >= 0x80) by (bit_vector);
    assert(leading_byte_width_3(scalar) >= 0x80) by (bit_vector);
    assert(leading_byte_width_4(scalar) >= 0x80) by (bit_vector);
    assert(last_continuation_byte(scalar) >= 0x80) by (bit_vector);
    assert(second_last_continuation_byte(scalar) >= 0x80) by (bit_vector);
    assert(third_last_continuation_byte(scalar) >= 0x80) by (bit_vector);
    if has_width_1_encoding(scalar) {
        assert(leading_byte_width_1(scalar) == scalar) by (bit_vector)
            requires
                has_width_1_encoding(scalar),
        ;
        assert(encode_scalar(scalar)[0] == leading_byte_width_1(scalar));
    }
}

/// The bytes of a text hold an ASCII byte exactly if the text holds that
/// character.
pub proof fn lemma_ascii_in_text(text: Seq<char>, c: char)
    requires
        c < '\u{80}',
    ensures
        encode_utf8(text).contains(c as u8) <==> text.contains(c),
    decreases text.len(),
{
    if text.len() > 0 {
        let first = encode_scalar(text[0] as u32);
        let rest = text.drop_first();
        let bytes = encode_utf8(text);
        vstd::utf8::char_is_scalar(text[0]);
        vstd::utf8::char_u32_cast(text[0], text[0] as u32);
        vstd::utf8::char_u32_cast(c, c as u32);
        lemma_ascii_in_scalar(text[0] as u32, c as u8);
        lemma_ascii_in_text(rest, c);
        assert(bytes == first + encode_utf8(rest));
        if first.contains(c as u8) {
            let i = choose|i: int| 0 <= i < first.len() && first[i] == c as u8;
            assert(bytes[i] == c as u8);
            assert(text[0] == c);
        }
        if rest.contains(c) {
            let i = choose|i: int| 0 <= i < encode_utf8(rest).len() && encode_utf8(rest)[i]
                == c as u8;
            assert(bytes[first.len() + i] == c as u8);
            let j = choose|j: int| 0 <= j < rest.len() && rest[j] == c;
            assert(text[j + 1] == c);
        }
        if bytes.contains(c as u8) {
            let i = choose|i: int| 0 <= i < bytes.len() && bytes[i] == c as u8;
            if i < first.len() {
                assert(first[i] == c as u8);
            } else {
                assert(encode_utf8(rest)[i - first.len()] == c as u8);
            }
        }
        if text.contains(c) {
            let j = choose|j: int| 0 <= j < text.len() && text[j] == c;
            if j > 0 {
                assert(rest[j - 1] == c);
            }
        }
    }
}

/// A text whose first byte is an ASCII byte begins with that character.
pub proof fn lemma_ascii_first(text: Seq<char>, c: char)
    requires
        c < '\u{80}',
        encode_utf8(text).len() > 0,
        encode_utf8(text)[0] == c as u8,
    ensures
        text.len() > 0,
        text[0] == c,
{
    assert(text.len() > 0);
    let first = encode_scalar(text[0] as u32);
    vstd::utf8::char_is_scalar(text[0]);
    vstd::utf8::char_u32_cast(text[0], text[0] as u32);
    vstd::utf8::char_u32_cast(c, c as u32);
    lemma_ascii_in_scalar(text[0] as u32, c as u8);
    assert(encode_utf8(text) == first + encode_utf8(text.drop_first()));
    assert(first[0] == c as u8);
}

/// Text is determined by its bytes.
pub proof fn lemma_same_bytes_same_text(a: Seq<char>, b: Seq<char>)
    requires
        encode_utf8(a) == encode_utf8(b),
    ensures
        a == b,
{
    vstd::utf8::encode_utf8_decode_utf8(a);
    vstd::utf8::encode_utf8_decode_utf8(b);
}

/// Returns the bytes `start..end` of `text`.
pub fn slice<'a>(text: &'a str, start: usize, end: usize) -> (part: &'a str)
    requires
        is_slice(text@, start as int, end as int),
    ensures
        part@ == slice_of(text@, start as int, end as int),
        part.spec_bytes() == text.spec_bytes().subrange(start as int, end as int),
{
    proof {
        vstd::utf8::encode_utf8_valid_utf8(text@);
        lemma_boundary_of_prefix(text.spec_bytes(), start as int, end as int);
    }
    let (prefix, _) = text.split_at(end);
    let (_, part) = prefix.split_at(start);
    proof {
        assert(part.spec_bytes() =~= text.spec_bytes().subrange(start as int, end as int));
        lemma_slice_bytes(text@, start as int, end as int);
        lemma_same_bytes_same_text(part@, slice_of(text@, start as int, end as int));
    }
    part
}

/// Returns whether two strings hold the same text.
pub fn same_text(a: &str, b: &str) -> (same: bool)
    ensures
        same == (a@ == b@),
{
    let left = a.as_bytes();
    let right = b.as_bytes();
    if left.len() != right.len() {
        return false;
    }
    let mut i: usize = 0;
    while i < left.len()
        invariant
            i <= left.len(),
            left@.len() == right@.len(),
            left@ == encode_utf8(a@),
            right@ == encode_utf8(b@),
            forall|j: int| 0 <= j < i ==> left@[j] == right@[j],
        decreases left.len() - i,
    {
        if left[i] != right[i] {
            return false;
        }
        i += 1;
    }
    proof {
        assert(left@ =~= right@);
        lemma_same_bytes_same_text(a@, b@);
    }
    true
}

/// `String::from` of a string slice: a string with the same text.
pub assume_specification<'a>[ <String as From<&'a str>>::from ](text: &str) -> (string: String)
    ensures
        string@ == text@,
;

/// `T::from` of a `T`: the value itself.
pub assume_specification<T>[ <T as From<T>>::from ](value: T) -> (same: T)
    ensures
        same == value,
;

} // verus!
