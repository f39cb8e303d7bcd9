//! A lenient scanner for UTF-8-like byte strings.
//!
//! The scanner never rejects its input. The leading byte alone decides how
//! many bytes a code point spans; continuation bytes that are missing count
//! as zero, and the value that comes out may lie outside the range of
//! Unicode scalar values.

use vstd::prelude::*;
use vstd::utf8::{
    decode_first_scalar, decode_utf8, encode_utf8, encode_utf8_decode_utf8,
    encode_utf8_valid_utf8, is_scalar, length_of_first_scalar, pop_first_scalar,
    valid_first_scalar, valid_utf8,
};

verus! {

broadcast use vstd::slice::group_slice_axioms;

/// Mask of the value bits of a continuation byte.
pub const CONT_MASK: u8 = 0x3F;

/// One scanned code point: the decoded value and the number of bytes that
/// its leading byte announces.
#[derive(Clone, Copy, Debug, PartialEq, Eq, Structural)]
pub struct CodePoint {
    pub value: u32,
    pub width: usize,
}

/// The value bits of a leading byte that announces `width` bytes.
pub open spec fn first_byte_bits(byte: u8, width: u32) -> u32 {
    (byte & (0x7Fu8 >> width)) as u32
}

/// The accumulator `ch` extended by the value bits of the continuation byte `byte`.
pub open spec fn acc_cont_byte(ch: u32, byte: u8) -> u32 {
    (ch << 6u32) | ((byte & CONT_MASK) as u32)
}

/// The byte at index `i`, or zero past the end.
pub open spec fn byte_or_zero(bytes: Seq<u8>, i: int) -> u8 {
    if 0 <= i < bytes.len() {
        bytes[i]
    } else {
        0
    }
}

/// The number of bytes that a leading byte announces. Every byte announces
/// a width: a stray continuation byte counts as the start of a two-byte
/// sequence, and a byte above `0xF7` as the start of a four-byte one.
pub open spec fn width_of(first: u8) -> int {
    if first < 0x80 {
        1
    } else if first < 0xE0 {
        2
    } else if first < 0xF0 {
        3
    } else {
        4
    }
}

/// The number of bytes that the code point starting at byte `i` spans.
pub open spec fn width_at(bytes: Seq<u8>, i: int) -> int {
    width_of(bytes[i])
}

/// The value of the code point starting at byte `i`, for `0 <= i < bytes.len()`.
pub open spec fn value_at(bytes: Seq<u8>, i: int) -> u32 {
    let x = bytes[i];
    let init = first_byte_bits(x, 2);
    let y = byte_or_zero(bytes, i + 1);
    let z = byte_or_zero(bytes, i + 2);
    let w = byte_or_zero(bytes, i + 3);
    let y_z = acc_cont_byte((y & CONT_MASK) as u32, z);
    if x < 0x80 {
        x as u32
    } else if x < 0xE0 {
        acc_cont_byte(init, y)
    } else if x < 0xF0 {
        (init << 12u32) | y_z
    } else {
        ((init & 7) << 18u32) | acc_cont_byte(y_z, w)
    }
}

/// The code point starting at byte `i`.
pub open spec fn code_point_of(bytes: Seq<u8>, i: int) -> CodePoint {
    CodePoint { value: value_at(bytes, i), width: width_at(bytes, i) as usize }
}

/// The leading code point of a byte string, if it has one.
pub open spec fn first_code_point(bytes: Seq<u8>) -> Option<CodePoint> {
    if bytes.len() == 0 {
        None
    } else {
        Some(code_point_of(bytes, 0))
    }
}

/// One code point of a candidate as the scan meets it: its value and the
/// byte offset at which it starts.
pub struct Scanned {
    pub value: u32,
    pub offset: int,
}

/// The code points that a scan meets from byte `i` on. Each one starts
/// where the width of the one before it ends; the last may announce more
/// bytes than are left.
pub open spec fn scan_from(input: Seq<u8>, i: int) -> Seq<Scanned>
    decreases
            if i <= input.len() {
                input.len() - i
            } else {
                0
            },
{
    if 0 <= i < input.len() {
        seq![Scanned { value: value_at(input, i), offset: i }] + scan_from(
            input,
            i + width_at(input, i),
        )
    } else {
        Seq::empty()
    }
}

/// The code points of a candidate, in the order of the scan.
pub open spec fn scan(input: Seq<u8>) -> Seq<Scanned> {
    scan_from(input, 0)
}

/// Every code point of a scan starts within the candidate, and a later
/// code point starts at a later byte.
pub proof fn lemma_scan_offsets(input: Seq<u8>, i: int)
    requires
        0 <= i,
    ensures
        forall|p: int|
            0 <= p < scan_from(input, i).len() ==> i <= (#[trigger] scan_from(
                input,
                i,
            )[p]).offset < input.len(),
        forall|p: int|
            0 <= p < scan_from(input, i).len() ==> (#[trigger] scan_from(input, i)[p]).value
                == value_at(input, scan_from(input, i)[p].offset),
        forall|p: int, q: int|
            0 <= p < q < scan_from(input, i).len() ==> (#[trigger] scan_from(input, i)[p]).offset
                < (#[trigger] scan_from(input, i)[q]).offset,
    decreases
            if i <= input.len() {
                input.len() - i
            } else {
                0
            },
{
    if i < input.len() {
        let next = i + width_at(input, i);
        lemma_scan_offsets(input, next);
        let rest = scan_from(input, next);
        let all = scan_from(input, i);
        assert forall|p: int| 0 <= p < all.len() implies i <= (#[trigger] all[p]).offset
            < input.len() && all[p].value == value_at(input, all[p].offset) by {
            if p > 0 {
                assert(all[p] == rest[p - 1]);
            }
        }
        assert forall|p: int, q: int| 0 <= p < q < all.len() implies (#[trigger] all[p]).offset < (
        #[trigger] all[q]).offset by {
            assert(all[q] == rest[q - 1]);
            if p > 0 {
                assert(all[p] == rest[p - 1]);
            }
        }
    }
}

/// The value bits of a one-byte sequence are the byte itself.
proof fn lemma_bits_width_1(x: u8)
    by (bit_vector)
    requires
        x <= 0x7F,
    ensures
        x & 0x7F == x,
{
}

/// How the scanner puts two bytes together is how UTF-8 does.
proof fn lemma_bits_width_2(x: u8, y: u8)
    by (bit_vector)
    ensures
        (((x & (0x7Fu8 >> 2u32)) as u32) << 6u32) | ((y & 0x3Fu8) as u32) == (((x & 0x1Fu8) as u32)
            << 6u32) | ((y & 0x3Fu8) as u32),
        (((x & 0x1Fu8) as u32) << 6u32) | ((y & 0x3Fu8) as u32) <= 0x7FF,
{
}

/// How the scanner puts three bytes together is how UTF-8 does.
proof fn lemma_bits_width_3(x: u8, y: u8, z: u8)
    by (bit_vector)
    requires
        0xE0 <= x <= 0xEF,
    ensures
        (((x & (0x7Fu8 >> 2u32)) as u32) << 12u32) | ((((y & 0x3Fu8) as u32) << 6u32) | ((z
            & 0x3Fu8) as u32)) == (((x & 0x0Fu8) as u32) << 12u32) | (((y & 0x3Fu8) as u32)
            << 6u32) | ((z & 0x3Fu8) as u32),
        (((x & 0x0Fu8) as u32) << 12u32) | (((y & 0x3Fu8) as u32) << 6u32) | ((z & 0x3Fu8) as u32)
            <= 0xFFFF,
{
}

/// How the scanner puts four bytes together is how UTF-8 does.
proof fn lemma_bits_width_4(x: u8, y: u8, z: u8, w: u8)
    by (bit_vector)
    requires
        0xF0 <= x <= 0xF7,
    ensures
        ((((x & (0x7Fu8 >> 2u32)) as u32) & 7u32) << 18u32) | ((((((y & 0x3Fu8) as u32)
            << 6u32) | ((z & 0x3Fu8) as u32)) << 6u32) | ((w & 0x3Fu8) as u32)) == (((x
            & 0x07u8) as u32) << 18u32) | (((y & 0x3Fu8) as u32) << 12u32) | (((z & 0x3Fu8) as u32)
            << 6u32) | ((w & 0x3Fu8) as u32),
{
}

/// Where a well-formed UTF-8 sequence starts at byte `i`, the scanner reads
/// the scalar value that it encodes, and the width is the length of the
/// sequence.
pub proof fn lemma_well_formed_code_point(bytes: Seq<u8>, i: int)
    requires
        0 <= i < bytes.len(),
        valid_first_scalar(bytes.skip(i)),
    ensures
        value_at(bytes, i) == decode_first_scalar(bytes.skip(i)),
        width_at(bytes, i) == length_of_first_scalar(bytes.skip(i)),
        i + width_at(bytes, i) <= bytes.len(),
        is_scalar(value_at(bytes, i)),
{
    let rest = bytes.skip(i);
    let x = bytes[i];
    assert(rest[0] == x);
    if x < 0x80 {
        lemma_bits_width_1(x);
    } else if x < 0xE0 {
        assert(rest[1] == bytes[i + 1]);
        lemma_bits_width_2(x, bytes[i + 1]);
    } else if x < 0xF0 {
        assert(rest[1] == bytes[i + 1]);
        assert(rest[2] == bytes[i + 2]);
        lemma_bits_width_3(x, bytes[i + 1], bytes[i + 2]);
    } else {
        assert(rest[1] == bytes[i + 1]);
        assert(rest[2] == bytes[i + 2]);
        assert(rest[3] == bytes[i + 3]);
        lemma_bits_width_4(x, bytes[i + 1], bytes[i + 2], bytes[i + 3]);
    }
}

/// Where the bytes from `i` on are well-formed UTF-8, the scan from `i`
/// meets the encoded characters one by one.
pub proof fn lemma_scan_well_formed(bytes: Seq<u8>, i: int)
    requires
        0 <= i <= bytes.len(),
        valid_utf8(bytes.skip(i)),
    ensures
        scan_from(bytes, i).len() == decode_utf8(bytes.skip(i)).len(),
        forall|p: int|
            0 <= p < scan_from(bytes, i).len() ==> (#[trigger] scan_from(bytes, i)[p]).value
                == decode_utf8(bytes.skip(i))[p] as u32,
    decreases bytes.len() - i,
{
    let rest = bytes.skip(i);
    if i < bytes.len() {
        lemma_well_formed_code_point(bytes, i);
        let next = i + width_at(bytes, i);
        assert(pop_first_scalar(rest) =~= bytes.skip(next));
        lemma_scan_well_formed(bytes, next);
        let tail = scan_from(bytes, next);
        let all = scan_from(bytes, i);
        let chars = decode_utf8(rest);
        let first = decode_first_scalar(rest);
        assert(chars == seq![first as char] + decode_utf8(bytes.skip(next)));
        assert((first as char) as u32 == first);
        assert forall|p: int| 0 <= p < all.len() implies (#[trigger] all[p]).value
            == chars[p] as u32 by {
            if p > 0 {
                assert(all[p] == tail[p - 1]);
                assert(chars[p] == decode_utf8(bytes.skip(next))[p - 1]);
            }
        }
    } else {
        assert(rest.len() == 0);
    }
}

/// The scan of the UTF-8 encoding of a string meets the characters of the
/// string one by one.
pub proof fn lemma_scan_of_encoding(chars: Seq<char>)
    ensures
        scan(encode_utf8(chars)).len() == chars.len(),
        forall|p: int|
            0 <= p < chars.len() ==> (#[trigger] scan(encode_utf8(chars))[p]).value
                == chars[p] as u32,
{
    let bytes = encode_utf8(chars);
    encode_utf8_valid_utf8(chars);
    encode_utf8_decode_utf8(chars);
    assert(bytes.skip(0) =~= bytes);
    lemma_scan_well_formed(bytes, 0);
}

/// Returns the initial code point accumulator for a leading byte: its bottom
/// five bits for width 2, four bits for width 3, three bits for width 4.
pub fn utf8_first_byte(byte: u8, width: u32) -> (r: u32)
    requires
        width < 8,
    ensures
        r == first_byte_bits(byte, width),
{
    (byte & (0x7Fu8 >> width)) as u32
}

/// Returns the value of `ch` updated with the continuation byte `byte`.
pub fn utf8_acc_cont_byte(ch: u32, byte: u8) -> (r: u32)
    ensures
        r == acc_cont_byte(ch, byte),
{
    (ch << 6u32) | ((byte & CONT_MASK) as u32)
}

/// Returns the byte behind `opt`, or zero where there is none.
pub fn unwrap_or_0(opt: Option<&u8>) -> (r: u8)
    ensures
        r == (match opt {
            Some(byte) => *byte,
            None => 0u8,
        }),
{
    match opt {
        Some(byte) => *byte,
        None => 0,
    }
}

/// Returns the byte `k` places after index `i`, or zero past the end.
fn byte_at_or_0(bytes: &[u8], i: usize, k: usize) -> (r: u8)
    requires
        i < bytes.len(),
        k <= 3,
    ensures
        r == byte_or_zero(bytes@, i + k),
{
    if k < bytes.len() - i {
        unwrap_or_0(bytes.get(i + k))
    } else {
        unwrap_or_0(None)
    }
}

/// Reads the code point that starts at byte `i`.
///
/// Nothing is rejected: the leading byte decides the width, bytes past the
/// end count as zero, and no continuation byte is checked for its marker
/// bits.
pub fn code_point_at(bytes: &[u8], i: usize) -> (r: CodePoint)
    requires
        i < bytes.len(),
    ensures
        r == code_point_of(bytes@, i as int),
        1 <= r.width <= 4,
{
    let x = bytes[i];
    if x < 128 {
        return CodePoint { value: x as u32, width: 1 };
    }
    let init = utf8_first_byte(x, 2);
    let y = byte_at_or_0(bytes, i, 1);
    let mut ch = utf8_acc_cont_byte(init, y);
    let mut width: usize = 2;
    if x >= 0xE0 {
        let z = byte_at_or_0(bytes, i, 2);
        let y_z = utf8_acc_cont_byte((y & CONT_MASK) as u32, z);
        ch = (init << 12u32) | y_z;
        width = 3;
        if x >= 0xF0 {
            let w = byte_at_or_0(bytes, i, 3);
            ch = ((init & 7) << 18u32) | utf8_acc_cont_byte(y_z, w);
            width = 4;
        }
    }
    CodePoint { value: ch, width }
}

/// Reads the next code point out of a byte string that is taken to be
/// encoded like UTF-8. Returns `None` only when the string is empty.
pub fn next_code_point(bytes: &[u8]) -> (r: Option<CodePoint>)
    ensures
        r == first_code_point(bytes@),
{
    if bytes.len() == 0 {
        None
    } else {
        Some(code_point_at(bytes, 0))
    }
}

} // verus!
