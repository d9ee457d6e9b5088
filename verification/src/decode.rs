//! Decoding of one encoded scalar that is not ASCII.

use vstd::prelude::*;
use crate::encoding::{char_width, error_len_of, is_ascii_byte, starts_with_scalar};
use crate::error::Utf8Error;

verus! {

// https://tools.ietf.org/html/rfc3629
const UTF8_CHAR_WIDTH: [u8; 256] = [
    // 1  2  3  4  5  6  7  8  9  A  B  C  D  E  F
    1, 1, 1, 1, 1, 1, 1, 1, 1, 1, 1, 1, 1, 1, 1, 1,  // 0
    1, 1, 1, 1, 1, 1, 1, 1, 1, 1, 1, 1, 1, 1, 1, 1,  // 1
    1, 1, 1, 1, 1, 1, 1, 1, 1, 1, 1, 1, 1, 1, 1, 1,  // 2
    1, 1, 1, 1, 1, 1, 1, 1, 1, 1, 1, 1, 1, 1, 1, 1,  // 3
    1, 1, 1, 1, 1, 1, 1, 1, 1, 1, 1, 1, 1, 1, 1, 1,  // 4
    1, 1, 1, 1, 1, 1, 1, 1, 1, 1, 1, 1, 1, 1, 1, 1,  // 5
    1, 1, 1, 1, 1, 1, 1, 1, 1, 1, 1, 1, 1, 1, 1, 1,  // 6
    1, 1, 1, 1, 1, 1, 1, 1, 1, 1, 1, 1, 1, 1, 1, 1,  // 7
    0, 0, 0, 0, 0, 0, 0, 0, 0, 0, 0, 0, 0, 0, 0, 0,  // 8
    0, 0, 0, 0, 0, 0, 0, 0, 0, 0, 0, 0, 0, 0, 0, 0,  // 9
    0, 0, 0, 0, 0, 0, 0, 0, 0, 0, 0, 0, 0, 0, 0, 0,  // A
    0, 0, 0, 0, 0, 0, 0, 0, 0, 0, 0, 0, 0, 0, 0, 0,  // B
    0, 0, 2, 2, 2, 2, 2, 2, 2, 2, 2, 2, 2, 2, 2, 2,  // C
    2, 2, 2, 2, 2, 2, 2, 2, 2, 2, 2, 2, 2, 2, 2, 2,  // D
    3, 3, 3, 3, 3, 3, 3, 3, 3, 3, 3, 3, 3, 3, 3, 3,  // E
    4, 4, 4, 4, 4, 0, 0, 0, 0, 0, 0, 0, 0, 0, 0, 0,  // F
];

/// Looks up how many bytes the encoded scalar that begins with `byte` has; 0 for a byte that
/// begins none.
pub fn utf8_char_width(byte: u8) -> (width: usize)
    ensures
        width == char_width(byte),
{
    UTF8_CHAR_WIDTH[byte as usize] as usize
}

/// Decodes the encoded scalar that begins at `curr`, where a byte other than ASCII stands,
/// within `buf[..end]`, and returns the index behind it.
///
/// Where no encoded scalar begins at `curr`, the error carries `curr` itself and the size of
/// the malformed unit: `None` where `buf[..end]` ends before the sequence is complete, else
/// the number of bytes that were in order before the one that is not, and 1 for a byte that
/// begins nothing.
pub fn validate_non_acii_bytes(buf: &[u8], curr: usize, end: usize) -> (res: Result<
    usize,
    Utf8Error,
>)
    requires
        curr < end <= buf.len(),
        !is_ascii_byte(buf[curr as int]),
    ensures
        match res {
            Ok(next) => {
                &&& starts_with_scalar(buf@.subrange(curr as int, end as int))
                &&& next == curr + char_width(buf[curr as int])
                &&& next <= end
            },
            Err(e) => {
                &&& !starts_with_scalar(buf@.subrange(curr as int, end as int))
                &&& e.valid_up_to == curr
                &&& e.error_len == error_len_of(buf@.subrange(curr as int, end as int))
            },
        },
{
    let prev = curr;
    let mut curr = curr;
    let ghost rest = buf@.subrange(prev as int, end as int);
    assert(rest[0] == buf[prev as int]);

    let byte = buf[curr];
    let width = utf8_char_width(byte);
    match width {
        2 => {
            curr += 1;
            if curr >= end {
                return Err(Utf8Error { valid_up_to: prev, error_len: None });
            }
            let second = buf[curr];
            assert(rest[1] == second);
            assert((second as i8 >= -64) == !(0x80 <= second <= 0xBF)) by (bit_vector);
            if second as i8 >= -64 {
                return Err(Utf8Error { valid_up_to: prev, error_len: Some(1) });
            }
        },
        3 => {
            curr += 1;
            if curr >= end {
                return Err(Utf8Error { valid_up_to: prev, error_len: None });
            }
            let second = buf[curr];
            assert(rest[1] == second);
            match (byte, second) {
                (0xE0, 0xA0..=0xBF)
                | (0xE1..=0xEC, 0x80..=0xBF)
                | (0xED, 0x80..=0x9F)
                | (0xEE..=0xEF, 0x80..=0xBF) => {},
                _ => {
                    return Err(Utf8Error { valid_up_to: prev, error_len: Some(1) });
                },
            }

            curr += 1;
            if curr >= end {
                return Err(Utf8Error { valid_up_to: prev, error_len: None });
            }
            let third = buf[curr];
            assert(rest[2] == third);
            assert((third as i8 >= -64) == !(0x80 <= third <= 0xBF)) by (bit_vector);
            if third as i8 >= -64 {
                return Err(Utf8Error { valid_up_to: prev, error_len: Some(2) });
            }
        },
        4 => {
            curr += 1;
            if curr >= end {
                return Err(Utf8Error { valid_up_to: prev, error_len: None });
            }
            let second = buf[curr];
            assert(rest[1] == second);
            match (byte, second) {
                (0xF0, 0x90..=0xBF) | (0xF1..=0xF3, 0x80..=0xBF) | (0xF4, 0x80..=0x8F) => {},
                _ => {
                    return Err(Utf8Error { valid_up_to: prev, error_len: Some(1) });
                },
            }

            curr += 1;
            if curr >= end {
                return Err(Utf8Error { valid_up_to: prev, error_len: None });
            }
            let third = buf[curr];
            assert(rest[2] == third);
            assert((third as i8 >= -64) == !(0x80 <= third <= 0xBF)) by (bit_vector);
            if third as i8 >= -64 {
                return Err(Utf8Error { valid_up_to: prev, error_len: Some(2) });
            }

            curr += 1;
            if curr >= end {
                return Err(Utf8Error { valid_up_to: prev, error_len: None });
            }
            let fourth = buf[curr];
            assert(rest[3] == fourth);
            assert((fourth as i8 >= -64) == !(0x80 <= fourth <= 0xBF)) by (bit_vector);
            if fourth as i8 >= -64 {
                return Err(Utf8Error { valid_up_to: prev, error_len: Some(3) });
            }
        },
        _ => {
            return Err(Utf8Error { valid_up_to: prev, error_len: Some(1) });
        },
    }

    curr += 1;
    Ok(curr)
}

} // verus!
