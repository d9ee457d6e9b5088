//! The syntax of UTF-8, stated over sequences of bytes.
//!
//! A well-formed sequence is a concatenation of encoded scalar values, each of which is one
//! of
//!
//! ```text
//! UTF8-1 = 00-7F
//! UTF8-2 = C2-DF tail
//! UTF8-3 = E0 A0-BF tail / E1-EC tail tail / ED 80-9F tail / EE-EF tail tail
//! UTF8-4 = F0 90-BF tail tail / F1-F3 tail tail tail / F4 80-8F tail tail
//! tail   = 80-BF
//! ```
//!
//! The narrowed ranges after `E0` and `F0` keep out overlong forms, the one after `ED` keeps
//! out the surrogates, and the one after `F4` keeps out everything above U+10FFFF.

use vstd::prelude::*;

verus! {

/// A byte that encodes an ASCII character by itself.
pub open spec fn is_ascii_byte(byte: u8) -> bool {
    byte < 0x80
}

/// A continuation byte, `10xxxxxx`.
pub open spec fn is_continuation_byte(byte: u8) -> bool {
    0x80 <= byte <= 0xBF
}

/// The number of bytes in an encoded scalar that begins with `lead`, or 0 where no encoded
/// scalar begins with it: a stray continuation byte, `C0`, `C1`, and `F5` and above.
pub open spec fn char_width(lead: u8) -> nat {
    if lead < 0x80 {
        1
    } else if 0xC2 <= lead <= 0xDF {
        2
    } else if 0xE0 <= lead <= 0xEF {
        3
    } else if 0xF0 <= lead <= 0xF4 {
        4
    } else {
        0
    }
}

/// Whether `byte` may stand directly after the lead byte `lead` of a sequence of two or more
/// bytes.
pub open spec fn is_second_byte(lead: u8, byte: u8) -> bool {
    if lead == 0xE0 {
        0xA0 <= byte <= 0xBF
    } else if lead == 0xED {
        0x80 <= byte <= 0x9F
    } else if lead == 0xF0 {
        0x90 <= byte <= 0xBF
    } else if lead == 0xF4 {
        0x80 <= byte <= 0x8F
    } else {
        is_continuation_byte(byte)
    }
}

/// The length of the longest prefix of `s` that is also a prefix of some encoded scalar;
/// never more than four, and 0 where `s` is empty or its first byte opens nothing.
pub open spec fn matched_len(s: Seq<u8>) -> nat {
    if s.len() == 0 || char_width(s[0]) == 0 {
        0
    } else if char_width(s[0]) == 1 || s.len() < 2 || !is_second_byte(s[0], s[1]) {
        1
    } else if char_width(s[0]) == 2 || s.len() < 3 || !is_continuation_byte(s[2]) {
        2
    } else if char_width(s[0]) == 3 || s.len() < 4 || !is_continuation_byte(s[3]) {
        3
    } else {
        4
    }
}

/// Whether `s` begins with one complete encoded scalar.
pub open spec fn starts_with_scalar(s: Seq<u8>) -> bool {
    s.len() > 0 && char_width(s[0]) > 0 && matched_len(s) == char_width(s[0])
}

/// Whether `s` is well-formed UTF-8: empty, or one encoded scalar followed by well-formed
/// UTF-8.
pub open spec fn well_formed(s: Seq<u8>) -> bool
    decreases s.len(),
{
    s.len() == 0 || (starts_with_scalar(s) && well_formed(s.skip(char_width(s[0]) as int)))
}

/// Whether the first `n` bytes of `s` are well-formed and no longer prefix of `s` is.
pub open spec fn is_longest_valid_prefix(s: Seq<u8>, n: int) -> bool {
    &&& 0 <= n <= s.len()
    &&& well_formed(s.take(n))
    &&& forall|m: int| n < m <= s.len() ==> !well_formed(#[trigger] s.take(m))
}

/// The size of the malformed unit at the start of `rest`, which does not begin with an
/// encoded scalar.
///
/// `None` says that `rest` is cut short: all of it is the beginning of an encoded scalar, and
/// more bytes could complete it. Otherwise the unit is the longest prefix of `rest` that
/// could still have been completed, and a single byte where there is no such prefix.
pub open spec fn error_len_of(rest: Seq<u8>) -> Option<u8>
    recommends
        rest.len() > 0,
        !starts_with_scalar(rest),
{
    let k = matched_len(rest);
    if k == 0 {
        Some(1)
    } else if k == rest.len() {
        None
    } else {
        Some(k as u8)
    }
}

/// Where a byte sequence stops being well-formed, and by how much.
pub struct Malformation {
    /// The number of bytes before the malformed unit.
    pub valid_up_to: nat,
    /// The size of the malformed unit, see [`error_len_of`].
    pub error_len: Option<u8>,
}

/// What a scan of `s` that reads one encoded scalar after the other, beginning at index
/// `start`, runs into first: nothing, or the place where no encoded scalar begins.
pub open spec fn first_malformation_from(s: Seq<u8>, start: int) -> Option<Malformation>
    decreases s.len() - start,
{
    if start < 0 || start >= s.len() {
        None
    } else if starts_with_scalar(s.skip(start)) {
        first_malformation_from(s, start + char_width(s[start]))
    } else {
        Some(Malformation { valid_up_to: start as nat, error_len: error_len_of(s.skip(start)) })
    }
}

/// The first malformation of `s`, `None` where there is none.
pub open spec fn first_malformation(s: Seq<u8>) -> Option<Malformation> {
    first_malformation_from(s, 0)
}

/// The number of bytes among the first `n` of `s` that are neither ASCII nor continuation
/// bytes. In well-formed bytes these are the lead bytes of the encoded scalars of more than
/// one byte.
pub open spec fn lead_bytes(s: Seq<u8>, n: int) -> nat
    decreases n,
{
    if n <= 0 {
        0
    } else {
        lead_bytes(s, n - 1) + if s[n - 1] >= 0xC0 {
            1nat
        } else {
            0nat
        }
    }
}

/// The number of times a scan of `s` has to decode: once for each encoded scalar other than
/// ASCII in the longest well-formed prefix, and once more for the malformed unit behind it.
pub open spec fn decoder_runs(s: Seq<u8>) -> nat {
    match first_malformation(s) {
        None => lead_bytes(s, s.len() as int),
        Some(m) => lead_bytes(s, m.valid_up_to as int) + 1,
    }
}

/// Over a run of ASCII bytes the scan only moves forward.
pub proof fn lemma_ascii_run(s: Seq<u8>, from: int, to: int)
    requires
        0 <= from <= to <= s.len(),
        forall|i: int| from <= i < to ==> is_ascii_byte(#[trigger] s[i]),
    ensures
        first_malformation_from(s, from) == first_malformation_from(s, to),
    decreases to - from,
{
    if from < to {
        assert(s.skip(from)[0] == s[from]);
        lemma_ascii_run(s, from + 1, to);
    }
}

/// A run of ASCII holds no lead byte.
pub proof fn lemma_ascii_run_has_no_lead(s: Seq<u8>, from: int, to: int)
    requires
        0 <= from <= to <= s.len(),
        forall|i: int| from <= i < to ==> is_ascii_byte(#[trigger] s[i]),
    ensures
        lead_bytes(s, to) == lead_bytes(s, from),
    decreases to - from,
{
    if from < to {
        assert(is_ascii_byte(s[to - 1]));
        lemma_ascii_run_has_no_lead(s, from, to - 1);
    }
}

/// An encoded scalar of more than one byte holds one lead byte, its first.
pub proof fn lemma_scalar_has_one_lead(s: Seq<u8>, at: int)
    requires
        0 <= at < s.len(),
        !is_ascii_byte(s[at]),
        starts_with_scalar(s.skip(at)),
    ensures
        lead_bytes(s, at + char_width(s[at])) == lead_bytes(s, at) + 1,
{
    let rest = s.skip(at);
    assert(rest[0] == s[at]);
    assert(rest[1] == s[at + 1]);
    if char_width(s[at]) >= 3 {
        assert(rest[2] == s[at + 2]);
    }
    if char_width(s[at]) >= 4 {
        assert(rest[3] == s[at + 3]);
    }
    reveal_with_fuel(lead_bytes, 5);
}

} // verus!
