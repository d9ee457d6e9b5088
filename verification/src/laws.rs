//! What holds of well-formedness and of the validator's verdict.
//!
//! The validator promises the first malformation of its input, as a scan from the left finds
//! it. The laws here say what that is worth: there is none exactly in well-formed input, it
//! lies behind the longest well-formed prefix, its size is that of the longest beginning of
//! an encoded scalar that stands there, it does not move when well-formed bytes are put in
//! front, and well-formed means valid to `vstd::utf8`.

use vstd::prelude::*;
use crate::ascii::{
    ascii_run_end, lemma_ascii_run_end_bounds, lemma_ascii_run_end_holds,
    lemma_fast_path_tally_bounds,
};
use crate::encoding::{
    char_width, decoder_runs, error_len_of, first_malformation, first_malformation_from,
    is_ascii_byte, is_continuation_byte, is_longest_valid_prefix, lead_bytes, lemma_ascii_run,
    lemma_ascii_run_has_no_lead, lemma_scalar_has_one_lead, matched_len, starts_with_scalar,
    well_formed, Malformation,
};
use crate::stats::Tally;
use crate::validate::{scan_tally, scan_tally_from};

verus! {

/// A scan from `start` finds nothing exactly if the bytes from `start` on are well-formed.
pub proof fn lemma_no_malformation_from(s: Seq<u8>, start: int)
    requires
        0 <= start <= s.len(),
    ensures
        first_malformation_from(s, start) is None <==> well_formed(s.skip(start)),
    decreases s.len() - start,
{
    let rest = s.skip(start);
    if start < s.len() {
        assert(rest[0] == s[start]);
        if starts_with_scalar(rest) {
            let w = char_width(s[start]) as int;
            lemma_no_malformation_from(s, start + w);
            assert(rest.skip(w) =~= s.skip(start + w));
        }
    }
}

/// A byte sequence has no malformation exactly if it is well-formed.
pub proof fn lemma_no_malformation_iff_well_formed(s: Seq<u8>)
    ensures
        first_malformation(s) is None <==> well_formed(s),
{
    lemma_no_malformation_from(s, 0);
    assert(s.skip(0) =~= s);
}

/// Whether an encoded scalar begins a sequence is decided by the bytes of that scalar alone:
/// what follows them does not matter.
pub proof fn lemma_scalar_needs_only_its_bytes(s: Seq<u8>, t: Seq<u8>)
    requires
        starts_with_scalar(s),
        t.len() >= char_width(s[0]),
        forall|i: int| 0 <= i < char_width(s[0]) ==> s[i] == t[i],
    ensures
        starts_with_scalar(t),
        char_width(t[0]) == char_width(s[0]),
{
    assert(s[0] == t[0]);
    if char_width(s[0]) >= 2 {
        assert(s[1] == t[1]);
    }
    if char_width(s[0]) >= 3 {
        assert(s[2] == t[2]);
    }
    if char_width(s[0]) >= 4 {
        assert(s[3] == t[3]);
    }
}

/// A sequence that begins with an encoded scalar still does after bytes are added at its end.
pub proof fn lemma_scalar_survives_extension(s: Seq<u8>, t: Seq<u8>)
    requires
        starts_with_scalar(s),
        s.len() <= t.len(),
        forall|i: int| 0 <= i < s.len() ==> s[i] == t[i],
    ensures
        starts_with_scalar(t),
{
    lemma_scalar_needs_only_its_bytes(s, t);
}

/// What a scan from `start` reports: the place lies at or behind `start`, the bytes between
/// are well-formed, no encoded scalar begins at the place, and the size is that of the
/// malformed unit there.
pub proof fn lemma_malformation_from(s: Seq<u8>, start: int)
    requires
        0 <= start <= s.len(),
    ensures
        first_malformation_from(s, start) matches Some(m) ==> {
            &&& start <= m.valid_up_to < s.len()
            &&& well_formed(s.subrange(start, m.valid_up_to as int))
            &&& !starts_with_scalar(s.skip(m.valid_up_to as int))
            &&& m.error_len == error_len_of(s.skip(m.valid_up_to as int))
        },
    decreases s.len() - start,
{
    if start < s.len() {
        let rest = s.skip(start);
        assert(rest[0] == s[start]);
        if starts_with_scalar(rest) {
            let w = char_width(s[start]) as int;
            lemma_malformation_from(s, start + w);
            if first_malformation_from(s, start) is Some {
                let n = first_malformation_from(s, start)->0.valid_up_to as int;
                let part = s.subrange(start, n);
                lemma_scalar_needs_only_its_bytes(rest, part);
                assert(part.skip(w) =~= s.subrange(start + w, n));
            }
        }
    }
}

/// A scan of a prefix of `s` that reaches beyond the malformation of `s` runs into the same
/// place.
pub proof fn lemma_malformation_in_prefix(s: Seq<u8>, start: int, k: int)
    requires
        0 <= start <= s.len(),
        first_malformation_from(s, start) is Some,
        first_malformation_from(s, start)->0.valid_up_to < k <= s.len(),
    ensures
        first_malformation_from(s.take(k), start) is Some,
        first_malformation_from(s.take(k), start)->0.valid_up_to == first_malformation_from(
            s,
            start,
        )->0.valid_up_to,
    decreases s.len() - start,
{
    lemma_malformation_from(s, start);
    let rest = s.skip(start);
    let part = s.take(k).skip(start);
    assert(rest[0] == s[start]);
    assert(part[0] == s[start]);
    if starts_with_scalar(rest) {
        let w = char_width(s[start]) as int;
        lemma_malformation_from(s, start + w);
        lemma_malformation_in_prefix(s, start + w, k);
        lemma_scalar_needs_only_its_bytes(rest, part);
    } else {
        if starts_with_scalar(part) {
            lemma_scalar_survives_extension(part, rest);
        }
    }
}

/// The malformation of a byte sequence lies behind its longest well-formed prefix, where no
/// encoded scalar begins.
pub proof fn lemma_malformation_is_longest_prefix(s: Seq<u8>)
    ensures
        first_malformation(s) matches Some(m) ==> {
            &&& m.valid_up_to < s.len()
            &&& is_longest_valid_prefix(s, m.valid_up_to as int)
            &&& !starts_with_scalar(s.skip(m.valid_up_to as int))
            &&& m.error_len == error_len_of(s.skip(m.valid_up_to as int))
            &&& m.error_len matches Some(n) ==> 1 <= n <= 3 && m.valid_up_to + n <= s.len()
        },
{
    lemma_malformation_from(s, 0);
    if first_malformation(s) is Some {
        let n = first_malformation(s)->0.valid_up_to as int;
        lemma_error_len_meaning(s.skip(n));
        assert(s.subrange(0, n) =~= s.take(n));
        assert forall|k: int| n < k <= s.len() implies !well_formed(#[trigger] s.take(k)) by {
            lemma_malformation_in_prefix(s, 0, k);
            lemma_no_malformation_iff_well_formed(s.take(k));
        }
    }
}

/// A byte sequence has at most one longest well-formed prefix.
pub proof fn lemma_longest_valid_prefix_unique(s: Seq<u8>, n: int, m: int)
    requires
        is_longest_valid_prefix(s, n),
        is_longest_valid_prefix(s, m),
    ensures
        n == m,
{
    if n < m {
        assert(!well_formed(s.take(m)));
    }
    if m < n {
        assert(!well_formed(s.take(n)));
    }
}

proof fn lemma_two_bytes_decode(b1: u8, b2: u8)
    by (bit_vector)
    requires
        0xC0 <= b1 <= 0xDF,
        0x80 <= b2 <= 0xBF,
    ensures
        0x80 <= vstd::utf8::codepoint_width_2(b1, b2) <==> 0xC2 <= b1,
        vstd::utf8::codepoint_width_2(b1, b2) < 0xD800,
{
}

proof fn lemma_three_bytes_decode(b1: u8, b2: u8, b3: u8)
    by (bit_vector)
    requires
        0xE0 <= b1 <= 0xEF,
        0x80 <= b2 <= 0xBF,
        0x80 <= b3 <= 0xBF,
    ensures
        0x800 <= vstd::utf8::codepoint_width_3(b1, b2, b3) <==> (b1 == 0xE0 ==> 0xA0 <= b2),
        0xD800 <= vstd::utf8::codepoint_width_3(b1, b2, b3) <= 0xDFFF <==> (b1 == 0xED && 0xA0
            <= b2),
{
}

proof fn lemma_four_bytes_decode(b1: u8, b2: u8, b3: u8, b4: u8)
    by (bit_vector)
    requires
        0xF0 <= b1 <= 0xF7,
        0x80 <= b2 <= 0xBF,
        0x80 <= b3 <= 0xBF,
        0x80 <= b4 <= 0xBF,
    ensures
        0x10000 <= vstd::utf8::codepoint_width_4(b1, b2, b3, b4) <==> (b1 == 0xF0 ==> 0x90 <= b2),
        vstd::utf8::codepoint_width_4(b1, b2, b3, b4) <= 0x10FFFF <==> (b1 < 0xF4 || (b1 == 0xF4
            && b2 <= 0x8F)),
{
}

/// The byte ranges of the syntax admit exactly the sequences that decode to a scalar value
/// in its shortest form: an encoded scalar here is a valid first scalar to `vstd::utf8`, of
/// the same length.
pub proof fn lemma_scalar_iff_valid_first_scalar(s: Seq<u8>)
    ensures
        starts_with_scalar(s) <==> s.len() > 0 && vstd::utf8::valid_first_scalar(s),
        starts_with_scalar(s) ==> char_width(s[0]) == vstd::utf8::length_of_first_scalar(s),
{
    if s.len() > 0 {
        let b1 = s[0];
        if 0xC0 <= b1 <= 0xDF && s.len() >= 2 && is_continuation_byte(s[1]) {
            lemma_two_bytes_decode(b1, s[1]);
        }
        if 0xE0 <= b1 <= 0xEF && s.len() >= 3 && is_continuation_byte(s[1])
            && is_continuation_byte(s[2]) {
            lemma_three_bytes_decode(b1, s[1], s[2]);
        }
        if 0xF0 <= b1 <= 0xF7 && s.len() >= 4 && is_continuation_byte(s[1])
            && is_continuation_byte(s[2]) && is_continuation_byte(s[3]) {
            lemma_four_bytes_decode(b1, s[1], s[2], s[3]);
        }
    }
}

/// Well-formedness by the byte ranges of the syntax is validity as `vstd::utf8` defines it by
/// decoding: no overlong form, no surrogate, nothing above U+10FFFF.
pub proof fn lemma_well_formed_iff_valid_utf8(s: Seq<u8>)
    ensures
        well_formed(s) <==> vstd::utf8::valid_utf8(s),
    decreases s.len(),
{
    if s.len() > 0 {
        lemma_scalar_iff_valid_first_scalar(s);
        if starts_with_scalar(s) {
            let w = char_width(s[0]) as int;
            assert(vstd::utf8::pop_first_scalar(s) =~= s.skip(w));
            lemma_well_formed_iff_valid_utf8(s.skip(w));
        }
    }
}

/// The malformation `m` of a sequence, as it shows when `n` bytes stand before that sequence.
pub open spec fn shifted(m: Option<Malformation>, n: nat) -> Option<Malformation> {
    match m {
        None => None,
        Some(m) => Some(
            Malformation { valid_up_to: n + m.valid_up_to, error_len: m.error_len },
        ),
    }
}

proof fn lemma_scan_passes_well_formed(a: Seq<u8>, b: Seq<u8>, start: int)
    requires
        0 <= start <= a.len(),
        well_formed(a.skip(start)),
    ensures
        first_malformation_from(a + b, start) == first_malformation_from(a + b, a.len() as int),
    decreases a.len() - start,
{
    if start < a.len() {
        let rest = a.skip(start);
        let w = char_width(a[start]) as int;
        assert(rest[0] == a[start]);
        lemma_scalar_survives_extension(rest, (a + b).skip(start));
        assert(rest.skip(w) =~= a.skip(start + w));
        lemma_scan_passes_well_formed(a, b, start + w);
    }
}

proof fn lemma_scan_behind_prefix(a: Seq<u8>, b: Seq<u8>, start: int)
    requires
        0 <= start <= b.len(),
    ensures
        first_malformation_from(a + b, a.len() + start) == shifted(
            first_malformation_from(b, start),
            a.len(),
        ),
    decreases b.len() - start,
{
    if start < b.len() {
        assert((a + b).skip(a.len() + start) =~= b.skip(start));
        if starts_with_scalar(b.skip(start)) {
            lemma_scan_behind_prefix(a, b, start + char_width(b[start]));
        }
    }
}

/// Bytes that were found well-formed are not judged again when more bytes follow them: the
/// verdict on `a + b`, for a well-formed `a`, is the verdict on `b`, moved behind `a`.
pub proof fn lemma_valid_chunk_then_rest(a: Seq<u8>, b: Seq<u8>)
    requires
        well_formed(a),
    ensures
        first_malformation(a + b) == shifted(first_malformation(b), a.len()),
        well_formed(a + b) <==> well_formed(b),
        first_malformation(a + b) matches Some(m) ==> m.valid_up_to >= a.len(),
{
    assert(a.skip(0) =~= a);
    lemma_scan_passes_well_formed(a, b, 0);
    lemma_scan_behind_prefix(a, b, 0);
    lemma_no_malformation_iff_well_formed(a + b);
    lemma_no_malformation_iff_well_formed(b);
}

/// The empty sequence is well-formed.
pub proof fn lemma_empty_is_well_formed()
    ensures
        well_formed(Seq::<u8>::empty()),
        first_malformation(Seq::<u8>::empty()) is None,
{
}

/// Well-formed bytes behind well-formed bytes are well-formed.
pub proof fn lemma_well_formed_concat(a: Seq<u8>, b: Seq<u8>)
    requires
        well_formed(a),
        well_formed(b),
    ensures
        well_formed(a + b),
{
    lemma_valid_chunk_then_rest(a, b);
}

/// Whether `t` is one encoded scalar and nothing more.
pub open spec fn is_encoded_scalar(t: Seq<u8>) -> bool {
    starts_with_scalar(t) && t.len() == char_width(t[0])
}

/// Whether `p` is the beginning of an encoded scalar: some bytes, or none, complete it.
pub open spec fn is_scalar_prefix(p: Seq<u8>) -> bool {
    exists|t: Seq<u8>| is_encoded_scalar(#[trigger] (p + t))
}

/// Bytes that complete the beginning `p` of an encoded scalar of which `matched_len` accepts
/// every byte.
spec fn completion(p: Seq<u8>) -> Seq<u8> {
    if p.len() == 0 {
        seq![0x41u8]
    } else {
        let second: u8 = if p[0] == 0xE0 {
            0xA0
        } else if p[0] == 0xF0 {
            0x90
        } else {
            0x80
        };
        let bytes = seq![p[0], second, 0x80u8, 0x80u8];
        bytes.subrange(p.len() as int, char_width(p[0]) as int)
    }
}

/// `matched_len` is what it is meant to be: the first `matched_len(s)` bytes of `s` are the
/// beginning of an encoded scalar, and no longer prefix of `s` is.
pub proof fn lemma_matched_len_is_longest_scalar_prefix(s: Seq<u8>)
    ensures
        matched_len(s) <= s.len(),
        matched_len(s) <= 4,
        is_scalar_prefix(s.take(matched_len(s) as int)),
        forall|j: int| matched_len(s) < j <= s.len() ==> !is_scalar_prefix(#[trigger] s.take(j)),
{
    let k = matched_len(s) as int;
    let p = s.take(k);
    let t = completion(p);
    let whole = p + t;
    if k > 0 {
        assert(whole.len() == char_width(s[0]));
        assert(whole[0] == s[0]);
        if k >= 2 {
            assert(whole[1] == s[1]);
        }
        if k >= 3 {
            assert(whole[2] == s[2]);
        }
        if k >= 4 {
            assert(whole[3] == s[3]);
        }
    }
    assert(is_encoded_scalar(whole));
    assert forall|j: int| k < j <= s.len() implies !is_scalar_prefix(#[trigger] s.take(j)) by {
        let q = s.take(j);
        if is_scalar_prefix(q) {
            let u = choose|u: Seq<u8>| is_encoded_scalar(#[trigger] (q + u));
            let all = q + u;
            assert(all[0] == s[0]);
            if j >= 2 {
                assert(all[1] == s[1]);
            }
            if j >= 3 {
                assert(all[2] == s[2]);
            }
            if j >= 4 {
                assert(all[3] == s[3]);
            }
            assert(false);
        }
    }
}

/// What the size of a malformed unit says. `None` stands for a beginning of an encoded scalar
/// that reaches to the end of the bytes. Otherwise the unit has one to three bytes, all of
/// them there: the longest beginning of an encoded scalar, or a single byte that begins none.
/// With one byte more it is no beginning of an encoded scalar.
pub proof fn lemma_error_len_meaning(rest: Seq<u8>)
    requires
        rest.len() > 0,
        !starts_with_scalar(rest),
    ensures
        error_len_of(rest) is None <==> is_scalar_prefix(rest),
        error_len_of(rest) is None ==> rest.len() <= 3,
        error_len_of(rest) matches Some(n) ==> {
            &&& 1 <= n <= 3
            &&& n <= rest.len()
            &&& n == if matched_len(rest) == 0 {
                1
            } else {
                matched_len(rest)
            }
            &&& !is_scalar_prefix(rest.take(matched_len(rest) as int + 1))
        },
{
    lemma_matched_len_is_longest_scalar_prefix(rest);
    let k = matched_len(rest) as int;
    if k == rest.len() {
        assert(rest.take(k) =~= rest);
    } else {
        if is_scalar_prefix(rest) {
            assert(rest.take(rest.len() as int) =~= rest);
        }
        assert(!is_scalar_prefix(rest.take(k + 1)));
    }
}

/// What is left of the decoder's runs for a scan that has come to `from`.
spec fn decoder_runs_from(s: Seq<u8>, from: int) -> int {
    match first_malformation_from(s, from) {
        None => lead_bytes(s, s.len() as int) - lead_bytes(s, from),
        Some(m) => lead_bytes(s, m.valid_up_to as int) - lead_bytes(s, from) + 1,
    }
}

proof fn lemma_scan_tally_from(s: Seq<u8>, align_offset: usize, from: int)
    requires
        0 <= from <= s.len(),
    ensures
        scan_tally_from(s, align_offset, from).at_most(s.len() - from),
        scan_tally_from(s, align_offset, from).non_ascii_checks == decoder_runs_from(s, from),
        align_offset == usize::MAX ==> scan_tally_from(s, align_offset, from) == (Tally {
            non_ascii_checks: scan_tally_from(s, align_offset, from).non_ascii_checks,
            ..Tally::zero()
        }),
    decreases s.len() - from,
{
    if from < s.len() {
        if is_ascii_byte(s[from]) {
            if align_offset == usize::MAX {
                lemma_scan_tally_from(s, align_offset, from + 1);
                lemma_ascii_run(s, from, from + 1);
                lemma_ascii_run_has_no_lead(s, from, from + 1);
            } else {
                let stop = ascii_run_end(s, from);
                lemma_ascii_run_end_bounds(s, from);
                lemma_ascii_run_end_holds(s, from);
                lemma_fast_path_tally_bounds(from, stop, s.len() as int, align_offset);
                lemma_scan_tally_from(s, align_offset, stop);
                lemma_ascii_run(s, from, stop);
                lemma_ascii_run_has_no_lead(s, from, stop);
            }
        } else {
            if starts_with_scalar(s.skip(from)) {
                lemma_scalar_has_one_lead(s, from);
                lemma_scan_tally_from(s, align_offset, from + char_width(s[from]));
            }
        }
    }
}

/// Whatever the place of the buffer in memory, a scan raises no counter more often than the
/// buffer has bytes, and the decoder's counter as often as the decoder has to run. Where no
/// word boundary is known, no other counter is raised.
pub proof fn lemma_scan_tally(s: Seq<u8>, align_offset: usize)
    ensures
        scan_tally(s, align_offset).at_most(s.len() as int),
        scan_tally(s, align_offset).non_ascii_checks == decoder_runs(s),
        align_offset == usize::MAX ==> scan_tally(s, align_offset) == (Tally {
            non_ascii_checks: decoder_runs(s),
            ..Tally::zero()
        }),
{
    lemma_scan_tally_from(s, align_offset, 0);
}

} // verus!
