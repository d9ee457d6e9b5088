//! The validator.

use vstd::prelude::*;
use crate::ascii::{
    ascii_run_end, fast_path_tally, lemma_ascii_run_end, lemma_ascii_run_end_bounds, skip_ascii,
    BlockEnds,
};
use crate::decode::validate_non_acii_bytes;
use crate::encoding::{
    char_width, decoder_runs, error_len_of, first_malformation, first_malformation_from,
    is_ascii_byte, is_longest_valid_prefix, lead_bytes, lemma_ascii_run, lemma_ascii_run_has_no_lead,
    lemma_scalar_has_one_lead, starts_with_scalar, well_formed,
};
use crate::error::Utf8Error;
use crate::laws::{
    lemma_malformation_is_longest_prefix, lemma_no_malformation_iff_well_formed,
    lemma_well_formed_iff_valid_utf8,
};
use crate::stats::{Statistics, Tally};
use crate::word::word_align_offset;

verus! {

/// What a scan of `s` counts from index `from` on, for a buffer whose first byte lies
/// `align_offset` bytes before a word boundary, or of which no boundary is known, which
/// `usize::MAX` stands for.
///
/// On an ASCII byte the fast path counts its way to the end of the run of ASCII; without a
/// boundary the scan steps over the byte and counts nothing. On any other byte the decoder
/// runs once, and the scan goes on behind the encoded scalar, where there is one.
pub open spec fn scan_tally_from(s: Seq<u8>, align_offset: usize, from: int) -> Tally
    decreases s.len() - from,
{
    if from < 0 || from >= s.len() {
        Tally::zero()
    } else if is_ascii_byte(s[from]) {
        if align_offset == usize::MAX {
            scan_tally_from(s, align_offset, from + 1)
        } else {
            proof {
                lemma_ascii_run_end_bounds(s, from);
            }
            let stop = ascii_run_end(s, from);
            fast_path_tally(from, stop, s.len() as int, align_offset).plus(
                scan_tally_from(s, align_offset, stop),
            )
        }
    } else {
        let decoded = Tally { non_ascii_checks: 1, ..Tally::zero() };
        if starts_with_scalar(s.skip(from)) {
            decoded.plus(scan_tally_from(s, align_offset, from + char_width(s[from])))
        } else {
            decoded
        }
    }
}

/// What a scan of all of `s` counts.
pub open spec fn scan_tally(s: Seq<u8>, align_offset: usize) -> Tally {
    scan_tally_from(s, align_offset, 0)
}

/// Scans `buf` from its first byte to the first malformation, or to its end.
fn scan<const RECORD: bool>(buf: &[u8], align_offset: usize, stats: &mut Statistics) -> (res:
    Result<(), Utf8Error>)
    requires
        old(stats).has_room(buf.len() as int),
    ensures
        first_malformation(buf@) == match res {
            Ok(()) => None,
            Err(e) => Some(e@),
        },
        final(stats).counted_from(old(stats), buf.len() as int),
        RECORD ==> final(stats).non_ascii_checks == old(stats).non_ascii_checks + decoder_runs(
            buf@,
        ),
        RECORD ==> final(stats).counted(old(stats), scan_tally(buf@, align_offset)),
        !RECORD ==> *final(stats) == *old(stats),
{
    let mut curr: usize = 0;
    let end = buf.len();
    // the bounds below which a block of each size can begin
    let ends = BlockEnds::new(end);
    let ghost mut done = Tally::zero();

    while curr < end
        invariant
            curr <= end,
            end == buf.len(),
            ends.wf(end as int),
            first_malformation(buf@) == first_malformation_from(buf@, curr as int),
            old(stats).has_room(end as int),
            stats.counted_from(old(stats), curr as int),
            RECORD ==> stats.non_ascii_checks == old(stats).non_ascii_checks + lead_bytes(
                buf@,
                curr as int,
            ),
            RECORD ==> stats.counted(old(stats), done),
            scan_tally(buf@, align_offset) == done.plus(
                scan_tally_from(buf@, align_offset, curr as int),
            ),
            !RECORD ==> *stats == *old(stats),
        decreases end - curr,
    {
        if buf[curr] < 128 {
            let ghost before = curr;
            if align_offset == usize::MAX {
                // no word boundary can be told: go byte by byte
                curr += 1;
                proof {
                    lemma_ascii_run(buf@, before as int, curr as int);
                    lemma_ascii_run_has_no_lead(buf@, before as int, curr as int);
                }
                continue ;
            }
            curr = skip_ascii::<RECORD>(buf, curr, align_offset, &ends, stats);
            proof {
                lemma_ascii_run(buf@, before as int, curr as int);
                lemma_ascii_run_has_no_lead(buf@, before as int, curr as int);
                lemma_ascii_run_end(buf@, before as int, curr as int);
                let path = fast_path_tally(before as int, curr as int, end as int, align_offset);
                let rest = scan_tally_from(buf@, align_offset, curr as int);
                assert(scan_tally_from(buf@, align_offset, before as int) == path.plus(rest));
                assert(done.plus(path.plus(rest)) == done.plus(path).plus(rest));
                done = done.plus(path);
            }
            if curr == end {
                return Ok(());
            }
        }
        if RECORD {
            stats.non_ascii_checks += 1;
        }
        proof {
            assert(buf@.subrange(curr as int, end as int) =~= buf@.skip(curr as int));
            if starts_with_scalar(buf@.skip(curr as int)) {
                lemma_scalar_has_one_lead(buf@, curr as int);
            }
            let decoded = Tally { non_ascii_checks: 1, ..Tally::zero() };
            let rest = if starts_with_scalar(buf@.skip(curr as int)) {
                scan_tally_from(buf@, align_offset, curr + char_width(buf[curr as int]))
            } else {
                Tally::zero()
            };
            assert(scan_tally_from(buf@, align_offset, curr as int) == decoded.plus(rest));
            assert(done.plus(decoded.plus(rest)) == done.plus(decoded).plus(rest));
            done = done.plus(decoded);
        }

        // non-ASCII case: validate up to 4 bytes, then advance `curr` accordingly
        match validate_non_acii_bytes(buf, curr, end) {
            Ok(next) => curr = next,
            Err(e) => return Err(e),
        }
    }

    Ok(())
}

/// Validates `buf` as [`validate_utf8_with_stats`] does, for a buffer whose first byte lies
/// `align_offset` bytes before a word boundary.
///
/// The verdict is the same for every `align_offset`: the offset only decides where the fast
/// path changes from single bytes to blocks of words, and with that what `stats` count.
/// `usize::MAX` stands for a buffer of which no word boundary is known.
pub fn validate_utf8_aligned(buf: &[u8], align_offset: usize, stats: Option<&mut Statistics>) -> (res:
    Result<(), Utf8Error>)
    requires
        stats matches Some(s) ==> s.has_room(buf.len() as int),
    ensures
        res is Ok <==> well_formed(buf@),
        res is Ok <==> vstd::utf8::valid_utf8(buf@),
        res matches Err(e) ==> {
            &&& e.valid_up_to < buf.len()
            &&& is_longest_valid_prefix(buf@, e.valid_up_to as int)
            &&& e.error_len == error_len_of(buf@.skip(e.valid_up_to as int))
            &&& e.error_len matches Some(n) ==> 1 <= n <= 3 && e.valid_up_to + n <= buf.len()
        },
        first_malformation(buf@) == match res {
            Ok(()) => None,
            Err(e) => Some(e@),
        },
        stats matches Some(s) ==> {
            &&& final(s).counted(s, scan_tally(buf@, align_offset))
            &&& final(s).counted_from(s, buf.len() as int)
            &&& final(s).non_ascii_checks == s.non_ascii_checks + decoder_runs(buf@)
        },
{
    proof {
        lemma_no_malformation_iff_well_formed(buf@);
        lemma_malformation_is_longest_prefix(buf@);
        lemma_well_formed_iff_valid_utf8(buf@);
    }
    match stats {
        Some(stats) => scan::<true>(buf, align_offset, stats),
        None => {
            let mut unused = Statistics::default();
            scan::<false>(buf, align_offset, &mut unused)
        },
    }
}

/// Validates `buf` as UTF-8 and counts in `stats`, where some are given, what the fast path
/// over ASCII did on the way.
///
/// The verdict is that of [`validate_utf8`], with or without `stats`. The counters are raised
/// as [`scan_tally`] says for the place of `buf` in memory, which decides where the blocks of
/// words begin. Wherever that is, no counter is lowered, none is raised by more than the
/// length of `buf`, `non_ascii_checks` is raised once for each run of the decoder, and
/// `optimistic_2x_to_8x` is left alone.
pub fn validate_utf8_with_stats(buf: &[u8], stats: Option<&mut Statistics>) -> (res: Result<
    (),
    Utf8Error,
>)
    requires
        stats matches Some(s) ==> s.has_room(buf.len() as int),
    ensures
        res is Ok <==> well_formed(buf@),
        res is Ok <==> vstd::utf8::valid_utf8(buf@),
        res matches Err(e) ==> {
            &&& e.valid_up_to < buf.len()
            &&& is_longest_valid_prefix(buf@, e.valid_up_to as int)
            &&& e.error_len == error_len_of(buf@.skip(e.valid_up_to as int))
            &&& e.error_len matches Some(n) ==> 1 <= n <= 3 && e.valid_up_to + n <= buf.len()
        },
        first_malformation(buf@) == match res {
            Ok(()) => None,
            Err(e) => Some(e@),
        },
        stats matches Some(s) ==> {
            &&& exists|align_offset: usize|
                final(s).counted(s, #[trigger] scan_tally(buf@, align_offset))
            &&& final(s).counted_from(s, buf.len() as int)
            &&& final(s).non_ascii_checks == s.non_ascii_checks + decoder_runs(buf@)
        },
{
    // the offset, in bytes, of the first word boundary in the buffer
    let align_offset = word_align_offset(buf);
    validate_utf8_aligned(buf, align_offset, stats)
}

/// Validates `buf` as UTF-8.
///
/// Returns `Ok` exactly if `buf` is well-formed. Otherwise the error holds the length of the
/// longest well-formed prefix of `buf` in `valid_up_to`, and in `error_len` the size of the
/// malformed unit that follows it: `None` where `buf` ends inside an encoded scalar.
pub fn validate_utf8(buf: &[u8]) -> (res: Result<(), Utf8Error>)
    ensures
        res is Ok <==> well_formed(buf@),
        res is Ok <==> vstd::utf8::valid_utf8(buf@),
        res matches Err(e) ==> {
            &&& e.valid_up_to < buf.len()
            &&& is_longest_valid_prefix(buf@, e.valid_up_to as int)
            &&& e.error_len == error_len_of(buf@.skip(e.valid_up_to as int))
            &&& e.error_len matches Some(n) ==> 1 <= n <= 3 && e.valid_up_to + n <= buf.len()
        },
        first_malformation(buf@) == match res {
            Ok(()) => None,
            Err(e) => Some(e@),
        },
{
    validate_utf8_with_stats(buf, None)
}

} // verus!
