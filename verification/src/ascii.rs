//! The fast path over runs of ASCII.
//!
//! From a cursor that stands on an ASCII byte, the scan walks up to a word boundary, then
//! takes blocks of eight words, of four and of two for as long as a block still fits into the
//! buffer and holds nothing but ASCII, and walks the rest byte by byte. It stops on the first
//! byte that is not ASCII, or at the end of the buffer.

use vstd::prelude::*;
use crate::encoding::is_ascii_byte;
use crate::stats::{Statistics, Tally};
use crate::word::{
    block_bytes, has_non_ascii_byte, lemma_block_bytes_len, load_block, non_ascii_byte_position,
    WORD_BYTES,
};

verus! {

/// One past the last index at which a block of `block_size` bytes still fits into a buffer of
/// `end` bytes: a block fits at `curr` exactly if `curr < block_end(end, block_size)`.
pub open spec fn block_end_of(end: int, block_size: int) -> int {
    if end >= block_size {
        end - block_size + 1
    } else {
        0
    }
}

/// Computes the bound below which a block of `block_size` bytes can begin in a buffer of
/// `end` bytes.
pub fn block_end(end: usize, block_size: usize) -> (bound: usize)
    requires
        block_size > 0,
    ensures
        bound == block_end_of(end as int, block_size as int),
{
    if end >= block_size {
        end - block_size + 1
    } else {
        0
    }
}

/// The bounds for the three sizes of block, computed once for a buffer.
pub struct BlockEnds {
    /// Bound for blocks of eight words.
    pub x8: usize,
    /// Bound for blocks of four words.
    pub x4: usize,
    /// Bound for blocks of two words.
    pub x2: usize,
}

impl BlockEnds {
    /// Whether the bounds are those of a buffer of `end` bytes.
    pub open spec fn wf(&self, end: int) -> bool {
        &&& self.x8 == block_end_of(end, 8 * WORD_BYTES)
        &&& self.x4 == block_end_of(end, 4 * WORD_BYTES)
        &&& self.x2 == block_end_of(end, 2 * WORD_BYTES)
    }

    /// Computes the bounds for a buffer of `end` bytes.
    pub fn new(end: usize) -> (ends: BlockEnds)
        ensures
            ends.wf(end as int),
    {
        BlockEnds {
            x8: block_end(end, 8 * WORD_BYTES),
            x4: block_end(end, 4 * WORD_BYTES),
            x2: block_end(end, 2 * WORD_BYTES),
        }
    }
}

/// The first index at or behind `from` at which no ASCII byte stands in `s`: the end of the
/// run of ASCII that begins at `from`.
pub open spec fn ascii_run_end(s: Seq<u8>, from: int) -> int
    decreases s.len() - from,
{
    if from < 0 || from >= s.len() || !is_ascii_byte(s[from]) {
        from
    } else {
        ascii_run_end(s, from + 1)
    }
}

/// The end of a run of ASCII lies at or behind its beginning, and behind it where the run is
/// not empty.
pub proof fn lemma_ascii_run_end_bounds(s: Seq<u8>, from: int)
    requires
        0 <= from <= s.len(),
    ensures
        from <= ascii_run_end(s, from) <= s.len(),
        from < s.len() && is_ascii_byte(s[from]) ==> from < ascii_run_end(s, from),
    decreases s.len() - from,
{
    if from < s.len() && is_ascii_byte(s[from]) {
        lemma_ascii_run_end_bounds(s, from + 1);
    }
}

/// The end of a run of ASCII is the one index behind ASCII bytes only at which no ASCII byte
/// stands.
pub proof fn lemma_ascii_run_end(s: Seq<u8>, from: int, stop: int)
    requires
        0 <= from <= stop <= s.len(),
        forall|i: int| from <= i < stop ==> is_ascii_byte(#[trigger] s[i]),
        stop < s.len() ==> !is_ascii_byte(s[stop]),
    ensures
        ascii_run_end(s, from) == stop,
    decreases stop - from,
{
    if from < stop {
        assert(is_ascii_byte(s[from]));
        lemma_ascii_run_end(s, from + 1, stop);
    }
}

/// The number of bytes from index `at` of a buffer to the next word boundary, where the
/// first byte of the buffer lies `align_offset` bytes before one.
pub open spec fn to_boundary(align_offset: usize, at: int) -> int {
    (align_offset - at) % (WORD_BYTES as int)
}

/// What a run of blocks of `size` bytes does that begins at `from` in a buffer of `end`
/// bytes, where ASCII reaches up to `stop`: the number of blocks that it takes, and whether
/// it ends on a block that holds the byte at `stop`. Such a block is the next one, where it
/// still fits into the buffer.
#[verifier::opaque]
pub open spec fn block_steps(from: int, stop: int, end: int, size: int) -> (nat, bool) {
    let taken = (stop - from) / size;
    (taken as nat, from + taken * size + size <= end)
}

/// What the fast path counts on its way from `start` to `stop`, the end of the run of ASCII,
/// in a buffer of `end` bytes whose first byte lies `align_offset` bytes before a word
/// boundary.
///
/// The walk up to the boundary counts once, where there is one. Then the blocks count, each
/// size in turn: those that hold only ASCII, and the one with the byte at `stop` in it, which
/// ends the path. Where the blocks of no size get that far, the walk over the rest counts
/// once.
#[verifier::opaque]
pub open spec fn fast_path_tally(start: int, stop: int, end: int, align_offset: usize) -> Tally {
    let walk = to_boundary(align_offset, start);
    let walked = Tally { unaligned_blocks: if walk > 0 { 1 } else { 0 }, ..Tally::zero() };
    if walk > 0 && stop <= start + walk {
        walked
    } else {
        let at8 = start + walk;
        let (n8, failed8) = block_steps(at8, stop, end, 8 * WORD_BYTES);
        let at4 = at8 + n8 * (8 * WORD_BYTES);
        let (n4, failed4) = block_steps(at4, stop, end, 4 * WORD_BYTES);
        let at2 = at4 + n4 * (4 * WORD_BYTES);
        let (n2, failed2) = block_steps(at2, stop, end, 2 * WORD_BYTES);
        if failed8 {
            Tally { success_blocks_8x: n8, failed_blocks_8x: 1, ..walked }
        } else if failed4 {
            Tally { success_blocks_8x: n8, success_blocks_4x: n4, failed_blocks_4x: 1, ..walked }
        } else if failed2 {
            Tally {
                success_blocks_8x: n8,
                success_blocks_4x: n4,
                success_blocks_2x: n2,
                failed_blocks_2x: 1,
                ..walked
            }
        } else {
            Tally {
                success_blocks_8x: n8,
                success_blocks_4x: n4,
                success_blocks_2x: n2,
                bytewise_checks: 1,
                ..walked
            }
        }
    }
}

/// How far a run of blocks came.
pub struct BlockRun {
    /// Where the run stopped: on the first byte that is not ASCII, where it met one, else
    /// behind the last block that it took.
    pub cursor: usize,
    /// The number of blocks that held nothing but ASCII.
    pub clean: usize,
    /// Whether the run met a byte that is not ASCII.
    pub dirty: bool,
}

/// Takes blocks of `N` words, from `start` on, for as long as the next one begins below
/// `bound` and holds nothing but ASCII.
///
/// A block is tested as a whole. In one that fails the test, the first byte that is not ASCII
/// is found from the words that were read, without another look at the bytes before it.
pub fn skip_blocks<const N: usize>(buf: &[u8], start: usize, bound: usize) -> (run: BlockRun)
    requires
        0 < N,
        start <= buf.len(),
        N * WORD_BYTES <= u32::MAX,
        bound == block_end_of(buf.len() as int, N * WORD_BYTES),
    ensures
        start <= run.cursor <= buf.len(),
        forall|i: int| start <= i < run.cursor ==> is_ascii_byte(#[trigger] buf[i]),
        run.dirty ==> run.cursor < buf.len() && !is_ascii_byte(buf[run.cursor as int]),
        run.clean <= run.cursor - start,
        (run.clean as nat, run.dirty) == block_steps(
            start as int,
            run.cursor as int,
            buf.len() as int,
            N * WORD_BYTES,
        ),
        !run.dirty ==> run.cursor == start + run.clean * (N * WORD_BYTES) && run.cursor + N
            * WORD_BYTES > buf.len(),
{
    let mut curr = start;
    let mut clean: usize = 0;
    proof {
        lemma_block_size::<N>();
    }
    while curr < bound
        invariant
            start <= curr <= buf.len(),
            0 < N * WORD_BYTES <= u32::MAX,
            bound == block_end_of(buf.len() as int, N * WORD_BYTES),
            curr == start + clean * (N * WORD_BYTES),
            clean <= curr - start,
            forall|i: int| start <= i < curr ==> is_ascii_byte(#[trigger] buf[i]),
        decreases buf.len() - curr,
    {
        let block: [usize; N] = load_block(buf, curr);
        let ghost bytes = block_bytes(block@);
        proof {
            lemma_block_bytes_len(block@);
        }
        if has_non_ascii_byte(&block) {
            // the number of bytes that can be skipped without looking at each
            let at = non_ascii_byte_position(block.as_slice()) as usize;
            assert(bytes[at as int] == buf[curr + at]);
            assert forall|i: int| start <= i < curr + at implies is_ascii_byte(
                #[trigger] buf[i],
            ) by {
                if i >= curr {
                    assert(bytes[i - curr] == buf[i]);
                }
            }
            proof {
                lemma_block_steps(
                    start as int,
                    curr + at,
                    buf.len() as int,
                    clean as int,
                    N * WORD_BYTES,
                );
            }
            return BlockRun { cursor: curr + at, clean, dirty: true };
        }
        assert forall|i: int| start <= i < curr + N * WORD_BYTES implies is_ascii_byte(
            #[trigger] buf[i],
        ) by {
            if i >= curr {
                assert(bytes[i - curr] == buf[i]);
            }
        }
        assert((clean + 1) * (N * WORD_BYTES) == clean * (N * WORD_BYTES) + N * WORD_BYTES)
            by (nonlinear_arith);
        curr += N * WORD_BYTES;
        clean += 1;
    }
    proof {
        lemma_block_steps(
            start as int,
            curr as int,
            buf.len() as int,
            clean as int,
            N * WORD_BYTES,
        );
    }
    BlockRun { cursor: curr, clean, dirty: false }
}

/// A run of blocks takes `taken` blocks where `stop` lies in the one behind them, and ends on
/// that one if it fits into the buffer.
pub proof fn lemma_block_steps(from: int, stop: int, end: int, taken: int, size: int)
    requires
        0 < size,
        0 <= taken,
        from + taken * size <= stop < from + taken * size + size,
    ensures
        block_steps(from, stop, end, size) == (taken as nat, from + taken * size + size <= end),
{
    reveal(block_steps);
    vstd::arithmetic::div_mod::lemma_fundamental_div_mod_converse(
        stop - from,
        size,
        taken,
        stop - from - taken * size,
    );
    assert(taken * size == size * taken) by (nonlinear_arith);
}

proof fn lemma_block_size<const N: usize>()
    requires
        0 < N,
    ensures
        0 < N * WORD_BYTES,
{
    assert(0 < N * WORD_BYTES) by (nonlinear_arith)
        requires
            0 < N,
            0 < WORD_BYTES,
    ;
}

/// The fast path that ends on the walk up to the word boundary counts that walk and nothing
/// else.
proof fn lemma_tally_of_walk(start: int, stop: int, end: int, align_offset: usize)
    requires
        to_boundary(align_offset, start) > 0,
        stop <= start + to_boundary(align_offset, start),
    ensures
        fast_path_tally(start, stop, end, align_offset) == (Tally {
            unaligned_blocks: 1,
            ..Tally::zero()
        }),
{
    reveal(fast_path_tally);
}

/// The fast path that gets to the blocks counts what the runs of blocks did, each run up to
/// the one that ended the path.
proof fn lemma_tally_of_blocks(
    start: int,
    stop: int,
    end: int,
    align_offset: usize,
    run8: (nat, bool),
    run4: (nat, bool),
    run2: (nat, bool),
)
    requires
        to_boundary(align_offset, start) == 0 || stop > start + to_boundary(align_offset, start),
        run8 == block_steps(start + to_boundary(align_offset, start), stop, end, 8 * WORD_BYTES),
        !run8.1 ==> run4 == block_steps(
            start + to_boundary(align_offset, start) + run8.0 * (8 * WORD_BYTES),
            stop,
            end,
            4 * WORD_BYTES,
        ),
        !run8.1 && !run4.1 ==> run2 == block_steps(
            start + to_boundary(align_offset, start) + run8.0 * (8 * WORD_BYTES) + run4.0 * (4
                * WORD_BYTES),
            stop,
            end,
            2 * WORD_BYTES,
        ),
    ensures
        fast_path_tally(start, stop, end, align_offset) == (Tally {
            unaligned_blocks: if to_boundary(align_offset, start) > 0 {
                1
            } else {
                0
            },
            success_blocks_8x: run8.0,
            failed_blocks_8x: if run8.1 {
                1
            } else {
                0
            },
            success_blocks_4x: if run8.1 {
                0
            } else {
                run4.0
            },
            failed_blocks_4x: if !run8.1 && run4.1 {
                1
            } else {
                0
            },
            success_blocks_2x: if run8.1 || run4.1 {
                0
            } else {
                run2.0
            },
            failed_blocks_2x: if !run8.1 && !run4.1 && run2.1 {
                1
            } else {
                0
            },
            bytewise_checks: if !run8.1 && !run4.1 && !run2.1 {
                1
            } else {
                0
            },
            non_ascii_checks: 0,
        }),
{
    reveal(fast_path_tally);
}

/// The bytes of a run of ASCII are ASCII, and the byte behind them is not.
pub proof fn lemma_ascii_run_end_holds(s: Seq<u8>, from: int)
    requires
        0 <= from <= s.len(),
    ensures
        from <= ascii_run_end(s, from) <= s.len(),
        forall|i: int| from <= i < ascii_run_end(s, from) ==> is_ascii_byte(#[trigger] s[i]),
        ascii_run_end(s, from) < s.len() ==> !is_ascii_byte(s[ascii_run_end(s, from)]),
    decreases s.len() - from,
{
    if from < s.len() && is_ascii_byte(s[from]) {
        lemma_ascii_run_end_holds(s, from + 1);
    }
}

/// On its way over a run of ASCII that is not empty, the fast path raises no counter more
/// often than the run has bytes, and the decoder's counter not at all.
pub proof fn lemma_fast_path_tally_bounds(start: int, stop: int, end: int, align_offset: usize)
    requires
        0 <= start < stop <= end,
    ensures
        fast_path_tally(start, stop, end, align_offset).at_most(stop - start),
        fast_path_tally(start, stop, end, align_offset).non_ascii_checks == 0,
{
    reveal(fast_path_tally);
    reveal(block_steps);
    let walk = to_boundary(align_offset, start);
    assert(0 <= walk < WORD_BYTES);
    assert(WORD_BYTES == 4 || WORD_BYTES == 8);
    if !(walk > 0 && stop <= start + walk) {
        let at8 = start + walk;
        let n8 = (stop - at8) / (8 * WORD_BYTES);
        lemma_whole_blocks(at8, stop, 8 * WORD_BYTES);
        let at4 = at8 + n8 * (8 * WORD_BYTES);
        let n4 = (stop - at4) / (4 * WORD_BYTES);
        lemma_whole_blocks(at4, stop, 4 * WORD_BYTES);
        let at2 = at4 + n4 * (4 * WORD_BYTES);
        lemma_whole_blocks(at2, stop, 2 * WORD_BYTES);
    }
}

/// The whole blocks of `size` bytes between `from` and `stop` do not reach beyond `stop`, and
/// are no more than there are bytes.
proof fn lemma_whole_blocks(from: int, stop: int, size: int)
    requires
        from <= stop,
        0 < size,
    ensures
        0 <= (stop - from) / size <= stop - from,
        from + ((stop - from) / size) * size <= stop,
{
    vstd::arithmetic::div_mod::lemma_fundamental_div_mod(stop - from, size);
    vstd::arithmetic::div_mod::lemma_div_pos_is_pos(stop - from, size);
    vstd::arithmetic::div_mod::lemma_mod_bound(stop - from, size);
    let n = (stop - from) / size;
    assert(n * size == size * n) by (nonlinear_arith);
    assert(n <= n * size) by (nonlinear_arith)
        requires
            0 <= n,
            0 < size,
    ;
}

/// The bytes up to the next word boundary, as the fast path computes them.
proof fn lemma_to_boundary(align_offset: usize, at: usize)
    ensures
        align_offset.wrapping_sub(at) % WORD_BYTES == to_boundary(align_offset, at as int),
        0 <= to_boundary(align_offset, at as int) < WORD_BYTES,
{
    assert(WORD_BYTES == 4 || WORD_BYTES == 8);
    assert(usize::MAX + 1 == 0x1_0000_0000 || usize::MAX + 1 == 0x1_0000_0000_0000_0000);
}

/// Moves the cursor from `start`, which stands on an ASCII byte, to the first byte behind it
/// that is not ASCII, or to the end of `buf` where there is none.
///
/// `align_offset` is the distance from the first byte of `buf` to a word boundary; it decides
/// how the way is divided into single bytes and blocks, and nothing else. With `RECORD` set,
/// the steps are counted in `stats`.
#[verifier::rlimit(40)]
pub fn skip_ascii<const RECORD: bool>(
    buf: &[u8],
    start: usize,
    align_offset: usize,
    ends: &BlockEnds,
    stats: &mut Statistics,
) -> (next: usize)
    requires
        start < buf.len(),
        is_ascii_byte(buf[start as int]),
        ends.wf(buf.len() as int),
        old(stats).has_room(buf.len() - start),
    ensures
        start < next <= buf.len(),
        forall|i: int| start <= i < next ==> is_ascii_byte(#[trigger] buf[i]),
        next < buf.len() ==> !is_ascii_byte(buf[next as int]),
        final(stats).counted_from(old(stats), next - start),
        final(stats).non_ascii_checks == old(stats).non_ascii_checks,
        RECORD ==> final(stats).counted(
            old(stats),
            fast_path_tally(start as int, next as int, buf.len() as int, align_offset),
        ),
        !RECORD ==> *final(stats) == *old(stats),
{
    let end = buf.len();
    let mut curr = start;

    // check if `curr` is word-aligned, otherwise advance `curr` bytewise until it is
    let offset = align_offset.wrapping_sub(curr) % WORD_BYTES;
    proof {
        lemma_to_boundary(align_offset, start);
    }
    if offset > 0 {
        if RECORD {
            stats.unaligned_blocks += 1;
        }
        // walk up to the boundary without testing for it at each byte

        let mut left = offset;
        let ghost counted = *stats;
        loop
            invariant_except_break
                start <= curr < end,
                left > 0,
                curr + left == start + offset,
            invariant
                end == buf.len(),
                0 < offset == to_boundary(align_offset, start as int),
                *stats == counted,
                counted.counted_from(old(stats), 1),
                RECORD ==> counted.counted(
                    old(stats),
                    Tally { unaligned_blocks: 1, ..Tally::zero() },
                ),
                !RECORD ==> counted == *old(stats),
                forall|i: int| start <= i <= curr && i < end ==> is_ascii_byte(#[trigger] buf[i]),
            ensures
                start < curr < end,
                curr == start + offset,
            decreases left,
        {
            curr += 1;

            if curr == end || buf[curr] >= 128 {
                proof {
                    lemma_tally_of_walk(start as int, curr as int, end as int, align_offset);
                }
                return curr;
            }
            left -= 1;
            if left == 0 {
                break ;
            }
        }
    }
    let ghost at8 = curr;
    // check blocks of eight words for bytes other than ASCII

    let run8 = skip_blocks::<8>(buf, curr, ends.x8);
    if RECORD {
        stats.success_blocks_8x += run8.clean;
    }
    if run8.dirty {
        if RECORD {
            stats.failed_blocks_8x += 1;
        }
        proof {
            lemma_tally_of_blocks(
                start as int,
                run8.cursor as int,
                end as int,
                align_offset,
                (run8.clean as nat, true),
                (0, false),
                (0, false),
            );
        }
        return run8.cursor;
    }
    // a block of eight no longer fits: go on with blocks of four, then of two

    let run4 = skip_blocks::<4>(buf, run8.cursor, ends.x4);
    if RECORD {
        stats.success_blocks_4x += run4.clean;
    }
    if run4.dirty {
        if RECORD {
            stats.failed_blocks_4x += 1;
        }
        proof {
            let stop = run4.cursor as int;
            lemma_block_steps(at8 as int, stop, end as int, run8.clean as int, 8 * WORD_BYTES);
            lemma_tally_of_blocks(
                start as int,
                stop,
                end as int,
                align_offset,
                (run8.clean as nat, false),
                (run4.clean as nat, true),
                (0, false),
            );
        }
        return run4.cursor;
    }
    let run2 = skip_blocks::<2>(buf, run4.cursor, ends.x2);
    if RECORD {
        stats.success_blocks_2x += run2.clean;
    }
    if run2.dirty {
        if RECORD {
            stats.failed_blocks_2x += 1;
        }
        proof {
            let stop = run2.cursor as int;
            lemma_block_steps(at8 as int, stop, end as int, run8.clean as int, 8 * WORD_BYTES);
            lemma_block_steps(
                run8.cursor as int,
                stop,
                end as int,
                run4.clean as int,
                4 * WORD_BYTES,
            );
            lemma_tally_of_blocks(
                start as int,
                stop,
                end as int,
                align_offset,
                (run8.clean as nat, false),
                (run4.clean as nat, false),
                (run2.clean as nat, true),
            );
        }
        return run2.cursor;
    }
    curr = run2.cursor;

    if RECORD {
        stats.bytewise_checks += 1;
    }
    let ghost before_rest = *stats;
    // ...what is left is shorter than a block: check it byte by byte

    while curr < end && buf[curr] < 128
        invariant
            run2.cursor <= curr <= end,
            start <= curr,
            end == buf.len(),
            *stats == before_rest,
            forall|i: int| start <= i < curr ==> is_ascii_byte(#[trigger] buf[i]),
        decreases end - curr,
    {
        curr += 1;
    }

    proof {
        let stop = curr as int;
        lemma_block_steps(at8 as int, stop, end as int, run8.clean as int, 8 * WORD_BYTES);
        lemma_block_steps(run8.cursor as int, stop, end as int, run4.clean as int, 4 * WORD_BYTES);
        lemma_block_steps(run4.cursor as int, stop, end as int, run2.clean as int, 2 * WORD_BYTES);
        lemma_tally_of_blocks(
            start as int,
            stop,
            end as int,
            align_offset,
            (run8.clean as nat, false),
            (run4.clean as nat, false),
            (run2.clean as nat, false),
        );
    }
    curr
}

} // verus!
