//! Counters that a validation run can feed.

use vstd::prelude::*;

verus! {

/// What the ASCII fast path did, counted over one or more runs. The counters only observe:
/// they never change a verdict.
#[derive(Debug)]
pub struct Statistics {
    /// Blocks of eight words that held only ASCII.
    pub success_blocks_8x: usize,
    /// Blocks of eight words in which a byte other than ASCII was found.
    pub failed_blocks_8x: usize,
    /// Blocks of four words that held only ASCII.
    pub success_blocks_4x: usize,
    /// Blocks of four words in which a byte other than ASCII was found.
    pub failed_blocks_4x: usize,
    /// Blocks of two words that held only ASCII.
    pub success_blocks_2x: usize,
    /// Blocks of two words in which a byte other than ASCII was found.
    pub failed_blocks_2x: usize,
    /// Times the cursor had to walk up to a word boundary first.
    pub unaligned_blocks: usize,
    /// Times the rest of an ASCII run was walked byte by byte.
    pub bytewise_checks: usize,
    /// Encoded scalars other than ASCII that went through the decoder.
    pub non_ascii_checks: usize,
    /// Reserved for a scan that widens its blocks again; no scan here touches it.
    pub optimistic_2x_to_8x: usize,
}

/// How often some stretch of a scan raises each counter.
pub struct Tally {
    /// Blocks of eight words that held only ASCII.
    pub success_blocks_8x: nat,
    /// Blocks of eight words in which a byte other than ASCII was found.
    pub failed_blocks_8x: nat,
    /// Blocks of four words that held only ASCII.
    pub success_blocks_4x: nat,
    /// Blocks of four words in which a byte other than ASCII was found.
    pub failed_blocks_4x: nat,
    /// Blocks of two words that held only ASCII.
    pub success_blocks_2x: nat,
    /// Blocks of two words in which a byte other than ASCII was found.
    pub failed_blocks_2x: nat,
    /// Walks up to a word boundary.
    pub unaligned_blocks: nat,
    /// Walks, byte by byte, over the rest of an ASCII run.
    pub bytewise_checks: nat,
    /// Runs of the decoder.
    pub non_ascii_checks: nat,
}

impl Tally {
    /// Nothing counted.
    pub open spec fn zero() -> Tally {
        Tally {
            success_blocks_8x: 0,
            failed_blocks_8x: 0,
            success_blocks_4x: 0,
            failed_blocks_4x: 0,
            success_blocks_2x: 0,
            failed_blocks_2x: 0,
            unaligned_blocks: 0,
            bytewise_checks: 0,
            non_ascii_checks: 0,
        }
    }

    /// What this stretch and `other` count together.
    pub open spec fn plus(self, other: Tally) -> Tally {
        Tally {
            success_blocks_8x: self.success_blocks_8x + other.success_blocks_8x,
            failed_blocks_8x: self.failed_blocks_8x + other.failed_blocks_8x,
            success_blocks_4x: self.success_blocks_4x + other.success_blocks_4x,
            failed_blocks_4x: self.failed_blocks_4x + other.failed_blocks_4x,
            success_blocks_2x: self.success_blocks_2x + other.success_blocks_2x,
            failed_blocks_2x: self.failed_blocks_2x + other.failed_blocks_2x,
            unaligned_blocks: self.unaligned_blocks + other.unaligned_blocks,
            bytewise_checks: self.bytewise_checks + other.bytewise_checks,
            non_ascii_checks: self.non_ascii_checks + other.non_ascii_checks,
        }
    }

    /// Whether no counter is raised more than `n` times.
    pub open spec fn at_most(self, n: int) -> bool {
        &&& self.success_blocks_8x <= n
        &&& self.failed_blocks_8x <= n
        &&& self.success_blocks_4x <= n
        &&& self.failed_blocks_4x <= n
        &&& self.success_blocks_2x <= n
        &&& self.failed_blocks_2x <= n
        &&& self.unaligned_blocks <= n
        &&& self.bytewise_checks <= n
        &&& self.non_ascii_checks <= n
    }
}

impl Statistics {
    /// Whether these counters are those of `before`, raised as `tally` says.
    pub open spec fn counted(&self, before: &Statistics, tally: Tally) -> bool {
        &&& self.success_blocks_8x == before.success_blocks_8x + tally.success_blocks_8x
        &&& self.failed_blocks_8x == before.failed_blocks_8x + tally.failed_blocks_8x
        &&& self.success_blocks_4x == before.success_blocks_4x + tally.success_blocks_4x
        &&& self.failed_blocks_4x == before.failed_blocks_4x + tally.failed_blocks_4x
        &&& self.success_blocks_2x == before.success_blocks_2x + tally.success_blocks_2x
        &&& self.failed_blocks_2x == before.failed_blocks_2x + tally.failed_blocks_2x
        &&& self.unaligned_blocks == before.unaligned_blocks + tally.unaligned_blocks
        &&& self.bytewise_checks == before.bytewise_checks + tally.bytewise_checks
        &&& self.non_ascii_checks == before.non_ascii_checks + tally.non_ascii_checks
        &&& self.optimistic_2x_to_8x == before.optimistic_2x_to_8x
    }

    /// The counters with nothing counted yet.
    pub open spec fn zero() -> Statistics {
        Statistics {
            success_blocks_8x: 0,
            failed_blocks_8x: 0,
            success_blocks_4x: 0,
            failed_blocks_4x: 0,
            success_blocks_2x: 0,
            failed_blocks_2x: 0,
            unaligned_blocks: 0,
            bytewise_checks: 0,
            non_ascii_checks: 0,
            optimistic_2x_to_8x: 0,
        }
    }

    /// Whether each counter can still be raised `n` times.
    pub open spec fn has_room(&self, n: int) -> bool {
        &&& self.success_blocks_8x + n <= usize::MAX
        &&& self.failed_blocks_8x + n <= usize::MAX
        &&& self.success_blocks_4x + n <= usize::MAX
        &&& self.failed_blocks_4x + n <= usize::MAX
        &&& self.success_blocks_2x + n <= usize::MAX
        &&& self.failed_blocks_2x + n <= usize::MAX
        &&& self.unaligned_blocks + n <= usize::MAX
        &&& self.bytewise_checks + n <= usize::MAX
        &&& self.non_ascii_checks + n <= usize::MAX
    }

    /// Whether these counters are those of `before` after some counting in which none was
    /// raised more than `n` times.
    pub open spec fn counted_from(&self, before: &Statistics, n: int) -> bool {
        &&& before.success_blocks_8x <= self.success_blocks_8x <= before.success_blocks_8x + n
        &&& before.failed_blocks_8x <= self.failed_blocks_8x <= before.failed_blocks_8x + n
        &&& before.success_blocks_4x <= self.success_blocks_4x <= before.success_blocks_4x + n
        &&& before.failed_blocks_4x <= self.failed_blocks_4x <= before.failed_blocks_4x + n
        &&& before.success_blocks_2x <= self.success_blocks_2x <= before.success_blocks_2x + n
        &&& before.failed_blocks_2x <= self.failed_blocks_2x <= before.failed_blocks_2x + n
        &&& before.unaligned_blocks <= self.unaligned_blocks <= before.unaligned_blocks + n
        &&& before.bytewise_checks <= self.bytewise_checks <= before.bytewise_checks + n
        &&& before.non_ascii_checks <= self.non_ascii_checks <= before.non_ascii_checks + n
        &&& self.optimistic_2x_to_8x == before.optimistic_2x_to_8x
    }
}

impl Statistics {
    /// Tells whether each counter can still be raised `n` times, as a run over a buffer of
    /// `n` bytes may do.
    pub fn has_room_for(&self, n: usize) -> (ok: bool)
        ensures
            ok == self.has_room(n as int),
    {
        let limit = usize::MAX - n;
        self.success_blocks_8x <= limit && self.failed_blocks_8x <= limit
            && self.success_blocks_4x <= limit && self.failed_blocks_4x <= limit
            && self.success_blocks_2x <= limit && self.failed_blocks_2x <= limit
            && self.unaligned_blocks <= limit && self.bytewise_checks <= limit
            && self.non_ascii_checks <= limit
    }
}

impl Default for Statistics {
    fn default() -> (stats: Statistics)
        ensures
            stats == Statistics::zero(),
    {
        Statistics {
            success_blocks_8x: 0,
            failed_blocks_8x: 0,
            success_blocks_4x: 0,
            failed_blocks_4x: 0,
            success_blocks_2x: 0,
            failed_blocks_2x: 0,
            unaligned_blocks: 0,
            bytewise_checks: 0,
            non_ascii_checks: 0,
            optimistic_2x_to_8x: 0,
        }
    }
}

} // verus!
