//! What a repair has done, in numbers.

use vstd::prelude::*;

verus! {

/// What a repair has done. A counter that reaches the largest `usize` stays there.
#[derive(Debug, Clone, Copy)]
pub struct FixStats {
    pub files_processed: usize,
    pub chunks_fixed: usize,
    pub entities_fixed: usize,
    pub enchantments_fixed: usize,
    pub uuids_regenerated: usize,
    pub positions_fixed: usize,
}

/// The numbers of a repair, without a largest value.
pub struct Tally {
    pub files_processed: nat,
    pub chunks_fixed: nat,
    pub entities_fixed: nat,
    pub enchantments_fixed: nat,
    pub uuids_regenerated: nat,
    pub positions_fixed: nat,
}

/// `n`, or the largest `usize` where `n` is beyond it.
pub open spec fn clip(n: int) -> usize {
    if n > usize::MAX {
        usize::MAX
    } else {
        n as usize
    }
}

impl Tally {
    /// All zero.
    pub open spec fn zero() -> Tally {
        Tally {
            files_processed: 0,
            chunks_fixed: 0,
            entities_fixed: 0,
            enchantments_fixed: 0,
            uuids_regenerated: 0,
            positions_fixed: 0,
        }
    }

    /// Counter by counter, the sum.
    pub open spec fn plus(self, other: Tally) -> Tally {
        Tally {
            files_processed: self.files_processed + other.files_processed,
            chunks_fixed: self.chunks_fixed + other.chunks_fixed,
            entities_fixed: self.entities_fixed + other.entities_fixed,
            enchantments_fixed: self.enchantments_fixed + other.enchantments_fixed,
            uuids_regenerated: self.uuids_regenerated + other.uuids_regenerated,
            positions_fixed: self.positions_fixed + other.positions_fixed,
        }
    }

    /// Whether anything was repaired: an entity, an enchantment, an identifier or a
    /// position.
    pub open spec fn any_repair(self) -> bool {
        self.entities_fixed > 0 || self.enchantments_fixed > 0 || self.uuids_regenerated > 0
            || self.positions_fixed > 0
    }
}

impl FixStats {
    /// Whether these counters hold the numbers of `tally`, each cut to `usize`.
    pub open spec fn counts(&self, tally: Tally) -> bool {
        &&& self.files_processed == clip(tally.files_processed as int)
        &&& self.chunks_fixed == clip(tally.chunks_fixed as int)
        &&& self.entities_fixed == clip(tally.entities_fixed as int)
        &&& self.enchantments_fixed == clip(tally.enchantments_fixed as int)
        &&& self.uuids_regenerated == clip(tally.uuids_regenerated as int)
        &&& self.positions_fixed == clip(tally.positions_fixed as int)
    }

    /// Whether these counters say that anything was repaired.
    pub open spec fn has_repairs(&self) -> bool {
        self.entities_fixed > 0 || self.enchantments_fixed > 0 || self.uuids_regenerated > 0
            || self.positions_fixed > 0
    }

    /// Counters that are all zero.
    pub fn new() -> (stats: Self)
        ensures
            stats.counts(Tally::zero()),
    {
        FixStats {
            files_processed: 0,
            chunks_fixed: 0,
            entities_fixed: 0,
            enchantments_fixed: 0,
            uuids_regenerated: 0,
            positions_fixed: 0,
        }
    }

    /// Adds the counters of `other` to these.
    pub fn merge(&mut self, other: &FixStats)
        ensures
            forall|a: Tally, b: Tally|
                old(self).counts(a) && other.counts(b) ==> #[trigger] final(self).counts(
                    a.plus(b),
                ),
            final(self).files_processed == clip(old(self).files_processed + other.files_processed),
            final(self).chunks_fixed == clip(old(self).chunks_fixed + other.chunks_fixed),
            final(self).entities_fixed == clip(old(self).entities_fixed + other.entities_fixed),
            final(self).enchantments_fixed == clip(
                old(self).enchantments_fixed + other.enchantments_fixed,
            ),
            final(self).uuids_regenerated == clip(
                old(self).uuids_regenerated + other.uuids_regenerated,
            ),
            final(self).positions_fixed == clip(old(self).positions_fixed + other.positions_fixed),
    {
        self.files_processed = add_clipped(self.files_processed, other.files_processed);
        self.chunks_fixed = add_clipped(self.chunks_fixed, other.chunks_fixed);
        self.entities_fixed = add_clipped(self.entities_fixed, other.entities_fixed);
        self.enchantments_fixed = add_clipped(self.enchantments_fixed, other.enchantments_fixed);
        self.uuids_regenerated = add_clipped(self.uuids_regenerated, other.uuids_regenerated);
        self.positions_fixed = add_clipped(self.positions_fixed, other.positions_fixed);
    }

    /// Whether anything was repaired: an entity, an enchantment, an identifier or a
    /// position.
    pub fn any_repair(&self) -> (any: bool)
        ensures
            any == self.has_repairs(),
            forall|tally: Tally| self.counts(tally) ==> any == #[trigger] tally.any_repair(),
    {
        self.entities_fixed > 0 || self.enchantments_fixed > 0 || self.uuids_regenerated > 0
            || self.positions_fixed > 0
    }
}

impl Default for FixStats {
    fn default() -> (stats: Self)
        ensures
            stats.counts(Tally::zero()),
    {
        FixStats::new()
    }
}

/// The sum of two counters, or the largest `usize` where the sum is beyond it.
pub fn add_clipped(a: usize, b: usize) -> (sum: usize)
    ensures
        sum == clip(a + b),
        forall|x: int, y: int|
            0 <= x && 0 <= y && a == clip(x) && b == clip(y) ==> sum == #[trigger] clip(x + y),
{
    if a > usize::MAX - b {
        usize::MAX
    } else {
        a + b
    }
}

} // verus!
