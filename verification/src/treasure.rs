//! Treasure tiers and the value-assigning policy used at scoring time.
//!
//! A treasure's worth decays with every chip of the same tier that has
//! already been scored: the first chip of a tier is worth the tier's base
//! value, and each later chip is worth one less, down to the tier's floor
//! (base minus three). The assigned value is a pure function of the tier and
//! of how many chips of that tier were assigned before, independent of which
//! player holds the chip.

use vstd::prelude::*;

verus! {

/// A treasure's face-value class; four tiers, each with a fixed pool count.
#[derive(Clone, Copy, Debug, PartialEq, Eq, Structural)]
pub enum Treasure {
    One,
    Two,
    Three,
    Four,
}

/// Base value of the first scored chip of each tier.
pub open spec fn tier_base(t: Treasure) -> int {
    match t {
        Treasure::One => 3,
        Treasure::Two => 7,
        Treasure::Three => 11,
        Treasure::Four => 15,
    }
}

/// How many chips of each tier have been assigned so far, capped at three:
/// the decay stops at the tier's floor, so a larger count changes nothing.
pub struct AssignCounts {
    pub ones: int,
    pub twos: int,
    pub threes: int,
    pub fours: int,
}

pub open spec fn fresh_counts() -> AssignCounts {
    AssignCounts { ones: 0, twos: 0, threes: 0, fours: 0 }
}

pub open spec fn count_of(c: AssignCounts, t: Treasure) -> int {
    match t {
        Treasure::One => c.ones,
        Treasure::Two => c.twos,
        Treasure::Three => c.threes,
        Treasure::Four => c.fours,
    }
}

pub open spec fn counts_wf(c: AssignCounts) -> bool {
    &&& 0 <= c.ones <= 3
    &&& 0 <= c.twos <= 3
    &&& 0 <= c.threes <= 3
    &&& 0 <= c.fours <= 3
}

/// Value of the next chip of tier `t` when `prior` chips of that tier were
/// already assigned.
pub open spec fn decayed_value(t: Treasure, prior: int) -> int {
    tier_base(t) - (if prior < 3 { prior } else { 3int })
}

/// The counts after assigning one more chip of tier `t`.
pub open spec fn bump_count(c: AssignCounts, t: Treasure) -> AssignCounts {
    match t {
        Treasure::One => (AssignCounts { ones: if c.ones < 3 { c.ones + 1 } else { 3 }, ..c }),
        Treasure::Two => (AssignCounts { twos: if c.twos < 3 { c.twos + 1 } else { 3 }, ..c }),
        Treasure::Three => (AssignCounts { threes: if c.threes < 3 { c.threes + 1 } else { 3 }, ..c }),
        Treasure::Four => (AssignCounts { fours: if c.fours < 3 { c.fours + 1 } else { 3 }, ..c }),
    }
}

/// The value-assigning collaborator of the scoring pass. It remembers how
/// many chips of each tier it has assigned and hands out decaying values.
pub struct TreasureValueAssigner {
    ones: u32,
    twos: u32,
    threes: u32,
    fours: u32,
}

impl TreasureValueAssigner {
    pub closed spec fn view(&self) -> AssignCounts {
        AssignCounts {
            ones: self.ones as int,
            twos: self.twos as int,
            threes: self.threes as int,
            fours: self.fours as int,
        }
    }

    pub fn new() -> (r: Self)
        ensures
            r@ == fresh_counts(),
    {
        TreasureValueAssigner { ones: 0, twos: 0, threes: 0, fours: 0 }
    }

    /// Hands out the value of one chip of tier `treasure` and records the
    /// assignment.
    pub fn assign_value(&mut self, treasure: Treasure) -> (r: u32)
        requires
            counts_wf(old(self)@),
        ensures
            counts_wf(final(self)@),
            r == decayed_value(treasure, count_of(old(self)@, treasure)),
            final(self)@ == bump_count(old(self)@, treasure),
            0 <= r <= 15,
    {
        match treasure {
            Treasure::One => {
                let prior = self.ones;
                if self.ones < 3 {
                    self.ones = self.ones + 1;
                }
                3 - prior
            }
            Treasure::Two => {
                let prior = self.twos;
                if self.twos < 3 {
                    self.twos = self.twos + 1;
                }
                7 - prior
            }
            Treasure::Three => {
                let prior = self.threes;
                if self.threes < 3 {
                    self.threes = self.threes + 1;
                }
                11 - prior
            }
            Treasure::Four => {
                let prior = self.fours;
                if self.fours < 3 {
                    self.fours = self.fours + 1;
                }
                15 - prior
            }
        }
    }
}

} // verus!
