//! Sets of cells.

use vstd::prelude::*;
use crate::puzzle::Cell;

verus! {

/// A set of cells, kept as one flag per cell value.
///
/// Two sets compare equal exactly when they hold the same cells.
#[derive(Clone, Copy, Hash, PartialEq, Eq, Debug, Structural)]
pub struct CellSet {
    bits: u16,
}

/// The flag that stands for the cell with number `d`.
spec fn flag(d: int) -> u16 {
    1u16 << (d as u16)
}

proof fn lemma_flag_raised(bits: u16, d: u16, e: u16)
    by (bit_vector)
    requires
        d < 16,
        e < 16,
    ensures
        ((bits | (1u16 << d)) & (1u16 << e) != 0) == ((bits & (1u16 << e) != 0) || d == e),
{
}

proof fn lemma_flag_lowered(bits: u16, d: u16, e: u16)
    by (bit_vector)
    requires
        d < 16,
        e < 16,
    ensures
        ((bits & !(1u16 << d)) & (1u16 << e) != 0) == ((bits & (1u16 << e) != 0) && d != e),
{
}

proof fn lemma_flags_in_range(bits: u16, d: u16)
    by (bit_vector)
    requires
        bits < 1024,
        d < 10,
    ensures
        (bits | (1u16 << d)) < 1024,
        (bits & !(1u16 << d)) < 1024,
        0u16 & (1u16 << d) == 0,
{
}

proof fn lemma_same_flags(a: u16, b: u16)
    by (bit_vector)
    requires
        a < 1024,
        b < 1024,
        (a & (1u16 << 0u16) != 0) == (b & (1u16 << 0u16) != 0),
        (a & (1u16 << 1u16) != 0) == (b & (1u16 << 1u16) != 0),
        (a & (1u16 << 2u16) != 0) == (b & (1u16 << 2u16) != 0),
        (a & (1u16 << 3u16) != 0) == (b & (1u16 << 3u16) != 0),
        (a & (1u16 << 4u16) != 0) == (b & (1u16 << 4u16) != 0),
        (a & (1u16 << 5u16) != 0) == (b & (1u16 << 5u16) != 0),
        (a & (1u16 << 6u16) != 0) == (b & (1u16 << 6u16) != 0),
        (a & (1u16 << 7u16) != 0) == (b & (1u16 << 7u16) != 0),
        (a & (1u16 << 8u16) != 0) == (b & (1u16 << 8u16) != 0),
        (a & (1u16 << 9u16) != 0) == (b & (1u16 << 9u16) != 0),
    ensures
        a == b,
{
}

impl View for CellSet {
    type V = Set<Cell>;

    closed spec fn view(&self) -> Set<Cell> {
        Set::new(|c: Cell| self.bits & flag(c.digit()) != 0)
    }
}

impl CellSet {
    /// Whether every flag that stands for no cell is down. `new` establishes
    /// this and the other functions preserve it.
    pub closed spec fn well_formed(self) -> bool {
        self.bits < 1024
    }

    /// The members whose number is below `k`.
    spec fn below(self, k: int) -> Set<Cell> {
        Set::new(|c: Cell| c.digit() < k && self@.contains(c))
    }

    /// The empty set.
    pub fn new() -> (set: CellSet)
        ensures
            set@ == Set::<Cell>::empty(),
            set.well_formed(),
    {
        let set = CellSet { bits: 0 };
        proof {
            assert forall|c: Cell| !set@.contains(c) by {
                lemma_flags_in_range(0, c.digit() as u16);
            }
            assert(set@ =~= Set::<Cell>::empty());
        }
        set
    }

    /// Whether `cell` is a member.
    pub fn contains(&self, cell: &Cell) -> (found: bool)
        ensures
            found == self@.contains(*cell),
    {
        let d: u8 = u8::from(*cell);
        self.bits & (1u16 << d) != 0
    }

    /// Adds `cell`; returns whether it was absent before.
    pub fn insert(&mut self, cell: Cell) -> (added: bool)
        ensures
            final(self)@ == old(self)@.insert(cell),
            added == !old(self)@.contains(cell),
            old(self).well_formed() ==> final(self).well_formed(),
    {
        let d: u8 = u8::from(cell);
        let added = self.bits & (1u16 << d) == 0;
        let ghost before = self.bits;
        proof {
            if before < 1024 {
                lemma_flags_in_range(before, d as u16);
            }
        }
        self.bits = self.bits | (1u16 << d);
        proof {
            assert forall|c: Cell| #[trigger]
                final(self)@.contains(c) == old(self)@.insert(cell).contains(c) by {
                lemma_flag_raised(before, d as u16, c.digit() as u16);
            }
            assert(final(self)@ =~= old(self)@.insert(cell));
        }
        added
    }

    /// Takes `cell` out; returns whether it was a member.
    pub fn remove(&mut self, cell: &Cell) -> (removed: bool)
        ensures
            final(self)@ == old(self)@.remove(*cell),
            removed == old(self)@.contains(*cell),
            old(self).well_formed() ==> final(self).well_formed(),
    {
        let d: u8 = u8::from(*cell);
        let removed = self.bits & (1u16 << d) != 0;
        let ghost before = self.bits;
        proof {
            if before < 1024 {
                lemma_flags_in_range(before, d as u16);
            }
        }
        self.bits = self.bits & !(1u16 << d);
        proof {
            assert forall|c: Cell| #[trigger]
                final(self)@.contains(c) == old(self)@.remove(*cell).contains(c) by {
                lemma_flag_lowered(before, d as u16, c.digit() as u16);
            }
            assert(final(self)@ =~= old(self)@.remove(*cell));
        }
        removed
    }

    /// The number of members.
    pub fn len(&self) -> (count: usize)
        ensures
            self@.finite(),
            count == self@.len(),
            count <= 10,
    {
        let mut count: usize = 0;
        let mut d: u8 = 0;
        proof {
            assert(self.below(0) =~= Set::<Cell>::empty());
        }
        while d < 10
            invariant
                d <= 10,
                count <= d,
                self.below(d as int).finite(),
                count == self.below(d as int).len(),
            decreases 10 - d,
        {
            let ghost member = Cell::of_digit(d as int);
            proof {
                member.lemma_digit_round_trip(d as int);
                assert forall|c: Cell| c.digit() == d implies c == member by {
                    c.lemma_digit_round_trip(d as int);
                }
            }
            if self.bits & (1u16 << d) != 0 {
                proof {
                    assert(self.below(d + 1) =~= self.below(d as int).insert(member));
                }
                count += 1;
            } else {
                proof {
                    assert(self.below(d + 1) =~= self.below(d as int));
                }
            }
            d += 1;
        }
        proof {
            assert forall|c: Cell| self@.contains(c) implies self.below(10).contains(c) by {
                c.lemma_digit_round_trip(0);
            }
            assert(self.below(10) =~= self@);
        }
        count
    }

    /// Well-formed sets with the same members are the same value, so `==`
    /// compares sets by their members.
    pub proof fn lemma_equal_by_members(self, other: CellSet)
        requires
            self.well_formed(),
            other.well_formed(),
            self@ == other@,
        ensures
            self == other,
    {
        assert forall|d: int| 0 <= d <= 9 implies (self.bits & flag(d) != 0) == (other.bits
            & flag(d) != 0) by {
            let c = Cell::of_digit(d);
            c.lemma_digit_round_trip(d);
            assert(c.digit() == d);
            assert(self@.contains(c) == (self.bits & flag(c.digit()) != 0));
            assert(other@.contains(c) == (other.bits & flag(c.digit()) != 0));
        }
        assert(flag(0) == 1u16 << 0u16);
        assert(flag(1) == 1u16 << 1u16);
        assert(flag(2) == 1u16 << 2u16);
        assert(flag(3) == 1u16 << 3u16);
        assert(flag(4) == 1u16 << 4u16);
        assert(flag(5) == 1u16 << 5u16);
        assert(flag(6) == 1u16 << 6u16);
        assert(flag(7) == 1u16 << 7u16);
        assert(flag(8) == 1u16 << 8u16);
        assert(flag(9) == 1u16 << 9u16);
        lemma_same_flags(self.bits, other.bits);
    }
}

} // verus!
