use vstd::prelude::*;
use vstd::std_specs::bits::{u64_leading_zeros, axiom_u64_leading_zeros};

verus! {

/// Bit `index` of `x` (bit 0 is the least significant, and the first on the wire).
pub open spec fn bit_at(x: u64, index: u64) -> bool {
    (x >> index) & 1u64 == 1u64
}

/// `x` with bit `index` replaced by `value`, every other bit kept.
pub open spec fn with_bit(x: u64, index: u64, value: bool) -> u64 {
    if value {
        x | (1u64 << index)
    } else {
        x & !(1u64 << index)
    }
}

/// The highest set bit of `x`, or 0 when no bit is set.
pub open spec fn is_highest_bit(x: u64, index: u64) -> bool {
    if x == 0 {
        index == 0
    } else {
        index < 64 && bit_at(x, index) && forall|j: u64| index < j < 64 ==> !#[trigger] bit_at(x, j)
    }
}

/// The highest set bit of `x`, or 0 when no bit is set.
pub open spec fn highest_set_bit(x: u64) -> u64 {
    choose|index: u64| is_highest_bit(x, index)
}

/// At most one position is the highest set bit.
pub proof fn lemma_highest_bit_unique(x: u64, a: u64, b: u64)
    requires
        is_highest_bit(x, a),
        is_highest_bit(x, b),
    ensures
        a == b,
{
    if x != 0 {
        if a < b {
            assert(!bit_at(x, b));
        } else if b < a {
            assert(!bit_at(x, a));
        }
    }
}

/// The highest set bit is well defined.
pub proof fn lemma_highest_set_bit(x: u64)
    ensures
        is_highest_bit(x, highest_set_bit(x)),
{
    if x == 0 {
        assert(is_highest_bit(x, 0));
    } else {
        axiom_u64_leading_zeros(x);
        let z = u64_leading_zeros(x) as u64;
        assert forall|j: u64| (63 - z) < j < 64 implies !#[trigger] bit_at(x, j) by {
            assert(64 - z <= j);
            assert((x >> j) & 1u64 == 0u64);
        }
        assert(((x >> vstd::prelude::sub(63u64, z)) & 1u64 != 0u64) ==> (x >> vstd::prelude::sub(
            63u64,
            z,
        )) & 1u64 == 1u64) by (bit_vector);
        assert(is_highest_bit(x, (63 - z) as u64));
    }
}

/// Setting a bit changes that bit alone.
pub proof fn lemma_with_bit(x: u64, index: u64, value: bool, j: u64)
    requires
        index < 64,
        j < 64,
    ensures
        bit_at(with_bit(x, index, value), j) == (if j == index { value } else { bit_at(x, j) }),
{
    if value {
        assert(((x | (1u64 << index)) >> j) & 1u64 == 1u64 <==> (if j == index { true } else {
            (x >> j) & 1u64 == 1u64
        })) by (bit_vector)
            requires
                index < 64,
                j < 64,
        ;
    } else {
        assert(((x & !(1u64 << index)) >> j) & 1u64 == 1u64 <==> (if j == index { false } else {
            (x >> j) & 1u64 == 1u64
        })) by (bit_vector)
            requires
                index < 64,
                j < 64,
        ;
    }
}

/// What one pass of the search leaves behind: the identifier it found, bit by
/// bit, and the positions at which devices disagreed and whose 1-branch is
/// still to be explored.
#[derive(Debug, Clone, Copy, PartialEq, Eq, Structural)]
pub struct SearchState {
    /// The address of the last device found.
    pub address: u64,
    /// One flag per bit position with an unexplored discrepancy.
    pub discrepancies: u64,
}

impl SearchState {
    /// The state a search starts from: no address bits, no discrepancies.
    pub fn initial() -> (r: SearchState)
        ensures
            r.address == 0,
            r.discrepancies == 0,
    {
        SearchState { address: 0, discrepancies: 0 }
    }

    /// Bit `index` of the address.
    pub fn addr_bit(&self, index: u8) -> (r: bool)
        requires
            index < 64,
        ensures
            r == bit_at(self.address, index as u64),
    {
        Self::get_bit(self.address, index)
    }

    /// Sets bit `index` of the address to `bit`.
    pub fn set_addr_bit(&mut self, index: u8, bit: bool)
        requires
            index < 64,
        ensures
            final(self).address == with_bit(old(self).address, index as u64, bit),
            final(self).discrepancies == old(self).discrepancies,
    {
        self.address = Self::set_bit(self.address, index, bit);
    }

    /// Marks a discrepancy at bit `index`.
    pub fn set_discrepancy(&mut self, index: u8)
        requires
            index < 64,
        ensures
            final(self).discrepancies == with_bit(old(self).discrepancies, index as u64, true),
            final(self).address == old(self).address,
    {
        self.discrepancies = Self::set_bit(self.discrepancies, index, true);
    }

    /// Clears the discrepancy mark at bit `index`.
    pub fn unset_discrepancy(&mut self, index: u8)
        requires
            index < 64,
        ensures
            final(self).discrepancies == with_bit(old(self).discrepancies, index as u64, false),
            final(self).address == old(self).address,
    {
        self.discrepancies = Self::set_bit(self.discrepancies, index, false);
    }

    /// The highest bit position with a discrepancy mark, or 0 when there is none.
    pub fn last_discrepancy_index(&self) -> (r: u8)
        ensures
            is_highest_bit(self.discrepancies, r as u64),
            r as u64 == highest_set_bit(self.discrepancies),
    {
        if self.discrepancies == 0 {
            proof {
                assert(is_highest_bit(self.discrepancies, 0));
                lemma_highest_bit_unique(self.discrepancies, 0, highest_set_bit(self.discrepancies));
            }
            return 0;
        }
        let d = self.discrepancies;
        let lz = d.leading_zeros();
        proof {
            axiom_u64_leading_zeros(d);
            let z = u64_leading_zeros(d) as u64;
            assert(z < 64);
            assert forall|j: u64| (63 - z) < j < 64 implies !#[trigger] bit_at(d, j) by {
                assert(64 - z <= j);
                assert((d >> j) & 1u64 == 0u64);
            }
            assert((d >> vstd::prelude::sub(63u64, z)) & 1u64 != 0u64);
            assert(((d >> vstd::prelude::sub(63u64, z)) & 1u64 != 0u64) ==> (d >> vstd::prelude::sub(63u64, z)) & 1u64 == 1u64)
                by (bit_vector);
            assert(is_highest_bit(d, (63 - z) as u64));
            lemma_highest_bit_unique(d, (63 - z) as u64, highest_set_bit(d));
        }
        63 - lz as u8
    }

    /// Bit `index` of `data`.
    pub fn get_bit(data: u64, index: u8) -> (r: bool)
        requires
            index < 64,
        ensures
            r == bit_at(data, index as u64),
    {
        (data >> index) & 1 == 1
    }

    /// `data` with bit `index` replaced by `value`.
    pub fn set_bit(data: u64, index: u8, value: bool) -> (r: u64)
        requires
            index < 64,
        ensures
            r == with_bit(data, index as u64, value),
    {
        if value {
            data | (1u64 << index)
        } else {
            data & !(1u64 << index)
        }
    }
}

} // verus!
