use vstd::prelude::*;

verus! {

/// Outcome of one search triplet: two read slots (the bit and its complement)
/// followed by a write slot carrying the direction bit.
#[derive(Debug, Clone, Copy, PartialEq, Eq, Structural)]
pub enum Triplet {
    /// The devices still in the search disagree at this bit; the value is the
    /// direction that was written, i.e. the branch taken.
    Discrepancy(bool),
    /// Every device still in the search has this bit value.
    AllMatch(bool),
    /// No device answered in this slot.
    NoDevicesFound,
}

/// The classification of a sampled bit, its complement and the direction bit.
pub open spec fn classify(bit: bool, complement_bit: bool, direction_bit: bool) -> Triplet {
    if !bit && complement_bit {
        Triplet::AllMatch(false)
    } else if bit && !complement_bit {
        Triplet::AllMatch(true)
    } else if !bit && !complement_bit {
        Triplet::Discrepancy(direction_bit)
    } else {
        Triplet::NoDevicesFound
    }
}

impl Triplet {
    /// Classifies the two sampled bits and the direction bit written after them.
    pub fn new(bit: bool, complement_bit: bool, direction_bit: bool) -> (r: Triplet)
        ensures
            r == classify(bit, complement_bit, direction_bit),
    {
        match (bit, complement_bit) {
            (false, true) => Triplet::AllMatch(false),
            (true, false) => Triplet::AllMatch(true),
            (false, false) => Triplet::Discrepancy(direction_bit),
            (true, true) => Triplet::NoDevicesFound,
        }
    }
}

} // verus!
