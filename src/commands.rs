use vstd::prelude::*;

verus! {

/// Search all devices on the bus.
pub const SEARCH_NORMAL: u8 = 0xF0;

/// Search only the devices in an alarm condition.
pub const SEARCH_ALARM: u8 = 0xEC;

/// Read the identifier of the single device on the bus.
pub const READ_ROM: u8 = 0x33;

/// Address one device by its identifier.
pub const MATCH_ROM: u8 = 0x55;

/// Address all devices at once.
pub const SKIP_ROM: u8 = 0xCC;

} // verus!
