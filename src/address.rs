use vstd::prelude::*;

verus! {

/// A 64-bit device identifier (ROM code). On the wire it travels least
/// significant byte first: family code, 48-bit serial number, CRC-8 of the
/// seven bytes before it.
#[derive(Debug, Clone, Copy, PartialEq, Eq, Structural, Hash)]
pub struct Address(pub u64);

} // verus!
