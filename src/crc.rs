use vstd::prelude::*;

verus! {

/// The reflected form of the 1-Wire CRC polynomial x^8 + x^5 + x^4 + 1.
pub const CRC8_POLY: u8 = 0x8C;

/// Feeds the low `n` bits of `data` into `crc`, least significant first.
pub open spec fn crc_shift(crc: u8, data: u8, n: nat) -> u8
    decreases n,
{
    if n == 0 {
        crc
    } else {
        let mixed = (crc ^ data) & 1u8 == 1u8;
        let shifted = crc >> 1u8;
        let next = if mixed { shifted ^ CRC8_POLY } else { shifted };
        crc_shift(next, data >> 1u8, (n - 1) as nat)
    }
}

/// The 1-Wire CRC-8 of a byte sequence, starting from 0.
pub open spec fn crc8_of(bytes: Seq<u8>) -> u8
    decreases bytes.len(),
{
    if bytes.len() == 0 {
        0
    } else {
        crc_shift(crc8_of(bytes.drop_last()), bytes.last(), 8)
    }
}

/// Byte `k` of `x` in little-endian order.
pub open spec fn le_byte(x: u64, k: int) -> u8 {
    ((x >> ((8 * k) as u64)) & 0xFFu64) as u8
}

/// The eight bytes of `x`, least significant first.
pub open spec fn le_bytes(x: u64) -> Seq<u8> {
    Seq::new(8, |k: int| le_byte(x, k))
}

/// A sequence of at least one byte whose last byte is the CRC-8 of the others.
pub open spec fn crc_holds(bytes: Seq<u8>) -> bool {
    bytes.len() >= 1 && crc8_of(bytes.drop_last()) == bytes.last()
}

/// The 1-Wire CRC-8 of the first `n` bytes of `bytes`.
fn crc8_prefix(bytes: &[u8], n: usize) -> (r: u8)
    requires
        n <= bytes@.len(),
    ensures
        r == crc8_of(bytes@.subrange(0, n as int)),
{
    let mut crc: u8 = 0;
    let mut i: usize = 0;
    while i < n
        invariant
            n <= bytes@.len(),
            i <= n,
            crc == crc8_of(bytes@.subrange(0, i as int)),
        decreases n - i,
    {
        let ghost start = crc;
        let mut data: u8 = bytes[i];
        let mut k: usize = 0;
        while k < 8
            invariant
                k <= 8,
                crc_shift(crc, data, (8 - k) as nat) == crc_shift(start, bytes@[i as int], 8),
            decreases 8 - k,
        {
            let mixed = (crc ^ data) & 1 == 1;
            crc = crc >> 1;
            if mixed {
                crc = crc ^ CRC8_POLY;
            }
            data = data >> 1;
            k = k + 1;
        }
        proof {
            let next = bytes@.subrange(0, i + 1);
            assert(next.drop_last() =~= bytes@.subrange(0, i as int));
            assert(next.last() == bytes@[i as int]);
        }
        i = i + 1;
    }
    crc
}

/// The 1-Wire CRC-8 of `bytes`.
pub fn crc8(bytes: &[u8]) -> (r: u8)
    ensures
        r == crc8_of(bytes@),
{
    let r = crc8_prefix(bytes, bytes.len());
    assert(bytes@.subrange(0, bytes@.len() as int) =~= bytes@);
    r
}

/// The eight bytes of `x`, least significant first.
pub fn to_le_bytes(x: u64) -> (r: Vec<u8>)
    ensures
        r@ == le_bytes(x),
{
    let mut out: Vec<u8> = Vec::new();
    let mut k: u64 = 0;
    while k < 8
        invariant
            k <= 8,
            out@.len() == k,
            forall|j: int| 0 <= j < k ==> out@[j] == le_byte(x, j),
        decreases 8 - k,
    {
        out.push(((x >> (8 * k)) & 0xFF) as u8);
        k = k + 1;
    }
    assert(out@ =~= le_bytes(x));
    out
}

/// Checks that the last byte of `bytes` is the CRC-8 of the bytes before it.
pub fn check_crc8(bytes: &[u8]) -> (r: bool)
    ensures
        r == crc_holds(bytes@),
{
    if bytes.len() == 0 {
        return false;
    }
    let n = bytes.len() - 1;
    let crc = crc8_prefix(bytes, n);
    assert(bytes@.subrange(0, n as int) =~= bytes@.drop_last());
    crc == bytes[n]
}

} // verus!
