//! The slot hasher: outer keys to slots of the routing space.
use vstd::prelude::*;

verus! {

/// Number of slots in the routing space.
pub const SLOT_SIZE: u32 = 65536;

/// Slots are taken modulo this value, one less than the size of the space,
/// so the highest slot (`SLOT_SIZE - 1`) is never produced by hashing.
pub const SLOT_MODULUS: u32 = 65535;

/// The CRC-16 checksum (polynomial 0x8005, initial value 0xffff, no
/// reflection, no final xor) of the UTF-8 bytes of a key.
pub uninterp spec fn crc16_of(key: Seq<char>) -> u16;

/// The slot that a checksum falls into.
pub open spec fn slot_of_checksum_spec(c: u16) -> u32 {
    (c as nat % SLOT_MODULUS as nat) as u32
}

/// The slot of an outer key.
pub open spec fn slot_of(key: Seq<char>) -> u32 {
    slot_of_checksum_spec(crc16_of(key))
}

/// Relies on `crc::Crc::<u16>::checksum` with the catalogue algorithm
/// `crc::CRC_16_CMS` (width 16, poly 0x8005, init 0xffff, refin/refout false,
/// xorout 0): the checksum depends on the key's bytes alone.
#[verifier::external_body]
fn crc16(key: &str) -> (r: u16)
    ensures
        r == crc16_of(key@),
{
    crc::Crc::<u16>::new(&crc::CRC_16_CMS).checksum(key.as_bytes())
}

/// The slot that a checksum falls into: `c mod 65535`.
pub fn slot_of_checksum(c: u16) -> (r: u32)
    ensures
        r == slot_of_checksum_spec(c),
        r < SLOT_MODULUS,
{
    (c as u32) % SLOT_MODULUS
}

/// The slot of an outer key: its CRC-16 modulo 65535.
pub fn slot(key: &str) -> (r: u32)
    ensures
        r == slot_of(key@),
        r < SLOT_MODULUS,
{
    slot_of_checksum(crc16(key))
}

} // verus!
