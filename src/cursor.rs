//! The bit cursor as a shift register: the unread bits, left-aligned, followed
//! by a 1 bit that marks where they end.
use vstd::prelude::*;

verus! {

/// The register that holds `count` unread bits, left-aligned in `bits`.
pub open spec fn register(count: u16, bits: u16) -> u16 {
    bits | (0x8000u16 >> count)
}

/// `bits` has nothing below its top `count` bits, and the register has room
/// for the end marker.
pub open spec fn aligned(count: u16, bits: u16) -> bool {
    count <= 8 && bits & (0xffffu16 >> count) == 0
}

/// The register is the bare end marker exactly when no bit is buffered.
pub proof fn lemma_register_empty(count: u16, bits: u16)
    requires
        aligned(count, bits),
    ensures
        (register(count, bits) == 0x8000u16) == (count == 0),
{
    assert(count <= 8 && bits & (0xffffu16 >> count) == 0 ==> ((bits | (0x8000u16 >> count)) == 0x8000u16) == (count == 0)) by (bit_vector);
}

/// Taking the top bit of the register takes the next unread bit.
pub proof fn lemma_register_pop(count: u16, bits: u16)
    requires
        aligned(count, bits),
        1 <= count,
    ensures
        (register(count, bits) & 0x8000u16 != 0) == (bits & 0x8000u16 != 0),
        register(count, bits) << 1u16 == register((count - 1) as u16, bits << 1u16),
        aligned((count - 1) as u16, bits << 1u16),
{
    assert(1 <= count <= 8 && bits & (0xffffu16 >> count) == 0 ==> {
        &&& ((bits | (0x8000u16 >> count)) & 0x8000u16 != 0) == (bits & 0x8000u16 != 0)
        &&& (bits | (0x8000u16 >> count)) << 1u16 == (bits << 1u16) | (0x8000u16 >> ((count - 1) as u16))
        &&& (bits << 1u16) & (0xffffu16 >> ((count - 1) as u16)) == 0
    }) by (bit_vector);
}

/// A fresh byte in the register: its eight bits, then the end marker.
pub proof fn lemma_register_fill(b: u8)
    ensures
        ((b as u16) << 8u16) | 0x80u16 == register(8, (b as u16) << 8u16),
        aligned(8, (b as u16) << 8u16),
{
    assert(((b as u16) << 8u16) | 0x80u16 == ((b as u16) << 8u16) | (0x8000u16 >> 8u16)
        && ((b as u16) << 8u16) & (0xffffu16 >> 8u16) == 0) by (bit_vector);
}

/// Shifting the register right and setting its top bit from bit 0 of `b`
/// puts that bit in front of the unread ones.
pub proof fn lemma_register_push(count: u16, bits: u16, b: u8)
    requires
        aligned(count, bits),
        count <= 7,
    ensures
        (register(count, bits) >> 1u16) | ((b as u16) << 15u16)
            == register((count + 1) as u16, (bits >> 1u16) | ((b as u16) << 15u16)),
        aligned((count + 1) as u16, (bits >> 1u16) | ((b as u16) << 15u16)),
{
    assert(count <= 7 && bits & (0xffffu16 >> count) == 0 ==> {
        &&& ((bits | (0x8000u16 >> count)) >> 1u16) | ((b as u16) << 15u16)
            == ((bits >> 1u16) | ((b as u16) << 15u16)) | (0x8000u16 >> ((count + 1) as u16))
        &&& ((bits >> 1u16) | ((b as u16) << 15u16)) & (0xffffu16 >> ((count + 1) as u16)) == 0
    }) by (bit_vector);
}

} // verus!
