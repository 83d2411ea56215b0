use vstd::prelude::*;

verus! {

/// Whether bit `bit` of a byte is set, counted from the least significant bit.
pub open spec fn byte_bit(byte: u8, bit: u8) -> bool {
    (byte >> bit) & 1 == 1
}

/// Whether bit `index` of a bitmap is set: bit `index % 8` of byte `index / 8`.
pub open spec fn spec_get_bit(bitmap: Seq<u8>, index: int) -> bool {
    byte_bit(bitmap[index / 8], (index % 8) as u8)
}

/// Setting a bit of a byte sets that bit and leaves the others.
pub proof fn lemma_set_byte_bit(byte: u8, bit: u8, other: u8)
    requires
        bit < 8,
        other < 8,
    ensures
        byte_bit(byte | (1u8 << bit), other) == (other == bit || byte_bit(byte, other)),
{
    assert(((byte | (1u8 << bit)) >> other) & 1 == 1 <==> (other == bit || (byte >> other) & 1
        == 1)) by (bit_vector)
        requires
            bit < 8,
            other < 8,
    ;
}

/// Clearing a bit of a byte clears that bit and leaves the others.
pub proof fn lemma_clear_byte_bit(byte: u8, bit: u8, other: u8)
    requires
        bit < 8,
        other < 8,
    ensures
        byte_bit(byte & !(1u8 << bit), other) == (other != bit && byte_bit(byte, other)),
{
    assert(((byte & !(1u8 << bit)) >> other) & 1 == 1 <==> (other != bit && (byte >> other) & 1
        == 1)) by (bit_vector)
        requires
            bit < 8,
            other < 8,
    ;
}

/// Sets or clears bit `index` of a bitmap. Every other bit keeps its value.
pub fn set_bit(bitmap: &mut [u8], index: usize, value: bool)
    requires
        index / 8 < old(bitmap)@.len(),
    ensures
        final(bitmap)@.len() == old(bitmap)@.len(),
        forall|i: int|
            0 <= i < 8 * final(bitmap)@.len() ==> #[trigger] spec_get_bit(final(bitmap)@, i) == (
            if i == index {
                value
            } else {
                spec_get_bit(old(bitmap)@, i)
            }),
{
    let byte = index / 8;
    let bit = (index % 8) as u8;
    let bitmask: u8 = 1u8 << bit;
    let before = bitmap[byte];
    if value {
        bitmap[byte] = before | bitmask;
    } else {
        bitmap[byte] = before & !bitmask;
    }
    proof {
        assert forall|i: int| 0 <= i < 8 * bitmap@.len() implies #[trigger] spec_get_bit(bitmap@, i)
            == (if i == index {
            value
        } else {
            spec_get_bit(old(bitmap)@, i)
        }) by {
            if i / 8 == byte {
                lemma_set_byte_bit(before, bit, (i % 8) as u8);
                lemma_clear_byte_bit(before, bit, (i % 8) as u8);
            }
        }
    }
}

/// Whether bit `index` of a bitmap is set.
pub fn get_bit(bitmap: &[u8], index: usize) -> (set: bool)
    requires
        index / 8 < bitmap@.len(),
    ensures
        set == spec_get_bit(bitmap@, index as int),
{
    let byte = index / 8;
    let bit = (index % 8) as u8;
    let shifted = bitmap[byte] >> bit;
    shifted & 1 == 1
}

} // verus!
