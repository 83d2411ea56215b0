use vstd::prelude::*;
use vstd::bytes::{
    lemma_auto_spec_u64_to_from_le_bytes, spec_u64_from_le_bytes, spec_u64_to_le_bytes,
    u64_from_le_bytes, u64_to_le_bytes,
};
use vstd::slice::slice_subrange;
use crate::copy::copy_offset;

verus! {

/// `base` with the bytes from `offset` on replaced by `patch`.
pub open spec fn splice(base: Seq<u8>, offset: int, patch: Seq<u8>) -> Seq<u8> {
    Seq::new(
        base.len(),
        |k: int|
            if offset <= k < offset + patch.len() {
                patch[k - offset]
            } else {
                base[k]
            },
    )
}

/// `n` zero bytes.
pub open spec fn zeros(n: nat) -> Seq<u8> {
    Seq::new(n, |k: int| 0u8)
}

/// The eight bytes of `x`, least significant first.
pub open spec fn le_bytes(x: u64) -> Seq<u8> {
    spec_u64_to_le_bytes(x)
}

/// The number that eight bytes hold, least significant first.
pub open spec fn le_value(bytes: Seq<u8>) -> u64 {
    spec_u64_from_le_bytes(bytes)
}

/// Writing a number and reading it back gives the number; reading eight bytes and writing
/// the number back gives the bytes.
pub proof fn lemma_le_roundtrip()
    ensures
        forall|x: u64| #![trigger le_bytes(x)] le_bytes(x).len() == 8 && le_value(le_bytes(x)) == x,
        forall|s: Seq<u8>| s.len() == 8 ==> #[trigger] le_bytes(le_value(s)) == s,
{
    lemma_auto_spec_u64_to_from_le_bytes();
}

/// What was spliced in is read back from the same place, and the rest is as before.
pub proof fn lemma_splice(base: Seq<u8>, offset: int, patch: Seq<u8>)
    requires
        0 <= offset,
        offset + patch.len() <= base.len(),
    ensures
        splice(base, offset, patch).len() == base.len(),
        splice(base, offset, patch).subrange(offset, offset + patch.len()) == patch,
        forall|a: int, b: int|
            0 <= a <= b <= base.len() && (b <= offset || offset + patch.len() <= a) ==> #[trigger] splice(
                base,
                offset,
                patch,
            ).subrange(a, b) == base.subrange(a, b),
{
    assert(splice(base, offset, patch).subrange(offset, offset + patch.len()) =~= patch);
    assert forall|a: int, b: int|
        0 <= a <= b <= base.len() && (b <= offset || offset + patch.len() <= a) implies #[trigger] splice(
        base,
        offset,
        patch,
    ).subrange(a, b) == base.subrange(a, b) by {
        assert(splice(base, offset, patch).subrange(a, b) =~= base.subrange(a, b));
    }
}

/// Reads the number stored at `offset`, least significant byte first.
pub fn get_u64(block: &[u8], offset: usize) -> (x: u64)
    requires
        offset + 8 <= block@.len(),
    ensures
        x == le_value(block@.subrange(offset as int, offset + 8)),
{
    let len = block.len();
    u64_from_le_bytes(slice_subrange(block, offset, offset + 8))
}

/// Stores a number at `offset`, least significant byte first.
pub fn put_u64(block: &mut [u8], offset: usize, x: u64)
    requires
        offset + 8 <= old(block)@.len(),
    ensures
        final(block)@ == splice(old(block)@, offset as int, le_bytes(x)),
{
    let bytes = u64_to_le_bytes(x);
    copy_offset(bytes.as_slice(), block, 8, 0, offset);
    assert(block@ =~= splice(old(block)@, offset as int, le_bytes(x)));
}

/// Stores `patch` at `offset`.
pub fn put_bytes(block: &mut [u8], offset: usize, patch: &[u8])
    requires
        offset + patch@.len() <= old(block)@.len(),
    ensures
        final(block)@ == splice(old(block)@, offset as int, patch@),
{
    copy_offset(patch, block, patch.len(), 0, offset);
    assert(block@ =~= splice(old(block)@, offset as int, patch@));
}

/// A fresh vector with the bytes of `block` from `from` up to `to`.
pub fn get_bytes(block: &[u8], from: usize, to: usize) -> (out: Vec<u8>)
    requires
        from <= to <= block@.len(),
    ensures
        out@ == block@.subrange(from as int, to as int),
{
    let mut out: Vec<u8> = Vec::with_capacity(to - from);
    let mut i: usize = from;
    while i < to
        invariant
            from <= i <= to,
            to <= block@.len(),
            out@ == block@.subrange(from as int, i as int),
        decreases to - i,
    {
        out.push(block[i]);
        assert(block@.subrange(from as int, i as int).push(block@[i as int]) =~= block@.subrange(
            from as int,
            i + 1,
        ));
        i += 1;
    }
    out
}

} // verus!
