use vstd::prelude::*;

verus! {

/// Copies the first `size` elements of `input` over the first `size` elements of `output`.
/// Everything else in `output` keeps its value.
pub fn copy<T: Copy>(input: &[T], output: &mut [T], size: usize)
    requires
        size <= input@.len(),
        size <= old(output)@.len(),
    ensures
        final(output)@.len() == old(output)@.len(),
        forall|k: int| 0 <= k < final(output)@.len() ==> #[trigger] final(output)@[k] == (
            if k < size { input@[k] } else { old(output)@[k] }),
{
    copy_offset(input, output, size, 0, 0);
}

/// Copies `size` elements of `input`, starting at `ioffset`, over the elements of `output`
/// that start at `ooffset`. Everything else in `output` keeps its value.
pub fn copy_offset<T: Copy>(input: &[T], output: &mut [T], size: usize, ioffset: usize, ooffset: usize)
    requires
        ioffset + size <= input@.len(),
        ooffset + size <= old(output)@.len(),
    ensures
        final(output)@.len() == old(output)@.len(),
        forall|k: int| 0 <= k < final(output)@.len() ==> #[trigger] final(output)@[k] == (
            if ooffset <= k < ooffset + size { input@[k - ooffset + ioffset] } else { old(output)@[k] }),
{
    let ilen = input.len();
    let olen = output.len();
    let mut i: usize = 0;
    while i < size
        invariant
            i <= size,
            ilen == input@.len(),
            olen == output@.len(),
            ioffset + size <= input@.len(),
            ooffset + size <= output@.len(),
            output@.len() == old(output)@.len(),
            forall|k: int| 0 <= k < output@.len() ==> #[trigger] output@[k] == (
                if ooffset <= k < ooffset + i { input@[k - ooffset + ioffset] } else { old(output)@[k] }),
        decreases size - i,
    {
        output[i + ooffset] = input[ioffset + i];
        i += 1;
    }
}

} // verus!
