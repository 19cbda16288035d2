//! Element-wise stages of the pipeline: thresholding a probability volume
//! into a binary mask, applying a binary mask to an intensity volume, and
//! counting foreground voxels for diagnostics.

use vstd::prelude::*;

use crate::components::mask_binary;
use crate::fbits::ge_bits;
use crate::volume::Vol;
use crate::volume::same_shape;

verus! {

/// Number of entries of `s` equal to 1.
pub open spec fn count_ones(s: Seq<u8>) -> int
    decreases s.len(),
{
    if s.len() == 0 {
        0
    } else {
        count_ones(s.drop_last()) + if s.last() == 1 {
            1int
        } else {
            0int
        }
    }
}

/// Threshold a probability volume at the cutoff `th` (both as bit
/// patterns): a voxel becomes 1 exactly when its value is greater than or
/// equal to the cutoff — the comparison is inclusive at the boundary.
pub fn threshold_mask(prob: &Vol<u32>, th: u32) -> (r: Vol<u8>)
    requires
        prob.wf(),
    ensures
        r.wf(),
        same_shape(*prob, r),
        r.data.len() == prob.data.len(),
        mask_binary(r),
        forall|i: int|
            0 <= i < r.data.len() ==> r.data@[i] == (if ge_bits(prob.data@[i], th) {
                1u8
            } else {
                0u8
            }),
{
    let len = prob.data.len();
    let mut out: Vec<u8> = Vec::new();
    let mut i: usize = 0;
    while i < len
        invariant
            len == prob.data.len(),
            i <= len,
            out.len() == i,
            forall|j: int|
                0 <= j < i ==> out@[j] == (if ge_bits(prob.data@[j], th) {
                    1u8
                } else {
                    0u8
                }),
        decreases len - i,
    {
        let p = prob.data[i];
        if crate::fbits::f32_bits_ge(p, th) {
            out.push(1);
        } else {
            out.push(0);
        }
        i = i + 1;
    }
    Vol { nx: prob.nx, ny: prob.ny, nz: prob.nz, data: out }
}

/// Apply a binary mask to an intensity volume: keep the voxel's value where
/// the mask is 1, and write the zero pattern elsewhere. The zero pattern is
/// exactly the encoding of 0.0, so selection loses nothing.
pub fn apply_mask(data: &Vol<u32>, mask: &Vol<u8>) -> (r: Vol<u32>)
    requires
        data.wf(),
        mask.wf(),
        same_shape(*data, *mask),
    ensures
        r.wf(),
        same_shape(*data, r),
        r.data.len() == data.data.len(),
        forall|i: int|
            0 <= i < r.data.len() ==> r.data@[i] == (if mask.data@[i] == 1 {
                data.data@[i]
            } else {
                0u32
            }),
{
    let len = data.data.len();
    let mut out: Vec<u32> = Vec::new();
    let mut i: usize = 0;
    while i < len
        invariant
            len == data.data.len(),
            len == mask.data.len(),
            i <= len,
            out.len() == i,
            forall|j: int|
                0 <= j < i ==> out@[j] == (if mask.data@[j] == 1 {
                    data.data@[j]
                } else {
                    0u32
                }),
        decreases len - i,
    {
        let m = mask.data[i];
        if m == 1 {
            out.push(data.data[i]);
        } else {
            out.push(0);
        }
        i = i + 1;
    }
    Vol { nx: data.nx, ny: data.ny, nz: data.nz, data: out }
}

/// Count the foreground voxels of a binary volume.
pub fn count_foreground(mask: &Vol<u8>) -> (r: usize)
    requires
        mask.wf(),
    ensures
        r == count_ones(mask.data@),
{
    let len = mask.data.len();
    let mut n: usize = 0;
    let mut i: usize = 0;
    proof {
        assert(mask.data@.take(0) =~= Seq::<u8>::empty());
    }
    while i < len
        invariant
            len == mask.data.len(),
            i <= len,
            n == count_ones(mask.data@.take(i as int)),
            n <= i,
        decreases len - i,
    {
        proof {
            let t = mask.data@.take(i as int + 1);
            assert(t.drop_last() =~= mask.data@.take(i as int));
            assert(t.last() == mask.data@[i as int]);
        }
        if mask.data[i] == 1 {
            n = n + 1;
        }
        i = i + 1;
    }
    proof {
        assert(mask.data@.take(len as int) =~= mask.data@);
    }
    n
}

} // verus!
