//! The verified core of the pipeline orchestrator: the intensity maximum
//! that drives normalization, the reconciliation of the inference output's
//! shape, and the post-inference stages that turn a probability volume into
//! the final mask and the masked image.

use vstd::prelude::*;

use crate::components::Labeling;
use crate::components::connected_in;
use crate::components::foreground;
use crate::components::keep_largest_component;
use crate::components::labeling_ok;
use crate::components::mask_binary;
use crate::fbits::F32_HALF_BITS;
use crate::fbits::F32_NEG_INFINITY_BITS;
use crate::fbits::f32_bits_max;
use crate::fbits::ge_bits;
use crate::fbits::is_nan_bits;
use crate::fbits::key_bits;
use crate::postprocess::apply_mask;
use crate::postprocess::threshold_mask;
use crate::volume::Vol;
use crate::volume::same_shape;

verus! {

/// The running maximum of an intensity volume, as the float maximum folds
/// it: NaN voxels are ignored, and an all-NaN or empty volume yields the
/// negative-infinity pattern, the fold's starting value.
pub fn volume_max_bits(v: &Vol<u32>) -> (r: u32)
    requires
        v.wf(),
    ensures
        !is_nan_bits(r),
        forall|i: int|
            0 <= i < v.data.len() && !is_nan_bits(v.data@[i]) ==> key_bits(v.data@[i])
                <= key_bits(r),
        r == F32_NEG_INFINITY_BITS || exists|i: int| 0 <= i < v.data.len() && v.data@[i] == r,
{
    let len = v.data.len();
    let mut acc: u32 = F32_NEG_INFINITY_BITS;
    let mut i: usize = 0;
    while i < len
        invariant
            len == v.data.len(),
            i <= len,
            !is_nan_bits(acc),
            forall|j: int|
                0 <= j < i && !is_nan_bits(v.data@[j]) ==> key_bits(v.data@[j]) <= key_bits(acc),
            acc == F32_NEG_INFINITY_BITS || exists|j: int| 0 <= j < i && v.data@[j] == acc,
        decreases len - i,
    {
        acc = f32_bits_max(acc, v.data[i]);
        i = i + 1;
    }
    acc
}

/// The inference output's shape can be reconciled with the spatial shape
/// `(nx, ny, nz)`: its trailing three dimensions match and every leading
/// dimension is a singleton.
pub open spec fn shape_reconcilable(shape: Seq<usize>, nx: usize, ny: usize, nz: usize) -> bool {
    &&& shape.len() >= 3
    &&& shape[shape.len() - 3] == nx
    &&& shape[shape.len() - 2] == ny
    &&& shape[shape.len() - 1] == nz
    &&& forall|j: int| 0 <= j < shape.len() - 3 ==> shape[j] == 1
}

/// Decide whether the inference output's shape reduces to the expected 3-D
/// spatial shape once leading singleton dimensions are stripped.
pub fn reconcile_shape(shape: &Vec<usize>, nx: usize, ny: usize, nz: usize) -> (r: bool)
    ensures
        r == shape_reconcilable(shape@, nx, ny, nz),
{
    let n = shape.len();
    if n < 3 {
        return false;
    }
    if shape[n - 3] != nx || shape[n - 2] != ny || shape[n - 1] != nz {
        return false;
    }
    let mut j: usize = 0;
    while j < n - 3
        invariant
            n == shape@.len(),
            n >= 3,
            j <= n - 3,
            forall|k: int| 0 <= k < j ==> shape@[k] == 1,
            shape@[n - 3] == nx && shape@[n - 2] == ny && shape@[n - 1] == nz,
        decreases n - 3 - j,
    {
        if shape[j] != 1 {
            return false;
        }
        j = j + 1;
    }
    true
}

/// Post-inference stages of the pipeline: threshold the probability volume
/// at 0.5, keep the largest 6-connected component, and mask the original
/// input intensities with the result.
///
/// Returns `(mask, masked)`: the final binary mask and the input volume
/// with every voxel outside the mask set to the zero pattern.
pub fn extract_brain(input: &Vol<u32>, prob: &Vol<u32>) -> (r: (Vol<u8>, Vol<u32>))
    requires
        input.wf(),
        prob.wf(),
        same_shape(*input, *prob),
    ensures
        r.0.wf(),
        r.1.wf(),
        same_shape(*input, r.0),
        same_shape(*input, r.1),
        mask_binary(r.0),
        r.0.data.len() == input.data.len(),
        r.1.data.len() == input.data.len(),
        // the mask keeps only voxels whose probability reaches the cutoff
        forall|i: int|
            0 <= i < r.0.data.len() ==> (r.0.data@[i] == 1 ==> ge_bits(
                prob.data@[i],
                F32_HALF_BITS,
            )),
        // below-cutoff everywhere means an empty mask
        (forall|i: int| 0 <= i < prob.data.len() ==> !ge_bits(prob.data@[i], F32_HALF_BITS))
            ==> forall|i: int| 0 <= i < r.0.data.len() ==> r.0.data@[i] == 0,
        // the masked volume is the input under the mask and zero elsewhere
        forall|i: int|
            0 <= i < r.1.data.len() ==> r.1.data@[i] == (if r.0.data@[i] == 1 {
                input.data@[i]
            } else {
                0u32
            }),
        // adjacent voxels that both reach the cutoff are kept or dropped
        // together: the mask never cuts a component of the thresholded volume
        forall|x: int, y: int, z: int|
            #![trigger prob.flat(x, y, z), prob.flat(x + 1, y, z)]
            prob.in_bounds(x, y, z) && x + 1 < prob.nx && ge_bits(
                prob.data@[prob.flat(x, y, z)],
                F32_HALF_BITS,
            ) && ge_bits(prob.data@[prob.flat(x + 1, y, z)], F32_HALF_BITS)
                ==> r.0.data@[prob.flat(x, y, z)] == r.0.data@[prob.flat(x + 1, y, z)],
        forall|x: int, y: int, z: int|
            #![trigger prob.flat(x, y, z), prob.flat(x, y + 1, z)]
            prob.in_bounds(x, y, z) && y + 1 < prob.ny && ge_bits(
                prob.data@[prob.flat(x, y, z)],
                F32_HALF_BITS,
            ) && ge_bits(prob.data@[prob.flat(x, y + 1, z)], F32_HALF_BITS)
                ==> r.0.data@[prob.flat(x, y, z)] == r.0.data@[prob.flat(x, y + 1, z)],
        forall|x: int, y: int, z: int|
            #![trigger prob.flat(x, y, z), prob.flat(x, y, z + 1)]
            prob.in_bounds(x, y, z) && z + 1 < prob.nz && ge_bits(
                prob.data@[prob.flat(x, y, z)],
                F32_HALF_BITS,
            ) && ge_bits(prob.data@[prob.flat(x, y, z + 1)], F32_HALF_BITS)
                ==> r.0.data@[prob.flat(x, y, z)] == r.0.data@[prob.flat(x, y, z + 1)],
        // the mask is exactly the largest 6-connected component of the
        // thresholded probability volume t: nonempty whenever any voxel
        // reaches the cutoff, whole, and chosen by size with the earliest
        // label on ties
        exists|t: Vol<u8>|
            #![trigger t.wf()]
            t.nx == prob.nx && t.ny == prob.ny && t.nz == prob.nz && t.wf() && (forall|i: int|
                0 <= i < t.data.len() ==> t.data@[i] == (if ge_bits(prob.data@[i], F32_HALF_BITS) {
                    1u8
                } else {
                    0u8
                })) && (exists|lab: Labeling|
                labeling_ok(t, lab) && (forall|i: int|
                    0 <= i < r.0.data.len() ==> r.0.data@[i] == (if lab.best > 0
                        && lab.labels.data@[i] == lab.best {
                        1u8
                    } else {
                        0u8
                    }))) && ((exists|i: int| 0 <= i < t.data.len() && t.data@[i] == 1)
                ==> exists|s: (int, int, int)|
                    foreground(t, s) && r.0.data@[t.flat(s.0, s.1, s.2)] == 1 && (forall|
                        c: (int, int, int),
                    |
                        t.in_bounds(c.0, c.1, c.2) ==> (r.0.data@[#[trigger] t.flat(c.0, c.1, c.2)]
                            == 1 <==> connected_in(t, s, c)))),
{
    let thresholded = threshold_mask(prob, F32_HALF_BITS);
    let (mask, _count) = keep_largest_component(&thresholded);
    proof {
        assert forall|i: int| 0 <= i < mask.data.len() && mask.data@[i] == 1 implies ge_bits(
            prob.data@[i],
            F32_HALF_BITS,
        ) by {
            assert(thresholded.data@[i] == 1);
        }
        assert forall|x: int, y: int, z: int|
            #![trigger prob.flat(x, y, z), prob.flat(x + 1, y, z)]
            prob.in_bounds(x, y, z) && x + 1 < prob.nx && ge_bits(
                prob.data@[prob.flat(x, y, z)],
                F32_HALF_BITS,
            ) && ge_bits(prob.data@[prob.flat(x + 1, y, z)], F32_HALF_BITS) implies mask.data@[prob.flat(
            x,
            y,
            z,
        )] == mask.data@[prob.flat(x + 1, y, z)] by {
            prob.lemma_flat_bounds(x, y, z);
            prob.lemma_flat_bounds(x + 1, y, z);
            assert(thresholded.flat(x, y, z) == prob.flat(x, y, z));
            assert(thresholded.flat(x + 1, y, z) == prob.flat(x + 1, y, z));
            assert(thresholded.data@[thresholded.flat(x, y, z)] == 1);
            assert(thresholded.data@[thresholded.flat(x + 1, y, z)] == 1);
        }
        assert forall|x: int, y: int, z: int|
            #![trigger prob.flat(x, y, z), prob.flat(x, y + 1, z)]
            prob.in_bounds(x, y, z) && y + 1 < prob.ny && ge_bits(
                prob.data@[prob.flat(x, y, z)],
                F32_HALF_BITS,
            ) && ge_bits(prob.data@[prob.flat(x, y + 1, z)], F32_HALF_BITS) implies mask.data@[prob.flat(
            x,
            y,
            z,
        )] == mask.data@[prob.flat(x, y + 1, z)] by {
            prob.lemma_flat_bounds(x, y, z);
            prob.lemma_flat_bounds(x, y + 1, z);
            assert(thresholded.flat(x, y, z) == prob.flat(x, y, z));
            assert(thresholded.flat(x, y + 1, z) == prob.flat(x, y + 1, z));
            assert(thresholded.data@[thresholded.flat(x, y, z)] == 1);
            assert(thresholded.data@[thresholded.flat(x, y + 1, z)] == 1);
        }
        assert forall|x: int, y: int, z: int|
            #![trigger prob.flat(x, y, z), prob.flat(x, y, z + 1)]
            prob.in_bounds(x, y, z) && z + 1 < prob.nz && ge_bits(
                prob.data@[prob.flat(x, y, z)],
                F32_HALF_BITS,
            ) && ge_bits(prob.data@[prob.flat(x, y, z + 1)], F32_HALF_BITS) implies mask.data@[prob.flat(
            x,
            y,
            z,
        )] == mask.data@[prob.flat(x, y, z + 1)] by {
            prob.lemma_flat_bounds(x, y, z);
            prob.lemma_flat_bounds(x, y, z + 1);
            assert(thresholded.flat(x, y, z) == prob.flat(x, y, z));
            assert(thresholded.flat(x, y, z + 1) == prob.flat(x, y, z + 1));
            assert(thresholded.data@[thresholded.flat(x, y, z)] == 1);
            assert(thresholded.data@[thresholded.flat(x, y, z + 1)] == 1);
        }
    }
    let masked = apply_mask(input, &mask);
    (mask, masked)
}

} // verus!
