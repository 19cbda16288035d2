use rustbx::fbits::F32_NEG_INFINITY_BITS;
use rustbx::fbits::f32_bits_gt_zero;
use rustbx::paths::is_nifti;
use rustbx::paths::output_paths;
use rustbx::pipeline::extract_brain;
use rustbx::pipeline::reconcile_shape;
use rustbx::pipeline::volume_max_bits;
use rustbx::volume::Vol;

fn vol_from_f32(nx: usize, ny: usize, nz: usize, vals: Vec<f32>) -> Vol<u32> {
    let bits: Vec<u32> = vals.into_iter().map(|v| v.to_bits()).collect();
    Vol::from_data(nx, ny, nz, bits).expect("shape mismatch")
}

#[test]
fn max_bits_finds_the_maximum() {
    let v = vol_from_f32(1, 2, 2, vec![0.5, 2.0, -1.0, 1.75]);
    assert_eq!(f32::from_bits(volume_max_bits(&v)), 2.0);
    assert!(f32_bits_gt_zero(volume_max_bits(&v)));
}

#[test]
fn max_bits_of_nonpositive_volume_disables_normalization() {
    let v = vol_from_f32(1, 1, 3, vec![-3.0, -0.5, -1.0]);
    let m = volume_max_bits(&v);
    assert_eq!(f32::from_bits(m), -0.5);
    assert!(!f32_bits_gt_zero(m));
    let zeros = vol_from_f32(1, 1, 3, vec![0.0, 0.0, 0.0]);
    assert!(!f32_bits_gt_zero(volume_max_bits(&zeros)));
}

#[test]
fn max_bits_of_empty_volume_is_negative_infinity() {
    let v: Vol<u32> = Vol::from_data(0, 1, 1, Vec::new()).expect("empty");
    assert_eq!(volume_max_bits(&v), F32_NEG_INFINITY_BITS);
}

#[test]
fn normalized_maximum_reaches_one() {
    // The division itself is a float operation outside the library; what
    // the library fixes is the divisor: dividing by the reported maximum
    // brings the maximum of the result to exactly 1.0 here.
    let vals = vec![0.25f32, 4.0, 1.0, 2.0];
    let v = vol_from_f32(1, 2, 2, vals.clone());
    let max_val = f32::from_bits(volume_max_bits(&v));
    let normalized: Vec<f32> = vals.iter().map(|x| x / max_val).collect();
    let top = normalized.iter().cloned().fold(f32::NEG_INFINITY, f32::max);
    assert!((top - 1.0).abs() < 1e-6);
}

#[test]
fn reconcile_shape_accepts_singleton_leads() {
    assert!(reconcile_shape(&vec![1, 1, 4, 5, 6], 4, 5, 6));
    assert!(reconcile_shape(&vec![4, 5, 6], 4, 5, 6));
    assert!(reconcile_shape(&vec![1, 4, 5, 6], 4, 5, 6));
}

#[test]
fn reconcile_shape_rejects_mismatches() {
    assert!(!reconcile_shape(&vec![2, 1, 4, 5, 6], 4, 5, 6));
    assert!(!reconcile_shape(&vec![1, 1, 4, 5, 7], 4, 5, 6));
    assert!(!reconcile_shape(&vec![4, 5], 4, 5, 6));
    assert!(!reconcile_shape(&Vec::new(), 4, 5, 6));
}

#[test]
fn end_to_end_single_cold_voxel() {
    // A 4x4x4 all-ones input; logits are 10.0 everywhere except -10.0 at
    // the origin. The mask keeps the 63-voxel component and the masked
    // volume keeps the input there, 0.0 at the origin.
    let n = 4usize;
    let input = vol_from_f32(n, n, n, vec![1.0; 64]);
    let mut logits = vec![10.0f32; 64];
    logits[0] = -10.0;
    let probs: Vec<f32> = logits.iter().map(|x| 1.0 / (1.0 + (-x).exp())).collect();
    assert!(probs[0] < 1e-4);
    assert!(probs[1] > 1.0 - 1e-4);
    let prob = vol_from_f32(n, n, n, probs);
    let (mask, masked) = extract_brain(&input, &prob);
    for x in 0..n {
        for y in 0..n {
            for z in 0..n {
                let origin = x == 0 && y == 0 && z == 0;
                assert_eq!(mask.get(x, y, z), if origin { 0 } else { 1 });
                let val = f32::from_bits(masked.get(x, y, z));
                assert_eq!(val, if origin { 0.0 } else { 1.0 });
            }
        }
    }
}

#[test]
fn is_nifti_checks_both_suffixes() {
    assert!(is_nifti("scan.nii.gz"));
    assert!(is_nifti("scan.nii"));
    assert!(!is_nifti("scan.txt"));
    assert!(!is_nifti("scan.nii.bz2"));
    assert!(!is_nifti(""));
    assert!(is_nifti(".nii"));
}

#[test]
fn output_paths_strip_suffix_and_add_tags() {
    let (tbx, mask) = output_paths("T1w.nii.gz", "/out");
    assert_eq!(tbx, "/out/T1w_tbet.nii.gz");
    assert_eq!(mask, "/out/T1w_tbetmask.nii.gz");
    let (tbx2, mask2) = output_paths("scan.nii", ".");
    assert_eq!(tbx2, "./scan_tbet.nii.gz");
    assert_eq!(mask2, "./scan_tbetmask.nii.gz");
    // every occurrence of the suffixes is removed, as a replace would
    let (tbx3, _) = output_paths("a.nii.b.nii.gz", "d");
    assert_eq!(tbx3, "d/a.b_tbet.nii.gz");
    // an empty parent keeps the result relative
    let (tbx4, mask4) = output_paths("scan.nii.gz", "");
    assert_eq!(tbx4, "scan_tbet.nii.gz");
    assert_eq!(mask4, "scan_tbetmask.nii.gz");
}
