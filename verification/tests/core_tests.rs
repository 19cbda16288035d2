use rustbx::fbits::f32_bits_ge;
use rustbx::fbits::f32_bits_gt_zero;
use rustbx::fbits::f32_bits_is_nan;
use rustbx::postprocess::apply_mask;
use rustbx::postprocess::count_foreground;
use rustbx::postprocess::threshold_mask;
use rustbx::volume::Vol;

fn vol_from_f32(nx: usize, ny: usize, nz: usize, vals: Vec<f32>) -> Vol<u32> {
    let bits: Vec<u32> = vals.into_iter().map(|v| v.to_bits()).collect();
    Vol::from_data(nx, ny, nz, bits).expect("shape mismatch")
}

fn mask_from(nx: usize, ny: usize, nz: usize, vals: Vec<u8>) -> Vol<u8> {
    Vol::from_data(nx, ny, nz, vals).expect("shape mismatch")
}

#[test]
fn bits_comparisons_match_floats() {
    let samples: Vec<f32> = vec![
        -10.0, -1.5, -0.0, 0.0, 0.25, 0.5, 0.75, 1.0, 10.0, f32::NEG_INFINITY, f32::INFINITY,
    ];
    for &a in &samples {
        for &b in &samples {
            assert_eq!(
                f32_bits_ge(a.to_bits(), b.to_bits()),
                a >= b,
                "ge mismatch for {} >= {}",
                a,
                b
            );
        }
        assert_eq!(f32_bits_gt_zero(a.to_bits()), a > 0.0, "gt zero mismatch for {}", a);
    }
}

#[test]
fn bits_nan_is_detected() {
    assert!(f32_bits_is_nan(f32::NAN.to_bits()));
    assert!(!f32_bits_is_nan(0.0f32.to_bits()));
    assert!(!f32_bits_is_nan(f32::INFINITY.to_bits()));
    assert!(!f32_bits_is_nan(f32::NEG_INFINITY.to_bits()));
    assert!(!f32_bits_ge(f32::NAN.to_bits(), 0.5f32.to_bits()));
    assert!(!f32_bits_gt_zero(f32::NAN.to_bits()));
}

#[test]
fn threshold_keeps_boundary_value() {
    let prob = vol_from_f32(1, 1, 6, vec![0.5, 0.4999999, 0.5000001, 0.0, 1.0, f32::NAN]);
    let mask = threshold_mask(&prob, 0.5f32.to_bits());
    assert_eq!(mask.data, vec![1, 0, 1, 0, 1, 0]);
}

#[test]
fn threshold_output_is_binary() {
    let prob = vol_from_f32(2, 1, 2, vec![0.1, 0.9, 0.5, 0.3]);
    let mask = threshold_mask(&prob, 0.5f32.to_bits());
    for &v in mask.data.iter() {
        assert!(v == 0 || v == 1);
    }
    assert_eq!(mask.data, vec![0, 1, 1, 0]);
}

#[test]
fn threshold_agrees_with_float_sigmoid() {
    // The sigmoid runs outside the verified library; thresholding its
    // probabilities at 0.5 must keep exactly the non-negative logits.
    let logits: Vec<f32> = vec![-10.0, -1.0, -1e-6, 0.0, 1e-6, 1.0, 10.0];
    let probs: Vec<f32> = logits.iter().map(|x| 1.0 / (1.0 + (-x).exp())).collect();
    let prob = vol_from_f32(1, 1, 7, probs.clone());
    let mask = threshold_mask(&prob, 0.5f32.to_bits());
    for (i, (&x, &p)) in logits.iter().zip(probs.iter()).enumerate() {
        assert!(p > 0.0 && p < 1.0, "sigmoid out of (0,1) for {}", x);
        let expected = if p >= 0.5 { 1 } else { 0 };
        assert_eq!(mask.data[i], expected, "logit {}", x);
    }
}

#[test]
fn apply_mask_selects_and_zeroes() {
    let data = vol_from_f32(1, 2, 2, vec![1.5, -2.5, 3.25, 0.75]);
    let mask = mask_from(1, 2, 2, vec![1, 0, 0, 1]);
    let out = apply_mask(&data, &mask);
    let vals: Vec<f32> = out.data.iter().map(|&b| f32::from_bits(b)).collect();
    assert_eq!(vals, vec![1.5, 0.0, 0.0, 0.75]);
}

#[test]
fn count_foreground_counts_ones() {
    let mask = mask_from(2, 2, 2, vec![1, 0, 1, 1, 0, 0, 0, 1]);
    assert_eq!(count_foreground(&mask), 4);
    let empty = mask_from(2, 2, 2, vec![0; 8]);
    assert_eq!(count_foreground(&empty), 0);
}

#[test]
fn from_data_rejects_wrong_length() {
    assert!(Vol::from_data(2, 2, 2, vec![0u8; 7]).is_none());
    assert!(Vol::from_data(2, 2, 2, vec![0u8; 8]).is_some());
    assert!(Vol::from_data(0, 5, 5, Vec::<u8>::new()).is_some());
}

#[test]
fn volume_get_set_roundtrip() {
    let mut v: Vol<u32> = Vol::new_fill(3, 4, 5, 0).expect("fits");
    v.set(2, 3, 4, 77);
    v.set(0, 0, 0, 11);
    assert_eq!(v.get(2, 3, 4), 77);
    assert_eq!(v.get(0, 0, 0), 11);
    assert_eq!(v.get(1, 1, 1), 0);
}
