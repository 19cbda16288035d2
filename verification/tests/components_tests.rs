use rustbx::components::keep_largest_component;
use rustbx::components::label_components;
use rustbx::components::largest_connected_component_3d;
use rustbx::components::reduce_to_label;
use rustbx::volume::Vol;

fn mask_from(nx: usize, ny: usize, nz: usize, vals: Vec<u8>) -> Vol<u8> {
    Vol::from_data(nx, ny, nz, vals).expect("shape mismatch")
}

#[test]
fn two_blobs_keep_the_larger() {
    // A 5x5x5 volume with a 10-voxel bar along z at (0,0,..) plus (0,1,..),
    // and a disjoint 3-voxel bar at (4,4,0..3).
    let mut m: Vol<u8> = Vol::new_fill(5, 5, 5, 0u8).expect("fits");
    for z in 0..5 {
        m.set(0, 0, z, 1);
        m.set(0, 1, z, 1);
    }
    for z in 0..3 {
        m.set(4, 4, z, 1);
    }
    let out = largest_connected_component_3d(&m);
    for x in 0..5 {
        for y in 0..5 {
            for z in 0..5 {
                let expected = if x == 0 && (y == 0 || y == 1) { 1 } else { 0 };
                assert_eq!(out.get(x, y, z), expected, "voxel ({},{},{})", x, y, z);
            }
        }
    }
}

#[test]
fn all_zero_mask_stays_zero() {
    let m = mask_from(3, 3, 3, vec![0; 27]);
    let out = largest_connected_component_3d(&m);
    assert!(out.data.iter().all(|&v| v == 0));
    let (_, count) = keep_largest_component(&m);
    assert_eq!(count, 0);
}

#[test]
fn single_voxel_mask_is_kept() {
    let mut m: Vol<u8> = Vol::new_fill(3, 3, 3, 0u8).expect("fits");
    m.set(1, 1, 1, 1);
    let out = largest_connected_component_3d(&m);
    assert_eq!(out.data, m.data);
}

#[test]
fn equal_sizes_keep_the_earlier_component() {
    // Two disjoint single voxels: (0,0,0) is discovered first in scan order.
    let mut m: Vol<u8> = Vol::new_fill(2, 1, 3, 0u8).expect("fits");
    m.set(0, 0, 0, 1);
    m.set(1, 0, 2, 1);
    let out = largest_connected_component_3d(&m);
    assert_eq!(out.get(0, 0, 0), 1);
    assert_eq!(out.get(1, 0, 2), 0);
}

#[test]
fn diagonal_voxels_are_not_connected() {
    // Two voxels touching only at a corner form two components.
    let mut m: Vol<u8> = Vol::new_fill(2, 2, 2, 0u8).expect("fits");
    m.set(0, 0, 0, 1);
    m.set(1, 1, 1, 1);
    let (_, count) = keep_largest_component(&m);
    assert_eq!(count, 2);
}

#[test]
fn labels_grow_in_scan_order() {
    let mut m: Vol<u8> = Vol::new_fill(1, 1, 5, 0u8).expect("fits");
    m.set(0, 0, 0, 1);
    m.set(0, 0, 2, 1);
    m.set(0, 0, 4, 1);
    let labeling = label_components(&m);
    assert_eq!(labeling.count, 3);
    assert_eq!(labeling.labels.data, vec![1, 0, 2, 0, 3]);
    assert_eq!(labeling.best, 1);
    assert_eq!(labeling.best_size, 1);
}

#[test]
fn reduce_keeps_only_the_chosen_label() {
    let labels = Vol::from_data(1, 1, 4, vec![1usize, 2, 2, 0]).expect("shape mismatch");
    let out = reduce_to_label(&labels, 2);
    assert_eq!(out.data, vec![0, 1, 1, 0]);
    let none = reduce_to_label(&labels, 0);
    assert_eq!(none.data, vec![0, 0, 0, 0]);
}

#[test]
fn bent_component_is_kept_whole() {
    // An L-shaped component of 5 voxels and a lone voxel: the whole L
    // survives, nothing of it is cut away.
    let mut m: Vol<u8> = Vol::new_fill(4, 4, 1, 0u8).expect("fits");
    for x in 0..3 {
        m.set(x, 0, 0, 1);
    }
    for y in 1..3 {
        m.set(2, y, 0, 1);
    }
    m.set(0, 3, 0, 1);
    let out = largest_connected_component_3d(&m);
    for x in 0..3 {
        assert_eq!(out.get(x, 0, 0), 1);
    }
    for y in 1..3 {
        assert_eq!(out.get(2, y, 0), 1);
    }
    assert_eq!(out.get(0, 3, 0), 0);
}

#[test]
fn reducing_a_reduced_mask_changes_nothing() {
    // One connected blob: after reduction the mask is reproduced exactly.
    let mut m: Vol<u8> = Vol::new_fill(3, 3, 3, 0u8).expect("fits");
    m.set(1, 1, 1, 1);
    m.set(1, 1, 2, 1);
    m.set(1, 2, 1, 1);
    let (once, count_once) = keep_largest_component(&m);
    assert_eq!(count_once, 1);
    assert_eq!(once.data, m.data);
    let (twice, count_twice) = keep_largest_component(&once);
    assert_eq!(count_twice, 1);
    assert_eq!(twice.data, once.data);
}
