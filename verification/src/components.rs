//! 6-connected component labeling over a binary volume and reduction to the
//! largest component.
//!
//! The labeler scans the volume in scan order. Each foreground voxel that is
//! still unlabeled seeds a breadth-first traversal over the six axis-aligned
//! neighbors, which stamps the whole component with the next label. Labels
//! start at 1 and grow by one per component. The largest component wins; on
//! equal sizes the earliest-discovered label is kept.

use vstd::prelude::*;

use crate::volume::Vol;
use crate::volume::same_shape;

verus! {

/// The volume holds only the values 0 and 1.
pub open spec fn mask_binary(m: Vol<u8>) -> bool {
    forall|i: int| 0 <= i < m.data.len() ==> m.data@[i] == 0 || m.data@[i] == 1
}

/// Number of entries of `s` equal to `l`.
pub open spec fn count_eq(s: Seq<usize>, l: usize) -> int
    decreases s.len(),
{
    if s.len() == 0 {
        0
    } else {
        count_eq(s.drop_last(), l) + if s.last() == l {
            1int
        } else {
            0int
        }
    }
}

proof fn lemma_count_eq_bounds(s: Seq<usize>, l: usize)
    ensures
        0 <= count_eq(s, l) <= s.len(),
    decreases s.len(),
{
    if s.len() > 0 {
        lemma_count_eq_bounds(s.drop_last(), l);
    }
}

proof fn lemma_count_eq_absent(s: Seq<usize>, l: usize)
    requires
        forall|j: int| 0 <= j < s.len() ==> s[j] != l,
    ensures
        count_eq(s, l) == 0,
    decreases s.len(),
{
    if s.len() > 0 {
        lemma_count_eq_absent(s.drop_last(), l);
    }
}

proof fn lemma_count_eq_present(s: Seq<usize>, l: usize, i: int)
    requires
        0 <= i < s.len(),
        s[i] == l,
    ensures
        count_eq(s, l) >= 1,
    decreases s.len(),
{
    lemma_count_eq_bounds(s.drop_last(), l);
    if i < s.len() - 1 {
        lemma_count_eq_present(s.drop_last(), l, i);
    }
}

proof fn lemma_count_eq_nonzero_exists(s: Seq<usize>, l: usize)
    requires
        count_eq(s, l) >= 1,
    ensures
        exists|j: int| 0 <= j < s.len() && s[j] == l,
    decreases s.len(),
{
    if s.len() > 0 {
        if s.last() == l {
            assert(s[s.len() - 1] == l);
        } else {
            lemma_count_eq_nonzero_exists(s.drop_last(), l);
            let j = choose|j: int| 0 <= j < s.drop_last().len() && s.drop_last()[j] == l;
            assert(s[j] == l);
        }
    }
}

proof fn lemma_count_eq_update(s: Seq<usize>, i: int, v: usize, l: usize)
    requires
        0 <= i < s.len(),
    ensures
        count_eq(s.update(i, v), l) == count_eq(s, l) + (if v == l {
            1int
        } else {
            0int
        }) - (if s[i] == l {
            1int
        } else {
            0int
        }),
    decreases s.len(),
{
    let t = s.update(i, v);
    if i == s.len() - 1 {
        assert(t.drop_last() =~= s.drop_last());
        assert(t.last() == v);
    } else {
        lemma_count_eq_update(s.drop_last(), i, v, l);
        assert(t.drop_last() =~= s.drop_last().update(i, v));
        assert(t.last() == s.last());
    }
}

/// The label volume is consistent with the mask for labels up to `cur`:
/// labels stand only on foreground voxels and never exceed `cur`.
pub open spec fn labels_ok(mask: Vol<u8>, labels: Vol<usize>, cur: usize) -> bool {
    &&& labels.wf()
    &&& same_shape(mask, labels)
    &&& forall|i: int| 0 <= i < labels.data.len() ==> labels.data@[i] <= cur
    &&& forall|i: int|
        0 <= i < labels.data.len() ==> (labels.data@[i] > 0 ==> mask.data@[i] == 1)
}

/// Two voxel coordinates differ by exactly one along exactly one axis.
pub open spec fn adjacent(a: (int, int, int), b: (int, int, int)) -> bool {
    ||| (b.0 == a.0 + 1 && b.1 == a.1 && b.2 == a.2)
    ||| (b.0 == a.0 - 1 && b.1 == a.1 && b.2 == a.2)
    ||| (b.0 == a.0 && b.1 == a.1 + 1 && b.2 == a.2)
    ||| (b.0 == a.0 && b.1 == a.1 - 1 && b.2 == a.2)
    ||| (b.0 == a.0 && b.1 == a.1 && b.2 == a.2 + 1)
    ||| (b.0 == a.0 && b.1 == a.1 && b.2 == a.2 - 1)
}

/// The coordinate is an in-bounds foreground voxel of the mask.
pub open spec fn foreground(mask: Vol<u8>, c: (int, int, int)) -> bool {
    mask.in_bounds(c.0, c.1, c.2) && mask.data@[mask.flat(c.0, c.1, c.2)] == 1
}

/// The sequence is a chain of foreground voxels, each 6-adjacent to the
/// next.
pub open spec fn is_path(mask: Vol<u8>, p: Seq<(int, int, int)>) -> bool {
    &&& p.len() >= 1
    &&& forall|k: int| 0 <= k < p.len() ==> foreground(mask, #[trigger] p[k])
    &&& forall|k: int| 0 <= k < p.len() - 1 ==> adjacent(#[trigger] p[k], p[k + 1])
}

/// The two voxels belong to the same 6-connected foreground component:
/// some chain of adjacent foreground voxels joins them.
pub open spec fn connected_in(mask: Vol<u8>, a: (int, int, int), b: (int, int, int)) -> bool {
    exists|p: Seq<(int, int, int)>| is_path(mask, p) && p.first() == a && p.last() == b
}

/// A foreground voxel is connected to itself.
pub proof fn lemma_connected_refl(mask: Vol<u8>, a: (int, int, int))
    requires
        foreground(mask, a),
    ensures
        connected_in(mask, a, a),
{
    let p = seq![a];
    assert(is_path(mask, p));
    assert(p.first() == a && p.last() == a);
}

/// Connectivity extends across one adjacency to a foreground voxel.
pub proof fn lemma_connected_step(
    mask: Vol<u8>,
    a: (int, int, int),
    b: (int, int, int),
    c: (int, int, int),
)
    requires
        connected_in(mask, a, b),
        adjacent(b, c),
        foreground(mask, c),
    ensures
        connected_in(mask, a, c),
{
    let p = choose|p: Seq<(int, int, int)>| is_path(mask, p) && p.first() == a && p.last() == b;
    let q = p.push(c);
    assert forall|k: int| 0 <= k < q.len() implies foreground(mask, #[trigger] q[k]) by {
        if k < p.len() {
            assert(q[k] == p[k]);
        }
    }
    assert forall|k: int| 0 <= k < q.len() - 1 implies adjacent(#[trigger] q[k], q[k + 1]) by {
        if k < p.len() - 1 {
            assert(q[k] == p[k] && q[k + 1] == p[k + 1]);
        } else {
            assert(q[k] == p[p.len() - 1] && q[k + 1] == c);
        }
    }
    assert(is_path(mask, q) && q.first() == a && q.last() == c);
}

/// Connectivity is symmetric: reverse the chain.
pub proof fn lemma_connected_symmetric(mask: Vol<u8>, a: (int, int, int), b: (int, int, int))
    requires
        connected_in(mask, a, b),
    ensures
        connected_in(mask, b, a),
{
    let p = choose|p: Seq<(int, int, int)>| is_path(mask, p) && p.first() == a && p.last() == b;
    let n = p.len();
    let q = Seq::new(n, |k: int| p[n - 1 - k]);
    assert forall|k: int| 0 <= k < q.len() - 1 implies adjacent(#[trigger] q[k], q[k + 1]) by {
        assert(adjacent(p[n - 2 - k], p[n - 1 - k]));
    }
    assert(is_path(mask, q) && q.first() == b && q.last() == a);
}

/// Connectivity is transitive: join the chains.
pub proof fn lemma_connected_transitive(
    mask: Vol<u8>,
    a: (int, int, int),
    b: (int, int, int),
    c: (int, int, int),
)
    requires
        connected_in(mask, a, b),
        connected_in(mask, b, c),
    ensures
        connected_in(mask, a, c),
{
    let p = choose|p: Seq<(int, int, int)>| is_path(mask, p) && p.first() == a && p.last() == b;
    let q = choose|q: Seq<(int, int, int)>| is_path(mask, q) && q.first() == b && q.last() == c;
    let r = p + q.skip(1);
    assert forall|k: int| 0 <= k < r.len() implies foreground(mask, #[trigger] r[k]) by {
        if k < p.len() {
            assert(r[k] == p[k]);
        } else {
            assert(r[k] == q[k - p.len() + 1]);
        }
    }
    assert forall|k: int| 0 <= k < r.len() - 1 implies adjacent(#[trigger] r[k], r[k + 1]) by {
        if k < p.len() - 1 {
            assert(r[k] == p[k] && r[k + 1] == p[k + 1]);
        } else if k == p.len() - 1 {
            if q.len() >= 2 {
                assert(r[k] == p[p.len() - 1] && r[k + 1] == q[1]);
                assert(adjacent(q[0], q[1]));
            }
        } else {
            assert(r[k] == q[k - p.len() + 1] && r[k + 1] == q[k - p.len() + 2]);
        }
    }
    assert(r.first() == a);
    if q.len() == 1 {
        assert(r =~= p);
        assert(r.last() == b && b == c);
    } else {
        assert(r.last() == q[q.len() - 1]);
    }
    assert(is_path(mask, r) && r.first() == a && r.last() == c);
}

/// The voxel at `(x, y, z)` is labeled if it is foreground.
pub open spec fn fg_labeled(mask: Vol<u8>, labels: Vol<usize>, x: int, y: int, z: int) -> bool {
    mask.data@[mask.flat(x, y, z)] == 1 ==> labels.data@[mask.flat(x, y, z)] > 0
}

/// Every foreground neighbor of the voxel at `(x, y, z)` is labeled.
#[verifier::opaque]
pub open spec fn neighbors_labeled(
    mask: Vol<u8>,
    labels: Vol<usize>,
    x: int,
    y: int,
    z: int,
) -> bool {
    &&& x > 0 ==> fg_labeled(mask, labels, x - 1, y, z)
    &&& x + 1 < mask.nx ==> fg_labeled(mask, labels, x + 1, y, z)
    &&& y > 0 ==> fg_labeled(mask, labels, x, y - 1, z)
    &&& y + 1 < mask.ny ==> fg_labeled(mask, labels, x, y + 1, z)
    &&& z > 0 ==> fg_labeled(mask, labels, x, y, z - 1)
    &&& z + 1 < mask.nz ==> fg_labeled(mask, labels, x, y, z + 1)
}

/// Labels never disagree across an adjacency: whenever two neighboring
/// voxels both carry a label, it is the same label. Together with
/// completeness this makes every label constant on each 6-connected
/// component — no component is ever split between labels.
pub open spec fn labels_consistent(mask: Vol<u8>, labels: Vol<usize>) -> bool {
    &&& forall|x: int, y: int, z: int|
        #![trigger mask.flat(x, y, z), mask.flat(x + 1, y, z)]
        mask.in_bounds(x, y, z) && x + 1 < mask.nx && labels.data@[mask.flat(x, y, z)] > 0
            && labels.data@[mask.flat(x + 1, y, z)] > 0 ==> labels.data@[mask.flat(x, y, z)]
            == labels.data@[mask.flat(x + 1, y, z)]
    &&& forall|x: int, y: int, z: int|
        #![trigger mask.flat(x, y, z), mask.flat(x, y + 1, z)]
        mask.in_bounds(x, y, z) && y + 1 < mask.ny && labels.data@[mask.flat(x, y, z)] > 0
            && labels.data@[mask.flat(x, y + 1, z)] > 0 ==> labels.data@[mask.flat(x, y, z)]
            == labels.data@[mask.flat(x, y + 1, z)]
    &&& forall|x: int, y: int, z: int|
        #![trigger mask.flat(x, y, z), mask.flat(x, y, z + 1)]
        mask.in_bounds(x, y, z) && z + 1 < mask.nz && labels.data@[mask.flat(x, y, z)] > 0
            && labels.data@[mask.flat(x, y, z + 1)] > 0 ==> labels.data@[mask.flat(x, y, z)]
            == labels.data@[mask.flat(x, y, z + 1)]
}

/// Voxels carrying the same positive label are 6-connected in the mask.
/// Together with `labels_consistent` and completeness this makes the label
/// classes exactly the 6-connected components of the foreground.
pub open spec fn labels_connected(mask: Vol<u8>, labels: Vol<usize>) -> bool {
    forall|c1: (int, int, int), c2: (int, int, int)|
        #![trigger mask.flat(c1.0, c1.1, c1.2), mask.flat(c2.0, c2.1, c2.2)]
        mask.in_bounds(c1.0, c1.1, c1.2) && mask.in_bounds(c2.0, c2.1, c2.2)
            && labels.data@[mask.flat(c1.0, c1.1, c1.2)] == labels.data@[mask.flat(
            c2.0,
            c2.1,
            c2.2,
        )] && labels.data@[mask.flat(c1.0, c1.1, c1.2)] >= 1 ==> connected_in(mask, c1, c2)
}

/// Every labeled voxel has all its foreground neighbors labeled: labeling
/// has finished every component it has touched.
pub open spec fn all_labels_closed(mask: Vol<u8>, labels: Vol<usize>) -> bool {
    forall|x: int, y: int, z: int|
        mask.in_bounds(x, y, z) && labels.data@[#[trigger] mask.flat(x, y, z)] > 0
            ==> neighbors_labeled(mask, labels, x, y, z)
}

/// Every voxel labeled strictly below `cur` has all its foreground
/// neighbors labeled: earlier components are finished and closed.
pub open spec fn older_labels_closed(mask: Vol<u8>, labels: Vol<usize>, cur: usize) -> bool {
    forall|x: int, y: int, z: int|
        mask.in_bounds(x, y, z) && 0 < labels.data@[#[trigger] mask.flat(x, y, z)]
            && labels.data@[mask.flat(x, y, z)] < cur ==> neighbors_labeled(mask, labels, x, y, z)
}

/// Adjacent foreground voxels of a consistent, complete labeling share
/// their label.
proof fn lemma_adjacent_same_label(
    mask: Vol<u8>,
    labels: Vol<usize>,
    a: (int, int, int),
    b: (int, int, int),
)
    requires
        mask.wf(),
        labels.wf(),
        same_shape(mask, labels),
        labels_consistent(mask, labels),
        forall|i: int| 0 <= i < labels.data.len() ==> (labels.data@[i] > 0 <==> mask.data@[i] == 1),
        foreground(mask, a),
        foreground(mask, b),
        adjacent(a, b),
    ensures
        labels.data@[mask.flat(a.0, a.1, a.2)] == labels.data@[mask.flat(b.0, b.1, b.2)],
        labels.data@[mask.flat(a.0, a.1, a.2)] > 0,
{
    mask.lemma_flat_bounds(a.0, a.1, a.2);
    mask.lemma_flat_bounds(b.0, b.1, b.2);
    if b.0 == a.0 + 1 && b.1 == a.1 && b.2 == a.2 {
        assert(mask.flat(a.0 + 1, a.1, a.2) == mask.flat(b.0, b.1, b.2));
    } else if b.0 == a.0 - 1 && b.1 == a.1 && b.2 == a.2 {
        assert(mask.flat(b.0 + 1, b.1, b.2) == mask.flat(a.0, a.1, a.2));
    } else if b.1 == a.1 + 1 && b.0 == a.0 && b.2 == a.2 {
        assert(mask.flat(a.0, a.1 + 1, a.2) == mask.flat(b.0, b.1, b.2));
    } else if b.1 == a.1 - 1 && b.0 == a.0 && b.2 == a.2 {
        assert(mask.flat(b.0, b.1 + 1, b.2) == mask.flat(a.0, a.1, a.2));
    } else if b.2 == a.2 + 1 && b.0 == a.0 && b.1 == a.1 {
        assert(mask.flat(a.0, a.1, a.2 + 1) == mask.flat(b.0, b.1, b.2));
    } else {
        assert(mask.flat(b.0, b.1, b.2 + 1) == mask.flat(a.0, a.1, a.2));
    }
}

/// A consistent, complete labeling is constant along any chain of adjacent
/// foreground voxels.
proof fn lemma_path_same_label(mask: Vol<u8>, labels: Vol<usize>, p: Seq<(int, int, int)>)
    requires
        mask.wf(),
        labels.wf(),
        same_shape(mask, labels),
        labels_consistent(mask, labels),
        forall|i: int| 0 <= i < labels.data.len() ==> (labels.data@[i] > 0 <==> mask.data@[i] == 1),
        is_path(mask, p),
    ensures
        labels.data@[mask.flat(p.first().0, p.first().1, p.first().2)] == labels.data@[mask.flat(
            p.last().0,
            p.last().1,
            p.last().2,
        )],
    decreases p.len(),
{
    if p.len() >= 2 {
        assert(foreground(mask, p[0]) && foreground(mask, p[1]));
        assert(adjacent(p[0], p[1]));
        lemma_adjacent_same_label(mask, labels, p[0], p[1]);
        let q = p.skip(1);
        assert forall|k: int| 0 <= k < q.len() implies foreground(mask, #[trigger] q[k]) by {
            assert(q[k] == p[k + 1]);
        }
        assert forall|k: int| 0 <= k < q.len() - 1 implies adjacent(#[trigger] q[k], q[k + 1]) by {
            assert(q[k] == p[k + 1] && q[k + 1] == p[k + 2]);
        }
        lemma_path_same_label(mask, labels, q);
        assert(q.first() == p[1] && q.last() == p.last());
    }
}

/// Two connected foreground voxels of a consistent, complete labeling
/// carry the same, positive label: with `label_components`' guarantees
/// this pins every label class to a subset of one 6-connected component.
pub proof fn lemma_connected_same_label(
    mask: Vol<u8>,
    labels: Vol<usize>,
    a: (int, int, int),
    b: (int, int, int),
)
    requires
        mask.wf(),
        labels.wf(),
        same_shape(mask, labels),
        labels_consistent(mask, labels),
        forall|i: int| 0 <= i < labels.data.len() ==> (labels.data@[i] > 0 <==> mask.data@[i] == 1),
        connected_in(mask, a, b),
    ensures
        labels.data@[mask.flat(a.0, a.1, a.2)] == labels.data@[mask.flat(b.0, b.1, b.2)],
        labels.data@[mask.flat(a.0, a.1, a.2)] > 0,
{
    let p = choose|p: Seq<(int, int, int)>| is_path(mask, p) && p.first() == a && p.last() == b;
    lemma_path_same_label(mask, labels, p);
    assert(foreground(mask, a));
    mask.lemma_flat_bounds(a.0, a.1, a.2);
}

/// Stamping one unlabeled foreground voxel with the current label keeps the
/// labels consistent and the earlier components closed: a neighbor with an
/// older label would have forced this voxel to be labeled already.
proof fn lemma_stamp_consistent(
    mask: Vol<u8>,
    before: Vol<usize>,
    after: Vol<usize>,
    x: int,
    y: int,
    z: int,
    cur: usize,
)
    requires
        mask.wf(),
        labels_ok(mask, before, cur),
        labels_consistent(mask, before),
        older_labels_closed(mask, before, cur),
        cur >= 1,
        mask.in_bounds(x, y, z),
        mask.data@[mask.flat(x, y, z)] == 1,
        before.data@[mask.flat(x, y, z)] == 0,
        after.data@ == before.data@.update(mask.flat(x, y, z), cur),
        after.nx == before.nx && after.ny == before.ny && after.nz == before.nz,
    ensures
        labels_consistent(mask, after),
        older_labels_closed(mask, after, cur),
{
    reveal(neighbors_labeled);
    let fv = mask.flat(x, y, z);
    mask.lemma_flat_bounds(x, y, z);
    assert forall|xa: int, ya: int, za: int|
        mask.in_bounds(xa, ya, za) && xa + 1 < mask.nx && after.data@[#[trigger] mask.flat(
            xa,
            ya,
            za,
        )] > 0 && after.data@[mask.flat(xa + 1, ya, za)] > 0 implies after.data@[mask.flat(
        xa,
        ya,
        za,
    )] == after.data@[mask.flat(xa + 1, ya, za)] by {
        lemma_stamp_pair(mask, before, after, x, y, z, cur, xa, ya, za, xa + 1, ya, za);
    }
    assert forall|xa: int, ya: int, za: int|
        mask.in_bounds(xa, ya, za) && ya + 1 < mask.ny && after.data@[#[trigger] mask.flat(
            xa,
            ya,
            za,
        )] > 0 && after.data@[mask.flat(xa, ya + 1, za)] > 0 implies after.data@[mask.flat(
        xa,
        ya,
        za,
    )] == after.data@[mask.flat(xa, ya + 1, za)] by {
        lemma_stamp_pair(mask, before, after, x, y, z, cur, xa, ya, za, xa, ya + 1, za);
    }
    assert forall|xa: int, ya: int, za: int|
        mask.in_bounds(xa, ya, za) && za + 1 < mask.nz && after.data@[#[trigger] mask.flat(
            xa,
            ya,
            za,
        )] > 0 && after.data@[mask.flat(xa, ya, za + 1)] > 0 implies after.data@[mask.flat(
        xa,
        ya,
        za,
    )] == after.data@[mask.flat(xa, ya, za + 1)] by {
        lemma_stamp_pair(mask, before, after, x, y, z, cur, xa, ya, za, xa, ya, za + 1);
    }
    assert forall|xa: int, ya: int, za: int|
        mask.in_bounds(xa, ya, za) && 0 < after.data@[#[trigger] mask.flat(xa, ya, za)]
            && after.data@[mask.flat(xa, ya, za)] < cur implies neighbors_labeled(
        mask,
        after,
        xa,
        ya,
        za,
    ) by {
        let fa = mask.flat(xa, ya, za);
        mask.lemma_flat_bounds(xa, ya, za);
        if fa == fv {
            mask.lemma_flat_injective(xa, ya, za, x, y, z);
            assert(false);
        }
        assert(before.data@[fa] == after.data@[fa]);
        assert(neighbors_labeled(mask, before, xa, ya, za));
        lemma_neighbors_labeled_monotone(mask, before, after, xa, ya, za);
    }
}

/// Growing labels (never erasing one) keeps a closed neighborhood closed.
proof fn lemma_neighbors_labeled_monotone(
    mask: Vol<u8>,
    before: Vol<usize>,
    after: Vol<usize>,
    xa: int,
    ya: int,
    za: int,
)
    requires
        mask.wf(),
        mask.in_bounds(xa, ya, za),
        before.data.len() == mask.nx * mask.ny * mask.nz,
        before.data.len() == after.data.len(),
        forall|j: int|
            0 <= j < before.data.len() ==> (before.data@[j] > 0 ==> #[trigger] after.data@[j]
                > 0),
        neighbors_labeled(mask, before, xa, ya, za),
    ensures
        neighbors_labeled(mask, after, xa, ya, za),
{
    reveal(neighbors_labeled);
    if xa > 0 {
        mask.lemma_flat_bounds(xa - 1, ya, za);
        assert(fg_labeled(mask, before, xa - 1, ya, za));
        assert(fg_labeled(mask, after, xa - 1, ya, za));
    }
    if xa + 1 < mask.nx {
        mask.lemma_flat_bounds(xa + 1, ya, za);
        assert(fg_labeled(mask, before, xa + 1, ya, za));
        assert(fg_labeled(mask, after, xa + 1, ya, za));
    }
    if ya > 0 {
        mask.lemma_flat_bounds(xa, ya - 1, za);
        assert(fg_labeled(mask, before, xa, ya - 1, za));
        assert(fg_labeled(mask, after, xa, ya - 1, za));
    }
    if ya + 1 < mask.ny {
        mask.lemma_flat_bounds(xa, ya + 1, za);
        assert(fg_labeled(mask, before, xa, ya + 1, za));
        assert(fg_labeled(mask, after, xa, ya + 1, za));
    }
    if za > 0 {
        mask.lemma_flat_bounds(xa, ya, za - 1);
        assert(fg_labeled(mask, before, xa, ya, za - 1));
        assert(fg_labeled(mask, after, xa, ya, za - 1));
    }
    if za + 1 < mask.nz {
        mask.lemma_flat_bounds(xa, ya, za + 1);
        assert(fg_labeled(mask, before, xa, ya, za + 1));
        assert(fg_labeled(mask, after, xa, ya, za + 1));
    }
}

/// One adjacent pair for `lemma_stamp_consistent`: `(xb, yb, zb)` is the
/// in-bounds neighbor of `(xa, ya, za)` one step up along one axis.
proof fn lemma_stamp_pair(
    mask: Vol<u8>,
    before: Vol<usize>,
    after: Vol<usize>,
    x: int,
    y: int,
    z: int,
    cur: usize,
    xa: int,
    ya: int,
    za: int,
    xb: int,
    yb: int,
    zb: int,
)
    requires
        mask.wf(),
        labels_ok(mask, before, cur),
        labels_consistent(mask, before),
        older_labels_closed(mask, before, cur),
        cur >= 1,
        mask.in_bounds(x, y, z),
        mask.data@[mask.flat(x, y, z)] == 1,
        before.data@[mask.flat(x, y, z)] == 0,
        after.data@ == before.data@.update(mask.flat(x, y, z), cur),
        mask.in_bounds(xa, ya, za),
        mask.in_bounds(xb, yb, zb),
        (xb == xa + 1 && yb == ya && zb == za) || (xb == xa && yb == ya + 1 && zb == za) || (xb
            == xa && yb == ya && zb == za + 1),
        after.data@[mask.flat(xa, ya, za)] > 0,
        after.data@[mask.flat(xb, yb, zb)] > 0,
    ensures
        after.data@[mask.flat(xa, ya, za)] == after.data@[mask.flat(xb, yb, zb)],
{
    reveal(neighbors_labeled);
    let fv = mask.flat(x, y, z);
    let fa = mask.flat(xa, ya, za);
    let fb = mask.flat(xb, yb, zb);
    mask.lemma_flat_bounds(x, y, z);
    mask.lemma_flat_bounds(xa, ya, za);
    mask.lemma_flat_bounds(xb, yb, zb);
    if fa == fv && fb == fv {
        mask.lemma_flat_injective(xa, ya, za, x, y, z);
        mask.lemma_flat_injective(xb, yb, zb, x, y, z);
        assert(false);
    } else if fa == fv {
        mask.lemma_flat_injective(xa, ya, za, x, y, z);
        assert(after.data@[fa] == cur);
        assert(after.data@[fb] == before.data@[fb]);
        if before.data@[fb] < cur {
            assert(neighbors_labeled(mask, before, xb, yb, zb));
            assert(fg_labeled(mask, before, xa, ya, za));
            assert(false);
        }
        assert(before.data@[fb] <= cur);
    } else if fb == fv {
        mask.lemma_flat_injective(xb, yb, zb, x, y, z);
        assert(after.data@[fb] == cur);
        assert(after.data@[fa] == before.data@[fa]);
        if before.data@[fa] < cur {
            assert(neighbors_labeled(mask, before, xa, ya, za));
            assert(fg_labeled(mask, before, xb, yb, zb));
            assert(false);
        }
        assert(before.data@[fa] <= cur);
    } else {
        assert(after.data@[fa] == before.data@[fa]);
        assert(after.data@[fb] == before.data@[fb]);
    }
}

/// One breadth-first visit: if the voxel at `(x, y, z)` is foreground and
/// unlabeled, stamp it with `cur` and enqueue it; otherwise change nothing.
fn bfs_visit(
    mask: &Vol<u8>,
    labels: &mut Vol<usize>,
    queue: &mut Vec<(usize, usize, usize)>,
    x: usize,
    y: usize,
    z: usize,
    cur: usize,
) -> (pushed: bool)
    requires
        mask.wf(),
        mask_binary(*mask),
        labels_ok(*mask, *old(labels), cur),
        labels_consistent(*mask, *old(labels)),
        older_labels_closed(*mask, *old(labels), cur),
        mask.in_bounds(x as int, y as int, z as int),
        cur >= 1,
    ensures
        labels_ok(*mask, *final(labels), cur),
        labels_consistent(*mask, *final(labels)),
        older_labels_closed(*mask, *final(labels), cur),
        fg_labeled(*mask, *final(labels), x as int, y as int, z as int),
        final(labels).nx == old(labels).nx,
        final(labels).ny == old(labels).ny,
        final(labels).nz == old(labels).nz,
        final(labels).data.len() == old(labels).data.len(),
        pushed == (mask.data@[mask.flat(x as int, y as int, z as int)] == 1
            && old(labels).data@[mask.flat(x as int, y as int, z as int)] == 0),
        pushed ==> final(labels).data@ == old(labels).data@.update(
            mask.flat(x as int, y as int, z as int),
            cur,
        ) && final(queue)@ == old(queue)@.push((x, y, z)),
        !pushed ==> final(labels).data@ == old(labels).data@ && final(queue)@ == old(queue)@,
        // counting consequences
        forall|l: usize|
            l >= 1 ==> count_eq(final(labels).data@, l) == count_eq(old(labels).data@, l) + (
            if pushed && l == cur {
                1int
            } else {
                0int
            }),
        count_eq(final(labels).data@, 0) == count_eq(old(labels).data@, 0) - (if pushed {
            1int
        } else {
            0int
        }),
        // labels only grow from zero
        forall|j: int|
            0 <= j < old(labels).data.len() && old(labels).data@[j] > 0
                ==> final(labels).data@[j] == old(labels).data@[j],
{
    proof {
        mask.lemma_flat_bounds(x as int, y as int, z as int);
    }
    let v = mask.get(x, y, z);
    let l = labels.get(x, y, z);
    if v == 1 && l == 0 {
        let ghost before = labels.data@;
        let ghost idx = mask.flat(x as int, y as int, z as int);
        let ghost labels_before = *labels;
        labels.set(x, y, z, cur);
        queue.push((x, y, z));
        proof {
            assert forall|lq: usize| lq >= 1 implies count_eq(labels.data@, lq) == count_eq(
                before,
                lq,
            ) + (if lq == cur {
                1int
            } else {
                0int
            }) by {
                lemma_count_eq_update(before, idx, cur, lq);
            }
            lemma_count_eq_update(before, idx, cur, 0);
            lemma_stamp_consistent(
                *mask,
                labels_before,
                *labels,
                x as int,
                y as int,
                z as int,
                cur,
            );
        }
        true
    } else {
        false
    }
}

/// Visit the six axis-aligned neighbors of an in-bounds voxel, stamping and
/// enqueueing each one that is foreground and unlabeled.
///
/// The net effect on the label counts matches the queue growth exactly:
/// every new queue entry stands for one voxel newly stamped with `cur`.
#[verifier::rlimit(100)]
#[verifier::spinoff_prover]
fn visit_neighbors(
    mask: &Vol<u8>,
    labels: &mut Vol<usize>,
    queue: &mut Vec<(usize, usize, usize)>,
    cx: usize,
    cy: usize,
    cz: usize,
    cur: usize,
) -> (grown: usize)
    requires
        mask.wf(),
        mask_binary(*mask),
        labels_ok(*mask, *old(labels), cur),
        labels_consistent(*mask, *old(labels)),
        older_labels_closed(*mask, *old(labels), cur),
        mask.in_bounds(cx as int, cy as int, cz as int),
        cur >= 1,
    ensures
        labels_ok(*mask, *final(labels), cur),
        labels_consistent(*mask, *final(labels)),
        older_labels_closed(*mask, *final(labels), cur),
        neighbors_labeled(*mask, *final(labels), cx as int, cy as int, cz as int),
        final(labels).nx == old(labels).nx,
        final(labels).ny == old(labels).ny,
        final(labels).nz == old(labels).nz,
        final(labels).data.len() == old(labels).data.len(),
        final(queue)@.len() == old(queue)@.len() + grown,
        forall|k: int| 0 <= k < old(queue)@.len() ==> final(queue)@[k] == old(queue)@[k],
        forall|k: int|
            old(queue)@.len() <= k < final(queue)@.len() ==> mask.in_bounds(
                final(queue)@[k].0 as int,
                final(queue)@[k].1 as int,
                final(queue)@[k].2 as int,
            ),
        forall|k: int|
            old(queue)@.len() <= k < final(queue)@.len() ==> final(labels).data@[mask.flat(
                final(queue)@[k].0 as int,
                final(queue)@[k].1 as int,
                final(queue)@[k].2 as int,
            )] == cur,
        forall|k: int|
            old(queue)@.len() <= k < final(queue)@.len() ==> adjacent(
                (cx as int, cy as int, cz as int),
                (
                    #[trigger] final(queue)@[k].0 as int,
                    final(queue)@[k].1 as int,
                    final(queue)@[k].2 as int,
                ),
            ),
        forall|j: int|
            0 <= j < old(labels).data.len() && old(labels).data@[j] == 0
                && final(labels).data@[j] != 0 ==> exists|k: int|
                old(queue)@.len() <= k < final(queue)@.len() && mask.flat(
                    #[trigger] final(queue)@[k].0 as int,
                    final(queue)@[k].1 as int,
                    final(queue)@[k].2 as int,
                ) == j,
        forall|l: usize|
            l >= 1 && l != cur ==> count_eq(final(labels).data@, l) == count_eq(
                old(labels).data@,
                l,
            ),
        count_eq(final(labels).data@, cur) == count_eq(old(labels).data@, cur) + grown,
        count_eq(final(labels).data@, 0) == count_eq(old(labels).data@, 0) - grown,
        forall|j: int|
            0 <= j < old(labels).data.len() && old(labels).data@[j] > 0
                ==> final(labels).data@[j] == old(labels).data@[j],
{
    let ghost s0 = labels.data@;
    let ghost q0 = queue@;
    let mut grown: usize = 0;
    let mut k: usize = 0;
    while k < 6
        invariant
            mask.wf(),
            mask_binary(*mask),
            labels_ok(*mask, *labels, cur),
            labels_consistent(*mask, *labels),
            older_labels_closed(*mask, *labels, cur),
            mask.in_bounds(cx as int, cy as int, cz as int),
            cur >= 1,
            k <= 6,
            grown <= k,
            labels.nx == old(labels).nx,
            labels.ny == old(labels).ny,
            labels.nz == old(labels).nz,
            labels.data.len() == s0.len(),
            s0 == old(labels).data@,
            q0 == old(queue)@,
            queue@.len() == q0.len() + grown,
            forall|m: int| 0 <= m < q0.len() ==> queue@[m] == q0[m],
            forall|m: int|
                q0.len() <= m < queue@.len() ==> mask.in_bounds(
                    queue@[m].0 as int,
                    queue@[m].1 as int,
                    queue@[m].2 as int,
                ),
            forall|m: int|
                q0.len() <= m < queue@.len() ==> labels.data@[mask.flat(
                    #[trigger] queue@[m].0 as int,
                    queue@[m].1 as int,
                    queue@[m].2 as int,
                )] == cur,
            forall|m: int|
                q0.len() <= m < queue@.len() ==> adjacent(
                    (cx as int, cy as int, cz as int),
                    (#[trigger] queue@[m].0 as int, queue@[m].1 as int, queue@[m].2 as int),
                ),
            forall|j: int|
                0 <= j < s0.len() && s0[j] == 0 && labels.data@[j] != 0 ==> exists|m: int|
                    q0.len() <= m < queue@.len() && mask.flat(
                        #[trigger] queue@[m].0 as int,
                        queue@[m].1 as int,
                        queue@[m].2 as int,
                    ) == j,
            forall|l: usize|
                l >= 1 && l != cur ==> count_eq(labels.data@, l) == count_eq(s0, l),
            count_eq(labels.data@, cur) == count_eq(s0, cur) + grown,
            count_eq(labels.data@, 0) == count_eq(s0, 0) - grown,
            forall|j: int| 0 <= j < s0.len() && s0[j] > 0 ==> labels.data@[j] == s0[j],
            k >= 1 && cx > 0 ==> fg_labeled(*mask, *labels, cx - 1, cy as int, cz as int),
            k >= 2 && cx + 1 < mask.nx ==> fg_labeled(
                *mask,
                *labels,
                cx + 1,
                cy as int,
                cz as int,
            ),
            k >= 3 && cy > 0 ==> fg_labeled(*mask, *labels, cx as int, cy - 1, cz as int),
            k >= 4 && cy + 1 < mask.ny ==> fg_labeled(
                *mask,
                *labels,
                cx as int,
                cy + 1,
                cz as int,
            ),
            k >= 5 && cz > 0 ==> fg_labeled(*mask, *labels, cx as int, cy as int, cz - 1),
            k >= 6 && cz + 1 < mask.nz ==> fg_labeled(
                *mask,
                *labels,
                cx as int,
                cy as int,
                cz + 1,
            ),
        decreases 6 - k,
    {
        let ghost sprev = labels.data@;
        let ghost qprev = queue@;
        let nb = neighbor_coord(mask, cx, cy, cz, k);
        if let Some((ax, ay, az)) = nb {
            let p = bfs_visit(mask, labels, queue, ax, ay, az, cur);
            if p {
                grown = grown + 1;
            }
            proof {
                let fpush = mask.flat(ax as int, ay as int, az as int);
                mask.lemma_flat_bounds(ax as int, ay as int, az as int);
                assert forall|m: int| q0.len() <= m < queue@.len() implies labels.data@[mask.flat(
                    #[trigger] queue@[m].0 as int,
                    queue@[m].1 as int,
                    queue@[m].2 as int,
                )] == cur by {
                    let fm = mask.flat(queue@[m].0 as int, queue@[m].1 as int, queue@[m].2 as int);
                    if m < qprev.len() {
                        assert(queue@[m] == qprev[m]);
                        mask.lemma_flat_bounds(
                            queue@[m].0 as int,
                            queue@[m].1 as int,
                            queue@[m].2 as int,
                        );
                        assert(sprev[fm] == cur);
                        if p && fm == fpush {
                            assert(sprev[fpush] == 0);
                        }
                    } else {
                        assert(p && queue@[m] == ((ax, ay, az)));
                        assert(labels.data@[fpush] == cur);
                    }
                }
                assert forall|j: int|
                    0 <= j < s0.len() && s0[j] == 0 && labels.data@[j] != 0 implies exists|m: int|
                    q0.len() <= m < queue@.len() && mask.flat(
                        #[trigger] queue@[m].0 as int,
                        queue@[m].1 as int,
                        queue@[m].2 as int,
                    ) == j by {
                    if sprev[j] != 0 {
                        let m = choose|m: int|
                            q0.len() <= m < qprev.len() && mask.flat(
                                #[trigger] qprev[m].0 as int,
                                qprev[m].1 as int,
                                qprev[m].2 as int,
                            ) == j;
                        assert(queue@[m] == qprev[m]);
                        assert(q0.len() <= m < queue@.len() && mask.flat(
                            queue@[m].0 as int,
                            queue@[m].1 as int,
                            queue@[m].2 as int,
                        ) == j);
                    } else {
                        assert(p && j == fpush);
                        let m = qprev.len() as int;
                        assert(queue@[m] == ((ax, ay, az)));
                        assert(q0.len() <= m < queue@.len() && mask.flat(
                            queue@[m].0 as int,
                            queue@[m].1 as int,
                            queue@[m].2 as int,
                        ) == j);
                    }
                }
            }
        }
        proof {
            if cx > 0 {
                mask.lemma_flat_bounds(cx as int - 1, cy as int, cz as int);
            }
            if cx + 1 < mask.nx {
                mask.lemma_flat_bounds(cx as int + 1, cy as int, cz as int);
            }
            if cy > 0 {
                mask.lemma_flat_bounds(cx as int, cy as int - 1, cz as int);
            }
            if cy + 1 < mask.ny {
                mask.lemma_flat_bounds(cx as int, cy as int + 1, cz as int);
            }
            if cz > 0 {
                mask.lemma_flat_bounds(cx as int, cy as int, cz as int - 1);
            }
            if cz + 1 < mask.nz {
                mask.lemma_flat_bounds(cx as int, cy as int, cz as int + 1);
            }
        }
        k = k + 1;
    }
    proof {
        reveal(neighbors_labeled);
    }
    grown
}

/// The `k`-th of the six axis-aligned neighbors of an in-bounds voxel, or
/// `None` when that neighbor falls outside the volume.
fn neighbor_coord(mask: &Vol<u8>, cx: usize, cy: usize, cz: usize, k: usize) -> (r: Option<
    (usize, usize, usize),
>)
    requires
        mask.in_bounds(cx as int, cy as int, cz as int),
        k < 6,
    ensures
        r is Some ==> mask.in_bounds(
            r->Some_0.0 as int,
            r->Some_0.1 as int,
            r->Some_0.2 as int,
        ),
        k == 0 ==> (r is Some <==> cx > 0) && (cx > 0 ==> r->Some_0 == (((cx - 1) as usize, cy,
        cz))),
        k == 1 ==> (r is Some <==> cx + 1 < mask.nx) && (cx + 1 < mask.nx ==> r->Some_0 == (((cx
            + 1) as usize, cy, cz))),
        k == 2 ==> (r is Some <==> cy > 0) && (cy > 0 ==> r->Some_0 == ((cx, (cy - 1) as usize,
        cz))),
        k == 3 ==> (r is Some <==> cy + 1 < mask.ny) && (cy + 1 < mask.ny ==> r->Some_0 == ((cx,
        (cy + 1) as usize, cz))),
        k == 4 ==> (r is Some <==> cz > 0) && (cz > 0 ==> r->Some_0 == ((cx, cy, (cz
            - 1) as usize))),
        k == 5 ==> (r is Some <==> cz + 1 < mask.nz) && (cz + 1 < mask.nz ==> r->Some_0 == ((cx,
        cy, (cz + 1) as usize))),
{
    if k == 0 {
        if cx > 0 {
            Some((cx - 1, cy, cz))
        } else {
            None
        }
    } else if k == 1 {
        if cx + 1 < mask.nx {
            Some((cx + 1, cy, cz))
        } else {
            None
        }
    } else if k == 2 {
        if cy > 0 {
            Some((cx, cy - 1, cz))
        } else {
            None
        }
    } else if k == 3 {
        if cy + 1 < mask.ny {
            Some((cx, cy + 1, cz))
        } else {
            None
        }
    } else if k == 4 {
        if cz > 0 {
            Some((cx, cy, cz - 1))
        } else {
            None
        }
    } else {
        if cz + 1 < mask.nz {
            Some((cx, cy, cz + 1))
        } else {
            None
        }
    }
}

/// Result of labeling a binary volume: the label volume, the number of
/// components found, the label of the largest component (0 when the mask is
/// empty) and that component's voxel count.
pub struct Labeling {
    pub labels: Vol<usize>,
    pub count: usize,
    pub best: usize,
    pub best_size: usize,
}

/// Everything `label_components` guarantees of its result, bundled so that
/// consumers can pass the whole labeling on in their own contracts.
///
/// Completeness, consistency and connectedness together say the label
/// classes are exactly the 6-connected components of the foreground, so
/// `count` is the number of components and `best_size` the voxel count of
/// the `best` component. Every label below `count` is inhabited, and every
/// label above 1 has a voxel of the previous label at a smaller scan
/// index, so labels are numbered in scan order of each component's first
/// voxel — this makes the labeling unique. The bucket clauses then say
/// every label before `best` names a strictly smaller component and every
/// label after it one that is at most as large: `best` is the largest
/// component, the earliest in scan order on ties.
pub open spec fn labeling_ok(mask: Vol<u8>, r: Labeling) -> bool {
    &&& r.labels.wf()
    &&& same_shape(mask, r.labels)
    &&& r.labels.data.len() == mask.data.len()
    &&& forall|i: int|
        0 <= i < r.labels.data.len() ==> (r.labels.data@[i] > 0 <==> mask.data@[i] == 1)
    &&& forall|i: int| 0 <= i < r.labels.data.len() ==> r.labels.data@[i] <= r.count
    &&& r.best <= r.count
    &&& (r.count == 0 <==> r.best == 0)
    &&& (r.count > 0 ==> 1 <= r.best && r.best_size == count_eq(r.labels.data@, r.best)
        && r.best_size >= 1)
    &&& (r.count > 0 ==> exists|s: (int, int, int)|
        foreground(mask, s) && r.labels.data@[#[trigger] mask.flat(s.0, s.1, s.2)] == r.best)
    &&& forall|l: usize| 1 <= l <= r.count ==> count_eq(r.labels.data@, l) >= 1
    &&& forall|j: int|
        0 <= j < r.labels.data.len() && r.labels.data@[j] >= 2 ==> exists|i: int|
            0 <= i < j && r.labels.data@[i] == (r.labels.data@[j] - 1) as usize
    &&& forall|l: usize| 1 <= l < r.best ==> count_eq(r.labels.data@, l) < r.best_size
    &&& forall|l: usize| r.best < l <= r.count ==> count_eq(r.labels.data@, l) <= r.best_size
    &&& labels_consistent(mask, r.labels)
    &&& labels_connected(mask, r.labels)
}

/// Partition the foreground of a binary volume into 6-connected components.
///
/// Labels start at 1 and grow by one per component, in scan order of each
/// component's first voxel. `best` is the label of the component with the
/// most voxels; on equal sizes the earliest-discovered label is kept, so
/// every earlier label has strictly fewer voxels and every later one has at
/// most as many.
#[verifier::rlimit(100)]
#[verifier::spinoff_prover]
pub fn label_components(mask: &Vol<u8>) -> (r: Labeling)
    requires
        mask.wf(),
        mask_binary(*mask),
    ensures
        labeling_ok(*mask, r),
        r.count > 0 ==> exists|i: int|
            0 <= i < r.labels.data.len() && r.labels.data@[i] == r.best,
{
    let nx = mask.nx;
    let ny = mask.ny;
    let nz = mask.nz;
    let len = mask.data.len();

    let mut ldata: Vec<usize> = Vec::new();
    let mut j: usize = 0;
    while j < len
        invariant
            j <= len,
            ldata.len() == j,
            forall|k: int| 0 <= k < j ==> ldata@[k] == 0,
        decreases len - j,
    {
        ldata.push(0);
        j = j + 1;
    }
    let mut labels = Vol { nx, ny, nz, data: ldata };
    proof {
        lemma_count_eq_bounds(labels.data@, 0);
    }

    let mut cur: usize = 0;
    let mut best: usize = 0;
    let mut best_size: usize = 0;
    let ghost mut seeds: Map<usize, (int, int, int)> = Map::empty();

    let mut x: usize = 0;
    let mut y: usize = 0;
    let mut z: usize = 0;
    let mut i: usize = 0;
    proof {
        if len > 0 {
            assert(nx > 0 && ny > 0 && nz > 0) by (nonlinear_arith)
                requires
                    len == nx * ny * nz,
                    len > 0,
            ;
        }
        assert((0 * mask.ny + 0) * mask.nz + 0 == 0) by (nonlinear_arith);
        assert(mask.flat(0, 0, 0) == 0);
        assert forall|xv: int, yv: int, zv: int| mask.in_bounds(xv, yv, zv) implies labels.data@[#[trigger] mask.flat(
            xv,
            yv,
            zv,
        )] == 0 by {
            mask.lemma_flat_bounds(xv, yv, zv);
        }
    }
    while i < len
        invariant
            mask.wf(),
            mask_binary(*mask),
            nx == mask.nx,
            ny == mask.ny,
            nz == mask.nz,
            len == mask.data.len(),
            labels_ok(*mask, labels, cur),
            labels_consistent(*mask, labels),
            all_labels_closed(*mask, labels),
            forall|l: usize|
                1 <= l <= cur ==> foreground(*mask, #[trigger] seeds[l]) && labels.data@[mask.flat(
                    seeds[l].0,
                    seeds[l].1,
                    seeds[l].2,
                )] == l,
            forall|l: usize|
                1 <= l <= cur ==> mask.flat(
                    (#[trigger] seeds[l]).0,
                    seeds[l].1,
                    seeds[l].2,
                ) < i,
            forall|c: (int, int, int)|
                mask.in_bounds(c.0, c.1, c.2) && labels.data@[#[trigger] mask.flat(c.0, c.1, c.2)]
                    >= 1 ==> connected_in(*mask, seeds[labels.data@[mask.flat(c.0, c.1, c.2)]], c),
            forall|j: int|
                0 <= j < len && labels.data@[j] >= 2 ==> exists|i2: int|
                    0 <= i2 < j && labels.data@[i2] == (labels.data@[j] - 1) as usize,
            labels.data.len() == len,
            i <= len,
            i < len ==> x < nx && y < ny && z < nz && i == mask.flat(x as int, y as int, z as int),
            forall|k: int| 0 <= k < i ==> (mask.data@[k] == 1 ==> labels.data@[k] > 0),
            cur + count_eq(labels.data@, 0) <= len,
            best <= cur,
            (cur == 0 <==> best == 0),
            cur > 0 ==> best >= 1 && best_size == count_eq(labels.data@, best) && best_size >= 1,
            cur == 0 ==> best_size == 0,
            forall|l: usize| 1 <= l < best ==> count_eq(labels.data@, l) < best_size,
            forall|l: usize| best < l <= cur ==> count_eq(labels.data@, l) <= best_size,
        decreases len - i,
    {
        let mv = mask.data[i];
        let lv = labels.data[i];
        if mv == 1 && lv == 0 {
            let ghost pre = labels.data@;
            let ghost lw = labels;
            proof {
                lemma_count_eq_present(pre, 0, i as int);
                lemma_count_eq_absent(pre, (cur + 1) as usize);
            }
            cur = cur + 1;
            proof {
                assert(labels.flat(x as int, y as int, z as int) == mask.flat(
                    x as int,
                    y as int,
                    z as int,
                ));
            }
            labels.set(x, y, z, cur);
            let ghost base = labels.data@;
            proof {
                lemma_count_eq_update(pre, i as int, cur, cur);
                lemma_count_eq_update(pre, i as int, cur, 0);
                assert forall|l: usize| l >= 1 && l != cur implies count_eq(base, l) == count_eq(
                    pre,
                    l,
                ) by {
                    lemma_count_eq_update(pre, i as int, cur, l);
                }
                lemma_stamp_consistent(*mask, lw, labels, x as int, y as int, z as int, cur);
            }
            let mut queue: Vec<(usize, usize, usize)> = Vec::new();
            queue.push((x, y, z));
            let mut head: usize = 0;
            let mut csize: usize = 0;
            proof {
                let ghost sc = (x as int, y as int, z as int);
                let ghost seeds0 = seeds;
                seeds = seeds.insert(cur, sc);
                lemma_connected_refl(*mask, sc);
                assert forall|l: usize| 1 <= l <= cur implies foreground(*mask, #[trigger] seeds[l])
                    && labels.data@[mask.flat(seeds[l].0, seeds[l].1, seeds[l].2)] == l by {
                    if l < cur {
                        assert(seeds[l] == seeds0[l]);
                        mask.lemma_flat_bounds(seeds0[l].0, seeds0[l].1, seeds0[l].2);
                        assert(lw.data@[mask.flat(seeds0[l].0, seeds0[l].1, seeds0[l].2)] == l);
                    } else {
                        assert(seeds[cur] == sc);
                        assert(labels.data@[mask.flat(sc.0, sc.1, sc.2)] == cur);
                    }
                }
                assert forall|c: (int, int, int)|
                    mask.in_bounds(c.0, c.1, c.2) && labels.data@[#[trigger] mask.flat(
                        c.0,
                        c.1,
                        c.2,
                    )] >= 1 implies connected_in(
                    *mask,
                    seeds[labels.data@[mask.flat(c.0, c.1, c.2)]],
                    c,
                ) by {
                    let f2 = mask.flat(c.0, c.1, c.2);
                    mask.lemma_flat_bounds(c.0, c.1, c.2);
                    if f2 == i as int {
                        mask.lemma_flat_injective(c.0, c.1, c.2, x as int, y as int, z as int);
                        assert(labels.data@[f2] == cur);
                        assert(seeds[cur] == sc);
                        assert(connected_in(*mask, sc, c));
                    } else {
                        assert(labels.data@[f2] == lw.data@[f2]);
                        let l2 = lw.data@[f2];
                        assert(l2 < cur);
                        assert(connected_in(*mask, seeds0[l2], c));
                        assert(seeds[l2] == seeds0[l2]);
                    }
                }
                assert forall|j: int| 0 <= j < len && labels.data@[j] >= 2 implies exists|i2: int|
                    0 <= i2 < j && labels.data@[i2] == (labels.data@[j] - 1) as usize by {
                    if j == i as int {
                        assert(labels.data@[j] == cur);
                        if cur >= 2 {
                            let lp = (cur - 1) as usize;
                            assert(seeds[lp] == seeds0[lp]);
                            let w = mask.flat(seeds0[lp].0, seeds0[lp].1, seeds0[lp].2);
                            assert(0 <= w < i as int);
                            assert(pre[w] == lp);
                            assert(labels.data@[w] == lp);
                        }
                    } else {
                        assert(labels.data@[j] == pre[j]);
                        let i2 = choose|i2: int|
                            0 <= i2 < j && pre[i2] == (pre[j] - 1) as usize;
                        assert(pre[i2] >= 1);
                        assert(labels.data@[i2] == pre[i2]);
                    }
                }
                assert(queue@[0] == ((x, y, z)));
                assert(labels.data@[mask.flat(x as int, y as int, z as int)] == cur);
                assert forall|xv: int, yv: int, zv: int|
                    mask.in_bounds(xv, yv, zv) && labels.data@[#[trigger] mask.flat(xv, yv, zv)]
                        > 0 implies (exists|kq: int|
                    0 <= kq < queue@.len() && queue@[kq] == ((
                        xv as usize,
                        yv as usize,
                        zv as usize,
                    ))) || neighbors_labeled(*mask, labels, xv, yv, zv) by {
                    let f2 = mask.flat(xv, yv, zv);
                    mask.lemma_flat_bounds(xv, yv, zv);
                    if f2 == i as int {
                        mask.lemma_flat_injective(xv, yv, zv, x as int, y as int, z as int);
                        assert(queue@[0] == ((xv as usize, yv as usize, zv as usize)));
                    } else {
                        assert(labels.data@[f2] == lw.data@[f2]);
                        assert(neighbors_labeled(*mask, lw, xv, yv, zv));
                        lemma_neighbors_labeled_monotone(*mask, lw, labels, xv, yv, zv);
                    }
                }
            }
            while head < queue.len()
                invariant
                    mask.wf(),
                    mask_binary(*mask),
                    nx == mask.nx,
                    ny == mask.ny,
                    nz == mask.nz,
                    len == mask.data.len(),
                    labels_ok(*mask, labels, cur),
                    labels_consistent(*mask, labels),
                    forall|l: usize|
                        1 <= l <= cur ==> foreground(*mask, #[trigger] seeds[l])
                            && labels.data@[mask.flat(seeds[l].0, seeds[l].1, seeds[l].2)] == l,
                    forall|c: (int, int, int)|
                        mask.in_bounds(c.0, c.1, c.2) && labels.data@[#[trigger] mask.flat(
                            c.0,
                            c.1,
                            c.2,
                        )] >= 1 ==> connected_in(
                            *mask,
                            seeds[labels.data@[mask.flat(c.0, c.1, c.2)]],
                            c,
                        ),
                    i < len && i == mask.flat(x as int, y as int, z as int),
                    forall|k: int| 0 <= k < i ==> (mask.data@[k] == 1 ==> labels.data@[k] > 0),
                    forall|l: usize|
                        1 <= l < cur ==> mask.flat(
                            (#[trigger] seeds[l]).0,
                            seeds[l].1,
                            seeds[l].2,
                        ) < i,
                    forall|j: int|
                        0 <= j < len && labels.data@[j] >= 2 ==> exists|i2: int|
                            0 <= i2 < j && labels.data@[i2] == (labels.data@[j] - 1) as usize,
                    labels.data.len() == len,
                    cur >= 1,
                    head <= queue.len(),
                    forall|k: int|
                        0 <= k < queue.len() ==> mask.in_bounds(
                            queue@[k].0 as int,
                            queue@[k].1 as int,
                            queue@[k].2 as int,
                        ),
                    forall|kq: int|
                        0 <= kq < queue@.len() ==> labels.data@[mask.flat(
                            #[trigger] queue@[kq].0 as int,
                            queue@[kq].1 as int,
                            queue@[kq].2 as int,
                        )] == cur,
                    forall|xv: int, yv: int, zv: int|
                        mask.in_bounds(xv, yv, zv) && labels.data@[#[trigger] mask.flat(
                            xv,
                            yv,
                            zv,
                        )] > 0 ==> (exists|kq: int|
                            head <= kq < queue@.len() && queue@[kq] == ((
                                xv as usize,
                                yv as usize,
                                zv as usize,
                            ))) || neighbors_labeled(*mask, labels, xv, yv, zv),
                    csize + (queue.len() - head) == count_eq(labels.data@, cur),
                    count_eq(labels.data@, cur) <= len,
                    forall|k: int| 0 <= k < len && base[k] > 0 ==> labels.data@[k] == base[k],
                    forall|l: usize|
                        1 <= l < cur ==> count_eq(labels.data@, l) == count_eq(base, l),
                    count_eq(labels.data@, 0) <= count_eq(base, 0),
                    count_eq(labels.data@, 0) >= 0,
                decreases count_eq(labels.data@, 0) + queue.len() - head,
            {
                let ghost lv_top = labels;
                let ghost q_top = queue@;
                let ghost head_top = head as int;
                proof {
                    // A voxel labeled below `cur` cannot be in the queue,
                    // whose entries all carry `cur`: it must be closed.
                    assert forall|xv: int, yv: int, zv: int|
                        mask.in_bounds(xv, yv, zv) && 0 < labels.data@[#[trigger] mask.flat(
                            xv,
                            yv,
                            zv,
                        )] && labels.data@[mask.flat(xv, yv, zv)] < cur implies neighbors_labeled(
                        *mask,
                        labels,
                        xv,
                        yv,
                        zv,
                    ) by {
                        mask.lemma_flat_bounds(xv, yv, zv);
                        if exists|kq: int|
                            head <= kq < queue@.len() && queue@[kq] == ((
                                xv as usize,
                                yv as usize,
                                zv as usize,
                            )) {
                            let kq = choose|kq: int|
                                head <= kq < queue@.len() && queue@[kq] == ((
                                    xv as usize,
                                    yv as usize,
                                    zv as usize,
                                ));
                            assert(labels.data@[mask.flat(
                                queue@[kq].0 as int,
                                queue@[kq].1 as int,
                                queue@[kq].2 as int,
                            )] == cur);
                            assert(queue@[kq].0 as int == xv && queue@[kq].1 as int == yv
                                && queue@[kq].2 as int == zv);
                            assert(false);
                        }
                    }
                }
                let (cx, cy, cz) = queue[head];
                head = head + 1;
                csize = csize + 1;
                visit_neighbors(mask, &mut labels, &mut queue, cx, cy, cz, cur);
                proof {
                    lemma_count_eq_bounds(labels.data@, cur);
                    lemma_count_eq_bounds(labels.data@, 0);
                    assert forall|l: usize| 1 <= l <= cur implies foreground(
                        *mask,
                        #[trigger] seeds[l],
                    ) && labels.data@[mask.flat(seeds[l].0, seeds[l].1, seeds[l].2)] == l by {
                        mask.lemma_flat_bounds(seeds[l].0, seeds[l].1, seeds[l].2);
                        assert(lv_top.data@[mask.flat(seeds[l].0, seeds[l].1, seeds[l].2)] == l);
                    }
                    assert forall|c: (int, int, int)|
                        mask.in_bounds(c.0, c.1, c.2) && labels.data@[#[trigger] mask.flat(
                            c.0,
                            c.1,
                            c.2,
                        )] >= 1 implies connected_in(
                        *mask,
                        seeds[labels.data@[mask.flat(c.0, c.1, c.2)]],
                        c,
                    ) by {
                        let f2 = mask.flat(c.0, c.1, c.2);
                        mask.lemma_flat_bounds(c.0, c.1, c.2);
                        if lv_top.data@[f2] >= 1 {
                            assert(labels.data@[f2] == lv_top.data@[f2]);
                            assert(connected_in(*mask, seeds[lv_top.data@[f2]], c));
                        } else {
                            let m = choose|m: int|
                                q_top.len() <= m < queue@.len() && mask.flat(
                                    #[trigger] queue@[m].0 as int,
                                    queue@[m].1 as int,
                                    queue@[m].2 as int,
                                ) == f2;
                            mask.lemma_flat_injective(
                                queue@[m].0 as int,
                                queue@[m].1 as int,
                                queue@[m].2 as int,
                                c.0,
                                c.1,
                                c.2,
                            );
                            assert(labels.data@[f2] == cur);
                            let ctr = (cx as int, cy as int, cz as int);
                            assert(q_top[head_top] == ((cx, cy, cz)));
                            assert(lv_top.data@[mask.flat(ctr.0, ctr.1, ctr.2)] == cur);
                            assert(connected_in(*mask, seeds[cur], ctr));
                            assert(adjacent(ctr, c));
                            assert(foreground(*mask, c));
                            lemma_connected_step(*mask, seeds[cur], ctr, c);
                        }
                    }
                    assert forall|j: int| 0 <= j < len && labels.data@[j] >= 2 implies exists|
                        i2: int,
                    | 0 <= i2 < j && labels.data@[i2] == (labels.data@[j] - 1) as usize by {
                        if lv_top.data@[j] >= 1 {
                            assert(labels.data@[j] == lv_top.data@[j]);
                            let i2 = choose|i2: int|
                                0 <= i2 < j && lv_top.data@[i2] == (lv_top.data@[j]
                                    - 1) as usize;
                            assert(lv_top.data@[i2] >= 1);
                            assert(labels.data@[i2] == lv_top.data@[i2]);
                        } else {
                            let m2 = choose|m2: int|
                                q_top.len() <= m2 < queue@.len() && mask.flat(
                                    #[trigger] queue@[m2].0 as int,
                                    queue@[m2].1 as int,
                                    queue@[m2].2 as int,
                                ) == j;
                            assert(labels.data@[j] == cur);
                            assert(mask.data@[j] == 1);
                            assert(j >= i as int);
                            if cur >= 2 {
                                let lp = (cur - 1) as usize;
                                let w = mask.flat(seeds[lp].0, seeds[lp].1, seeds[lp].2);
                                assert(0 <= w < i as int);
                                assert(lv_top.data@[w] == lp);
                                assert(labels.data@[w] == lp);
                            }
                        }
                    }
                    assert forall|kq: int| 0 <= kq < queue@.len() implies labels.data@[mask.flat(
                        #[trigger] queue@[kq].0 as int,
                        queue@[kq].1 as int,
                        queue@[kq].2 as int,
                    )] == cur by {
                        mask.lemma_flat_bounds(
                            queue@[kq].0 as int,
                            queue@[kq].1 as int,
                            queue@[kq].2 as int,
                        );
                        if kq < q_top.len() {
                            assert(queue@[kq] == q_top[kq]);
                            assert(lv_top.data@[mask.flat(
                                queue@[kq].0 as int,
                                queue@[kq].1 as int,
                                queue@[kq].2 as int,
                            )] == cur);
                        }
                    }
                    assert forall|xv: int, yv: int, zv: int|
                        mask.in_bounds(xv, yv, zv) && labels.data@[#[trigger] mask.flat(
                            xv,
                            yv,
                            zv,
                        )] > 0 implies (exists|kq: int|
                        head <= kq < queue@.len() && queue@[kq] == ((
                            xv as usize,
                            yv as usize,
                            zv as usize,
                        ))) || neighbors_labeled(*mask, labels, xv, yv, zv) by {
                        let f2 = mask.flat(xv, yv, zv);
                        mask.lemma_flat_bounds(xv, yv, zv);
                        if lv_top.data@[f2] > 0 {
                            if exists|kq: int|
                                head_top <= kq < q_top.len() && q_top[kq] == ((
                                    xv as usize,
                                    yv as usize,
                                    zv as usize,
                                )) {
                                let kq = choose|kq: int|
                                    head_top <= kq < q_top.len() && q_top[kq] == ((
                                        xv as usize,
                                        yv as usize,
                                        zv as usize,
                                    ));
                                if kq == head_top {
                                    assert(q_top[kq] == ((cx, cy, cz)));
                                    assert(xv == cx as int && yv == cy as int && zv == cz as int);
                                    assert(neighbors_labeled(*mask, labels, xv, yv, zv));
                                } else {
                                    assert(queue@[kq] == q_top[kq]);
                                    assert(head <= kq < queue@.len());
                                }
                            } else {
                                assert(neighbors_labeled(*mask, lv_top, xv, yv, zv));
                                lemma_neighbors_labeled_monotone(*mask, lv_top, labels, xv, yv, zv);
                            }
                        } else {
                            let m = choose|m: int|
                                q_top.len() <= m < queue@.len() && mask.flat(
                                    #[trigger] queue@[m].0 as int,
                                    queue@[m].1 as int,
                                    queue@[m].2 as int,
                                ) == f2;
                            mask.lemma_flat_injective(
                                queue@[m].0 as int,
                                queue@[m].1 as int,
                                queue@[m].2 as int,
                                xv,
                                yv,
                                zv,
                            );
                            assert(queue@[m] == ((xv as usize, yv as usize, zv as usize)));
                            assert(head <= m < queue@.len());
                        }
                    }
                }
            }
            proof {
                // the queue has drained: every labeled voxel is closed
                assert forall|xv: int, yv: int, zv: int|
                    mask.in_bounds(xv, yv, zv) && labels.data@[#[trigger] mask.flat(xv, yv, zv)]
                        > 0 implies neighbors_labeled(*mask, labels, xv, yv, zv) by {
                    if exists|kq: int|
                        head <= kq < queue@.len() && queue@[kq] == ((
                            xv as usize,
                            yv as usize,
                            zv as usize,
                        )) {
                        let kq = choose|kq: int|
                            head <= kq < queue@.len() && queue@[kq] == ((
                                xv as usize,
                                yv as usize,
                                zv as usize,
                            ));
                        assert(false);
                    }
                }
            }
            proof {
                assert(base[i as int] == cur);
                assert(labels.data@[i as int] == cur);
                lemma_count_eq_present(labels.data@, cur, i as int);
                assert forall|l: usize| 1 <= l < cur implies count_eq(labels.data@, l) == count_eq(
                    pre,
                    l,
                ) by {
                    assert(count_eq(labels.data@, l) == count_eq(base, l));
                    assert(count_eq(base, l) == count_eq(pre, l));
                }
            }
            let ghost prev_best = best;
            let ghost prev_best_size = best_size;
            if csize > best_size {
                best = cur;
                best_size = csize;
            }
            proof {
                if csize > prev_best_size {
                    assert forall|l: usize| 1 <= l < best implies count_eq(labels.data@, l)
                        < best_size by {
                        assert(count_eq(labels.data@, l) == count_eq(pre, l));
                        if prev_best >= 1 {
                            if l < prev_best {
                                assert(count_eq(pre, l) < prev_best_size);
                            } else if l == prev_best {
                                assert(count_eq(pre, l) == prev_best_size);
                            } else {
                                assert(count_eq(pre, l) <= prev_best_size);
                            }
                        }
                    }
                } else {
                    // An earlier component is at least as large; the first
                    // one found keeps the lead.
                    assert(prev_best >= 1) by {
                        if prev_best == 0 {
                            assert(csize >= 1);
                        }
                    }
                    assert(best_size == count_eq(labels.data@, best));
                    assert forall|l: usize| 1 <= l < best implies count_eq(labels.data@, l)
                        < best_size by {
                        assert(count_eq(labels.data@, l) == count_eq(pre, l));
                    }
                    assert forall|l: usize| best < l <= cur implies count_eq(labels.data@, l)
                        <= best_size by {
                        if l == cur {
                            assert(count_eq(labels.data@, cur) == csize);
                        } else {
                            assert(count_eq(labels.data@, l) == count_eq(pre, l));
                        }
                    }
                }
            }
            proof {
                assert forall|k: int| 0 <= k <= i implies (mask.data@[k] == 1
                    ==> labels.data@[k] > 0) by {
                    if mask.data@[k] == 1 {
                        if k == i as int {
                            assert(labels.data@[k] == cur);
                        } else {
                            assert(pre[k] > 0);
                            assert(base[k] == pre[k]);
                            assert(labels.data@[k] == base[k]);
                        }
                    }
                }
                assert(count_eq(base, 0) == count_eq(pre, 0) - 1);
                assert(count_eq(labels.data@, 0) <= count_eq(base, 0));
                assert(cur + count_eq(labels.data@, 0) <= len);
            }
        }
        proof {
            mask.lemma_flat_step(x as int, y as int, z as int);
        }
        i = i + 1;
        z = z + 1;
        if z == nz {
            z = 0;
            y = y + 1;
            if y == ny {
                y = 0;
                x = x + 1;
            }
        }
    }
    proof {
        if cur > 0 {
            lemma_count_eq_nonzero_exists(labels.data@, best);
            assert(foreground(*mask, seeds[best]) && labels.data@[mask.flat(
                seeds[best].0,
                seeds[best].1,
                seeds[best].2,
            )] == best);
        }
        assert forall|l: usize| 1 <= l <= cur implies count_eq(labels.data@, l) >= 1 by {
            mask.lemma_flat_bounds(seeds[l].0, seeds[l].1, seeds[l].2);
            lemma_count_eq_present(
                labels.data@,
                l,
                mask.flat(seeds[l].0, seeds[l].1, seeds[l].2),
            );
        }
        assert forall|c1: (int, int, int), c2: (int, int, int)|
            #![trigger mask.flat(c1.0, c1.1, c1.2), mask.flat(c2.0, c2.1, c2.2)]
            mask.in_bounds(c1.0, c1.1, c1.2) && mask.in_bounds(c2.0, c2.1, c2.2)
                && labels.data@[mask.flat(c1.0, c1.1, c1.2)] == labels.data@[mask.flat(
                c2.0,
                c2.1,
                c2.2,
            )] && labels.data@[mask.flat(c1.0, c1.1, c1.2)] >= 1 implies connected_in(
            *mask,
            c1,
            c2,
        ) by {
            let l = labels.data@[mask.flat(c1.0, c1.1, c1.2)];
            assert(connected_in(*mask, seeds[l], c1));
            assert(connected_in(*mask, seeds[l], c2));
            lemma_connected_symmetric(*mask, seeds[l], c1);
            lemma_connected_transitive(*mask, c1, seeds[l], c2);
        }
    }
    Labeling { labels, count: cur, best, best_size }
}

/// Rewrite a label volume into a binary mask that keeps exactly the voxels
/// carrying `best`; with `best == 0` (no component was ever found) every
/// voxel maps to 0.
pub fn reduce_to_label(labels: &Vol<usize>, best: usize) -> (r: Vol<u8>)
    requires
        labels.wf(),
    ensures
        r.wf(),
        same_shape(*labels, r),
        r.data.len() == labels.data.len(),
        mask_binary(r),
        forall|i: int|
            0 <= i < r.data.len() ==> r.data@[i] == (if best > 0 && labels.data@[i] == best {
                1u8
            } else {
                0u8
            }),
{
    let len = labels.data.len();
    let mut out: Vec<u8> = Vec::new();
    let mut i: usize = 0;
    while i < len
        invariant
            len == labels.data.len(),
            i <= len,
            out.len() == i,
            forall|j: int|
                0 <= j < i ==> out@[j] == (if best > 0 && labels.data@[j] == best {
                    1u8
                } else {
                    0u8
                }),
        decreases len - i,
    {
        let l = labels.data[i];
        if best > 0 && l == best {
            out.push(1);
        } else {
            out.push(0);
        }
        i = i + 1;
    }
    Vol { nx: labels.nx, ny: labels.ny, nz: labels.nz, data: out }
}

/// The output assigns equal values to any two adjacent foreground voxels
/// of `orig`: it keeps or drops each 6-connected component of `orig` whole.
pub open spec fn respects_components(orig: Vol<u8>, out: Vol<u8>) -> bool {
    &&& forall|x: int, y: int, z: int|
        #![trigger orig.flat(x, y, z), orig.flat(x + 1, y, z)]
        orig.in_bounds(x, y, z) && x + 1 < orig.nx && orig.data@[orig.flat(x, y, z)] == 1
            && orig.data@[orig.flat(x + 1, y, z)] == 1 ==> out.data@[orig.flat(x, y, z)]
            == out.data@[orig.flat(x + 1, y, z)]
    &&& forall|x: int, y: int, z: int|
        #![trigger orig.flat(x, y, z), orig.flat(x, y + 1, z)]
        orig.in_bounds(x, y, z) && y + 1 < orig.ny && orig.data@[orig.flat(x, y, z)] == 1
            && orig.data@[orig.flat(x, y + 1, z)] == 1 ==> out.data@[orig.flat(x, y, z)]
            == out.data@[orig.flat(x, y + 1, z)]
    &&& forall|x: int, y: int, z: int|
        #![trigger orig.flat(x, y, z), orig.flat(x, y, z + 1)]
        orig.in_bounds(x, y, z) && z + 1 < orig.nz && orig.data@[orig.flat(x, y, z)] == 1
            && orig.data@[orig.flat(x, y, z + 1)] == 1 ==> out.data@[orig.flat(x, y, z)]
            == out.data@[orig.flat(x, y, z + 1)]
}

/// Keep only the largest 6-connected component of a binary volume, and
/// report how many components the volume had.
///
/// The output is a binary volume of the same shape whose foreground is a
/// subset of the input's; an all-background input gives an all-background
/// output; and when the input has exactly one component the output is the
/// input itself, unchanged — reducing an already-reduced mask is a no-op.
pub fn keep_largest_component(mask: &Vol<u8>) -> (r: (Vol<u8>, usize))
    requires
        mask.wf(),
        mask_binary(*mask),
    ensures
        r.0.wf(),
        same_shape(*mask, r.0),
        r.0.data.len() == mask.data.len(),
        mask_binary(r.0),
        forall|i: int| 0 <= i < r.0.data.len() ==> (r.0.data@[i] == 1 ==> mask.data@[i] == 1),
        (r.1 == 0 <==> forall|i: int| 0 <= i < mask.data.len() ==> mask.data@[i] == 0),
        r.1 == 0 ==> forall|i: int| 0 <= i < r.0.data.len() ==> r.0.data@[i] == 0,
        r.1 == 1 ==> r.0.data@ == mask.data@,
        respects_components(*mask, r.0),
        // the labeling behind the result, with all its guarantees: r.1 is
        // the true number of 6-connected components, and the kept class is
        // the largest one, the earliest-discovered on ties
        exists|lab: Labeling|
            labeling_ok(*mask, lab) && lab.count == r.1 && (forall|i: int|
                0 <= i < r.0.data.len() ==> r.0.data@[i] == (if lab.best > 0
                    && lab.labels.data@[i] == lab.best {
                    1u8
                } else {
                    0u8
                })),
        // a nonempty mask keeps one of its components, whole and nonempty:
        // some foreground voxel s is kept, and exactly the voxels
        // 6-connected to it are kept
        (exists|i: int| 0 <= i < mask.data.len() && mask.data@[i] == 1) ==> exists|
            s: (int, int, int),
        |
            foreground(*mask, s) && r.0.data@[mask.flat(s.0, s.1, s.2)] == 1 && (forall|
                c: (int, int, int),
            |
                mask.in_bounds(c.0, c.1, c.2) ==> (r.0.data@[#[trigger] mask.flat(c.0, c.1, c.2)]
                    == 1 <==> connected_in(*mask, s, c))),
{
    let labeling = label_components(mask);
    let out = reduce_to_label(&labeling.labels, labeling.best);
    proof {
        if exists|i: int| 0 <= i < mask.data.len() && mask.data@[i] == 1 {
            let w = choose|i: int| 0 <= i < mask.data.len() && mask.data@[i] == 1;
            assert(labeling.labels.data@[w] > 0);
            assert(labeling.count > 0);
            let s = choose|s: (int, int, int)|
                foreground(*mask, s) && labeling.labels.data@[#[trigger] mask.flat(s.0, s.1, s.2)]
                    == labeling.best;
            mask.lemma_flat_bounds(s.0, s.1, s.2);
            assert(out.data@[mask.flat(s.0, s.1, s.2)] == 1);
            assert forall|c: (int, int, int)| mask.in_bounds(c.0, c.1, c.2) implies (
            out.data@[#[trigger] mask.flat(c.0, c.1, c.2)] == 1 <==> connected_in(*mask, s, c)) by {
                mask.lemma_flat_bounds(c.0, c.1, c.2);
                if out.data@[mask.flat(c.0, c.1, c.2)] == 1 {
                    assert(labeling.labels.data@[mask.flat(c.0, c.1, c.2)] == labeling.best);
                    assert(connected_in(*mask, s, c));
                }
                if connected_in(*mask, s, c) {
                    lemma_connected_same_label(*mask, labeling.labels, s, c);
                    assert(labeling.labels.data@[mask.flat(c.0, c.1, c.2)] == labeling.best);
                    assert(out.data@[mask.flat(c.0, c.1, c.2)] == 1);
                }
            }
        }
    }
    proof {
        let labels = labeling.labels;
        assert forall|x: int, y: int, z: int|
            #![trigger mask.flat(x, y, z), mask.flat(x + 1, y, z)]
            mask.in_bounds(x, y, z) && x + 1 < mask.nx && mask.data@[mask.flat(x, y, z)] == 1
                && mask.data@[mask.flat(x + 1, y, z)] == 1 implies out.data@[mask.flat(x, y, z)]
            == out.data@[mask.flat(x + 1, y, z)] by {
            mask.lemma_flat_bounds(x, y, z);
            mask.lemma_flat_bounds(x + 1, y, z);
            assert(labels.data@[mask.flat(x, y, z)] > 0);
            assert(labels.data@[mask.flat(x + 1, y, z)] > 0);
        }
        assert forall|x: int, y: int, z: int|
            #![trigger mask.flat(x, y, z), mask.flat(x, y + 1, z)]
            mask.in_bounds(x, y, z) && y + 1 < mask.ny && mask.data@[mask.flat(x, y, z)] == 1
                && mask.data@[mask.flat(x, y + 1, z)] == 1 implies out.data@[mask.flat(x, y, z)]
            == out.data@[mask.flat(x, y + 1, z)] by {
            mask.lemma_flat_bounds(x, y, z);
            mask.lemma_flat_bounds(x, y + 1, z);
            assert(labels.data@[mask.flat(x, y, z)] > 0);
            assert(labels.data@[mask.flat(x, y + 1, z)] > 0);
        }
        assert forall|x: int, y: int, z: int|
            #![trigger mask.flat(x, y, z), mask.flat(x, y, z + 1)]
            mask.in_bounds(x, y, z) && z + 1 < mask.nz && mask.data@[mask.flat(x, y, z)] == 1
                && mask.data@[mask.flat(x, y, z + 1)] == 1 implies out.data@[mask.flat(x, y, z)]
            == out.data@[mask.flat(x, y, z + 1)] by {
            mask.lemma_flat_bounds(x, y, z);
            mask.lemma_flat_bounds(x, y, z + 1);
            assert(labels.data@[mask.flat(x, y, z)] > 0);
            assert(labels.data@[mask.flat(x, y, z + 1)] > 0);
        }
    }
    proof {
        if labeling.count == 0 {
            assert forall|i: int| 0 <= i < mask.data.len() implies mask.data@[i] == 0 by {
                assert(labeling.labels.data@[i] == 0);
            }
        } else {
            let w = choose|i: int|
                0 <= i < labeling.labels.data.len() && labeling.labels.data@[i] == labeling.best;
            assert(mask.data@[w] == 1);
        }
        if labeling.count == 1 {
            assert forall|i: int| 0 <= i < out.data.len() implies out.data@[i]
                == mask.data@[i] by {
                assert(labeling.best == 1);
                assert(labeling.labels.data@[i] <= 1);
            }
            assert(out.data@ =~= mask.data@);
        }
    }
    (out, labeling.count)
}

/// Keep only the largest 6-connected component of a binary volume.
pub fn largest_connected_component_3d(mask: &Vol<u8>) -> (r: Vol<u8>)
    requires
        mask.wf(),
        mask_binary(*mask),
    ensures
        r.wf(),
        same_shape(*mask, r),
        r.data.len() == mask.data.len(),
        mask_binary(r),
        forall|i: int| 0 <= i < r.data.len() ==> (r.data@[i] == 1 ==> mask.data@[i] == 1),
        (forall|i: int| 0 <= i < mask.data.len() ==> mask.data@[i] == 0) ==> forall|i: int|
            0 <= i < r.data.len() ==> r.data@[i] == 0,
        respects_components(*mask, r),
        // the labeling behind the result: the kept class is the largest
        // 6-connected component, the earliest-discovered on ties
        exists|lab: Labeling|
            labeling_ok(*mask, lab) && (forall|i: int|
                0 <= i < r.data.len() ==> r.data@[i] == (if lab.best > 0 && lab.labels.data@[i]
                    == lab.best {
                    1u8
                } else {
                    0u8
                })),
        // a nonempty mask keeps one of its components, whole and nonempty
        (exists|i: int| 0 <= i < mask.data.len() && mask.data@[i] == 1) ==> exists|
            s: (int, int, int),
        |
            foreground(*mask, s) && r.data@[mask.flat(s.0, s.1, s.2)] == 1 && (forall|
                c: (int, int, int),
            |
                mask.in_bounds(c.0, c.1, c.2) ==> (r.data@[#[trigger] mask.flat(c.0, c.1, c.2)]
                    == 1 <==> connected_in(*mask, s, c))),
{
    let (out, _count) = keep_largest_component(mask);
    out
}

} // verus!
