//! Dense 3-D volumes in scan order.
//!
//! Every stage of the pipeline works on volumes of one fixed shape
//! `(nx, ny, nz)`. A volume stores one value per voxel in a flat vector,
//! lexicographically over the three axes: the voxel at `(x, y, z)` lives at
//! flat index `(x * ny + y) * nz + z`.

use vstd::prelude::*;

verus! {

/// A dense 3-D volume with one entry per voxel, stored in scan order.
pub struct Vol<T> {
    pub nx: usize,
    pub ny: usize,
    pub nz: usize,
    pub data: Vec<T>,
}

/// Two volumes (possibly of different element types) have the same shape.
pub open spec fn same_shape<A, B>(a: Vol<A>, b: Vol<B>) -> bool {
    a.nx == b.nx && a.ny == b.ny && a.nz == b.nz
}

impl<T> Vol<T> {
    /// Well-formedness: the data holds exactly one entry per voxel.
    pub open spec fn wf(self) -> bool {
        self.data.len() == self.nx * self.ny * self.nz
    }

    /// Number of voxels.
    pub open spec fn size(self) -> int {
        self.nx * self.ny * self.nz
    }

    /// Flat index of the voxel at `(x, y, z)`.
    pub open spec fn flat(self, x: int, y: int, z: int) -> int {
        (x * self.ny + y) * self.nz + z
    }

    /// `(x, y, z)` is a voxel coordinate of this volume.
    pub open spec fn in_bounds(self, x: int, y: int, z: int) -> bool {
        0 <= x < self.nx && 0 <= y < self.ny && 0 <= z < self.nz
    }

    /// The flat index of an in-bounds coordinate is itself in bounds.
    pub proof fn lemma_flat_bounds(self, x: int, y: int, z: int)
        requires
            self.in_bounds(x, y, z),
        ensures
            0 <= self.flat(x, y, z) < self.size(),
    {
        assert(0 <= (x * self.ny + y) * self.nz + z < self.nx * self.ny * self.nz)
            by (nonlinear_arith)
            requires
                0 <= x < self.nx,
                0 <= y < self.ny,
                0 <= z < self.nz,
        ;
    }

    /// Scan order: stepping to the next coordinate advances the flat index
    /// by exactly one.
    pub proof fn lemma_flat_step(self, x: int, y: int, z: int)
        requires
            self.in_bounds(x, y, z),
        ensures
            z + 1 < self.nz ==> self.flat(x, y, z) + 1 == self.flat(x, y, z + 1),
            z + 1 == self.nz && y + 1 < self.ny ==> self.flat(x, y, z) + 1 == self.flat(
                x,
                y + 1,
                0,
            ),
            z + 1 == self.nz && y + 1 == self.ny ==> self.flat(x, y, z) + 1 == self.flat(
                x + 1,
                0,
                0,
            ),
    {
        assert((x * self.ny + y) * self.nz + (self.nz - 1) + 1 == (x * self.ny + (y + 1))
            * self.nz) by (nonlinear_arith);
        assert((x * self.ny + (self.ny - 1)) * self.nz + (self.nz - 1) + 1 == ((x + 1) * self.ny)
            * self.nz) by (nonlinear_arith);
    }

    /// Flat indices are injective over in-bounds coordinates.
    pub proof fn lemma_flat_injective(self, x1: int, y1: int, z1: int, x2: int, y2: int, z2: int)
        requires
            self.in_bounds(x1, y1, z1),
            self.in_bounds(x2, y2, z2),
            self.flat(x1, y1, z1) == self.flat(x2, y2, z2),
        ensures
            x1 == x2 && y1 == y2 && z1 == z2,
    {
        assert(x1 == x2 && y1 == y2 && z1 == z2) by (nonlinear_arith)
            requires
                0 <= x1 < self.nx,
                0 <= y1 < self.ny,
                0 <= z1 < self.nz,
                0 <= x2 < self.nx,
                0 <= y2 < self.ny,
                0 <= z2 < self.nz,
                (x1 * self.ny + y1) * self.nz + z1 == (x2 * self.ny + y2) * self.nz + z2,
        ;
    }
}

impl<T: Copy> Vol<T> {
    /// Compute the flat index of an in-bounds voxel.
    pub fn index(&self, x: usize, y: usize, z: usize) -> (r: usize)
        requires
            self.wf(),
            self.in_bounds(x as int, y as int, z as int),
        ensures
            r == self.flat(x as int, y as int, z as int),
            r < self.data.len(),
    {
        let len = self.data.len();
        proof {
            self.lemma_flat_bounds(x as int, y as int, z as int);
            assert(x * self.ny + y < self.nx * self.ny && self.nx * self.ny <= self.nx * self.ny
                * self.nz && 0 <= (x * self.ny + y) * self.nz <= (x * self.ny + y) * self.nz + z)
                by (nonlinear_arith)
                requires
                    0 <= x < self.nx,
                    0 <= y < self.ny,
                    0 <= z < self.nz,
            ;
        }
        (x * self.ny + y) * self.nz + z
    }

    /// Read the voxel at `(x, y, z)`.
    pub fn get(&self, x: usize, y: usize, z: usize) -> (r: T)
        requires
            self.wf(),
            self.in_bounds(x as int, y as int, z as int),
        ensures
            r == self.data@[self.flat(x as int, y as int, z as int)],
    {
        let i = self.index(x, y, z);
        self.data[i]
    }

    /// Overwrite the voxel at `(x, y, z)`.
    pub fn set(&mut self, x: usize, y: usize, z: usize, v: T)
        requires
            old(self).wf(),
            old(self).in_bounds(x as int, y as int, z as int),
        ensures
            final(self).nx == old(self).nx,
            final(self).ny == old(self).ny,
            final(self).nz == old(self).nz,
            final(self).data@ == old(self).data@.update(
                old(self).flat(x as int, y as int, z as int),
                v,
            ),
            final(self).wf(),
    {
        let i = self.index(x, y, z);
        self.data.set(i, v);
    }

    /// Build a volume of the given shape with every voxel set to `fill`,
    /// or `None` when the voxel count does not fit in `usize`.
    pub fn new_fill(nx: usize, ny: usize, nz: usize, fill: T) -> (r: Option<Vol<T>>)
        ensures
            r is Some <==> nx * ny <= usize::MAX && nx * ny * nz <= usize::MAX,
            r is Some ==> {
                let v = r->Some_0;
                &&& v.wf()
                &&& v.nx == nx
                &&& v.ny == ny
                &&& v.nz == nz
                &&& forall|i: int| 0 <= i < v.data.len() ==> v.data@[i] == fill
            },
    {
        let xy = match nx.checked_mul(ny) {
            Some(p) => p,
            None => {
                return None;
            },
        };
        let n = match xy.checked_mul(nz) {
            Some(p) => p,
            None => {
                return None;
            },
        };
        let mut data: Vec<T> = Vec::new();
        let mut i: usize = 0;
        while i < n
            invariant
                i <= n,
                data.len() == i,
                forall|j: int| 0 <= j < i ==> data@[j] == fill,
            decreases n - i,
        {
            data.push(fill);
            i = i + 1;
        }
        Some(Vol { nx, ny, nz, data })
    }

    /// Wrap a flat vector as a volume of the given shape, or `None` when the
    /// vector's length is not exactly one entry per voxel.
    pub fn from_data(nx: usize, ny: usize, nz: usize, data: Vec<T>) -> (r: Option<Vol<T>>)
        ensures
            r is Some <==> data@.len() == nx * ny * nz,
            r is Some ==> {
                let v = r->Some_0;
                &&& v.wf()
                &&& v.nx == nx
                &&& v.ny == ny
                &&& v.nz == nz
                &&& v.data@ == data@
            },
    {
        let dlen = data.len();
        if nx == 0 || ny == 0 || nz == 0 {
            proof {
                assert(nx * ny * nz == 0) by (nonlinear_arith)
                    requires
                        nx == 0 || ny == 0 || nz == 0,
                ;
            }
            if dlen == 0 {
                return Some(Vol { nx, ny, nz, data });
            }
            return None;
        }
        let xy = match nx.checked_mul(ny) {
            Some(p) => p,
            None => {
                // nx * ny already exceeds usize::MAX, so the voxel count
                // exceeds any possible vector length.
                proof {
                    assert(nx * ny <= nx * ny * nz) by (nonlinear_arith)
                        requires
                            nz >= 1,
                            nx * ny >= 0,
                    ;
                }
                return None;
            },
        };
        let n = match xy.checked_mul(nz) {
            Some(p) => p,
            None => {
                return None;
            },
        };
        if dlen == n {
            Some(Vol { nx, ny, nz, data })
        } else {
            None
        }
    }
}

} // verus!
