//! Axis-aligned boxes on the lattice.

use crate::model::vector3::Vector3;
use ord_subset::OrdSubsetIterExt;
use vstd::prelude::*;

verus! {

/// Largest magnitude of a corner coordinate of a well-formed box. A box
/// around points in range, made cubic, stays within it.
pub const MAX_CORNER: i64 = 0x60_0000_0000_0000;

/// An axis-aligned box: its upper corner, its lower corner and its extent
/// along each axis.
#[derive(Clone, Copy, Debug, PartialEq, Eq, Structural)]
pub struct Bounds {
    pub size_x: i64,
    pub size_y: i64,
    pub size_z: i64,
    pub ux: i64,
    pub uy: i64,
    pub uz: i64,
    pub lx: i64,
    pub ly: i64,
    pub lz: i64,
}

/// Distance between two coordinates.
pub open spec fn extent(a: int, b: int) -> int {
    if a <= b {
        b - a
    } else {
        a - b
    }
}

/// Whether a coordinate may be the corner of a box.
pub open spec fn corner_in_range(c: int) -> bool {
    -MAX_CORNER <= c <= MAX_CORNER
}

impl Bounds {
    /// The lower corner does not exceed the upper corner, the extents are
    /// the differences of the corners, and the corners are in range.
    pub open spec fn wf(self) -> bool {
        &&& self.lx <= self.ux
        &&& self.ly <= self.uy
        &&& self.lz <= self.uz
        &&& self.size_x == self.ux - self.lx
        &&& self.size_y == self.uy - self.ly
        &&& self.size_z == self.uz - self.lz
        &&& corner_in_range(self.lx as int)
        &&& corner_in_range(self.ly as int)
        &&& corner_in_range(self.lz as int)
        &&& corner_in_range(self.ux as int)
        &&& corner_in_range(self.uy as int)
        &&& corner_in_range(self.uz as int)
    }

    /// The lower corner, as a point.
    pub open spec fn lower(self) -> Vector3 {
        Vector3 { x: self.lx, y: self.ly, z: self.lz }
    }

    /// The upper corner, as a point.
    pub open spec fn upper(self) -> Vector3 {
        Vector3 { x: self.ux, y: self.uy, z: self.uz }
    }

    /// Whether the closed box holds the point.
    pub open spec fn contains(self, p: Vector3) -> bool {
        &&& self.lx <= p.x <= self.ux
        &&& self.ly <= p.y <= self.uy
        &&& self.lz <= p.z <= self.uz
    }

    /// The box with the given corners.
    pub open spec fn from_corners(ux: i64, uy: i64, uz: i64, lx: i64, ly: i64, lz: i64) -> Bounds {
        Bounds {
            size_x: extent(lx as int, ux as int) as i64,
            size_y: extent(ly as int, uy as int) as i64,
            size_z: extent(lz as int, uz as int) as i64,
            ux,
            uy,
            uz,
            lx,
            ly,
            lz,
        }
    }

    /// The largest of the three extents.
    pub open spec fn largest_size(self) -> int {
        let xy = if self.size_x >= self.size_y {
            self.size_x
        } else {
            self.size_y
        };
        if xy >= self.size_z {
            xy as int
        } else {
            self.size_z as int
        }
    }

    /// The cube at the same lower corner whose edge is the largest extent.
    pub open spec fn cubic_spec(self) -> Bounds {
        let edge = self.largest_size();
        Bounds {
            size_x: edge as i64,
            size_y: edge as i64,
            size_z: edge as i64,
            ux: (self.lx + edge) as i64,
            uy: (self.ly + edge) as i64,
            uz: (self.lz + edge) as i64,
            lx: self.lx,
            ly: self.ly,
            lz: self.lz,
        }
    }

    /// The least box that holds every point of `points`: it holds them all,
    /// and each of its six faces touches one of them.
    pub open spec fn is_least_around(self, points: Seq<Vector3>) -> bool {
        &&& self.wf()
        &&& forall|i: int| 0 <= i < points.len() ==> self.contains(#[trigger] points[i])
        &&& exists|i: int| 0 <= i < points.len() && (#[trigger] points[i]).x == self.lx
        &&& exists|i: int| 0 <= i < points.len() && (#[trigger] points[i]).y == self.ly
        &&& exists|i: int| 0 <= i < points.len() && (#[trigger] points[i]).z == self.lz
        &&& exists|i: int| 0 <= i < points.len() && (#[trigger] points[i]).x == self.ux
        &&& exists|i: int| 0 <= i < points.len() && (#[trigger] points[i]).y == self.uy
        &&& exists|i: int| 0 <= i < points.len() && (#[trigger] points[i]).z == self.uz
    }

    /// Builds the box with the given upper and lower corners; each extent is
    /// the distance between the two corner coordinates of its axis.
    pub fn new(ux: i64, uy: i64, uz: i64, lx: i64, ly: i64, lz: i64) -> (b: Bounds)
        requires
            corner_in_range(ux as int),
            corner_in_range(uy as int),
            corner_in_range(uz as int),
            corner_in_range(lx as int),
            corner_in_range(ly as int),
            corner_in_range(lz as int),
        ensures
            b == Bounds::from_corners(ux, uy, uz, lx, ly, lz),
            b.size_x >= 0 && b.size_y >= 0 && b.size_z >= 0,
            b.wf() <==> lx <= ux && ly <= uy && lz <= uz,
    {
        Bounds {
            size_x: distance(lx, ux),
            size_y: distance(ly, uy),
            size_z: distance(lz, uz),
            ux,
            uy,
            uz,
            lx,
            ly,
            lz,
        }
    }

    /// The cube anchored at the lower corner whose edge is the largest of
    /// the three extents.
    pub fn cubic(&self) -> (c: Bounds)
        requires
            self.wf(),
            self.lower().in_range(),
            self.upper().in_range(),
        ensures
            c == self.cubic_spec(),
            c.wf(),
            c.size_x == c.size_y == c.size_z == self.largest_size(),
            c.lower() == self.lower(),
            forall|p: Vector3| self.contains(p) ==> c.contains(p),
    {
        let xy = if self.size_x >= self.size_y {
            self.size_x
        } else {
            self.size_y
        };
        let max_size = if xy >= self.size_z {
            xy
        } else {
            self.size_z
        };
        let new_ux = self.lx + max_size;
        let new_uy = self.ly + max_size;
        let new_uz = self.lz + max_size;
        Bounds::new(new_ux, new_uy, new_uz, self.lx, self.ly, self.lz)
    }
}

/// Distance between two corner coordinates.
fn distance(a: i64, b: i64) -> (d: i64)
    requires
        corner_in_range(a as int),
        corner_in_range(b as int),
    ensures
        d == extent(a as int, b as int),
        d >= 0,
{
    if a <= b {
        b - a
    } else {
        a - b
    }
}

/// `OrdSubsetIterExt::ord_subset_max` on an iterator over integers: every
/// integer is inside the order, so the result is the greatest item, and
/// there is none only when the iterator is empty.
#[verifier::external_body]
fn greatest(values: &Vec<i64>) -> (r: Option<i64>)
    ensures
        values@.len() == 0 ==> r is None,
        values@.len() > 0 ==> r is Some && values@.contains(r->0) && forall|i: int|
            0 <= i < values@.len() ==> values@[i] <= r->0,
{
    values.iter().ord_subset_max().copied()
}

/// `OrdSubsetIterExt::ord_subset_min` on an iterator over integers: every
/// integer is inside the order, so the result is the least item, and there
/// is none only when the iterator is empty.
#[verifier::external_body]
fn least(values: &Vec<i64>) -> (r: Option<i64>)
    ensures
        values@.len() == 0 ==> r is None,
        values@.len() > 0 ==> r is Some && values@.contains(r->0) && forall|i: int|
            0 <= i < values@.len() ==> r->0 <= values@[i],
{
    values.iter().ord_subset_min().copied()
}

/// The least box around a non-empty sequence of points.
pub fn find_bounds(points: &Vec<Vector3>) -> (b: Bounds)
    requires
        points@.len() > 0,
        forall|i: int| 0 <= i < points@.len() ==> (#[trigger] points@[i]).in_range(),
    ensures
        b.is_least_around(points@),
        b.lower().in_range(),
        b.upper().in_range(),
{
    let mut xs: Vec<i64> = Vec::new();
    let mut ys: Vec<i64> = Vec::new();
    let mut zs: Vec<i64> = Vec::new();
    let mut k: usize = 0;
    while k < points.len()
        invariant
            k <= points@.len(),
            xs@.len() == k,
            ys@.len() == k,
            zs@.len() == k,
            forall|i: int| 0 <= i < k ==> xs@[i] == (#[trigger] points@[i]).x,
            forall|i: int| 0 <= i < k ==> ys@[i] == (#[trigger] points@[i]).y,
            forall|i: int| 0 <= i < k ==> zs@[i] == (#[trigger] points@[i]).z,
        decreases points@.len() - k,
    {
        xs.push(points[k].x);
        ys.push(points[k].y);
        zs.push(points[k].z);
        k += 1;
    }
    let ux = greatest(&xs).unwrap();
    let uy = greatest(&ys).unwrap();
    let uz = greatest(&zs).unwrap();
    let lx = least(&xs).unwrap();
    let ly = least(&ys).unwrap();
    let lz = least(&zs).unwrap();
    proof {
        let ix = choose|i: int| 0 <= i < xs@.len() && xs@[i] == ux;
        let iy = choose|i: int| 0 <= i < ys@.len() && ys@[i] == uy;
        let iz = choose|i: int| 0 <= i < zs@.len() && zs@[i] == uz;
        let jx = choose|i: int| 0 <= i < xs@.len() && xs@[i] == lx;
        let jy = choose|i: int| 0 <= i < ys@.len() && ys@[i] == ly;
        let jz = choose|i: int| 0 <= i < zs@.len() && zs@[i] == lz;
        assert(points@[ix].x == ux && points@[iy].y == uy && points@[iz].z == uz);
        assert(points@[jx].x == lx && points@[jy].y == ly && points@[jz].z == lz);
        assert(points@[0].in_range());
        assert(xs@[0] == points@[0].x);
    }
    let b = Bounds::new(ux, uy, uz, lx, ly, lz);
    proof {
        assert forall|i: int| 0 <= i < points@.len() implies b.contains(#[trigger] points@[i]) by {
            assert(xs@[i] == points@[i].x);
            assert(ys@[i] == points@[i].y);
            assert(zs@[i] == points@[i].z);
        }
    }
    b
}

} // verus!
