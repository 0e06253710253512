//! The sampling octree of a point set.

use crate::model::bounds::{Bounds, find_bounds};
use crate::model::node::{empty_child_node_array, empty_grid, no_children, Node, NodeView};
use crate::model::tree::lemma_children_points_of_leaf;
use crate::model::vector3::Vector3;
use crate::sampling::{lemma_sampled, sampled};
use vstd::prelude::*;

verus! {

/// The root spacing is the space diagonal of the cubic bounds divided by
/// this number.
pub const DIAGONAL_FRACTION: u128 = 200;

/// The number of points at which a leaf splits, where a reader of points
/// has no reason to choose another.
pub const DEFAULT_POINTS_PER_LEAF_NODE: u32 = 20_000;

/// The quantization step, in lattice units, of a cloud whose diagonal is
/// longer than a million length units.
pub const COARSE_SCALE: i64 = 100;

/// The quantization step of a cloud whose diagonal is longer than one
/// length unit.
pub const MEDIUM_SCALE: i64 = 10;

/// The quantization step of any smaller cloud.
pub const FINE_SCALE: i64 = 1;

/// The square of a million length units, in lattice units.
pub const COARSE_SQUARED_DIAGONAL: u128 = 100_000_000_000_000_000_000;

/// The square of one length unit, in lattice units.
pub const MEDIUM_SQUARED_DIAGONAL: u128 = 100_000_000;

/// Why no octree was built.
#[derive(Clone, Copy, Debug, PartialEq, Eq, Structural)]
pub enum BuildError {
    /// There is no point: the bounds are undefined.
    EmptyInput,
    /// There are more points than a 32-bit point count holds.
    TooManyPoints,
    /// A coordinate is out of the range of the lattice.
    CoordinateOutOfRange,
}

/// The sampling octree of a point set, with the numbers derived from its
/// bounds. Every octree is well formed: see `PotreeView::wf`.
pub struct Potree {
    bounds: Bounds,
    cubic_bounds: Bounds,
    squared_diagonal: u128,
    point_per_leaf_node_limit: u32,
    squared_spacing: u128,
    spacing: u64,
    scale: i64,
    size: u32,
    root: Node,
}

/// The value of an octree.
pub struct PotreeView {
    /// The least box around the points.
    pub bounds: Bounds,
    /// The cube made from `bounds`: the cell of the root.
    pub cubic_bounds: Bounds,
    /// The square of the space diagonal of `cubic_bounds`.
    pub squared_diagonal: u128,
    pub point_per_leaf_node_limit: u32,
    /// The least integer that is not below the squared spacing of the root.
    pub squared_spacing: u128,
    /// The root spacing in lattice units, rounded down.
    pub spacing: u64,
    /// The quantization step of the point records, in lattice units.
    pub scale: i64,
    /// The number of points.
    pub size: u32,
    pub root: NodeView,
}

impl View for Potree {
    type V = PotreeView;

    closed spec fn view(&self) -> PotreeView {
        PotreeView {
            bounds: self.bounds,
            cubic_bounds: self.cubic_bounds,
            squared_diagonal: self.squared_diagonal,
            point_per_leaf_node_limit: self.point_per_leaf_node_limit,
            squared_spacing: self.squared_spacing,
            spacing: self.spacing,
            scale: self.scale,
            size: self.size,
            root: self.root@,
        }
    }
}

/// The square of the space diagonal of a cube with the given edge.
pub open spec fn squared_diagonal_of(edge: int) -> int {
    3 * edge * edge
}

/// The least integer that is not below the square of the root spacing: the
/// squared diagonal over the square of `DIAGONAL_FRACTION`, rounded up.
pub open spec fn root_squared_spacing(squared_diagonal: int) -> int {
    (squared_diagonal + 39_999) / 40_000
}

/// Whether `r` is the square root of `n`, rounded down.
pub open spec fn is_integer_root(r: int, n: int) -> bool {
    0 <= r && r * r <= n < (r + 1) * (r + 1)
}

/// Whether `s` is the root spacing for a squared diagonal, rounded down:
/// the diagonal divided by `DIAGONAL_FRACTION` is at least `s` and less
/// than `s + 1`.
pub open spec fn is_root_spacing(s: int, squared_diagonal: int) -> bool {
    0 <= s && 40_000 * (s * s) <= squared_diagonal < 40_000 * ((s + 1) * (s + 1))
}

/// The square root, rounded down, of the squared diagonal divided by the
/// square of `DIAGONAL_FRACTION` is the root spacing, rounded down.
pub proof fn lemma_root_spacing(s: int, squared_diagonal: int)
    requires
        0 <= squared_diagonal,
        is_integer_root(s, squared_diagonal / 40_000),
    ensures
        is_root_spacing(s, squared_diagonal),
{
    let q = squared_diagonal / 40_000;
    assert(40_000 * q <= squared_diagonal < 40_000 * (q + 1));
    assert(40_000 * (s * s) <= 40_000 * q) by (nonlinear_arith)
        requires
            s * s <= q,
    ;
    assert(40_000 * (q + 1) <= 40_000 * ((s + 1) * (s + 1))) by (nonlinear_arith)
        requires
            q < (s + 1) * (s + 1),
    ;
}

/// A squared diagonal has one root spacing.
pub proof fn lemma_root_spacing_is_unique(r: int, s: int, squared_diagonal: int)
    requires
        is_root_spacing(r, squared_diagonal),
        is_root_spacing(s, squared_diagonal),
    ensures
        r == s,
{
    assert(r == s) by (nonlinear_arith)
        requires
            0 <= r,
            0 <= s,
            40_000 * (r * r) <= squared_diagonal < 40_000 * ((r + 1) * (r + 1)),
            40_000 * (s * s) <= squared_diagonal < 40_000 * ((s + 1) * (s + 1)),
    ;
}

/// The largest squared spacing of a root.
pub const MAX_SQUARED_SPACING: u128 = 0x1_0000_0000_0000_0000_0000_0000;

/// The square root of `n`, rounded down.
pub fn integer_root(n: u128) -> (r: u64)
    requires
        n < MAX_SQUARED_SPACING,
    ensures
        is_integer_root(r as int, n as int),
{
    let mut low: u64 = 0;
    let mut high: u64 = 0x1_0000_0000_0000;
    assert(0x1_0000_0000_0000u64 * 0x1_0000_0000_0000u64 == MAX_SQUARED_SPACING) by (nonlinear_arith);
    while high - low > 1
        invariant
            low < high <= 0x1_0000_0000_0000,
            low * low <= n < high * high,
        decreases high - low,
    {
        let middle: u64 = low + (high - low) / 2;
        assert(middle * middle <= 0x1_0000_0000_0000_0000_0000_0000) by (nonlinear_arith)
            requires
                middle <= 0x1_0000_0000_0000,
        ;
        let square: u128 = (middle as u128) * (middle as u128);
        if square <= n {
            low = middle;
        } else {
            high = middle;
        }
    }
    low
}

/// The quantization step for a cloud with the given squared diagonal.
pub open spec fn scale_for(squared_diagonal: int) -> int {
    if squared_diagonal > COARSE_SQUARED_DIAGONAL {
        COARSE_SCALE as int
    } else if squared_diagonal > MEDIUM_SQUARED_DIAGONAL {
        MEDIUM_SCALE as int
    } else {
        FINE_SCALE as int
    }
}

/// The error with which a point set is rejected, if it is: an empty set has
/// no bounds, the point count is a 32-bit number, and every coordinate has
/// to be in the range of the lattice.
pub open spec fn rejection(points: Seq<Vector3>) -> Option<BuildError> {
    if points.len() == 0 {
        Some(BuildError::EmptyInput)
    } else if points.len() > u32::MAX {
        Some(BuildError::TooManyPoints)
    } else if exists|i: int| 0 <= i < points.len() && !(#[trigger] points[i]).in_range() {
        Some(BuildError::CoordinateOutOfRange)
    } else {
        None
    }
}

/// The root of an octree before any point was added: a leaf at the empty
/// path.
pub open spec fn empty_root(cell: Bounds, squared_spacing: u128, limit: u32) -> NodeView {
    NodeView {
        squared_spacing,
        bounds: cell,
        children: no_children(),
        max_points_per_leaf_node: limit,
        grid: empty_grid(),
        initial_store: Seq::empty(),
        path: Seq::empty(),
    }
}

/// An empty root with a well-formed cell is a well-formed tree without
/// points.
pub proof fn lemma_empty_root_wf(cell: Bounds, squared_spacing: u128, limit: u32)
    requires
        cell.wf(),
    ensures
        empty_root(cell, squared_spacing, limit).wf(),
        empty_root(cell, squared_spacing, limit).subtree_points() == 0,
{
    let r = empty_root(cell, squared_spacing, limit);
    assert(r.is_leaf());
    assert(r.shape_ok());
    lemma_children_points_of_leaf(r, 8);
}

impl PotreeView {
    /// The invariant of an octree: the numbers are those derived from the
    /// bounds, and the root is a well-formed tree over the cubic bounds that
    /// holds `size` points.
    pub open spec fn wf(self) -> bool {
        &&& self.bounds.wf()
        &&& self.bounds.lower().in_range()
        &&& self.bounds.upper().in_range()
        &&& self.cubic_bounds == self.bounds.cubic_spec()
        &&& self.squared_diagonal == squared_diagonal_of(self.cubic_bounds.size_x as int)
        &&& self.squared_spacing == root_squared_spacing(self.squared_diagonal as int)
        &&& is_root_spacing(self.spacing as int, self.squared_diagonal as int)
        &&& self.scale == scale_for(self.squared_diagonal as int)
        &&& self.root.wf()
        &&& self.root.path.len() == 0
        &&& self.root.bounds == self.cubic_bounds
        &&& self.root.squared_spacing == self.squared_spacing
        &&& self.root.max_points_per_leaf_node == self.point_per_leaf_node_limit
        &&& self.root.subtree_points() == self.size
    }

    /// Whether the octree is the one built from `points` with the given
    /// leaf limit: its bounds are the least box around the points, and its
    /// root is the empty root over the cubic bounds after every point was
    /// added in order.
    pub open spec fn is_built_from(self, points: Seq<Vector3>, limit: u32) -> bool {
        &&& self.wf()
        &&& self.bounds.is_least_around(points)
        &&& self.point_per_leaf_node_limit == limit
        &&& self.size == points.len()
        &&& self.root == sampled(
            empty_root(self.cubic_bounds, self.squared_spacing, limit),
            points,
            points.len(),
        )
    }
}

impl Potree {
    #[verifier::type_invariant]
    spec fn well_formed(&self) -> bool {
        self@.wf()
    }

    /// The least box around the points.
    pub fn bounds(&self) -> (bounds: Bounds)
        ensures
            bounds == self@.bounds,
            self@.wf(),
    {
        proof {
            use_type_invariant(self);
        }
        self.bounds
    }

    /// The cube made from the bounds: the cell of the root.
    pub fn cubic_bounds(&self) -> (bounds: Bounds)
        ensures
            bounds == self@.cubic_bounds,
            self@.wf(),
    {
        proof {
            use_type_invariant(self);
        }
        self.cubic_bounds
    }

    /// The square of the space diagonal of the cubic bounds.
    pub fn squared_diagonal(&self) -> (squared_diagonal: u128)
        ensures
            squared_diagonal == self@.squared_diagonal,
            self@.wf(),
    {
        proof {
            use_type_invariant(self);
        }
        self.squared_diagonal
    }

    /// The number of points at which a leaf splits.
    pub fn point_per_leaf_node_limit(&self) -> (limit: u32)
        ensures
            limit == self@.point_per_leaf_node_limit,
            self@.wf(),
    {
        proof {
            use_type_invariant(self);
        }
        self.point_per_leaf_node_limit
    }

    /// The least integer that is not below the squared spacing of the root.
    pub fn squared_spacing(&self) -> (squared_spacing: u128)
        ensures
            squared_spacing == self@.squared_spacing,
            self@.wf(),
    {
        proof {
            use_type_invariant(self);
        }
        self.squared_spacing
    }

    /// The root spacing in lattice units, rounded down.
    pub fn spacing(&self) -> (spacing: u64)
        ensures
            spacing == self@.spacing,
            self@.wf(),
    {
        proof {
            use_type_invariant(self);
        }
        self.spacing
    }

    /// The quantization step of the point records, in lattice units.
    pub fn scale(&self) -> (scale: i64)
        ensures
            scale == self@.scale,
            self@.wf(),
    {
        proof {
            use_type_invariant(self);
        }
        self.scale
    }

    /// The number of points.
    pub fn size(&self) -> (size: u32)
        ensures
            size == self@.size,
            self@.wf(),
    {
        proof {
            use_type_invariant(self);
        }
        self.size
    }

    /// The root of the tree.
    pub fn root(&self) -> (root: &Node)
        ensures
            root@ == self@.root,
            self@.wf(),
    {
        proof {
            use_type_invariant(self);
        }
        &self.root
    }

    /// Builds the octree of `points`: finds their bounds, makes them cubic,
    /// derives the root spacing and the quantization step from the space
    /// diagonal of the cube, and adds every point to the root in order.
    pub fn new(points: Vec<Vector3>, point_per_leaf_node_limit: u32) -> (result: Result<
        Potree,
        BuildError,
    >)
        ensures
            match result {
                Ok(tree) => rejection(points@) is None && tree@.is_built_from(
                    points@,
                    point_per_leaf_node_limit,
                ),
                Err(e) => rejection(points@) == Some(e),
            },
    {
        if points.len() == 0 {
            return Err(BuildError::EmptyInput);
        }
        if points.len() > u32::MAX as usize {
            return Err(BuildError::TooManyPoints);
        }
        let mut k: usize = 0;
        while k < points.len()
            invariant
                0 < points@.len() <= u32::MAX,
                k <= points@.len(),
                forall|i: int| 0 <= i < k ==> (#[trigger] points@[i]).in_range(),
            decreases points@.len() - k,
        {
            if !points[k].is_in_range() {
                return Err(BuildError::CoordinateOutOfRange);
            }
            k += 1;
        }
        let bounds = find_bounds(&points);
        let cubic_bounds = bounds.cubic();
        let edge = cubic_bounds.size_x as u128;
        assert(3 * edge * edge <= 0x3000_0000_0000_0000_0000_0000_0000) by (nonlinear_arith)
            requires
                edge <= 0x40_0000_0000_0000,
        ;
        let squared_diagonal: u128 = 3 * edge * edge;
        let squared_spacing: u128 = (squared_diagonal + 39_999) / (DIAGONAL_FRACTION
            * DIAGONAL_FRACTION);
        assert(squared_spacing < MAX_SQUARED_SPACING) by (nonlinear_arith)
            requires
                squared_diagonal <= 0x3000_0000_0000_0000_0000_0000_0000,
                squared_spacing == (squared_diagonal + 39_999) / 40_000,
        ;
        let spacing = integer_root(squared_diagonal / (DIAGONAL_FRACTION * DIAGONAL_FRACTION));
        proof {
            lemma_root_spacing(spacing as int, squared_diagonal as int);
        }
        let mut root_node = Node::new(
            Vec::new(),
            squared_spacing,
            cubic_bounds,
            empty_child_node_array(),
            point_per_leaf_node_limit,
        );
        let size = points.len() as u32;
        let ghost start = empty_root(cubic_bounds, squared_spacing, point_per_leaf_node_limit);
        proof {
            assert(root_node@.children =~= no_children());
            assert(root_node@ == start);
            lemma_empty_root_wf(cubic_bounds, squared_spacing, point_per_leaf_node_limit);
        }
        let mut k: usize = 0;
        while k < points.len()
            invariant
                k <= points@.len(),
                forall|i: int| 0 <= i < points@.len() ==> (#[trigger] points@[i]).in_range(),
                start.wf(),
                start.subtree_points() == 0,
                root_node@ == sampled(start, points@, k as nat),
                root_node@.wf(),
            decreases points@.len() - k,
        {
            root_node.add_point(points[k]);
            k += 1;
        }
        proof {
            lemma_sampled(start, points@, points@.len());
        }
        let scale = if squared_diagonal > COARSE_SQUARED_DIAGONAL {
            COARSE_SCALE
        } else if squared_diagonal > MEDIUM_SQUARED_DIAGONAL {
            MEDIUM_SCALE
        } else {
            FINE_SCALE
        };
        Ok(
            Potree {
                bounds,
                cubic_bounds,
                squared_diagonal,
                point_per_leaf_node_limit,
                squared_spacing,
                spacing,
                scale,
                size,
                root: root_node,
            },
        )
    }
}

/// There is one least box around a sequence of points.
pub proof fn lemma_least_box_is_unique(a: Bounds, b: Bounds, points: Seq<Vector3>)
    requires
        a.is_least_around(points),
        b.is_least_around(points),
    ensures
        a == b,
{
    let ax = choose|i: int| 0 <= i < points.len() && (#[trigger] points[i]).x == a.lx;
    let bx = choose|i: int| 0 <= i < points.len() && (#[trigger] points[i]).x == b.lx;
    assert(b.contains(points[ax]) && a.contains(points[bx]));
    let ay = choose|i: int| 0 <= i < points.len() && (#[trigger] points[i]).y == a.ly;
    let by = choose|i: int| 0 <= i < points.len() && (#[trigger] points[i]).y == b.ly;
    assert(b.contains(points[ay]) && a.contains(points[by]));
    let az = choose|i: int| 0 <= i < points.len() && (#[trigger] points[i]).z == a.lz;
    let bz = choose|i: int| 0 <= i < points.len() && (#[trigger] points[i]).z == b.lz;
    assert(b.contains(points[az]) && a.contains(points[bz]));
    let cx = choose|i: int| 0 <= i < points.len() && (#[trigger] points[i]).x == a.ux;
    let dx = choose|i: int| 0 <= i < points.len() && (#[trigger] points[i]).x == b.ux;
    assert(b.contains(points[cx]) && a.contains(points[dx]));
    let cy = choose|i: int| 0 <= i < points.len() && (#[trigger] points[i]).y == a.uy;
    let dy = choose|i: int| 0 <= i < points.len() && (#[trigger] points[i]).y == b.uy;
    assert(b.contains(points[cy]) && a.contains(points[dy]));
    let cz = choose|i: int| 0 <= i < points.len() && (#[trigger] points[i]).z == a.uz;
    let dz = choose|i: int| 0 <= i < points.len() && (#[trigger] points[i]).z == b.uz;
    assert(b.contains(points[cz]) && a.contains(points[dz]));
}

/// A number has one square root rounded down.
pub proof fn lemma_integer_root_is_unique(r: int, s: int, n: int)
    requires
        is_integer_root(r, n),
        is_integer_root(s, n),
    ensures
        r == s,
{
    assert(r == s) by (nonlinear_arith)
        requires
            0 <= r,
            0 <= s,
            r * r <= n < (r + 1) * (r + 1),
            s * s <= n < (s + 1) * (s + 1),
    ;
}

/// The octree of a point set holds every point of the set once: the points
/// that its nodes hold themselves, added up over the whole tree, are as
/// many as the points of the set.
pub proof fn lemma_built_tree_holds_all(tree: PotreeView, points: Seq<Vector3>, limit: u32)
    requires
        tree.is_built_from(points, limit),
    ensures
        tree.root.subtree_points() == points.len(),
        tree.root.wf(),
{
}

/// Two octrees built from the same points with the same limit are the
/// same: the same bounds, the same derived numbers, and the same tree.
pub proof fn lemma_build_is_determined(
    a: PotreeView,
    b: PotreeView,
    points: Seq<Vector3>,
    limit: u32,
)
    requires
        a.is_built_from(points, limit),
        b.is_built_from(points, limit),
    ensures
        a.bounds == b.bounds,
        a.cubic_bounds == b.cubic_bounds,
        a.squared_diagonal == b.squared_diagonal,
        a.squared_spacing == b.squared_spacing,
        a.spacing == b.spacing,
        a.scale == b.scale,
        a.size == b.size,
        a.point_per_leaf_node_limit == b.point_per_leaf_node_limit,
        a == b,
{
    lemma_least_box_is_unique(a.bounds, b.bounds, points);
    lemma_root_spacing_is_unique(a.spacing as int, b.spacing as int, a.squared_diagonal as int);
}

} // verus!
