//! Octree nodes: the cell of a node, its retained sample and its children.

use crate::model::bounds::Bounds;
use crate::model::path::copy_path;
use crate::model::vector3::{MAX_COORDINATE, squared_distance, Vector3};
use crate::sampling::lemma_insert;
use vstd::prelude::*;

verus! {

/// One row of the sample grid: the cells of one octant of the node.
pub type GridRow = [Vec<Vector3>; 8];

/// The sample grid of a node: the outer index is the octant of a point in
/// the node's cell, the inner index its octant in the cell of that child.
pub type NodeGrid = [GridRow; 8];

/// A node of the sampling octree.
pub struct Node {
    /// The least integer that is not below the squared spacing of the node.
    pub squared_spacing: u128,
    pub bounds: Bounds,
    /// The eight child slots, by octant code.
    pub children: Vec<Option<Box<Node>>>,
    pub max_points_per_leaf_node: u32,
    pub grid: NodeGrid,
    pub initial_store: Vec<Vector3>,
    /// The octant codes on the way from the root to this node.
    pub path: Vec<u8>,
}

/// The value of a node: what its fields hold, the children by their values.
pub struct NodeView {
    pub squared_spacing: u128,
    pub bounds: Bounds,
    pub children: Seq<Option<NodeView>>,
    pub max_points_per_leaf_node: u32,
    pub grid: Seq<Seq<Seq<Vector3>>>,
    pub initial_store: Seq<Vector3>,
    pub path: Seq<u8>,
}

/// The coordinate at which an axis from `l` to `u` is bisected: the middle,
/// rounded down to the lattice.
pub open spec fn midpoint(l: int, u: int) -> int {
    l + (u - l) / 2
}

/// The octant of a point in a cell: 4 where x is not below the midpoint of
/// the cell, plus 2 where y is not, plus 1 where z is not.
pub open spec fn octant_of(p: Vector3, b: Bounds) -> int {
    (if p.x < midpoint(b.lx as int, b.ux as int) {
        0int
    } else {
        4int
    }) + (if p.y < midpoint(b.ly as int, b.uy as int) {
        0int
    } else {
        2int
    }) + (if p.z < midpoint(b.lz as int, b.uz as int) {
        0int
    } else {
        1int
    })
}

/// The cell of the child with octant code `index`: along each axis the
/// lower or the upper half of the cell, split at the midpoint.
pub open spec fn child_bounds(b: Bounds, index: int) -> Bounds {
    let mx = midpoint(b.lx as int, b.ux as int);
    let my = midpoint(b.ly as int, b.uy as int);
    let mz = midpoint(b.lz as int, b.uz as int);
    let lx = if index / 4 % 2 == 0 { b.lx as int } else { mx };
    let ux = if index / 4 % 2 == 0 { mx } else { b.ux as int };
    let ly = if index / 2 % 2 == 0 { b.ly as int } else { my };
    let uy = if index / 2 % 2 == 0 { my } else { b.uy as int };
    let lz = if index % 2 == 0 { b.lz as int } else { mz };
    let uz = if index % 2 == 0 { mz } else { b.uz as int };
    Bounds {
        size_x: (ux - lx) as i64,
        size_y: (uy - ly) as i64,
        size_z: (uz - lz) as i64,
        ux: ux as i64,
        uy: uy as i64,
        uz: uz as i64,
        lx: lx as i64,
        ly: ly as i64,
        lz: lz as i64,
    }
}

/// A quarter of `s`, rounded up: the squared spacing one level deeper.
pub open spec fn quarter_up(s: u128) -> u128 {
    ((s + 3) / 4) as u128
}

/// Whether a sample of `cell` is closer to `p` than the spacing.
pub open spec fn crowded(cell: Seq<Vector3>, p: Vector3, squared_spacing: u128) -> bool {
    exists|k: int| 0 <= k < cell.len() && squared_distance(#[trigger] cell[k], p) < squared_spacing
}

/// The first `i` cells of a grid row, one after the other.
pub open spec fn flat_cells(row: Seq<Seq<Vector3>>, i: nat) -> Seq<Vector3>
    decreases i,
{
    if i == 0 {
        Seq::empty()
    } else {
        flat_cells(row, (i - 1) as nat) + row[i - 1]
    }
}

/// The first `o` rows of a grid, one after the other.
pub open spec fn flat_rows(grid: Seq<Seq<Seq<Vector3>>>, o: nat) -> Seq<Vector3>
    decreases o,
{
    if o == 0 {
        Seq::empty()
    } else {
        flat_rows(grid, (o - 1) as nat) + flat_cells(grid[o - 1], 8)
    }
}

/// A grid of 8 by 8 empty cells.
pub open spec fn empty_grid() -> Seq<Seq<Seq<Vector3>>> {
    Seq::new(8, |o: int| Seq::new(8, |i: int| Seq::<Vector3>::empty()))
}

/// Eight empty child slots.
pub open spec fn no_children() -> Seq<Option<NodeView>> {
    Seq::new(8, |i: int| None::<NodeView>)
}

impl NodeView {
    /// Depth of the node: the root has level 0.
    pub open spec fn level(self) -> nat {
        self.path.len()
    }

    /// A node is a leaf when it has no child.
    pub open spec fn is_leaf(self) -> bool {
        forall|i: int| 0 <= i < self.children.len() ==> (#[trigger] self.children[i]) is None
    }

    /// The sample grid, flattened: outer index first, then inner index.
    pub open spec fn grid_points(self) -> Seq<Vector3> {
        flat_rows(self.grid, 8)
    }

    /// The points that the node itself holds.
    pub open spec fn points(self) -> Seq<Vector3> {
        if self.is_leaf() {
            self.initial_store
        } else {
            self.grid_points()
        }
    }

    /// The number of points that the node itself holds.
    pub open spec fn num_points(self) -> nat {
        self.points().len()
    }

    /// Eight child slots, a grid of eight by eight cells, octant codes on
    /// the path.
    pub open spec fn shape_ok(self) -> bool {
        &&& self.children.len() == 8
        &&& self.grid.len() == 8
        &&& forall|o: int| 0 <= o < 8 ==> (#[trigger] self.grid[o]).len() == 8
        &&& forall|k: int| 0 <= k < self.path.len() ==> (#[trigger] self.path[k]) < 8
    }

    /// The points held by the children `0..k` and their subtrees.
    pub open spec fn children_points(self, k: nat) -> nat
        decreases self, k,
    {
        if k == 0 || k > self.children.len() {
            0
        } else {
            self.children_points((k - 1) as nat) + (match self.children[k - 1] {
                Some(c) => c.subtree_points(),
                None => 0,
            })
        }
    }

    /// The points held by the node and all its descendants.
    pub open spec fn subtree_points(self) -> nat
        decreases self, self.children.len() + 1,
    {
        self.num_points() + self.children_points(self.children.len())
    }
}

impl NodeView {
    /// The number of points that a leaf holds before it splits, at least 1.
    pub open spec fn room(self) -> int {
        if self.max_points_per_leaf_node == 0 {
            1
        } else {
            self.max_points_per_leaf_node as int
        }
    }

    /// A leaf without points in the cell of the octant `index`, at half the
    /// spacing.
    pub open spec fn new_child(self, index: int) -> NodeView {
        NodeView {
            squared_spacing: quarter_up(self.squared_spacing),
            bounds: child_bounds(self.bounds, index),
            children: no_children(),
            max_points_per_leaf_node: self.max_points_per_leaf_node,
            grid: empty_grid(),
            initial_store: Seq::empty(),
            path: self.path.push(index as u8),
        }
    }

    /// The octant of `p` in the cell of the node.
    pub open spec fn outer_index(self, p: Vector3) -> int {
        octant_of(p, self.bounds)
    }

    /// The octant of `p` in the cell of the child that `p` falls into.
    pub open spec fn inner_index(self, p: Vector3) -> int {
        octant_of(p, child_bounds(self.bounds, self.outer_index(p)))
    }

    /// Whether the grid cell of `p` holds a sample closer to `p` than the
    /// spacing of the node.
    pub open spec fn is_redundant(self, p: Vector3) -> bool {
        crowded(self.grid[self.outer_index(p)][self.inner_index(p)], p, self.squared_spacing)
    }

    /// The node with `p` appended to its grid cell.
    pub open spec fn with_sample(self, p: Vector3) -> NodeView {
        let o = self.outer_index(p);
        let i = self.inner_index(p);
        NodeView { grid: self.grid.update(o, self.grid[o].update(i, self.grid[o][i].push(p))), ..self }
    }

    /// The node with `c` in the child slot `o`.
    pub open spec fn with_child(self, o: int, c: NodeView) -> NodeView {
        NodeView { children: self.children.update(o, Some(c)), ..self }
    }

    /// The node with `p` appended to its buffer.
    pub open spec fn with_buffered(self, p: Vector3) -> NodeView {
        NodeView { initial_store: self.initial_store.push(p), ..self }
    }

    /// The child in slot `o`, or a new leaf for that slot.
    pub open spec fn child_or_new(self, o: int) -> NodeView {
        if 0 <= o < self.children.len() && self.children[o] is Some {
            self.children[o]->0
        } else {
            self.new_child(o)
        }
    }

    /// Where a buffered point goes when its leaf splits: into its grid cell,
    /// or, where a sample of that cell is closer than the spacing, into the
    /// buffer of the child of its octant.
    pub open spec fn place(self, p: Vector3) -> NodeView {
        if self.is_redundant(p) {
            let o = self.outer_index(p);
            self.with_child(o, self.child_or_new(o).with_buffered(p))
        } else {
            self.with_sample(p)
        }
    }

    /// The node after the first `n` points of `points` were placed in order.
    pub open spec fn place_all(self, points: Seq<Vector3>, n: nat) -> NodeView
        decreases n,
    {
        if n == 0 {
            self
        } else {
            self.place_all(points, (n - 1) as nat).place(points[n - 1])
        }
    }

    /// A leaf that splits, before its buffered points are placed: an inner
    /// node with one new child in slot `index`, an empty grid and an empty
    /// buffer.
    pub open spec fn split_start(self, index: int) -> NodeView {
        NodeView {
            children: no_children().update(index, Some(self.new_child(index))),
            initial_store: Seq::empty(),
            ..self
        }
    }

    /// A leaf turned into an inner node: one new child in slot `index`, the
    /// buffer emptied, and its points placed in the order in which they came.
    pub open spec fn split(self, index: int) -> NodeView {
        self.split_start(index).place_all(self.initial_store, self.initial_store.len())
    }

    /// A leaf after `p` came: `p` is buffered, and where the buffer has then
    /// reached the limit of the leaf, the leaf splits at the octant of `p`.
    pub open spec fn insert_into_leaf(self, p: Vector3) -> NodeView {
        let filled = self.with_buffered(p);
        if filled.initial_store.len() >= self.max_points_per_leaf_node {
            filled.split(self.outer_index(p))
        } else {
            filled
        }
    }

    /// An inner node after `p` came: `p` joins its grid cell, or, where a
    /// sample of that cell is closer than the spacing, goes on to the child
    /// of its octant, which is made if there is none.
    pub open spec fn insert_sample(self, p: Vector3) -> NodeView
        decreases self, 0nat,
    {
        if self.is_redundant(p) {
            let o = self.outer_index(p);
            if 0 <= o < self.children.len() && self.children[o] is Some {
                self.with_child(o, self.children[o]->0.insert(p))
            } else {
                self.with_child(o, self.new_child(o).insert_into_leaf(p))
            }
        } else {
            self.with_sample(p)
        }
    }

    /// The node after `p` was added to it.
    pub open spec fn insert(self, p: Vector3) -> NodeView
        decreases self, 1nat,
    {
        if self.is_leaf() {
            self.insert_into_leaf(p)
        } else {
            self.insert_sample(p)
        }
    }

    /// Every point of the buffer and of the grid is in range.
    pub open spec fn points_in_range(self) -> bool {
        &&& forall|k: int|
            0 <= k < self.initial_store.len() ==> (#[trigger] self.initial_store[k]).in_range()
        &&& forall|o: int, i: int, k: int|
            0 <= o < 8 && 0 <= i < 8 && 0 <= k < self.grid[o][i].len() ==> (
            #[trigger] self.grid[o][i][k]).in_range()
    }

    /// Whether `c` may stand in the child slot `i` of the node: it has the
    /// path, the cell, the spacing and the limit of that slot.
    pub open spec fn is_child_of(self, c: NodeView, i: int) -> bool {
        &&& c.path == self.path.push(i as u8)
        &&& c.bounds == child_bounds(self.bounds, i)
        &&& c.squared_spacing == quarter_up(self.squared_spacing)
        &&& c.max_points_per_leaf_node == self.max_points_per_leaf_node
    }

    /// The invariant of a tree: a leaf holds its points in its buffer and
    /// fewer of them than its limit; an inner node has an empty buffer and
    /// at least one sample in its grid; each child has the cell of its
    /// octant and is itself well formed.
    pub open spec fn wf(self) -> bool
        decreases self,
    {
        &&& self.shape_ok()
        &&& self.bounds.wf()
        &&& self.points_in_range()
        &&& if self.is_leaf() {
            &&& self.grid == empty_grid()
            &&& self.initial_store.len() < self.room()
        } else {
            &&& self.initial_store.len() == 0
            &&& self.grid_points().len() >= 1
        }
        &&& forall|i: int|
            0 <= i < self.children.len() && (#[trigger] self.children[i]) is Some ==> {
                &&& self.is_child_of(self.children[i]->0, i)
                &&& self.children[i]->0.wf()
            }
    }
}

impl Node {
    /// The value of the node.
    pub open spec fn model(&self) -> NodeView
        decreases self,
    {
        NodeView {
            squared_spacing: self.squared_spacing,
            bounds: self.bounds,
            children: Seq::new(
                self.children@.len(),
                |i: int|
                    if 0 <= i < self.children@.len() {
                        match self.children@[i] {
                            Some(c) => Some(c.model()),
                            None => None,
                        }
                    } else {
                        None
                    },
            ),
            max_points_per_leaf_node: self.max_points_per_leaf_node,
            grid: Seq::new(8, |o: int| Seq::new(8, |i: int| self.grid@[o]@[i]@)),
            initial_store: self.initial_store@,
            path: self.path@,
        }
    }
}

impl View for Node {
    type V = NodeView;

    open spec fn view(&self) -> NodeView {
        self.model()
    }
}

/// The view of the child slots of a node: each child by its value.
pub open spec fn children_view(children: Seq<Option<Box<Node>>>) -> Seq<Option<NodeView>> {
    Seq::new(
        children.len(),
        |i: int|
            if 0 <= i < children.len() {
                match children[i] {
                    Some(c) => Some(c.model()),
                    None => None,
                }
            } else {
                None
            },
    )
}

/// The view of a sample grid: each cell by its sequence of points.
pub open spec fn grid_view(grid: NodeGrid) -> Seq<Seq<Seq<Vector3>>> {
    Seq::new(8, |o: int| Seq::new(8, |i: int| grid@[o]@[i]@))
}

impl Node {
    /// The view of a node, field by field.
    pub proof fn lemma_view(&self)
        ensures
            self@.squared_spacing == self.squared_spacing,
            self@.bounds == self.bounds,
            self@.max_points_per_leaf_node == self.max_points_per_leaf_node,
            self@.initial_store == self.initial_store@,
            self@.path == self.path@,
            self@.children == children_view(self.children@),
            self@.children.len() == self.children@.len(),
            forall|i: int|
                0 <= i < self.children@.len() ==> (#[trigger] self@.children[i])
                    == match self.children@[i] {
                    Some(c) => Some(c@),
                    None => None,
                },
            self@.grid == grid_view(self.grid),
            self@.grid.len() == 8,
            forall|o: int| 0 <= o < 8 ==> (#[trigger] self@.grid[o]).len() == 8,
            forall|o: int, i: int|
                0 <= o < 8 && 0 <= i < 8 ==> (#[trigger] self@.grid[o][i]) == self.grid@[o]@[i]@,
    {
        assert(self@.children =~= children_view(self.children@));
        assert(self@.grid =~= grid_view(self.grid));
    }

    /// Builds a leaf without points.
    pub fn new(
        path: Vec<u8>,
        squared_spacing: u128,
        bounds: Bounds,
        children: Vec<Option<Box<Node>>>,
        max_points_per_leaf_node: u32,
    ) -> (node: Node)
        ensures
            node@ == (NodeView {
                squared_spacing,
                bounds,
                children: children_view(children@),
                max_points_per_leaf_node,
                grid: empty_grid(),
                initial_store: Seq::empty(),
                path: path@,
            }),
    {
        let node = Node {
            squared_spacing,
            bounds,
            children,
            max_points_per_leaf_node,
            grid: empty_grid_array(),
            initial_store: Vec::new(),
            path,
        };
        proof {
            node.lemma_view();
            assert(node@.grid =~~= empty_grid());
        }
        node
    }

    /// Depth of the node in the tree: the root has level 0.
    pub fn level(&self) -> (l: usize)
        ensures
            l == self@.level(),
    {
        self.path.len()
    }

    /// Whether the node has no child.
    pub fn is_leaf_node(&self) -> (b: bool)
        ensures
            b == self@.is_leaf(),
    {
        proof {
            self.lemma_view();
        }
        let mut i: usize = 0;
        while i < self.children.len()
            invariant
                i <= self.children@.len(),
                forall|j: int| 0 <= j < i ==> self.children@[j] is None,
            decreases self.children@.len() - i,
        {
            if self.children[i].is_some() {
                assert(self@.children[i as int] is Some);
                return false;
            }
            i += 1;
        }
        true
    }

    /// The points that the node itself holds: the buffered points of a
    /// leaf, else the sample grid, outer index first, then inner index.
    pub fn points(&self) -> (points: Vec<Vector3>)
        ensures
            points@ == self@.points(),
    {
        proof {
            self.lemma_view();
        }
        let mut points: Vec<Vector3> = Vec::new();
        if self.is_leaf_node() {
            let mut k: usize = 0;
            while k < self.initial_store.len()
                invariant
                    k <= self.initial_store@.len(),
                    points@ == self.initial_store@.take(k as int),
                decreases self.initial_store@.len() - k,
            {
                points.push(self.initial_store[k]);
                assert(self.initial_store@.take(k + 1) =~= self.initial_store@.take(k as int).push(
                    self.initial_store@[k as int],
                ));
                k += 1;
            }
            assert(self.initial_store@.take(k as int) =~= self.initial_store@);
            points
        } else {
            let mut o: usize = 0;
            while o < 8
                invariant
                    o <= 8,
                    self@.grid == grid_view(self.grid),
                    points@ == flat_rows(self@.grid, o as nat),
                decreases 8 - o,
            {
                let ghost before = points@;
                let mut i: usize = 0;
                while i < 8
                    invariant
                        o < 8,
                        i <= 8,
                        self@.grid == grid_view(self.grid),
                        points@ == before + flat_cells(self@.grid[o as int], i as nat),
                    decreases 8 - i,
                {
                    let ghost start = points@;
                    let cell = &self.grid[o][i];
                    let mut k: usize = 0;
                    while k < cell.len()
                        invariant
                            k <= cell@.len(),
                            points@ == start + cell@.take(k as int),
                        decreases cell@.len() - k,
                    {
                        points.push(cell[k]);
                        assert(cell@.take(k + 1) =~= cell@.take(k as int).push(cell@[k as int]));
                        assert(points@ =~= start + cell@.take(k + 1));
                        k += 1;
                    }
                    assert(cell@.take(k as int) =~= cell@);
                    assert(self@.grid[o as int][i as int] == cell@);
                    assert(points@ =~= before + flat_cells(self@.grid[o as int], (i + 1) as nat));
                    i += 1;
                }
                o += 1;
            }
            points
        }
    }
}

/// The lengths of the first `i` cells of a grid row, added up.
pub open spec fn row_total(row: Seq<Seq<Vector3>>, i: nat) -> nat
    decreases i,
{
    if i == 0 {
        0
    } else {
        row_total(row, (i - 1) as nat) + row[i - 1].len()
    }
}

/// The lengths of the cells of the first `o` rows of a grid, added up.
pub open spec fn grid_total(grid: Seq<Seq<Seq<Vector3>>>, o: nat) -> nat
    decreases o,
{
    if o == 0 {
        0
    } else {
        grid_total(grid, (o - 1) as nat) + row_total(grid[o - 1], 8)
    }
}

/// The cells of a grid row, one after the other, hold as many points as
/// their lengths add up to.
pub proof fn lemma_flat_cells_total(row: Seq<Seq<Vector3>>, i: nat)
    ensures
        flat_cells(row, i).len() == row_total(row, i),
    decreases i,
{
    if i > 0 {
        lemma_flat_cells_total(row, (i - 1) as nat);
    }
}

/// The cells of a grid, one after the other, hold as many points as the
/// lengths of the cells add up to.
pub proof fn lemma_flat_rows_total(grid: Seq<Seq<Seq<Vector3>>>, o: nat)
    ensures
        flat_rows(grid, o).len() == grid_total(grid, o),
    decreases o,
{
    if o > 0 {
        lemma_flat_rows_total(grid, (o - 1) as nat);
        lemma_flat_cells_total(grid[o - 1], 8);
    }
}

/// A longer prefix of a grid row holds no fewer points.
pub proof fn lemma_flat_cells_grow(row: Seq<Seq<Vector3>>, i: nat, j: nat)
    requires
        i <= j,
    ensures
        flat_cells(row, i).len() <= flat_cells(row, j).len(),
    decreases j,
{
    if i < j {
        lemma_flat_cells_grow(row, i, (j - 1) as nat);
    }
}

/// A longer prefix of a grid holds no fewer points.
pub proof fn lemma_flat_rows_grow(grid: Seq<Seq<Seq<Vector3>>>, o: nat, q: nat)
    requires
        o <= q,
    ensures
        flat_rows(grid, o).len() <= flat_rows(grid, q).len(),
    decreases q,
{
    if o < q {
        lemma_flat_rows_grow(grid, o, (q - 1) as nat);
    }
}

impl Node {
    /// The number of points that the node itself holds: the length of the
    /// buffer of a leaf, else the sum of the lengths of the 64 grid cells.
    pub fn num_points(&self) -> (count: usize)
        requires
            self@.num_points() <= usize::MAX,
        ensures
            count == self@.num_points(),
            self@.is_leaf() ==> count == self@.initial_store.len(),
            !self@.is_leaf() ==> count == grid_total(self@.grid, 8),
    {
        proof {
            self.lemma_view();
            lemma_flat_rows_total(self@.grid, 8);
        }
        if self.is_leaf_node() {
            self.initial_store.len()
        } else {
            let ghost grid = self@.grid;
            let mut count: usize = 0;
            let mut o: usize = 0;
            while o < 8
                invariant
                    o <= 8,
                    grid == grid_view(self.grid),
                    flat_rows(grid, 8).len() <= usize::MAX,
                    count == flat_rows(grid, o as nat).len(),
                decreases 8 - o,
            {
                let ghost before = count;
                let mut i: usize = 0;
                while i < 8
                    invariant
                        o < 8,
                        i <= 8,
                        grid == grid_view(self.grid),
                        flat_rows(grid, 8).len() <= usize::MAX,
                        before == flat_rows(grid, o as nat).len(),
                        count == before + flat_cells(grid[o as int], i as nat).len(),
                    decreases 8 - i,
                {
                    proof {
                        lemma_flat_cells_grow(grid[o as int], (i + 1) as nat, 8);
                        lemma_flat_rows_grow(grid, (o + 1) as nat, 8);
                        assert(grid[o as int][i as int] == self.grid@[o as int]@[i as int]@);
                    }
                    count += self.grid[o][i].len();
                    i += 1;
                }
                o += 1;
            }
            count
        }
    }

    /// The octant of `point` in the cell `bounds`.
    pub fn find_grid_index(point: &Vector3, bounds: &Bounds) -> (index: usize)
        requires
            bounds.wf(),
        ensures
            index == octant_of(*point, *bounds),
            index < 8,
    {
        let low_x = point.x < bounds.lx + (bounds.ux - bounds.lx) / 2;
        let low_y = point.y < bounds.ly + (bounds.uy - bounds.ly) / 2;
        let low_z = point.z < bounds.lz + (bounds.uz - bounds.lz) / 2;
        let x_part: usize = if low_x {
            0
        } else {
            4
        };
        let y_part: usize = if low_y {
            0
        } else {
            2
        };
        let z_part: usize = if low_z {
            0
        } else {
            1
        };
        x_part + y_part + z_part
    }

    /// The cell of the child with octant code `index`.
    pub fn compute_child_bounds(&self, index: usize) -> (cell: Bounds)
        requires
            self.bounds.wf(),
            index < 8,
        ensures
            cell == child_bounds(self.bounds, index as int),
            cell.wf(),
    {
        let bounds = &self.bounds;
        let bounds_mid_x = bounds.lx + (bounds.ux - bounds.lx) / 2;
        let bounds_mid_y = bounds.ly + (bounds.uy - bounds.ly) / 2;
        let bounds_mid_z = bounds.lz + (bounds.uz - bounds.lz) / 2;
        let high_x = index >= 4;
        let high_y = index % 4 >= 2;
        let high_z = index % 2 == 1;
        let (lx, ux) = if high_x {
            (bounds_mid_x, bounds.ux)
        } else {
            (bounds.lx, bounds_mid_x)
        };
        let (ly, uy) = if high_y {
            (bounds_mid_y, bounds.uy)
        } else {
            (bounds.ly, bounds_mid_y)
        };
        let (lz, uz) = if high_z {
            (bounds_mid_z, bounds.uz)
        } else {
            (bounds.lz, bounds_mid_z)
        };
        Bounds::new(ux, uy, uz, lx, ly, lz)
    }

    /// Whether two points are closer to each other than the distance whose
    /// square is `squared_spacing`.
    pub fn within_distance(a: &Vector3, b: &Vector3, squared_spacing: u128) -> (near: bool)
        requires
            a.in_range(),
            b.in_range(),
        ensures
            near == (squared_distance(*a, *b) < squared_spacing),
    {
        let x_diff = squared_difference(a.x, b.x);
        let y_diff = squared_difference(a.y, b.y);
        let z_diff = squared_difference(a.z, b.z);
        (x_diff + y_diff + z_diff) < squared_spacing
    }

    /// Whether a sample of the grid cell is closer to `point` than the
    /// spacing of the node.
    fn is_crowded(&self, outer: usize, inner: usize, point: &Vector3) -> (near: bool)
        requires
            outer < 8,
            inner < 8,
            point.in_range(),
            forall|k: int|
                0 <= k < self.grid@[outer as int]@[inner as int]@.len() ==> (
                #[trigger] self.grid@[outer as int]@[inner as int]@[k]).in_range(),
        ensures
            near == crowded(self@.grid[outer as int][inner as int], *point, self.squared_spacing),
    {
        proof {
            self.lemma_view();
        }
        let cell = &self.grid[outer][inner];
        let mut k: usize = 0;
        while k < cell.len()
            invariant
                k <= cell@.len(),
                point.in_range(),
                cell@ == self@.grid[outer as int][inner as int],
                forall|j: int| 0 <= j < cell@.len() ==> (#[trigger] cell@[j]).in_range(),
                forall|j: int|
                    0 <= j < k ==> !(squared_distance(#[trigger] cell@[j], *point)
                        < self.squared_spacing),
            decreases cell@.len() - k,
        {
            if Node::within_distance(&cell[k], point, self.squared_spacing) {
                return true;
            }
            k += 1;
        }
        false
    }
}

impl Node {
    /// What the functions that place a point rely on: eight child slots,
    /// a well-formed cell, and points in range.
    pub open spec fn can_place(v: NodeView) -> bool {
        &&& v.shape_ok()
        &&& v.bounds.wf()
        &&& v.points_in_range()
    }

    /// A leaf without points for the child slot `index`.
    fn new_child_node(&self, index: usize) -> (child: Node)
        requires
            self.bounds.wf(),
            index < 8,
        ensures
            child@ == self@.new_child(index as int),
    {
        proof {
            self.lemma_view();
        }
        let mut path = copy_path(&self.path);
        path.push(index as u8);
        let quarter = self.squared_spacing / 4 + if self.squared_spacing % 4 == 0 {
            0
        } else {
            1
        };
        let child = Node::new(
            path,
            quarter,
            self.compute_child_bounds(index),
            empty_child_node_array(),
            self.max_points_per_leaf_node,
        );
        proof {
            assert(child@.children =~= no_children());
        }
        child
    }

    /// Adds a point to the node: a leaf buffers it and splits when its
    /// buffer reaches the limit; an inner node takes it into its grid cell,
    /// or hands it to the child of its octant where a sample of the cell is
    /// closer to it than the spacing.
    pub fn add_point(&mut self, point: Vector3)
        requires
            old(self)@.wf(),
            point.in_range(),
        ensures
            final(self)@ == old(self)@.insert(point),
            final(self)@.wf(),
            final(self)@.subtree_points() == old(self)@.subtree_points() + 1,
        decreases old(self)@, 1nat,
    {
        proof {
            lemma_insert(self@, point);
        }
        if self.is_leaf_node() {
            self.add_to_leaf(point);
        } else {
            self.insert_sample(point);
        }
    }

    /// Buffers a point in a leaf, and splits the leaf when the buffer has
    /// reached its limit.
    fn add_to_leaf(&mut self, point: Vector3)
        requires
            old(self)@.wf(),
            old(self)@.is_leaf(),
            point.in_range(),
        ensures
            final(self)@ == old(self)@.insert_into_leaf(point),
    {
        proof {
            self.lemma_view();
        }
        let ghost before = self@;
        self.initial_store.push(point);
        proof {
            self.lemma_view();
            assert(self@.grid =~~= before.grid);
            assert(self@.children =~= before.children);
            assert(self@ == before.with_buffered(point));
        }
        if self.initial_store.len() >= self.max_points_per_leaf_node as usize {
            let index = Node::find_grid_index(&point, &self.bounds);
            self.split(index);
        }
    }

    /// Turns a leaf into an inner node with one new child in slot `index`,
    /// and places its buffered points in the order in which they came.
    fn split(&mut self, index: usize)
        requires
            Node::can_place(old(self)@),
            old(self)@.is_leaf(),
            old(self)@.grid == empty_grid(),
            index < 8,
        ensures
            final(self)@ == old(self)@.split(index as int),
    {
        proof {
            self.lemma_view();
        }
        let ghost before = self@;
        let ghost slots = self.children@;
        let child = self.new_child_node(index);
        self.children[index] = Some(Box::new(child));
        let mut stored: Vec<Vector3> = Vec::new();
        core::mem::swap(&mut stored, &mut self.initial_store);
        let ghost start = self@;
        proof {
            self.lemma_view();
            assert(start.grid =~~= before.grid);
            assert(self.children@ == slots.update(index as int, Some(Box::new(child))));
            assert forall|j: int| 0 <= j < 8 && j != index implies start.children[j] is None by {
                assert(before.children[j] is None);
                assert(slots[j] is None);
            }
            assert(start.children =~= no_children().update(
                index as int,
                Some(before.new_child(index as int)),
            ));
            assert(start == before.split_start(index as int));
        }
        let mut k: usize = 0;
        while k < stored.len()
            invariant
                k <= stored@.len(),
                stored@ == before.initial_store,
                forall|j: int| 0 <= j < stored@.len() ==> (#[trigger] stored@[j]).in_range(),
                Node::can_place(self@),
                self@ == start.place_all(stored@, k as nat),
            decreases stored@.len() - k,
        {
            self.place(stored[k]);
            k += 1;
        }
    }

    /// Places a buffered point of a leaf that splits: into its grid cell,
    /// or, where a sample of that cell is closer to it than the spacing,
    /// into the buffer of the child of its octant.
    fn place(&mut self, point: Vector3)
        requires
            Node::can_place(old(self)@),
            point.in_range(),
        ensures
            final(self)@ == old(self)@.place(point),
            Node::can_place(final(self)@),
    {
        proof {
            self.lemma_view();
        }
        let ghost before = self@;
        let outer = Node::find_grid_index(&point, &self.bounds);
        let inner = Node::find_grid_index(&point, &self.compute_child_bounds(outer));
        assert(forall|k: int|
            0 <= k < self.grid@[outer as int]@[inner as int]@.len() ==> (
            #[trigger] self.grid@[outer as int]@[inner as int]@[k])
                == before.grid[outer as int][inner as int][k]);
        if self.is_crowded(outer, inner, &point) {
            if self.children[outer].is_none() {
                let child = self.new_child_node(outer);
                self.children[outer] = Some(Box::new(child));
            }
            let ghost ready = self@;
            proof {
                self.lemma_view();
                assert(ready.grid =~~= before.grid);
                assert(ready.children =~= before.children.update(
                    outer as int,
                    Some(before.child_or_new(outer as int)),
                ));
            }
            match &mut self.children[outer] {
                Some(child) => {
                    proof {
                        child.lemma_view();
                    }
                    child.initial_store.push(point);
                    proof {
                        child.lemma_view();
                        assert(child@.grid =~~= before.child_or_new(outer as int).grid);
                        assert(child@.children =~= before.child_or_new(outer as int).children);
                        assert(child@ == before.child_or_new(outer as int).with_buffered(point));
                    }
                },
                None => {},
            }
            proof {
                self.lemma_view();
                assert(self@.grid =~~= before.grid);
                assert(self@.children =~= before.children.update(
                    outer as int,
                    Some(before.child_or_new(outer as int).with_buffered(point)),
                ));
            }
        } else {
            self.grid[outer][inner].push(point);
            proof {
                self.lemma_view();
                assert(self@.children =~= before.children);
                assert(self@.grid =~~= before.with_sample(point).grid);
            }
        }
    }

    /// Adds a point to an inner node.
    fn insert_sample(&mut self, point: Vector3)
        requires
            old(self)@.wf(),
            !old(self)@.is_leaf(),
            point.in_range(),
        ensures
            final(self)@ == old(self)@.insert_sample(point),
        decreases old(self)@, 0nat,
    {
        proof {
            self.lemma_view();
        }
        let ghost before = self@;
        let outer = Node::find_grid_index(&point, &self.bounds);
        let inner = Node::find_grid_index(&point, &self.compute_child_bounds(outer));
        assert(forall|k: int|
            0 <= k < self.grid@[outer as int]@[inner as int]@.len() ==> (
            #[trigger] self.grid@[outer as int]@[inner as int]@[k])
                == before.grid[outer as int][inner as int][k]);
        if self.is_crowded(outer, inner, &point) {
            match &mut self.children[outer] {
                None => {
                    let mut new_child = Box::new(self.new_child_node(outer));
                    new_child.add_to_leaf(point);
                    self.children[outer] = Some(new_child);
                    proof {
                        self.lemma_view();
                        assert(self@.grid =~~= before.grid);
                        assert(self@.children =~= before.children.update(
                            outer as int,
                            Some(before.new_child(outer as int).insert_into_leaf(point)),
                        ));
                    }
                },
                Some(child) => {
                    child.add_point(point);
                    proof {
                        self.lemma_view();
                        assert(self@.grid =~~= before.grid);
                        assert(self@.children =~= before.children.update(
                            outer as int,
                            Some(before.children[outer as int]->0.insert(point)),
                        ));
                    }
                },
            };
        } else {
            self.grid[outer][inner].push(point);
            proof {
                self.lemma_view();
                assert(self@.children =~= before.children);
                assert(self@.grid =~~= before.with_sample(point).grid);
            }
        }
    }
}

/// The digit that stands for an octant code in the name of a node.
pub open spec fn digit_of(code: u8) -> char {
    if code == 0 {
        '0'
    } else if code == 1 {
        '1'
    } else if code == 2 {
        '2'
    } else if code == 3 {
        '3'
    } else if code == 4 {
        '4'
    } else if code == 5 {
        '5'
    } else if code == 6 {
        '6'
    } else {
        '7'
    }
}

/// The name of the node at the end of the first `n` codes of a path: the
/// letter r for the root, then one digit for each octant code.
pub open spec fn name_of(path: Seq<u8>, n: nat) -> Seq<char>
    decreases n,
{
    if n == 0 {
        seq!['r']
    } else {
        name_of(path, (n - 1) as nat).push(digit_of(path[n - 1]))
    }
}

impl Node {
    /// The name of the node: the letter r for the root, then one digit for
    /// each octant code on the way from the root to the node.
    pub fn name(&self) -> (name: String)
        ensures
            name@ == name_of(self.path@, self.path@.len()),
    {
        let mut name = String::from_str("r");
        proof {
            reveal_strlit("r");
            assert(name@ =~= seq!['r']);
        }
        let mut k: usize = 0;
        while k < self.path.len()
            invariant
                k <= self.path@.len(),
                name@ == name_of(self.path@, k as nat),
            decreases self.path@.len() - k,
        {
            let code = self.path[k];
            let ghost before = name@;
            proof {
                reveal_strlit("0");
                reveal_strlit("1");
                reveal_strlit("2");
                reveal_strlit("3");
                reveal_strlit("4");
                reveal_strlit("5");
                reveal_strlit("6");
                reveal_strlit("7");
            }
            if code == 0 {
                name.append("0");
            } else if code == 1 {
                name.append("1");
            } else if code == 2 {
                name.append("2");
            } else if code == 3 {
                name.append("3");
            } else if code == 4 {
                name.append("4");
            } else if code == 5 {
                name.append("5");
            } else if code == 6 {
                name.append("6");
            } else {
                name.append("7");
            }
            assert(name@ =~= before.push(digit_of(code)));
            k += 1;
        }
        name
    }
}

/// The square of the difference of two point coordinates.
fn squared_difference(a: i64, b: i64) -> (s: u128)
    requires
        -MAX_COORDINATE <= a <= MAX_COORDINATE,
        -MAX_COORDINATE <= b <= MAX_COORDINATE,
    ensures
        s == (a - b) * (a - b),
        s <= 0x1000_0000_0000_0000_0000_0000_0000,
{
    let d: u64 = if a >= b {
        (a - b) as u64
    } else {
        (b - a) as u64
    };
    assert(d * d <= 0x1000_0000_0000_0000_0000_0000_0000 && d * d == (a - b) * (a - b))
        by (nonlinear_arith)
        requires
            d <= 0x40_0000_0000_0000,
            d == a - b || d == b - a,
    ;
    (d as u128) * (d as u128)
}

/// Eight empty child slots.
pub fn empty_child_node_array() -> (children: Vec<Option<Box<Node>>>)
    ensures
        children@.len() == 8,
        forall|i: int| 0 <= i < 8 ==> children@[i] is None,
{
    let mut children: Vec<Option<Box<Node>>> = Vec::new();
    let mut i: usize = 0;
    while i < 8
        invariant
            i <= 8,
            children@.len() == i,
            forall|j: int| 0 <= j < i ==> children@[j] is None,
        decreases 8 - i,
    {
        children.push(None);
        i += 1;
    }
    children
}

/// A grid of eight rows of empty cells.
pub fn empty_grid_array() -> (grid: NodeGrid)
    ensures
        forall|o: int, i: int| 0 <= o < 8 && 0 <= i < 8 ==> (#[trigger] grid@[o]@[i])@.len() == 0,
{
    [
        empty_grid_row(),
        empty_grid_row(),
        empty_grid_row(),
        empty_grid_row(),
        empty_grid_row(),
        empty_grid_row(),
        empty_grid_row(),
        empty_grid_row(),
    ]
}

/// A row of eight empty cells.
pub fn empty_grid_row() -> (row: GridRow)
    ensures
        forall|i: int| 0 <= i < 8 ==> (#[trigger] row@[i])@.len() == 0,
{
    [
        Vec::new(),
        Vec::new(),
        Vec::new(),
        Vec::new(),
        Vec::new(),
        Vec::new(),
        Vec::new(),
        Vec::new(),
    ]
}

} // verus!
