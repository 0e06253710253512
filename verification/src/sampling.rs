//! Laws of the sampling octree: what adding a point keeps and what it
//! changes.

use crate::model::bounds::Bounds;
use crate::model::node::{
    child_bounds, empty_grid, flat_cells, flat_rows, midpoint, no_children, NodeView, octant_of,
    quarter_up,
};
use crate::model::tree::{
    lemma_children_points_of_leaf, lemma_children_points_same, lemma_children_points_update,
    lemma_slot_points_bounded,
};
use crate::model::vector3::{squared_distance, Vector3};
use vstd::prelude::*;

verus! {

/// The octant of a point is a code from 0 to 7.
pub proof fn lemma_octant_range(p: Vector3, b: Bounds)
    ensures
        0 <= octant_of(p, b) < 8,
{
}

/// The cell of a child of a well-formed cell is well formed and lies in it.
pub proof fn lemma_child_bounds_wf(b: Bounds, index: int)
    requires
        b.wf(),
        0 <= index < 8,
    ensures
        child_bounds(b, index).wf(),
        forall|p: Vector3| child_bounds(b, index).contains(p) ==> b.contains(p),
{
}

/// A point of a cell lies in the child cell of its octant.
pub proof fn lemma_octant_cell_holds_point(b: Bounds, p: Vector3)
    requires
        b.wf(),
        b.contains(p),
    ensures
        child_bounds(b, octant_of(p, b)).contains(p),
{
}

/// The octant code that differs from `index` in the half along one axis:
/// `weight` is 4 for x, 2 for y and 1 for z.
pub open spec fn across(index: int, weight: int) -> int {
    if index / weight % 2 == 0 {
        index + weight
    } else {
        index - weight
    }
}

/// The volume of a cell.
pub open spec fn volume(b: Bounds) -> int {
    b.size_x * b.size_y * b.size_z
}

/// The eight child cells of a cell tile it. Each child lies in the cell;
/// every point of the cell lies in the child of its octant; a point that
/// lies in two children lies on a plane through the midpoint of the cell;
/// along each axis the extents of the two halves add up to the extent of
/// the cell; and the volumes of the children add up to its volume.
pub proof fn lemma_children_partition_cell(b: Bounds)
    requires
        b.wf(),
    ensures
        forall|i: int, p: Vector3|
            0 <= i < 8 && (#[trigger] child_bounds(b, i).contains(p)) ==> b.contains(p),
        forall|p: Vector3|
            b.contains(p) ==> 0 <= octant_of(p, b) < 8 && (#[trigger] child_bounds(
                b,
                octant_of(p, b),
            ).contains(p)),
        forall|i: int, j: int, p: Vector3|
            0 <= i < 8 && 0 <= j < 8 && i != j && (#[trigger] child_bounds(b, i).contains(p)) && (
            #[trigger] child_bounds(b, j).contains(p)) ==> p.x == midpoint(b.lx as int, b.ux as int)
                || p.y == midpoint(b.ly as int, b.uy as int) || p.z == midpoint(
                b.lz as int,
                b.uz as int,
            ),
        forall|i: int|
            0 <= i < 8 ==> (#[trigger] child_bounds(b, i)).size_x + child_bounds(
                b,
                across(i, 4),
            ).size_x == b.size_x,
        forall|i: int|
            0 <= i < 8 ==> (#[trigger] child_bounds(b, i)).size_y + child_bounds(
                b,
                across(i, 2),
            ).size_y == b.size_y,
        forall|i: int|
            0 <= i < 8 ==> (#[trigger] child_bounds(b, i)).size_z + child_bounds(
                b,
                across(i, 1),
            ).size_z == b.size_z,
        volume(child_bounds(b, 0)) + volume(child_bounds(b, 1)) + volume(child_bounds(b, 2))
            + volume(child_bounds(b, 3)) + volume(child_bounds(b, 4)) + volume(child_bounds(b, 5))
            + volume(child_bounds(b, 6)) + volume(child_bounds(b, 7)) == volume(b),
{
    assert forall|i: int, j: int, p: Vector3|
        0 <= i < 8 && 0 <= j < 8 && i != j && (#[trigger] child_bounds(b, i).contains(p)) && (
        #[trigger] child_bounds(b, j).contains(p)) implies p.x == midpoint(b.lx as int, b.ux as int)
        || p.y == midpoint(b.ly as int, b.uy as int) || p.z == midpoint(
        b.lz as int,
        b.uz as int,
    ) by {
        if i / 4 % 2 != j / 4 % 2 {
        } else if i / 2 % 2 != j / 2 % 2 {
        } else {
            assert(i % 2 != j % 2);
        }
    }
    let lx = midpoint(b.lx as int, b.ux as int) - b.lx;
    let hx = b.ux - midpoint(b.lx as int, b.ux as int);
    let ly = midpoint(b.ly as int, b.uy as int) - b.ly;
    let hy = b.uy - midpoint(b.ly as int, b.uy as int);
    let lz = midpoint(b.lz as int, b.uz as int) - b.lz;
    let hz = b.uz - midpoint(b.lz as int, b.uz as int);
    assert(volume(child_bounds(b, 0)) == lx * ly * lz);
    assert(volume(child_bounds(b, 1)) == lx * ly * hz);
    assert(volume(child_bounds(b, 2)) == lx * hy * lz);
    assert(volume(child_bounds(b, 3)) == lx * hy * hz);
    assert(volume(child_bounds(b, 4)) == hx * ly * lz);
    assert(volume(child_bounds(b, 5)) == hx * ly * hz);
    assert(volume(child_bounds(b, 6)) == hx * hy * lz);
    assert(volume(child_bounds(b, 7)) == hx * hy * hz);
    lemma_product_of_sums(lx, hx, ly, hy, lz, hz);
    assert(b.size_x == lx + hx && b.size_y == ly + hy && b.size_z == lz + hz);
}

/// The product of three sums of two numbers is the sum of the eight
/// products of one number of each sum.
pub proof fn lemma_product_of_sums(a: int, b: int, c: int, d: int, e: int, f: int)
    ensures
        a * c * e + a * c * f + a * d * e + a * d * f + b * c * e + b * c * f + b * d * e + b * d
            * f == (a + b) * (c + d) * (e + f),
{
    let q = (c + d) * (e + f);
    assert(q == c * e + c * f + d * e + d * f) by (nonlinear_arith)
        requires
            q == (c + d) * (e + f),
    ;
    assert((a + b) * (c + d) * (e + f) == (a + b) * q) by (nonlinear_arith)
        requires
            q == (c + d) * (e + f),
    ;
    assert((a + b) * q == a * q + b * q) by (nonlinear_arith);
    assert(a * q == a * (c * e) + a * (c * f) + a * (d * e) + a * (d * f)) by (nonlinear_arith)
        requires
            q == c * e + c * f + d * e + d * f,
    ;
    assert(b * q == b * (c * e) + b * (c * f) + b * (d * e) + b * (d * f)) by (nonlinear_arith)
        requires
            q == c * e + c * f + d * e + d * f,
    ;
    assert(a * (c * e) == a * c * e && a * (c * f) == a * c * f && a * (d * e) == a * d * e && a
        * (d * f) == a * d * f) by (nonlinear_arith);
    assert(b * (c * e) == b * c * e && b * (c * f) == b * c * f && b * (d * e) == b * d * e && b
        * (d * f) == b * d * f) by (nonlinear_arith);
}

/// Appending a point to a cell of a grid row adds one point to each prefix
/// of the row that reaches the cell.
pub proof fn lemma_flat_cells_push(row: Seq<Seq<Vector3>>, i: int, p: Vector3, n: nat)
    requires
        0 <= i < row.len(),
        n <= row.len(),
    ensures
        flat_cells(row.update(i, row[i].push(p)), n).len() == flat_cells(row, n).len() + (if i
            < n {
            1int
        } else {
            0int
        }),
    decreases n,
{
    if n > 0 {
        lemma_flat_cells_push(row, i, p, (n - 1) as nat);
    }
}

/// Appending a point to a cell of a grid adds one point to each prefix of
/// the grid that reaches the row of the cell.
pub proof fn lemma_flat_rows_push(grid: Seq<Seq<Seq<Vector3>>>, o: int, i: int, p: Vector3, n: nat)
    requires
        0 <= o < grid.len(),
        0 <= i < 8 <= grid[o].len(),
        n <= grid.len(),
    ensures
        flat_rows(grid.update(o, grid[o].update(i, grid[o][i].push(p))), n).len() == flat_rows(
            grid,
            n,
        ).len() + (if o < n {
            1int
        } else {
            0int
        }),
    decreases n,
{
    if n > 0 {
        lemma_flat_rows_push(grid, o, i, p, (n - 1) as nat);
        if o == n - 1 {
            lemma_flat_cells_push(grid[o], i, p, 8);
        }
    }
}

/// A cell of a grid row holds no more points than the prefix of the row that
/// reaches it.
pub proof fn lemma_cell_in_flat_cells(row: Seq<Seq<Vector3>>, i: int, n: nat)
    requires
        0 <= i < n,
    ensures
        row[i].len() <= flat_cells(row, n).len(),
    decreases n,
{
    if i < n - 1 {
        lemma_cell_in_flat_cells(row, i, (n - 1) as nat);
    }
}

/// A cell of a grid holds no more points than the prefix of the grid that
/// reaches its row.
pub proof fn lemma_cell_in_flat_rows(grid: Seq<Seq<Seq<Vector3>>>, o: int, i: int, n: nat)
    requires
        0 <= o < n,
        0 <= i < 8,
    ensures
        grid[o][i].len() <= flat_rows(grid, n).len(),
    decreases n,
{
    if o < n - 1 {
        lemma_cell_in_flat_rows(grid, o, i, (n - 1) as nat);
    } else {
        lemma_cell_in_flat_cells(grid[o], i, 8);
    }
}

/// An empty grid holds no point.
pub proof fn lemma_empty_grid_flat(n: nat)
    requires
        n <= 8,
    ensures
        flat_rows(empty_grid(), n).len() == 0,
    decreases n,
{
    if n > 0 {
        lemma_empty_grid_flat((n - 1) as nat);
        lemma_empty_row_flat(empty_grid()[n - 1], 8);
    }
}

/// A row of empty cells holds no point.
pub proof fn lemma_empty_row_flat(row: Seq<Seq<Vector3>>, n: nat)
    requires
        forall|i: int| 0 <= i < n ==> (#[trigger] row[i]).len() == 0,
    ensures
        flat_cells(row, n).len() == 0,
    decreases n,
{
    if n > 0 {
        lemma_empty_row_flat(row, (n - 1) as nat);
    }
}

/// A new child is a well-formed leaf without points.
pub proof fn lemma_new_child_wf(n: NodeView, o: int)
    requires
        n.shape_ok(),
        n.bounds.wf(),
        0 <= o < 8,
    ensures
        n.new_child(o).wf(),
        n.new_child(o).is_leaf(),
        n.new_child(o).subtree_points() == 0,
        n.is_child_of(n.new_child(o), o),
{
    let c = n.new_child(o);
    lemma_child_bounds_wf(n.bounds, o);
    lemma_children_points_of_leaf(c, 8);
    assert(c.is_leaf());
    assert(c.shape_ok());
}

/// The state of a leaf that splits, after `k` of its buffered points were
/// placed: an inner node with the fields of the leaf, whose children are
/// leaves that hold the points that were not taken into the grid.
pub open spec fn splitting(n: NodeView, x: NodeView, k: nat) -> bool {
    &&& x.shape_ok()
    &&& x.bounds == n.bounds
    &&& x.path == n.path
    &&& x.squared_spacing == n.squared_spacing
    &&& x.max_points_per_leaf_node == n.max_points_per_leaf_node
    &&& x.initial_store.len() == 0
    &&& x.points_in_range()
    &&& !x.is_leaf()
    &&& forall|i: int|
        0 <= i < 8 && (#[trigger] x.children[i]) is Some ==> {
            &&& n.is_child_of(x.children[i]->0, i)
            &&& x.children[i]->0.children == no_children()
            &&& x.children[i]->0.grid == empty_grid()
            &&& x.children[i]->0.points_in_range()
        }
    &&& x.grid_points().len() + x.children_points(8) == k
    &&& k >= 1 ==> x.grid_points().len() >= 1
}

/// A child of a splitting node holds as many points as its buffer is long.
pub proof fn lemma_splitting_child_points(c: NodeView)
    requires
        c.children == no_children(),
    ensures
        c.is_leaf(),
        c.subtree_points() == c.initial_store.len(),
{
    assert(c.is_leaf());
    lemma_children_points_of_leaf(c, 8);
}

/// Placing one more point keeps the state of a splitting leaf.
pub proof fn lemma_place_keeps_splitting(n: NodeView, x: NodeView, k: nat, p: Vector3)
    requires
        splitting(n, x, k),
        n.bounds.wf(),
        n.shape_ok(),
        p.in_range(),
    ensures
        splitting(n, x.place(p), k + 1),
{
    let o = x.outer_index(p);
    let i = x.inner_index(p);
    let y = x.place(p);
    lemma_octant_range(p, x.bounds);
    lemma_octant_range(p, child_bounds(x.bounds, o));
    if x.is_redundant(p) {
        let c = x.child_or_new(o);
        let d = c.with_buffered(p);
        assert(y == x.with_child(o, d));
        lemma_cell_in_flat_rows(x.grid, o, i, 8);
        if x.children[o] is None {
            lemma_new_child_wf(x, o);
            assert(c.children == no_children());
            assert(c.grid == empty_grid());
        }
        lemma_splitting_child_points(c);
        lemma_splitting_child_points(d);
        lemma_children_points_update(x, o, d, 8);
        assert(y.children[o] is Some);
        assert(!y.is_leaf());
        assert(y.grid_points() == x.grid_points());
        assert forall|j: int| 0 <= j < 8 && (#[trigger] y.children[j]) is Some implies {
            &&& n.is_child_of(y.children[j]->0, j)
            &&& y.children[j]->0.children == no_children()
            &&& y.children[j]->0.grid == empty_grid()
            &&& y.children[j]->0.points_in_range()
        } by {
            if j == o {
                assert(y.children[j]->0 == d);
            } else {
                assert(y.children[j] == x.children[j]);
            }
        }
    } else {
        assert(y == x.with_sample(p));
        lemma_flat_rows_push(x.grid, o, i, p, 8);
        lemma_children_points_same(x, y, 8);
        assert(!y.is_leaf()) by {
            let w = choose|w: int| 0 <= w < x.children.len() && !(x.children[w] is None);
            assert(!(y.children[w] is None));
        }
        assert(y.shape_ok());
        assert(y.points_in_range()) by {
            assert forall|a: int, b: int, c: int|
                0 <= a < 8 && 0 <= b < 8 && 0 <= c < y.grid[a][b].len() implies (
            #[trigger] y.grid[a][b][c]).in_range() by {
                if a == o && b == i {
                    if c < x.grid[a][b].len() {
                        assert(y.grid[a][b][c] == x.grid[a][b][c]);
                    }
                } else {
                    assert(y.grid[a][b] == x.grid[a][b]);
                    assert(y.grid[a][b][c] == x.grid[a][b][c]);
                }
            }
        }
    }
}

/// After `k` buffered points of a splitting leaf were placed, the node is in
/// the state of a splitting leaf.
pub proof fn lemma_place_all_splitting(n: NodeView, index: int, k: nat)
    requires
        n.shape_ok(),
        n.bounds.wf(),
        n.points_in_range(),
        n.grid == empty_grid(),
        0 <= index < 8,
        k <= n.initial_store.len(),
    ensures
        splitting(n, n.split_start(index).place_all(n.initial_store, k), k),
    decreases k,
{
    let start = n.split_start(index);
    if k == 0 {
        lemma_new_child_wf(n, index);
        lemma_empty_grid_flat(8);
        assert(start.children[index] is Some);
        assert forall|i: int| 0 <= i < 8 && i != index implies (#[trigger] start.children[i])
            is None by {}
        assert(start.children_points(8) == 0) by {
            lemma_children_points_of_leaf(n.new_child(index), 8);
            let bare = NodeView { children: no_children(), ..start };
            assert(bare.is_leaf());
            lemma_children_points_of_leaf(bare, 8);
            assert(start.children =~= bare.children.update(index, Some(n.new_child(index))));
            assert(start == bare.with_child(index, n.new_child(index)));
            lemma_children_points_update(bare, index, n.new_child(index), 8);
        }
        assert(splitting(n, start, 0));
    } else {
        lemma_place_all_splitting(n, index, (k - 1) as nat);
        lemma_place_keeps_splitting(
            n,
            start.place_all(n.initial_store, (k - 1) as nat),
            (k - 1) as nat,
            n.initial_store[k - 1],
        );
    }
}

/// When all the buffered points of a leaf that holds no more of them than
/// its limit allows were placed, the node is well formed and holds them all.
pub proof fn lemma_splitting_done(n: NodeView, x: NodeView, m: nat)
    requires
        splitting(n, x, m),
        n.bounds.wf(),
        n.shape_ok(),
        1 <= m <= n.room(),
    ensures
        x.wf(),
        x.subtree_points() == m,
{
    assert forall|i: int| 0 <= i < x.children.len() && (#[trigger] x.children[i]) is Some implies {
        &&& x.is_child_of(x.children[i]->0, i)
        &&& x.children[i]->0.wf()
    } by {
        let c = x.children[i]->0;
        lemma_splitting_child_points(c);
        lemma_slot_points_bounded(x, i, 8);
        lemma_child_bounds_wf(n.bounds, i);
        assert(c.shape_ok());
        assert(c.initial_store.len() < c.room());
    }
}

/// A well-formed leaf that takes a point in range stays well formed, keeps
/// its place in the tree, and holds one point more.
pub proof fn lemma_insert_into_leaf(n: NodeView, p: Vector3)
    requires
        n.wf(),
        n.is_leaf(),
        p.in_range(),
    ensures
        n.insert_into_leaf(p).wf(),
        n.insert_into_leaf(p).subtree_points() == n.subtree_points() + 1,
        same_place(n, n.insert_into_leaf(p)),
{
    let filled = n.with_buffered(p);
    lemma_children_points_of_leaf(n, 8);
    assert(filled.is_leaf());
    lemma_children_points_of_leaf(filled, 8);
    if filled.initial_store.len() >= n.max_points_per_leaf_node {
        let index = n.outer_index(p);
        lemma_octant_range(p, n.bounds);
        lemma_place_all_splitting(filled, index, filled.initial_store.len());
        lemma_splitting_done(filled, filled.split(index), filled.initial_store.len());
    } else {
        assert(filled.wf());
    }
}

/// Two values of a node at the same place in the tree: the same path, cell,
/// spacing and limit.
pub open spec fn same_place(n: NodeView, m: NodeView) -> bool {
    &&& n.path == m.path
    &&& n.bounds == m.bounds
    &&& n.squared_spacing == m.squared_spacing
    &&& n.max_points_per_leaf_node == m.max_points_per_leaf_node
}

/// Adding a point in range to a well-formed node keeps it well formed and
/// at its place in the tree, and the node and its descendants then hold one
/// point more.
pub proof fn lemma_insert(n: NodeView, p: Vector3)
    requires
        n.wf(),
        p.in_range(),
    ensures
        n.insert(p).wf(),
        n.insert(p).subtree_points() == n.subtree_points() + 1,
        same_place(n, n.insert(p)),
    decreases n,
{
    if n.is_leaf() {
        lemma_insert_into_leaf(n, p);
    } else {
        let o = n.outer_index(p);
        let i = n.inner_index(p);
        let y = n.insert(p);
        lemma_octant_range(p, n.bounds);
        lemma_octant_range(p, child_bounds(n.bounds, o));
        if n.is_redundant(p) {
            let d = if n.children[o] is Some {
                n.children[o]->0.insert(p)
            } else {
                n.new_child(o).insert_into_leaf(p)
            };
            if n.children[o] is Some {
                lemma_insert(n.children[o]->0, p);
            } else {
                lemma_new_child_wf(n, o);
                lemma_insert_into_leaf(n.new_child(o), p);
            }
            assert(y == n.with_child(o, d));
            lemma_children_points_update(n, o, d, 8);
            assert(y.children[o] is Some);
            assert(!y.is_leaf());
            assert(y.grid_points() == n.grid_points());
            assert forall|j: int|
                0 <= j < y.children.len() && (#[trigger] y.children[j]) is Some implies {
                &&& y.is_child_of(y.children[j]->0, j)
                &&& y.children[j]->0.wf()
            } by {
                if j == o {
                    assert(y.children[j]->0 == d);
                } else {
                    assert(y.children[j] == n.children[j]);
                }
            }
        } else {
            assert(y == n.with_sample(p));
            lemma_flat_rows_push(n.grid, o, i, p, 8);
            lemma_children_points_same(n, y, 8);
            assert(!y.is_leaf()) by {
                let w = choose|w: int| 0 <= w < n.children.len() && !(n.children[w] is None);
                assert(!(y.children[w] is None));
            }
            assert(y.shape_ok());
            assert(y.points_in_range()) by {
                assert forall|a: int, b: int, c: int|
                    0 <= a < 8 && 0 <= b < 8 && 0 <= c < y.grid[a][b].len() implies (
                #[trigger] y.grid[a][b][c]).in_range() by {
                    if a == o && b == i {
                        if c < n.grid[a][b].len() {
                            assert(y.grid[a][b][c] == n.grid[a][b][c]);
                        }
                    } else {
                        assert(y.grid[a][b] == n.grid[a][b]);
                        assert(y.grid[a][b][c] == n.grid[a][b][c]);
                    }
                }
            }
        }
    }
}

/// While a leaf splits and its limit is not yet reached, placing a buffered
/// point is the same as adding it to the node as to any inner node: the
/// child that takes a point has room for it and does not split.
pub proof fn lemma_place_is_insert_sample(n: NodeView, x: NodeView, k: nat, p: Vector3)
    requires
        splitting(n, x, k),
        n.bounds.wf(),
        n.shape_ok(),
        p.in_range(),
        k + 1 <= n.room(),
    ensures
        x.place(p) == x.insert_sample(p),
{
    let o = x.outer_index(p);
    let i = x.inner_index(p);
    lemma_octant_range(p, x.bounds);
    lemma_octant_range(p, child_bounds(x.bounds, o));
    if x.is_redundant(p) {
        let c = x.child_or_new(o);
        lemma_cell_in_flat_rows(x.grid, o, i, 8);
        if x.children[o] is Some {
            lemma_splitting_child_points(c);
            lemma_slot_points_bounded(x, o, 8);
            assert(c.insert(p) == c.with_buffered(p));
        } else {
            assert(c.insert_into_leaf(p) == c.with_buffered(p));
        }
    }
}

/// The node after the first `n` points of `points` were added in order.
pub open spec fn sampled(root: NodeView, points: Seq<Vector3>, n: nat) -> NodeView
    decreases n,
{
    if n == 0 {
        root
    } else {
        sampled(root, points, (n - 1) as nat).insert(points[n - 1])
    }
}

/// Adding points in range to a well-formed node one after the other leaves a
/// well-formed node at the same place that holds as many points more as were
/// added: no point is lost and none is counted twice.
pub proof fn lemma_sampled(root: NodeView, points: Seq<Vector3>, n: nat)
    requires
        root.wf(),
        n <= points.len(),
        forall|i: int| 0 <= i < points.len() ==> (#[trigger] points[i]).in_range(),
    ensures
        sampled(root, points, n).wf(),
        sampled(root, points, n).subtree_points() == root.subtree_points() + n,
        same_place(root, sampled(root, points, n)),
    decreases n,
{
    if n > 0 {
        lemma_sampled(root, points, (n - 1) as nat);
        lemma_insert(sampled(root, points, (n - 1) as nat), points[n - 1]);
    }
}

/// `n / d`, rounded up.
pub open spec fn ceil_div(n: int, d: int) -> int {
    (n + d - 1) / d
}

/// Four to the power `k`.
pub open spec fn power_of_four(k: nat) -> int
    decreases k,
{
    if k == 0 {
        1
    } else {
        4 * power_of_four((k - 1) as nat)
    }
}

/// The squared spacing `k` levels below a node with the squared spacing
/// `s`: a quarter, rounded up, for each level.
pub open spec fn spacing_below(s: u128, k: nat) -> u128
    decreases k,
{
    if k == 0 {
        s
    } else {
        quarter_up(spacing_below(s, (k - 1) as nat))
    }
}

/// An integer is below a quotient rounded up exactly if its product with
/// the divisor is below the dividend.
pub proof fn lemma_ceil_div_is_least(n: int, d: int, x: int)
    requires
        0 <= n,
        0 < d,
    ensures
        x < ceil_div(n, d) <==> x * d < n,
        0 <= ceil_div(n, d) <= n,
{
    let c = (n + d - 1) / d;
    assert(c * d <= n + d - 1 < (c + 1) * d && 0 <= c) by (nonlinear_arith)
        requires
            c == (n + d - 1) / d,
            0 <= n,
            0 < d,
    ;
    assert(x < c <==> x * d < n) by (nonlinear_arith)
        requires
            c * d <= n + d - 1 < (c + 1) * d,
            0 < d,
    ;
    assert(c <= n) by (nonlinear_arith)
        requires
            c * d <= n + d - 1,
            0 < d,
            0 <= c,
            0 <= n,
    ;
}

/// A quarter, rounded up, of a quotient rounded up is the quotient by four
/// times the divisor, rounded up.
pub proof fn lemma_quarter_of_ceil_div(n: int, d: int)
    requires
        0 <= n,
        0 < d,
    ensures
        ceil_div(ceil_div(n, d), 4) == ceil_div(n, 4 * d),
{
    let c = ceil_div(n, d);
    let q = ceil_div(c, 4);
    let r = ceil_div(n, 4 * d);
    lemma_ceil_div_is_least(n, d, 0);
    lemma_ceil_div_is_least(c, 4, q - 1);
    lemma_ceil_div_is_least(c, 4, q);
    lemma_ceil_div_is_least(n, d, 4 * (q - 1));
    lemma_ceil_div_is_least(n, d, 4 * q);
    lemma_ceil_div_is_least(n, 4 * d, q - 1);
    lemma_ceil_div_is_least(n, 4 * d, q);
    assert((q - 1) * (4 * d) == (4 * (q - 1)) * d) by (nonlinear_arith);
    assert(q * (4 * d) == (4 * q) * d) by (nonlinear_arith);
}

/// The squared spacing `k` levels below a node is its squared spacing
/// divided by four to the power `k`: where the squared spacing of the node
/// is a quotient rounded up, the squared spacing below is that quotient
/// with a divisor four to the power `k` times as large, rounded up.
pub proof fn lemma_spacing_below(n: int, d: int, s: u128, k: nat)
    requires
        0 <= n,
        0 < d,
        s == ceil_div(n, d),
    ensures
        0 < power_of_four(k),
        spacing_below(s, k) == ceil_div(n, d * power_of_four(k)),
    decreases k,
{
    if k > 0 {
        let above = spacing_below(s, (k - 1) as nat);
        let p = power_of_four((k - 1) as nat);
        lemma_spacing_below(n, d, s, (k - 1) as nat);
        assert(0 < d * p) by (nonlinear_arith)
            requires
                0 < d,
                0 < p,
        ;
        lemma_quarter_of_ceil_div(n, d * p);
        lemma_ceil_div_is_least(n, d * p, 0);
        lemma_ceil_div_is_least(above as int, 4, 0);
        assert(4 * (d * p) == d * (4 * p)) by (nonlinear_arith);
    }
}

/// The distance test is exact. Whether a squared distance is below the
/// squared spacing of a node `k` levels below the root, which is held as
/// an integer, is whether it is below the squared diagonal divided by the
/// square of 200 and by four to the power `k`: the spacing of the root is
/// the diagonal divided by 200, and each level halves it.
pub proof fn lemma_distance_test_is_exact(squared_diagonal: nat, k: nat, squared_distance: nat)
    requires
        squared_diagonal <= u128::MAX,
    ensures
        squared_distance < spacing_below(ceil_div(squared_diagonal as int, 40_000) as u128, k)
            <==> squared_distance * (40_000 * power_of_four(k)) < squared_diagonal,
{
    lemma_ceil_div_is_least(squared_diagonal as int, 40_000, 0);
    let s = ceil_div(squared_diagonal as int, 40_000) as u128;
    lemma_spacing_below(squared_diagonal as int, 40_000, s, k);
    lemma_ceil_div_is_least(
        squared_diagonal as int,
        40_000 * power_of_four(k),
        squared_distance as int,
    );
}

/// The node after the first `n` points of `points` were added to it, one
/// after the other, as to an inner node.
pub open spec fn reinserted(x: NodeView, points: Seq<Vector3>, n: nat) -> NodeView
    decreases n,
{
    if n == 0 {
        x
    } else {
        reinserted(x, points, (n - 1) as nat).insert_sample(points[n - 1])
    }
}

/// Placing the first buffered points of a leaf that splits is adding them
/// to the node as to an inner node.
pub proof fn lemma_place_all_is_reinsertion(n: NodeView, index: int, k: nat)
    requires
        n.shape_ok(),
        n.bounds.wf(),
        n.points_in_range(),
        n.grid == empty_grid(),
        0 <= index < 8,
        k <= n.initial_store.len() <= n.room(),
    ensures
        n.split_start(index).place_all(n.initial_store, k) == reinserted(
            n.split_start(index),
            n.initial_store,
            k,
        ),
    decreases k,
{
    if k > 0 {
        lemma_place_all_is_reinsertion(n, index, (k - 1) as nat);
        lemma_place_all_splitting(n, index, (k - 1) as nat);
        lemma_place_is_insert_sample(
            n,
            n.split_start(index).place_all(n.initial_store, (k - 1) as nat),
            (k - 1) as nat,
            n.initial_store[k - 1],
        );
    }
}

/// A leaf that splits adds its buffered points again to itself: when a
/// well-formed leaf takes a point and splits, the node is what its new
/// state, with one new child and nothing else, becomes when each buffered
/// point is added to it in order as to any inner node.
pub proof fn lemma_split_is_reinsertion(n: NodeView, p: Vector3)
    requires
        n.wf(),
        n.is_leaf(),
        p.in_range(),
        n.with_buffered(p).initial_store.len() >= n.max_points_per_leaf_node,
    ensures
        n.insert(p) == reinserted(
            n.with_buffered(p).split_start(n.outer_index(p)),
            n.with_buffered(p).initial_store,
            n.with_buffered(p).initial_store.len(),
        ),
{
    let filled = n.with_buffered(p);
    lemma_octant_range(p, n.bounds);
    lemma_place_all_is_reinsertion(filled, n.outer_index(p), filled.initial_store.len());
}

} // verus!
