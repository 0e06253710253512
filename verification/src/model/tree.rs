//! Trees and lists of nodes: heights, sums of points, and the way from a
//! node to the nodes below it.

use crate::model::node::{flat_cells, flat_rows, Node, NodeView};
use crate::model::vector3::Vector3;
use vstd::prelude::*;

verus! {

/// The values of a sequence of nodes.
pub open spec fn views(nodes: Seq<&Node>) -> Seq<NodeView> {
    Seq::new(nodes.len(), |i: int| nodes[i]@)
}

/// The points that a well-formed node holds are in range.
pub proof fn lemma_points_in_range(n: NodeView)
    requires
        n.wf(),
    ensures
        forall|i: int| 0 <= i < n.points().len() ==> (#[trigger] n.points()[i]).in_range(),
{
    if !n.is_leaf() {
        lemma_flat_rows_in_range(n.grid, 8);
    }
}

/// The points of the first `o` rows of a grid whose points are in range
/// are in range.
pub proof fn lemma_flat_rows_in_range(grid: Seq<Seq<Seq<Vector3>>>, o: nat)
    requires
        o <= 8,
        forall|a: int, b: int, c: int|
            0 <= a < 8 && 0 <= b < 8 && 0 <= c < grid[a][b].len() ==> (
            #[trigger] grid[a][b][c]).in_range(),
    ensures
        forall|i: int| 0 <= i < flat_rows(grid, o).len() ==> (#[trigger] flat_rows(grid, o)[i]).in_range(),
    decreases o,
{
    if o > 0 {
        let rest = flat_rows(grid, (o - 1) as nat);
        let row = flat_cells(grid[o - 1], 8);
        lemma_flat_rows_in_range(grid, (o - 1) as nat);
        lemma_flat_cells_in_range(grid, o - 1, 8);
        assert forall|i: int| 0 <= i < flat_rows(grid, o).len() implies (#[trigger] flat_rows(
            grid,
            o,
        )[i]).in_range() by {
            if i < rest.len() {
                assert(flat_rows(grid, o)[i] == rest[i]);
            } else {
                assert(flat_rows(grid, o)[i] == row[i - rest.len()]);
            }
        }
    }
}

/// The points of the first `n` cells of a grid row whose points are in
/// range are in range.
pub proof fn lemma_flat_cells_in_range(grid: Seq<Seq<Seq<Vector3>>>, a: int, n: nat)
    requires
        0 <= a < 8,
        n <= 8,
        forall|b: int, c: int|
            0 <= b < 8 && 0 <= c < grid[a][b].len() ==> (#[trigger] grid[a][b][c]).in_range(),
    ensures
        forall|i: int|
            0 <= i < flat_cells(grid[a], n).len() ==> (#[trigger] flat_cells(grid[a], n)[i]).in_range(),
    decreases n,
{
    if n > 0 {
        let rest = flat_cells(grid[a], (n - 1) as nat);
        let cell = grid[a][n - 1];
        lemma_flat_cells_in_range(grid, a, (n - 1) as nat);
        assert forall|i: int| 0 <= i < flat_cells(grid[a], n).len() implies (#[trigger] flat_cells(
            grid[a],
            n,
        )[i]).in_range() by {
            if i < rest.len() {
                assert(flat_cells(grid[a], n)[i] == rest[i]);
            } else {
                assert(flat_cells(grid[a], n)[i] == cell[i - rest.len()]);
                assert(grid[a][n - 1][i - rest.len()].in_range());
            }
        }
    }
}

/// The number of levels below a node.
pub open spec fn height(n: NodeView) -> nat
    decreases n, n.children.len() + 1,
{
    tallest_child(n, n.children.len())
}

/// The largest number of levels of a subtree in the child slots `0..k`.
pub open spec fn tallest_child(n: NodeView, k: nat) -> nat
    decreases n, k,
{
    if k == 0 || k > n.children.len() {
        0
    } else {
        let rest = tallest_child(n, (k - 1) as nat);
        match n.children[k - 1] {
            Some(c) => if height(c) + 1 > rest {
                height(c) + 1
            } else {
                rest
            },
            None => rest,
        }
    }
}

/// A child has fewer levels below it than its parent.
pub proof fn lemma_child_height(n: NodeView, i: int, k: nat)
    requires
        0 <= i < k <= n.children.len(),
        n.children[i] is Some,
    ensures
        height(n.children[i]->0) < tallest_child(n, k),
        tallest_child(n, k) <= height(n),
    decreases n.children.len() - k,
{
    lemma_tallest_child_grows(n, k, n.children.len());
    if i < k - 1 {
        lemma_child_height_step(n, i, k);
    }
}

/// A child in the slots `0..k` has fewer levels than the tallest of them.
proof fn lemma_child_height_step(n: NodeView, i: int, k: nat)
    requires
        0 <= i < k <= n.children.len(),
        n.children[i] is Some,
    ensures
        height(n.children[i]->0) < tallest_child(n, k),
    decreases k,
{
    if i < k - 1 {
        lemma_child_height_step(n, i, (k - 1) as nat);
    }
}

/// More child slots have no smaller a tallest subtree.
proof fn lemma_tallest_child_grows(n: NodeView, k: nat, m: nat)
    requires
        k <= m <= n.children.len(),
    ensures
        tallest_child(n, k) <= tallest_child(n, m),
    decreases m,
{
    if k < m {
        lemma_tallest_child_grows(n, k, (m - 1) as nat);
    }
}

/// One more than the largest height of a node of the wave, 0 for no node.
pub open spec fn wave_height(wave: Seq<NodeView>) -> nat
    decreases wave.len(),
{
    if wave.len() == 0 {
        0
    } else {
        let rest = wave_height(wave.drop_last());
        if height(wave.last()) + 1 > rest {
            height(wave.last()) + 1
        } else {
            rest
        }
    }
}

/// Every node of a wave is lower than the wave.
pub proof fn lemma_wave_height_holds(wave: Seq<NodeView>, i: int)
    requires
        0 <= i < wave.len(),
    ensures
        height(wave[i]) < wave_height(wave),
    decreases wave.len(),
{
    if i < wave.len() - 1 {
        lemma_wave_height_holds(wave.drop_last(), i);
    }
}

/// A wave whose nodes are all lower than `h` is no higher than `h`.
pub proof fn lemma_wave_height_bound(wave: Seq<NodeView>, h: nat)
    requires
        forall|i: int| 0 <= i < wave.len() ==> height(#[trigger] wave[i]) < h,
    ensures
        wave_height(wave) <= h,
    decreases wave.len(),
{
    if wave.len() > 0 {
        assert forall|i: int| 0 <= i < wave.drop_last().len() implies height(
            #[trigger] wave.drop_last()[i],
        ) < h by {
            assert(wave.drop_last()[i] == wave[i]);
        }
        lemma_wave_height_bound(wave.drop_last(), h);
        assert(height(wave[wave.len() - 1]) < h);
    }
}

/// A wave of one node is one higher than the node.
pub proof fn lemma_single_wave_height(n: NodeView)
    ensures
        wave_height(seq![n]) == height(n) + 1,
{
    assert(seq![n].drop_last().len() == 0);
    assert(wave_height(seq![n].drop_last()) == 0);
    assert(seq![n].last() == n);
}

/// The number of points that the first `n` nodes of `order` hold
/// themselves.
pub open spec fn own_points(order: Seq<NodeView>, n: nat) -> nat
    decreases n,
{
    if n == 0 {
        0
    } else {
        own_points(order, (n - 1) as nat) + order[n - 1].num_points()
    }
}

/// The number of points that the first `n` nodes of `wave` and all their
/// descendants hold.
pub open spec fn subtree_sum(wave: Seq<NodeView>, n: nat) -> nat
    decreases n,
{
    if n == 0 {
        0
    } else {
        subtree_sum(wave, (n - 1) as nat) + wave[n - 1].subtree_points()
    }
}

/// The points of two sequences of nodes add up.
pub proof fn lemma_own_points_concat(a: Seq<NodeView>, b: Seq<NodeView>, n: nat)
    requires
        n <= b.len(),
    ensures
        own_points(a + b, a.len() + n) == own_points(a, a.len()) + own_points(b, n),
    decreases n,
{
    if n == 0 {
        lemma_own_points_prefix(a, b, a.len());
    } else {
        lemma_own_points_concat(a, b, (n - 1) as nat);
        assert((a + b)[a.len() + n - 1] == b[n - 1]);
    }
}

/// The points of the first nodes do not depend on what follows them.
pub proof fn lemma_own_points_prefix(a: Seq<NodeView>, b: Seq<NodeView>, n: nat)
    requires
        n <= a.len(),
    ensures
        own_points(a + b, n) == own_points(a, n),
    decreases n,
{
    if n > 0 {
        lemma_own_points_prefix(a, b, (n - 1) as nat);
        assert((a + b)[n - 1] == a[n - 1]);
    }
}

/// The points below two sequences of nodes add up.
pub proof fn lemma_subtree_sum_concat(a: Seq<NodeView>, b: Seq<NodeView>, n: nat)
    requires
        n <= b.len(),
    ensures
        subtree_sum(a + b, a.len() + n) == subtree_sum(a, a.len()) + subtree_sum(b, n),
    decreases n,
{
    if n == 0 {
        lemma_subtree_sum_prefix(a, b, a.len());
    } else {
        lemma_subtree_sum_concat(a, b, (n - 1) as nat);
        assert((a + b)[a.len() + n - 1] == b[n - 1]);
    }
}

/// The points below the first nodes do not depend on what follows them.
pub proof fn lemma_subtree_sum_prefix(a: Seq<NodeView>, b: Seq<NodeView>, n: nat)
    requires
        n <= a.len(),
    ensures
        subtree_sum(a + b, n) == subtree_sum(a, n),
    decreases n,
{
    if n > 0 {
        lemma_subtree_sum_prefix(a, b, (n - 1) as nat);
        assert((a + b)[n - 1] == a[n - 1]);
    }
}

/// Whether every node of the wave is a well-formed tree.
pub open spec fn wave_wf(wave: Seq<NodeView>) -> bool {
    forall|i: int| 0 <= i < wave.len() ==> (#[trigger] wave[i]).wf()
}

/// The points below the child slot `o`: those of the subtree of the child,
/// none where the slot is empty.
pub open spec fn slot_points(n: NodeView, o: int) -> nat {
    match n.children[o] {
        Some(c) => c.subtree_points(),
        None => 0,
    }
}

/// Putting a child into slot `o` changes the points below the slots `0..k`
/// by the difference between the new and the old subtree of that slot.
pub proof fn lemma_children_points_update(n: NodeView, o: int, c: NodeView, k: nat)
    requires
        0 <= o < n.children.len(),
        k <= n.children.len(),
    ensures
        n.with_child(o, c).children_points(k) == n.children_points(k) + (if o < k {
            c.subtree_points() - slot_points(n, o)
        } else {
            0
        }),
    decreases k,
{
    if k > 0 {
        lemma_children_points_update(n, o, c, (k - 1) as nat);
    }
}

/// The points below the slots depend on the child slots alone.
pub proof fn lemma_children_points_same(n: NodeView, m: NodeView, k: nat)
    requires
        n.children == m.children,
    ensures
        n.children_points(k) == m.children_points(k),
    decreases k,
{
    if k > 0 && k <= n.children.len() {
        lemma_children_points_same(n, m, (k - 1) as nat);
    }
}

/// A node without children has no points below its slots.
pub proof fn lemma_children_points_of_leaf(n: NodeView, k: nat)
    requires
        n.is_leaf(),
    ensures
        n.children_points(k) == 0,
    decreases k,
{
    if k > 0 && k <= n.children.len() {
        lemma_children_points_of_leaf(n, (k - 1) as nat);
    }
}

/// No slot has more points below it than all the slots together.
pub proof fn lemma_slot_points_bounded(n: NodeView, o: int, k: nat)
    requires
        0 <= o < k <= n.children.len(),
    ensures
        slot_points(n, o) <= n.children_points(k),
    decreases k,
{
    if o < k - 1 {
        lemma_slot_points_bounded(n, o, (k - 1) as nat);
    }
}

/// Whether `n` is `top` or a node below it: the node to which the codes of
/// its path beyond the path of `top` lead from `top`.
pub open spec fn is_descendant(top: NodeView, n: NodeView) -> bool {
    &&& top.path.len() <= n.path.len()
    &&& n.path.take(top.path.len() as int) == top.path
    &&& descend(top, n.path, top.path.len()) == Some(n)
}

/// The node to which the codes of `path` from `from` on lead from `top`, if
/// there is one.
pub open spec fn descend(top: NodeView, path: Seq<u8>, from: nat) -> Option<NodeView>
    decreases path.len() - from,
{
    if from >= path.len() {
        Some(top)
    } else if path[from as int] < top.children.len() && top.children[path[from as int] as int]
        is Some {
        descend(top.children[path[from as int] as int]->0, path, from + 1)
    } else {
        None
    }
}

/// Two nodes below the same node with the same path are the same node.
pub proof fn lemma_descendant_is_determined(top: NodeView, a: NodeView, b: NodeView)
    requires
        is_descendant(top, a),
        is_descendant(top, b),
        a.path == b.path,
    ensures
        a == b,
{
}

/// A child of a node below `top` is below `top`.
pub proof fn lemma_child_is_descendant(top: NodeView, n: NodeView, s: int)
    requires
        top.wf(),
        n.wf(),
        is_descendant(top, n),
        0 <= s < 8,
        n.children[s] is Some,
    ensures
        is_descendant(top, n.children[s]->0),
        n.children[s]->0.wf(),
{
    let c = n.children[s]->0;
    assert(c.path == n.path.push(s as u8));
    assert(c.path.take(top.path.len() as int) =~= top.path) by {
        assert(n.path.take(top.path.len() as int) == top.path);
    }
    lemma_descend_extend(top, n.path, top.path.len(), n, s);
}

/// Where a path leads to a node, the path with one more code leads to the
/// child of the node in the slot of that code.
pub proof fn lemma_descend_extend(top: NodeView, path: Seq<u8>, from: nat, n: NodeView, s: int)
    requires
        from <= path.len(),
        descend(top, path, from) == Some(n),
        0 <= s < 8,
        n.children.len() == 8,
        n.children[s] is Some,
    ensures
        descend(top, path.push(s as u8), from) == Some(n.children[s]->0),
    decreases path.len() - from,
{
    let longer = path.push(s as u8);
    if from < path.len() {
        assert(longer[from as int] == path[from as int]);
        lemma_descend_extend(
            top.children[path[from as int] as int]->0,
            path,
            from + 1,
            n,
            s,
        );
    } else {
        assert(top == n);
        assert(longer[from as int] == s as u8);
        assert(descend(n.children[s]->0, longer, from + 1) == Some(n.children[s]->0));
    }
}

/// A node below a node below `top` is below `top`.
pub proof fn lemma_descendant_chain(top: NodeView, middle: NodeView, n: NodeView)
    requires
        is_descendant(top, middle),
        is_descendant(middle, n),
    ensures
        is_descendant(top, n),
{
    assert(n.path.take(top.path.len() as int) =~= top.path) by {
        assert(n.path.take(middle.path.len() as int) == middle.path);
        assert(middle.path.take(top.path.len() as int) == top.path);
    }
    lemma_descend_chain(top, middle, n, top.path.len());
}

/// Where the path of `middle` leads from `top` to `middle`, and the path of
/// `n` from `middle` to `n`, the path of `n` leads from `top` to `n`.
pub proof fn lemma_descend_chain(top: NodeView, middle: NodeView, n: NodeView, from: nat)
    requires
        from <= middle.path.len() <= n.path.len(),
        n.path.take(middle.path.len() as int) == middle.path,
        descend(top, middle.path, from) == Some(middle),
        descend(middle, n.path, middle.path.len()) == Some(n),
    ensures
        descend(top, n.path, from) == Some(n),
    decreases middle.path.len() - from,
{
    if from < middle.path.len() {
        assert(n.path[from as int] == n.path.take(middle.path.len() as int)[from as int]);
        lemma_descend_chain(
            top.children[middle.path[from as int] as int]->0,
            middle,
            n,
            from + 1,
        );
    }
}

/// A node is in itself.
pub proof fn lemma_descendant_of_itself(n: NodeView)
    ensures
        is_descendant(n, n),
{
    assert(n.path.take(n.path.len() as int) =~= n.path);
}

} // verus!
