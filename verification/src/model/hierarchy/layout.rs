//! The chunks of a hierarchy: which nodes a chunk holds, in which order,
//! and in which order the chunks follow each other.

use crate::model::node::NodeView;
use crate::model::tree::{
    height, lemma_child_height, lemma_slot_points_bounded, lemma_wave_height_bound,
    lemma_wave_height_holds, wave_height,
};
use vstd::prelude::*;

verus! {

/// The children in the slots `0..k` of a node, in the order of the slots.
pub open spec fn present_children(n: NodeView, k: nat) -> Seq<NodeView>
    decreases k,
{
    if k == 0 || k > n.children.len() {
        Seq::empty()
    } else {
        let rest = present_children(n, (k - 1) as nat);
        match n.children[k - 1] {
            Some(c) => rest.push(c),
            None => rest,
        }
    }
}

/// The children of the first `m` nodes of a list, in the order of the list.
pub open spec fn next_level(list: Seq<NodeView>, m: nat) -> Seq<NodeView>
    decreases m,
{
    if m == 0 || m > list.len() {
        Seq::empty()
    } else {
        next_level(list, (m - 1) as nat) + present_children(
            list[m - 1],
            list[m - 1].children.len(),
        )
    }
}

/// The nodes `d` levels below `r`, in the order of their paths.
pub open spec fn level_nodes(r: NodeView, d: nat) -> Seq<NodeView>
    decreases d,
{
    if d == 0 {
        seq![r]
    } else {
        let above = level_nodes(r, (d - 1) as nat);
        next_level(above, above.len())
    }
}

/// The nodes of the chunk of `r`: `r` and its descendants down to `levels`
/// levels below it, level by level, each level in the order of its paths.
pub open spec fn chunk_nodes(r: NodeView, levels: nat) -> Seq<NodeView>
    decreases levels,
{
    if levels == 0 {
        seq![r]
    } else {
        chunk_nodes(r, (levels - 1) as nat) + level_nodes(r, levels)
    }
}

/// Every one of the listed children is a child.
pub proof fn lemma_present_children_are_children(n: NodeView, k: nat, j: int)
    requires
        0 <= j < present_children(n, k).len(),
    ensures
        k <= n.children.len(),
        exists|s: int| 0 <= s < k && #[trigger] n.children[s] == Some(present_children(n, k)[j]),
    decreases k,
{
    if k > 0 && k <= n.children.len() {
        let rest = present_children(n, (k - 1) as nat);
        if j < rest.len() {
            lemma_present_children_are_children(n, (k - 1) as nat, j);
            let s = choose|s: int| 0 <= s < k - 1 && #[trigger] n.children[s] == Some(rest[j]);
            assert(n.children[s] == Some(present_children(n, k)[j]));
        } else {
            assert(n.children[k - 1] == Some(present_children(n, k)[j]));
        }
    }
}

/// Every node of the next level is a child of a node of the list.
pub proof fn lemma_next_level_parent(list: Seq<NodeView>, m: nat, j: int)
    requires
        0 <= j < next_level(list, m).len(),
    ensures
        m <= list.len(),
        exists|i: int, s: int|
            0 <= i < m && 0 <= s < list[i].children.len() && #[trigger] list[i].children[s] == Some(
                next_level(list, m)[j],
            ),
    decreases m,
{
    if m > 0 && m <= list.len() {
        let rest = next_level(list, (m - 1) as nat);
        if j < rest.len() {
            lemma_next_level_parent(list, (m - 1) as nat, j);
            let (i, s) = choose|i: int, s: int|
                0 <= i < m - 1 && 0 <= s < list[i].children.len() && #[trigger] list[i].children[s]
                    == Some(rest[j]);
            assert(list[i].children[s] == Some(next_level(list, m)[j]));
        } else {
            let n = list[m - 1];
            lemma_present_children_are_children(n, n.children.len(), j - rest.len());
            let s = choose|s: int|
                0 <= s < n.children.len() && #[trigger] n.children[s] == Some(
                    present_children(n, n.children.len())[j - rest.len()],
                );
            assert(list[m - 1].children[s] == Some(next_level(list, m)[j]));
        }
    }
}

/// A node `d` levels below `r` has `d` levels fewer below it than `r` has,
/// or fewer still.
pub proof fn lemma_level_nodes_height(r: NodeView, d: nat, j: int)
    requires
        0 <= j < level_nodes(r, d).len(),
    ensures
        height(level_nodes(r, d)[j]) + d <= height(r),
    decreases d,
{
    if d > 0 {
        let above = level_nodes(r, (d - 1) as nat);
        lemma_next_level_parent(above, above.len(), j);
        let (i, s) = choose|i: int, s: int|
            0 <= i < above.len() && 0 <= s < above[i].children.len()
                && #[trigger] above[i].children[s] == Some(level_nodes(r, d)[j]);
        lemma_level_nodes_height(r, (d - 1) as nat, i);
        lemma_child_height(above[i], s, above[i].children.len());
    }
}

/// The nodes at least one level below a node of a list, taken as a wave,
/// are lower than the list.
pub proof fn lemma_level_nodes_lower(roots: Seq<NodeView>, i: int, d: nat)
    requires
        0 <= i < roots.len(),
        d >= 1,
    ensures
        wave_height(level_nodes(roots[i], d)) < wave_height(roots),
{
    let r = roots[i];
    let below = level_nodes(r, d);
    lemma_wave_height_holds(roots, i);
    assert forall|j: int| 0 <= j < below.len() implies height(#[trigger] below[j]) < height(
        r,
    ) by {
        lemma_level_nodes_height(r, d, j);
    }
    lemma_wave_height_bound(below, height(r));
}

/// The chunks of the first `k` nodes of `roots` and of all the chunks that
/// follow from them: the chunk of a root, then the chunks of the nodes
/// `step` levels below it, one after the other, then the same for the next
/// root.
pub open spec fn chunk_list(roots: Seq<NodeView>, k: nat, step: nat) -> Seq<Seq<NodeView>>
    decreases wave_height(roots), k,
{
    if k == 0 || k > roots.len() || step == 0 {
        Seq::empty()
    } else {
        let r = roots[k - 1];
        let border = level_nodes(r, step);
        proof {
            lemma_level_nodes_lower(roots, k - 1, step);
        }
        chunk_list(roots, (k - 1) as nat, step) + seq![chunk_nodes(r, step)] + chunk_list(
            border,
            border.len(),
            step,
        )
    }
}

/// The chunks of a tree, the chunk of the root first.
pub open spec fn chunks_of(root: NodeView, step: nat) -> Seq<Seq<NodeView>> {
    chunk_list(seq![root], 1, step)
}

/// The chunks of a tree are the chunk of its root and then the chunks that
/// follow from the nodes `step` levels below the root.
pub proof fn lemma_chunks_of_unfold(root: NodeView, step: nat)
    requires
        step >= 1,
    ensures
        chunks_of(root, step) == seq![chunk_nodes(root, step)] + chunk_list(
            level_nodes(root, step),
            level_nodes(root, step).len(),
            step,
        ),
{
    let roots = seq![root];
    assert(chunk_list(roots, 0, step) =~= Seq::<Seq<NodeView>>::empty());
    assert(roots[0] == root);
    assert(chunk_list(roots, 1, step) =~= chunk_list(roots, 0, step) + seq![
        chunk_nodes(root, step),
    ] + chunk_list(level_nodes(root, step), level_nodes(root, step).len(), step));
}

/// The chunks that follow from a list of nodes are those of each node, one
/// after the other.
pub proof fn lemma_chunk_list_step(roots: Seq<NodeView>, k: nat, step: nat)
    requires
        1 <= k <= roots.len(),
        step >= 1,
    ensures
        chunk_list(roots, k, step) == chunk_list(roots, (k - 1) as nat, step) + chunks_of(
            roots[k - 1],
            step,
        ),
{
    lemma_chunks_of_unfold(roots[k - 1], step);
    let r = roots[k - 1];
    let border = level_nodes(r, step);
    assert(chunk_list(roots, k, step) =~= chunk_list(roots, (k - 1) as nat, step) + (seq![
        chunk_nodes(r, step),
    ] + chunk_list(border, border.len(), step)));
}

/// A node `d` levels below a well-formed node is well formed, and its path
/// is `d` codes longer.
pub proof fn lemma_level_nodes_wf(r: NodeView, d: nat, j: int)
    requires
        r.wf(),
        0 <= j < level_nodes(r, d).len(),
    ensures
        level_nodes(r, d)[j].wf(),
        level_nodes(r, d)[j].path.len() == r.path.len() + d,
        level_nodes(r, d)[j].subtree_points() <= r.subtree_points(),
    decreases d,
{
    if d > 0 {
        let above = level_nodes(r, (d - 1) as nat);
        lemma_next_level_parent(above, above.len(), j);
        let (i, s) = choose|i: int, s: int|
            0 <= i < above.len() && 0 <= s < above[i].children.len()
                && #[trigger] above[i].children[s] == Some(level_nodes(r, d)[j]);
        lemma_level_nodes_wf(r, (d - 1) as nat, i);
        lemma_slot_points_bounded(above[i], s, 8);
    }
}

/// A chunk starts with its root.
pub proof fn lemma_chunk_nodes_first(r: NodeView, levels: nat)
    ensures
        chunk_nodes(r, levels).len() >= 1,
        chunk_nodes(r, levels)[0] == r,
    decreases levels,
{
    if levels > 0 {
        lemma_chunk_nodes_first(r, (levels - 1) as nat);
    }
}

/// A node of the chunk of a well-formed node is well formed, and its path
/// is at most `levels` codes longer than that of the node.
pub proof fn lemma_chunk_nodes_wf(r: NodeView, levels: nat, j: int)
    requires
        r.wf(),
        0 <= j < chunk_nodes(r, levels).len(),
    ensures
        chunk_nodes(r, levels)[j].wf(),
        r.path.len() <= chunk_nodes(r, levels)[j].path.len() <= r.path.len() + levels,
        chunk_nodes(r, levels)[j].subtree_points() <= r.subtree_points(),
        levels >= 1 ==> (chunk_nodes(r, levels)[j].path.len() == r.path.len() + levels <==> j
            >= chunk_nodes(r, (levels - 1) as nat).len()),
    decreases levels,
{
    if levels > 0 {
        let before = chunk_nodes(r, (levels - 1) as nat);
        if j < before.len() {
            lemma_chunk_nodes_wf(r, (levels - 1) as nat, j);
        } else {
            lemma_level_nodes_wf(r, levels, j - before.len());
        }
    }
}

/// The chunks that follow from the nodes `from..to` of a list, one node
/// after the other.
pub open spec fn chunks_between(list: Seq<NodeView>, from: int, to: int, step: nat) -> Seq<
    Seq<NodeView>,
>
    decreases to - from,
{
    if from >= to {
        Seq::empty()
    } else {
        chunks_of(list[from], step) + chunks_between(list, from + 1, to, step)
    }
}

/// The chunks of a range of nodes end with those of its last node.
pub proof fn lemma_chunks_between_last(list: Seq<NodeView>, from: int, to: int, step: nat)
    requires
        from < to,
    ensures
        chunks_between(list, from, to, step) == chunks_between(list, from, to - 1, step)
            + chunks_of(list[to - 1], step),
    decreases to - from,
{
    if from + 1 < to {
        lemma_chunks_between_last(list, from + 1, to, step);
        assert(chunks_between(list, from, to, step) =~= chunks_between(list, from, to - 1, step)
            + chunks_of(list[to - 1], step));
    } else {
        assert(chunks_between(list, from + 1, to, step) =~= Seq::<Seq<NodeView>>::empty());
        assert(chunks_between(list, from, to - 1, step) =~= Seq::<Seq<NodeView>>::empty());
        assert(chunks_between(list, from, to, step) =~= chunks_of(list[to - 1], step));
    }
}

/// The chunks that follow from the first `k` nodes of a list are those of
/// the range `0..k`.
pub proof fn lemma_chunk_list_is_between(roots: Seq<NodeView>, k: nat, step: nat)
    requires
        k <= roots.len(),
        step >= 1,
    ensures
        chunk_list(roots, k, step) == chunks_between(roots, 0, k as int, step),
    decreases k,
{
    if k > 0 {
        lemma_chunk_list_is_between(roots, (k - 1) as nat, step);
        lemma_chunk_list_step(roots, k, step);
        lemma_chunks_between_last(roots, 0, k as int, step);
    }
}

/// The chunks that are still to come while the roots on a stack wait: those
/// of the root on top first.
pub open spec fn pending_chunks(stack: Seq<NodeView>, n: nat, step: nat) -> Seq<Seq<NodeView>>
    decreases n,
{
    if n == 0 || n > stack.len() {
        Seq::empty()
    } else {
        chunks_of(stack[n - 1], step) + pending_chunks(stack, (n - 1) as nat, step)
    }
}

/// What waits below the top of a stack does not depend on the top.
pub proof fn lemma_pending_chunks_prefix(a: Seq<NodeView>, b: Seq<NodeView>, n: nat, step: nat)
    requires
        n <= a.len() <= b.len(),
        forall|i: int| 0 <= i < a.len() ==> a[i] == b[i],
    ensures
        pending_chunks(a, n, step) == pending_chunks(b, n, step),
    decreases n,
{
    if n > 0 {
        lemma_pending_chunks_prefix(a, b, (n - 1) as nat, step);
    }
}

} // verus!
