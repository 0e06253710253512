//! Every node of a tree has a record of its own in the hierarchy.

use crate::model::hierarchy::counting::lemma_chunk_list_chunks;
use crate::model::hierarchy::laws::{
    lemma_chunk_roots_are_descendants, lemma_level_nodes_are_descendants,
};
use crate::model::hierarchy::layout::{
    chunk_list, chunk_nodes, chunks_of, lemma_chunk_nodes_first, lemma_level_nodes_lower,
    lemma_level_nodes_wf, lemma_next_level_parent, level_nodes, next_level, present_children,
};
use crate::model::hierarchy::records::is_proxy;
use crate::model::node::NodeView;
use crate::model::tree::{
    is_descendant, lemma_child_is_descendant, lemma_descendant_chain, wave_height, wave_wf,
};
use vstd::prelude::*;

verus! {

/// A child in one of the slots `0..k` of a node is among the children of
/// these slots.
pub proof fn lemma_child_is_present(n: NodeView, s: int, k: nat)
    requires
        0 <= s < k <= n.children.len(),
        n.children[s] is Some,
    ensures
        present_children(n, k).contains(n.children[s]->0),
    decreases k,
{
    let all = present_children(n, k);
    if s == k - 1 {
        assert(all[all.len() - 1] == n.children[s]->0);
    } else {
        lemma_child_is_present(n, s, (k - 1) as nat);
        let rest = present_children(n, (k - 1) as nat);
        let j = choose|j: int| 0 <= j < rest.len() && rest[j] == n.children[s]->0;
        assert(all[j] == n.children[s]->0);
    }
}

/// A child of one of the first `m` nodes of a list is in the next level of
/// these nodes.
pub proof fn lemma_child_in_next_level(list: Seq<NodeView>, i: int, s: int, m: nat)
    requires
        0 <= i < m <= list.len(),
        0 <= s < list[i].children.len(),
        list[i].children[s] is Some,
    ensures
        next_level(list, m).contains(list[i].children[s]->0),
    decreases m,
{
    let c = list[i].children[s]->0;
    let all = next_level(list, m);
    let rest = next_level(list, (m - 1) as nat);
    if i == m - 1 {
        let last = present_children(list[i], list[i].children.len());
        lemma_child_is_present(list[i], s, list[i].children.len());
        let j = choose|j: int| 0 <= j < last.len() && last[j] == c;
        assert(all[rest.len() + j] == c);
    } else {
        lemma_child_in_next_level(list, i, s, (m - 1) as nat);
        let j = choose|j: int| 0 <= j < rest.len() && rest[j] == c;
        assert(all[j] == c);
    }
}

/// The nodes a number of levels below a child of a node are one level more
/// below the node.
pub proof fn lemma_level_nodes_of_child(r: NodeView, s: int, e: nat, x: NodeView)
    requires
        0 <= s < r.children.len(),
        r.children[s] is Some,
        level_nodes(r.children[s]->0, e).contains(x),
    ensures
        level_nodes(r, e + 1).contains(x),
    decreases e,
{
    let c = r.children[s]->0;
    if e == 0 {
        assert(level_nodes(c, 0)[0] == c);
        assert(level_nodes(r, 0) == seq![r]);
        assert(seq![r][0] == r);
        lemma_child_in_next_level(seq![r], 0, s, 1);
    } else {
        let j = choose|j: int| 0 <= j < level_nodes(c, e).len() && level_nodes(c, e)[j] == x;
        let above = level_nodes(c, (e - 1) as nat);
        lemma_next_level_parent(above, above.len(), j);
        let (i, t) = choose|i: int, t: int|
            0 <= i < above.len() && 0 <= t < above[i].children.len()
                && #[trigger] above[i].children[t] == Some(x);
        assert(above.contains(above[i]));
        lemma_level_nodes_of_child(r, s, (e - 1) as nat, above[i]);
        let higher = level_nodes(r, e);
        let w = choose|w: int| 0 <= w < higher.len() && higher[w] == above[i];
        lemma_child_in_next_level(higher, w, t, higher.len());
    }
}

/// A node below a well-formed node is among the nodes as many levels below
/// it as its path is longer.
pub proof fn lemma_descendant_is_level_node(r: NodeView, n: NodeView)
    requires
        r.wf(),
        is_descendant(r, n),
    ensures
        level_nodes(r, (n.path.len() - r.path.len()) as nat).contains(n),
    decreases n.path.len() - r.path.len(),
{
    if n.path.len() == r.path.len() {
        assert(level_nodes(r, 0)[0] == r);
    } else {
        let code = n.path[r.path.len() as int];
        let c = r.children[code as int]->0;
        assert(c.path == r.path.push(code));
        assert(n.path.take(c.path.len() as int) =~= c.path) by {
            assert(n.path.take(r.path.len() as int) == r.path);
        }
        lemma_descendant_is_level_node(c, n);
        lemma_level_nodes_of_child(
            r,
            code as int,
            (n.path.len() - c.path.len()) as nat,
            n,
        );
    }
}

/// On the way from a well-formed node to a node at least `e` levels below
/// it lies a node `e` levels below it.
pub proof fn lemma_descendant_passes_level(r: NodeView, n: NodeView, e: nat) -> (b: NodeView)
    requires
        r.wf(),
        is_descendant(r, n),
        n.path.len() >= r.path.len() + e,
    ensures
        is_descendant(r, b),
        b.wf(),
        b.path.len() == r.path.len() + e,
        is_descendant(b, n),
    decreases e,
{
    if e == 0 {
        assert(r.path.take(r.path.len() as int) =~= r.path);
        r
    } else {
        let code = n.path[r.path.len() as int];
        let c = r.children[code as int]->0;
        assert(c.path == r.path.push(code));
        assert(n.path.take(c.path.len() as int) =~= c.path) by {
            assert(n.path.take(r.path.len() as int) == r.path);
        }
        let b = lemma_descendant_passes_level(c, n, (e - 1) as nat);
        assert(r.path.take(r.path.len() as int) =~= r.path);
        lemma_child_is_descendant(r, r, code as int);
        lemma_descendant_chain(r, c, b);
        b
    }
}

/// The nodes at most `levels` levels below a node are nodes of its chunk.
pub proof fn lemma_level_node_is_chunk_node(r: NodeView, d: nat, levels: nat, n: NodeView)
    requires
        d <= levels,
        level_nodes(r, d).contains(n),
    ensures
        chunk_nodes(r, levels).contains(n),
    decreases levels,
{
    let all = chunk_nodes(r, levels);
    if levels == 0 {
    } else if d == levels {
        let before = chunk_nodes(r, (levels - 1) as nat);
        let j = choose|j: int| 0 <= j < level_nodes(r, d).len() && level_nodes(r, d)[j] == n;
        assert(all[before.len() + j] == n);
    } else {
        lemma_level_node_is_chunk_node(r, d, (levels - 1) as nat, n);
        let before = chunk_nodes(r, (levels - 1) as nat);
        let j = choose|j: int| 0 <= j < before.len() && before[j] == n;
        assert(all[j] == n);
    }
}

/// Whether the node `k` of the chunk `i` is `n`, and no proxy.
pub open spec fn is_record_of(
    chunks: Seq<Seq<NodeView>>,
    i: int,
    k: int,
    n: NodeView,
    step: nat,
) -> bool {
    &&& 0 <= i < chunks.len()
    &&& 0 <= k < chunks[i].len()
    &&& chunks[i][k] == n
    &&& !is_proxy(chunks[i], k, step)
}

/// Every node below one of the first `k` nodes of a list of well-formed
/// nodes has a record that is no proxy in the chunks that follow from
/// these nodes.
pub proof fn lemma_descendant_has_record(
    roots: Seq<NodeView>,
    k: nat,
    step: nat,
    t: int,
    n: NodeView,
)
    requires
        wave_wf(roots),
        0 <= t < k <= roots.len(),
        step >= 1,
        is_descendant(roots[t], n),
    ensures
        exists|i: int, j: int| #[trigger] is_record_of(chunk_list(roots, k, step), i, j, n, step),
    decreases wave_height(roots), k,
{
    let all = chunk_list(roots, k, step);
    let r = roots[k - 1];
    let border = level_nodes(r, step);
    let before = chunk_list(roots, (k - 1) as nat, step);
    let after = chunk_list(border, border.len(), step);
    lemma_level_nodes_lower(roots, k - 1, step);
    lemma_chunk_nodes_first(r, step);
    if t < k - 1 {
        lemma_descendant_has_record(roots, (k - 1) as nat, step, t, n);
        let (i, j) = choose|i: int, j: int| #[trigger] is_record_of(before, i, j, n, step);
        assert(all[i] == before[i]);
        assert(is_record_of(all, i, j, n, step));
    } else if n.path.len() < r.path.len() + step {
        let d = (n.path.len() - r.path.len()) as nat;
        lemma_descendant_is_level_node(r, n);
        lemma_level_node_is_chunk_node(r, d, step, n);
        let chunk = chunk_nodes(r, step);
        let j = choose|j: int| 0 <= j < chunk.len() && chunk[j] == n;
        assert(all[before.len() as int] == chunk);
        assert(is_record_of(all, before.len() as int, j, n, step));
    } else {
        let b = lemma_descendant_passes_level(r, n, step);
        lemma_descendant_is_level_node(r, b);
        let w = choose|w: int| 0 <= w < border.len() && border[w] == b;
        assert forall|x: int| 0 <= x < border.len() implies (#[trigger] border[x]).wf() by {
            lemma_level_nodes_wf(r, step, x);
        }
        lemma_descendant_has_record(border, border.len(), step, w, n);
        let (i, j) = choose|i: int, j: int| #[trigger] is_record_of(after, i, j, n, step);
        assert(all[before.len() + 1 + i] == after[i]);
        assert(is_record_of(all, before.len() + 1 + i, j, n, step));
    }
}

/// Every node of a chunk is a node a number of levels below the root of the
/// chunk.
pub proof fn lemma_chunk_node_is_level_node(r: NodeView, levels: nat, k: int) -> (at: (nat, int))
    requires
        0 <= k < chunk_nodes(r, levels).len(),
    ensures
        at.0 <= levels,
        0 <= at.1 < level_nodes(r, at.0).len(),
        level_nodes(r, at.0)[at.1] == chunk_nodes(r, levels)[k],
    decreases levels,
{
    if levels == 0 {
        (0, 0)
    } else {
        let before = chunk_nodes(r, (levels - 1) as nat);
        if k < before.len() {
            lemma_chunk_node_is_level_node(r, (levels - 1) as nat, k)
        } else {
            (levels, k - before.len())
        }
    }
}

/// Every node with a record in the hierarchy of a well-formed tree is a
/// well-formed node of the tree.
pub proof fn lemma_record_is_node(root: NodeView, step: nat, i: int, k: int)
    requires
        root.wf(),
        step >= 1,
        0 <= i < chunks_of(root, step).len(),
        0 <= k < chunks_of(root, step)[i].len(),
    ensures
        is_descendant(root, chunks_of(root, step)[i][k]),
        chunks_of(root, step)[i][k].wf(),
{
    let chunks = chunks_of(root, step);
    let bound = root.subtree_points();
    lemma_chunk_list_chunks(seq![root], 1, step, bound, i);
    assert(root.path.take(root.path.len() as int) =~= root.path);
    lemma_chunk_roots_are_descendants(seq![root], 1, step, i, root);
    let top = chunks[i][0];
    let (d, j) = lemma_chunk_node_is_level_node(top, step, k);
    lemma_level_nodes_are_descendants(top, d, j);
    lemma_descendant_chain(root, top, chunks[i][k]);
}

/// Every node of a well-formed tree has one record of its own in the
/// hierarchy: a record that is no proxy.
pub proof fn lemma_every_node_has_a_record(root: NodeView, step: nat, n: NodeView)
    requires
        root.wf(),
        step >= 1,
        is_descendant(root, n),
    ensures
        exists|i: int, j: int| #[trigger] is_record_of(chunks_of(root, step), i, j, n, step),
{
    assert(wave_wf(seq![root]));
    assert(seq![root][0] == root);
    lemma_descendant_has_record(seq![root], 1, step, 0, n);
    let (i, j) = choose|i: int, j: int| #[trigger]
        is_record_of(chunk_list(seq![root], 1, step), i, j, n, step);
    assert(is_record_of(chunks_of(root, step), i, j, n, step));
}

} // verus!
