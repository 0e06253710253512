//! How many node records a hierarchy has, and what holds of each of them.

use crate::model::hierarchy::layout::{
    chunk_list, chunk_nodes, lemma_chunk_nodes_first, lemma_chunk_nodes_wf,
    lemma_level_nodes_lower, lemma_level_nodes_wf, level_nodes, next_level, present_children,
};
use crate::model::node::NodeView;
use crate::model::tree::{lemma_subtree_sum_concat, own_points, subtree_sum, wave_height, wave_wf};
use vstd::prelude::*;

verus! {

/// A well-formed node has at most eight children, and at least one point
/// of its own if it has a child; the points below its child slots are the
/// points below its children.
pub proof fn lemma_present_children(n: NodeView, k: nat)
    requires
        n.wf(),
        k <= 8,
    ensures
        present_children(n, k).len() <= k,
        present_children(n, k).len() <= 8 * n.num_points(),
        wave_wf(present_children(n, k)),
        n.children_points(k) == subtree_sum(
            present_children(n, k),
            present_children(n, k).len(),
        ),
    decreases k,
{
    if k > 0 {
        let rest = present_children(n, (k - 1) as nat);
        lemma_present_children(n, (k - 1) as nat);
        match n.children[k - 1] {
            Some(c) => {
                assert(c.wf());
                assert(!n.is_leaf());
                lemma_subtree_sum_concat(rest, seq![c], 1);
                assert(rest.push(c) =~= rest + seq![c]);
                assert(subtree_sum(seq![c], 0) == 0);
                assert(subtree_sum(seq![c], 1) == c.subtree_points());
            },
            None => {},
        }
    }
}

/// The next level of a list of well-formed nodes has at most eight nodes
/// for each point that the nodes of the list hold themselves, and the
/// points below the list are those and the points below the next level.
pub proof fn lemma_next_level(list: Seq<NodeView>, m: nat)
    requires
        wave_wf(list),
        m <= list.len(),
    ensures
        next_level(list, m).len() <= 8 * own_points(list, m),
        wave_wf(next_level(list, m)),
        subtree_sum(list, m) == own_points(list, m) + subtree_sum(
            next_level(list, m),
            next_level(list, m).len(),
        ),
    decreases m,
{
    if m > 0 {
        let n = list[m - 1];
        lemma_next_level(list, (m - 1) as nat);
        lemma_present_children(n, 8);
        lemma_subtree_sum_concat(
            next_level(list, (m - 1) as nat),
            present_children(n, 8),
            present_children(n, 8).len(),
        );
    }
}

/// The points that the nodes less than `d` levels below `r` hold
/// themselves.
pub open spec fn upper_points(r: NodeView, d: nat) -> nat
    decreases d,
{
    if d == 0 {
        0
    } else {
        upper_points(r, (d - 1) as nat) + own_points(
            level_nodes(r, (d - 1) as nat),
            level_nodes(r, (d - 1) as nat).len(),
        )
    }
}

/// The points of a well-formed tree are those of the nodes above a level
/// and those below the nodes of the level; a chunk and its lowest level
/// have at most eight nodes for each point above that level, and the root.
pub proof fn lemma_levels(r: NodeView, d: nat)
    requires
        r.wf(),
    ensures
        wave_wf(level_nodes(r, d)),
        r.subtree_points() == upper_points(r, d) + subtree_sum(
            level_nodes(r, d),
            level_nodes(r, d).len(),
        ),
        chunk_nodes(r, d).len() <= 1 + 8 * upper_points(r, d),
        d >= 1 ==> level_nodes(r, d).len() <= 8 * upper_points(r, d),
    decreases d,
{
    if d == 0 {
        assert(subtree_sum(seq![r], 0) == 0);
        assert(subtree_sum(seq![r], 1) == r.subtree_points());
    } else {
        let above = level_nodes(r, (d - 1) as nat);
        lemma_levels(r, (d - 1) as nat);
        lemma_next_level(above, above.len());
    }
}

/// The number of node records of the first `n` chunks.
pub open spec fn record_count(chunks: Seq<Seq<NodeView>>, n: nat) -> nat
    decreases n,
{
    if n == 0 {
        0
    } else {
        record_count(chunks, (n - 1) as nat) + chunks[n - 1].len()
    }
}

/// The records of the first chunks do not depend on what follows them.
pub proof fn lemma_record_count_prefix(a: Seq<Seq<NodeView>>, b: Seq<Seq<NodeView>>, n: nat)
    requires
        n <= a.len(),
    ensures
        record_count(a + b, n) == record_count(a, n),
    decreases n,
{
    if n > 0 {
        lemma_record_count_prefix(a, b, (n - 1) as nat);
        assert((a + b)[n - 1] == a[n - 1]);
    }
}

/// The records of two sequences of chunks add up.
pub proof fn lemma_record_count_concat(a: Seq<Seq<NodeView>>, b: Seq<Seq<NodeView>>, n: nat)
    requires
        n <= b.len(),
    ensures
        record_count(a + b, a.len() + n) == record_count(a, a.len()) + record_count(b, n),
    decreases n,
{
    if n == 0 {
        lemma_record_count_prefix(a, b, a.len());
    } else {
        lemma_record_count_concat(a, b, (n - 1) as nat);
        assert((a + b)[a.len() + n - 1] == b[n - 1]);
    }
}

/// More chunks have no fewer records.
pub proof fn lemma_record_count_grows(chunks: Seq<Seq<NodeView>>, n: nat, m: nat)
    requires
        n <= m,
    ensures
        record_count(chunks, n) <= record_count(chunks, m),
    decreases m,
{
    if n < m {
        lemma_record_count_grows(chunks, n, (m - 1) as nat);
    }
}

/// The chunks that follow from well-formed nodes have at most one record
/// for each of these nodes and sixteen for each point below them.
pub proof fn lemma_chunk_list_count(roots: Seq<NodeView>, k: nat, step: nat)
    requires
        wave_wf(roots),
        k <= roots.len(),
        step >= 1,
    ensures
        record_count(chunk_list(roots, k, step), chunk_list(roots, k, step).len()) <= k + 16
            * subtree_sum(roots, k),
    decreases wave_height(roots), k,
{
    if k > 0 {
        let r = roots[k - 1];
        let border = level_nodes(r, step);
        let before = chunk_list(roots, (k - 1) as nat, step);
        let own = seq![chunk_nodes(r, step)];
        let after = chunk_list(border, border.len(), step);
        lemma_level_nodes_lower(roots, k - 1, step);
        lemma_chunk_list_count(roots, (k - 1) as nat, step);
        lemma_levels(r, step);
        lemma_chunk_list_count(border, border.len(), step);
        lemma_record_count_concat(before, own, 1);
        lemma_record_count_concat(before + own, after, after.len());
        assert(record_count(own, 0) == 0);
        assert(record_count(own, 1) == chunk_nodes(r, step).len());
    }
}

/// Whether a node is well formed and has at most `bound` points in its
/// subtree.
pub open spec fn sound(n: NodeView, bound: nat) -> bool {
    n.wf() && n.subtree_points() <= bound
}

/// Whether a sequence of nodes is the chunk of its first node, which is
/// sound.
pub open spec fn is_chunk(c: Seq<NodeView>, step: nat, bound: nat) -> bool {
    &&& c.len() >= 1
    &&& sound(c[0], bound)
    &&& c == chunk_nodes(c[0], step)
}

/// What follows from sound nodes is a sequence of chunks of sound nodes.
pub proof fn lemma_chunk_list_chunks(roots: Seq<NodeView>, k: nat, step: nat, bound: nat, i: int)
    requires
        forall|t: int| 0 <= t < roots.len() ==> sound(#[trigger] roots[t], bound),
        k <= roots.len(),
        step >= 1,
        0 <= i < chunk_list(roots, k, step).len(),
    ensures
        is_chunk(chunk_list(roots, k, step)[i], step, bound),
    decreases wave_height(roots), k,
{
    if k > 0 {
        let r = roots[k - 1];
        let border = level_nodes(r, step);
        let before = chunk_list(roots, (k - 1) as nat, step);
        let after = chunk_list(border, border.len(), step);
        lemma_level_nodes_lower(roots, k - 1, step);
        lemma_chunk_nodes_first(r, step);
        if i < before.len() {
            lemma_chunk_list_chunks(roots, (k - 1) as nat, step, bound, i);
        } else if i == before.len() {
        } else {
            assert forall|t: int| 0 <= t < border.len() implies sound(
                #[trigger] border[t],
                bound,
            ) by {
                lemma_level_nodes_wf(r, step, t);
            }
            lemma_chunk_list_chunks(border, border.len(), step, bound, i - before.len() - 1);
        }
    }
}

/// Every node of a chunk of a sound node is sound.
pub proof fn lemma_chunk_sound(c: Seq<NodeView>, step: nat, bound: nat, j: int)
    requires
        is_chunk(c, step, bound),
        0 <= j < c.len(),
    ensures
        sound(c[j], bound),
        c[0].path.len() <= c[j].path.len() <= c[0].path.len() + step,
{
    lemma_chunk_nodes_wf(c[0], step, j);
}

} // verus!
