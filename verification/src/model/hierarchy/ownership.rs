//! Every node of a tree has no more than one record of its own.

use crate::model::hierarchy::coverage::{is_record_of, lemma_chunk_node_is_level_node};
use crate::model::hierarchy::laws::{
    ascending, comes_before, lemma_chunk_is_breadth_first, lemma_level_nodes_are_descendants,
    lemma_level_nodes_ascend, path_less,
};
use crate::model::hierarchy::layout::{
    chunk_list, chunk_nodes, chunks_of, lemma_chunk_nodes_first, lemma_chunk_nodes_wf,
    lemma_level_nodes_lower, lemma_level_nodes_wf, level_nodes,
};
use crate::model::node::NodeView;
use crate::model::tree::{
    is_descendant, lemma_descendant_chain, lemma_descendant_of_itself, wave_height, wave_wf,
};
use vstd::prelude::*;

verus! {

/// Whether the paths of a list of nodes have one length.
pub open spec fn level_with(list: Seq<NodeView>) -> bool {
    forall|i: int, j: int|
        0 <= i < list.len() && 0 <= j < list.len() ==> (#[trigger] list[i]).path.len() == (
        #[trigger] list[j]).path.len()
}

/// Where the chunk `i` of the chunks that follow from a list of nodes comes
/// from: the index of a node of the list below which the root of the chunk
/// lies, a whole number of steps below it.
pub proof fn lemma_chunk_origin(roots: Seq<NodeView>, k: nat, step: nat, i: int) -> (t: int)
    requires
        wave_wf(roots),
        k <= roots.len(),
        step >= 1,
        0 <= i < chunk_list(roots, k, step).len(),
    ensures
        0 <= t < k,
        chunk_list(roots, k, step)[i].len() >= 1,
        chunk_list(roots, k, step)[i][0].wf(),
        chunk_list(roots, k, step)[i] == chunk_nodes(chunk_list(roots, k, step)[i][0], step),
        is_descendant(roots[t], chunk_list(roots, k, step)[i][0]),
        (chunk_list(roots, k, step)[i][0].path.len() - roots[t].path.len()) % (step as int) == 0,
        chunk_list(roots, k, step)[i][0] == roots[t] || chunk_list(
            roots,
            k,
            step,
        )[i][0].path.len() >= roots[t].path.len() + step,
    decreases wave_height(roots), k,
{
    let r = roots[k - 1];
    let border = level_nodes(r, step);
    let before = chunk_list(roots, (k - 1) as nat, step);
    lemma_level_nodes_lower(roots, k - 1, step);
    lemma_chunk_nodes_first(r, step);
    if i < before.len() {
        lemma_chunk_origin(roots, (k - 1) as nat, step, i)
    } else if i == before.len() {
        lemma_descendant_of_itself(r);
        assert(0int % (step as int) == 0) by (nonlinear_arith)
            requires
                step >= 1,
        ;
        k - 1
    } else {
        assert forall|x: int| 0 <= x < border.len() implies (#[trigger] border[x]).wf() by {
            lemma_level_nodes_wf(r, step, x);
        }
        let w = lemma_chunk_origin(border, border.len(), step, i - before.len() - 1);
        let top = chunk_list(roots, k, step)[i][0];
        lemma_level_nodes_wf(r, step, w);
        lemma_level_nodes_are_descendants(r, step, w);
        lemma_descendant_chain(r, border[w], top);
        assert((top.path.len() - r.path.len()) % (step as int) == 0) by (nonlinear_arith)
            requires
                (top.path.len() - border[w].path.len()) % (step as int) == 0,
                border[w].path.len() == r.path.len() + step,
                step >= 1,
        ;
        k - 1
    }
}

/// Two paths that continue two different paths of one length are
/// different.
pub proof fn lemma_prefixes_differ(a: Seq<u8>, b: Seq<u8>, p: Seq<u8>, q: Seq<u8>)
    requires
        p.len() == q.len(),
        p != q,
        p.len() <= a.len(),
        q.len() <= b.len(),
        a.take(p.len() as int) == p,
        b.take(q.len() as int) == q,
    ensures
        a != b,
{
}

/// A path does not come before itself, so one of two paths of which one
/// comes before the other is not the other.
pub proof fn lemma_path_less_differs(a: Seq<u8>, b: Seq<u8>)
    requires
        comes_before(a, b),
    ensures
        a != b,
{
}

/// The roots of two chunks that follow from an ascending list of
/// well-formed nodes have different paths.
pub proof fn lemma_chunk_roots_differ(roots: Seq<NodeView>, k: nat, step: nat, i: int, j: int)
    requires
        wave_wf(roots),
        ascending(roots),
        k <= roots.len(),
        step >= 1,
        0 <= i < j < chunk_list(roots, k, step).len(),
    ensures
        chunk_list(roots, k, step)[i][0].path != chunk_list(roots, k, step)[j][0].path,
    decreases wave_height(roots), k,
{
    let all = chunk_list(roots, k, step);
    let r = roots[k - 1];
    let border = level_nodes(r, step);
    let before = chunk_list(roots, (k - 1) as nat, step);
    let after = chunk_list(border, border.len(), step);
    lemma_level_nodes_lower(roots, k - 1, step);
    lemma_chunk_nodes_first(r, step);
    assert forall|x: int| 0 <= x < border.len() implies (#[trigger] border[x]).wf() by {
        lemma_level_nodes_wf(r, step, x);
    }
    lemma_level_nodes_ascend(r, step);
    if j < before.len() {
        lemma_chunk_roots_differ(roots, (k - 1) as nat, step, i, j);
    } else if i > before.len() {
        lemma_chunk_roots_differ(border, border.len(), step, i - before.len() - 1, j
            - before.len() - 1);
    } else if i == before.len() {
        let w = lemma_chunk_origin(border, border.len(), step, j - before.len() - 1);
        lemma_level_nodes_wf(r, step, w);
    } else {
        let t = lemma_chunk_origin(roots, (k - 1) as nat, step, i);
        assert(path_less(roots[t].path, r.path));
        lemma_path_less_differs(roots[t].path, r.path);
        let a = all[i][0];
        let b = all[j][0];
        assert(r.path.len() <= b.path.len() && b.path.take(r.path.len() as int) == r.path) by {
            if j == before.len() {
                lemma_descendant_of_itself(r);
            } else {
                let w = lemma_chunk_origin(border, border.len(), step, j - before.len() - 1);
                lemma_level_nodes_are_descendants(r, step, w);
                lemma_descendant_chain(r, border[w], b);
            }
        }
        lemma_prefixes_differ(a.path, b.path, roots[t].path, r.path);
    }
}

/// Every node has one record of its own at most: two records of a
/// well-formed tree that are no proxies and hold nodes with one path are
/// one record.
pub proof fn lemma_own_record_is_unique(
    root: NodeView,
    step: nat,
    n: NodeView,
    i: int,
    k: int,
    j: int,
    m: int,
)
    requires
        root.wf(),
        step >= 1,
        is_record_of(chunks_of(root, step), i, k, n, step),
        is_record_of(chunks_of(root, step), j, m, n, step),
    ensures
        i == j,
        k == m,
{
    let chunks = chunks_of(root, step);
    assert(wave_wf(seq![root]));
    assert(ascending(seq![root]));
    let a = chunks[i][0];
    let b = chunks[j][0];
    lemma_chunk_origin(seq![root], 1, step, i);
    lemma_chunk_origin(seq![root], 1, step, j);
    lemma_chunk_nodes_wf(a, step, k);
    lemma_chunk_nodes_wf(b, step, m);
    let (d, x) = lemma_chunk_node_is_level_node(a, step, k);
    lemma_level_nodes_are_descendants(a, d, x);
    let (e, y) = lemma_chunk_node_is_level_node(b, step, m);
    lemma_level_nodes_are_descendants(b, e, y);
    assert(a.path.len() == b.path.len()) by (nonlinear_arith)
        requires
            (a.path.len() - root.path.len()) % (step as int) == 0,
            (b.path.len() - root.path.len()) % (step as int) == 0,
            a.path.len() <= n.path.len() < a.path.len() + step,
            b.path.len() <= n.path.len() < b.path.len() + step,
            root.path.len() <= a.path.len(),
            root.path.len() <= b.path.len(),
            step >= 1,
    ;
    assert(a.path == b.path);
    if i < j {
        lemma_chunk_roots_differ(seq![root], 1, step, i, j);
    } else if j < i {
        lemma_chunk_roots_differ(seq![root], 1, step, j, i);
    }
    if k < m {
        lemma_chunk_is_breadth_first(a, step, k, m);
        lemma_path_less_differs(chunks[i][k].path, chunks[i][m].path);
    } else if m < k {
        lemma_chunk_is_breadth_first(a, step, m, k);
        lemma_path_less_differs(chunks[i][m].path, chunks[i][k].path);
    }
}

} // verus!
