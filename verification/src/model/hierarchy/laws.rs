//! Laws of the hierarchy: where proxies point, and how the nodes of a
//! chunk are ordered.

use crate::model::hierarchy::counting::{
    lemma_chunk_list_chunks, lemma_chunk_list_count, lemma_record_count_grows,
};
use crate::model::hierarchy::layout::{
    chunk_list, chunk_nodes, chunks_of, lemma_chunk_nodes_first, lemma_chunk_nodes_wf,
    lemma_level_nodes_lower, lemma_level_nodes_wf, lemma_next_level_parent, level_nodes,
    next_level, present_children,
};
use crate::model::hierarchy::records::{
    chunk_bytes, chunk_index, chunk_offset, chunk_size, hierarchy_bytes, is_proxy,
    lemma_border_has_chunk, lemma_chunk_bytes_len, lemma_chunk_index_found,
    lemma_hierarchy_bytes_len, lemma_proxy_on_border, lemma_record_target, record_at,
    record_target, target_of, type_code,
};
use crate::model::hierarchy::{HIERARCHY_STEP_SIZE, Type};
use crate::model::node::NodeView;
use crate::model::tree::{
    is_descendant, lemma_child_is_descendant, lemma_descendant_chain,
    lemma_descendant_is_determined, subtree_sum, wave_height, wave_wf,
};
use vstd::prelude::*;

verus! {

/// The records of a chunk stand in the hierarchy at the offset of the
/// chunk.
pub proof fn lemma_chunk_stands_at_its_offset(
    chunks: Seq<Seq<NodeView>>,
    ranges: Map<Seq<u8>, (u64, u64)>,
    j: int,
    n: nat,
    step: nat,
)
    requires
        0 <= j < n,
    ensures
        chunk_offset(chunks, j as nat) + chunk_size(chunks[j]) <= hierarchy_bytes(
            chunks,
            ranges,
            n,
            step,
        ).len(),
        hierarchy_bytes(chunks, ranges, n, step).subrange(
            chunk_offset(chunks, j as nat) as int,
            (chunk_offset(chunks, j as nat) + chunk_size(chunks[j])) as int,
        ) == chunk_bytes(chunks, ranges, j, chunks[j].len(), step),
    decreases n,
{
    let before = hierarchy_bytes(chunks, ranges, (n - 1) as nat, step);
    let last = chunk_bytes(chunks, ranges, n - 1, chunks[n - 1].len(), step);
    lemma_hierarchy_bytes_len(chunks, ranges, (n - 1) as nat, step);
    lemma_chunk_bytes_len(chunks, ranges, n - 1, chunks[n - 1].len(), step);
    if j == n - 1 {
        assert((before + last).subrange(before.len() as int, (before.len() + last.len()) as int) =~= last);
    } else {
        lemma_chunk_stands_at_its_offset(chunks, ranges, j, (n - 1) as nat, step);
        let from = chunk_offset(chunks, j as nat) as int;
        let to = (chunk_offset(chunks, j as nat) + chunk_size(chunks[j])) as int;
        assert((before + last).subrange(from, to) =~= before.subrange(from, to));
    }
}

/// Every proxy points to the chunk of its own node. In the hierarchy of a
/// well-formed tree with a 32-bit number of points, the record of a node on
/// the lowest level of a chunk has the kind of a proxy, and the offset and
/// the size that are read back from its bytes are those of a chunk that
/// starts with that node; the bytes of the hierarchy in that range are the
/// records of that chunk.
pub proof fn lemma_proxy_points_to_its_chunk(
    root: NodeView,
    ranges: Map<Seq<u8>, (u64, u64)>,
    i: int,
    k: int,
)
    requires
        root.wf(),
        root.subtree_points() <= u32::MAX,
        0 <= i < chunks_of(root, HIERARCHY_STEP_SIZE as nat).len(),
        0 <= k < chunks_of(root, HIERARCHY_STEP_SIZE as nat)[i].len(),
        is_proxy(chunks_of(root, HIERARCHY_STEP_SIZE as nat)[i], k, HIERARCHY_STEP_SIZE as nat),
    ensures
        ({
            let step = HIERARCHY_STEP_SIZE as nat;
            let chunks = chunks_of(root, step);
            let buffer = hierarchy_bytes(chunks, ranges, chunks.len(), step);
            let node = chunks[i][k];
            let j = chunk_index(chunks, node.path, 0) as int;
            let (offset, size) = target_of(chunks, ranges, i, k, step);
            &&& 0 <= j < chunks.len()
            &&& chunks[j][0] == node
            &&& chunks[j][0].path == node.path
            &&& offset == chunk_offset(chunks, j as nat)
            &&& size == chunk_size(chunks[j])
            &&& record_target(record_at(chunks, ranges, i, k, step)) == (
                type_code(Type::Proxy),
                chunk_offset(chunks, j as nat),
                chunk_size(chunks[j]),
            )
            &&& offset + size <= buffer.len()
            &&& buffer.subrange(offset as int, offset + size) == chunk_bytes(
                chunks,
                ranges,
                j,
                chunks[j].len(),
                step,
            )
        }),
{
    let step = HIERARCHY_STEP_SIZE as nat;
    let bound = u32::MAX as nat;
    let chunks = chunks_of(root, step);
    let node = chunks[i][k];
    assert(wave_wf(seq![root]));
    assert(subtree_sum(seq![root], 0) == 0);
    assert(subtree_sum(seq![root], 1) == root.subtree_points());
    lemma_chunk_list_count(seq![root], 1, step);
    lemma_chunk_list_chunks(seq![root], 1, step, bound, i);
    lemma_proxy_on_border(chunks[i], step, bound, k);
    let t = k - chunk_nodes(chunks[i][0], (step - 1) as nat).len();
    lemma_border_has_chunk(seq![root], 1, step, i, t);
    let w = choose|w: int| 0 <= w < chunks.len() && (#[trigger] chunks[w])[0] == node;
    lemma_chunk_index_found(chunks, node.path, 0, w);
    let j = chunk_index(chunks, node.path, 0) as int;
    lemma_record_count_grows(chunks, (j + 1) as nat, chunks.len());
    lemma_chunk_stands_at_its_offset(chunks, ranges, j, chunks.len(), step);
    lemma_chunk_list_chunks(seq![root], 1, step, bound, j);
    lemma_chunk_root_is_unique(root, j, w);
    lemma_record_target(
        node,
        true,
        target_of(chunks, ranges, i, k, step).0,
        target_of(chunks, ranges, i, k, step).1,
    );
}

/// Two chunks of a well-formed tree whose roots have the same path have the
/// same root.
pub proof fn lemma_chunk_root_is_unique(root: NodeView, j: int, w: int)
    requires
        root.wf(),
        0 <= j < chunks_of(root, HIERARCHY_STEP_SIZE as nat).len(),
        0 <= w < chunks_of(root, HIERARCHY_STEP_SIZE as nat).len(),
        chunks_of(root, HIERARCHY_STEP_SIZE as nat)[j][0].path == chunks_of(
            root,
            HIERARCHY_STEP_SIZE as nat,
        )[w][0].path,
    ensures
        chunks_of(root, HIERARCHY_STEP_SIZE as nat)[j][0] == chunks_of(
            root,
            HIERARCHY_STEP_SIZE as nat,
        )[w][0],
{
    let step = HIERARCHY_STEP_SIZE as nat;
    let chunks = chunks_of(root, step);
    assert(root.path.take(root.path.len() as int) =~= root.path);
    assert(is_descendant(root, root));
    lemma_chunk_roots_are_descendants(seq![root], 1, step, j, root);
    lemma_chunk_roots_are_descendants(seq![root], 1, step, w, root);
    lemma_descendant_is_determined(root, chunks[j][0], chunks[w][0]);
}

/// The nodes a number of levels below a well-formed node are below it.
pub proof fn lemma_level_nodes_are_descendants(r: NodeView, d: nat, j: int)
    requires
        r.wf(),
        0 <= j < level_nodes(r, d).len(),
    ensures
        is_descendant(r, level_nodes(r, d)[j]),
        level_nodes(r, d)[j].wf(),
    decreases d,
{
    if d == 0 {
        assert(r.path.take(r.path.len() as int) =~= r.path);
    } else {
        let above = level_nodes(r, (d - 1) as nat);
        lemma_next_level_parent(above, above.len(), j);
        let (i, s) = choose|i: int, s: int|
            0 <= i < above.len() && 0 <= s < above[i].children.len()
                && #[trigger] above[i].children[s] == Some(level_nodes(r, d)[j]);
        lemma_level_nodes_are_descendants(r, (d - 1) as nat, i);
        lemma_child_is_descendant(r, above[i], s);
    }
}

/// The root of every chunk that follows from nodes below `top` is below
/// `top`.
pub proof fn lemma_chunk_roots_are_descendants(
    roots: Seq<NodeView>,
    k: nat,
    step: nat,
    i: int,
    top: NodeView,
)
    requires
        top.wf(),
        forall|t: int|
            0 <= t < roots.len() ==> (#[trigger] roots[t]).wf() && is_descendant(top, roots[t]),
        k <= roots.len(),
        step >= 1,
        0 <= i < chunk_list(roots, k, step).len(),
    ensures
        is_descendant(top, chunk_list(roots, k, step)[i][0]),
    decreases wave_height(roots), k,
{
    if k > 0 {
        let r = roots[k - 1];
        let border = level_nodes(r, step);
        let before = chunk_list(roots, (k - 1) as nat, step);
        lemma_level_nodes_lower(roots, k - 1, step);
        lemma_chunk_nodes_first(r, step);
        if i < before.len() {
            lemma_chunk_roots_are_descendants(roots, (k - 1) as nat, step, i, top);
        } else if i == before.len() {
        } else {
            assert forall|t: int| 0 <= t < border.len() implies (#[trigger] border[t]).wf()
                && is_descendant(top, border[t]) by {
                lemma_level_nodes_are_descendants(r, step, t);
                lemma_descendant_chain(top, r, border[t]);
            }
            lemma_chunk_roots_are_descendants(border, border.len(), step, i - before.len() - 1, top);
        }
    }
}

/// Whether the path `a` comes before the path `b` of the same length in
/// the order of the codes: at the first place where they differ, `a` has
/// the smaller code.
pub open spec fn path_less(a: Seq<u8>, b: Seq<u8>) -> bool {
    &&& a.len() == b.len()
    &&& exists|i: int| 0 <= i < a.len() && #[trigger] a.take(i) == b.take(i) && a[i] < b[i]
}

/// Whether the path `a` comes before the path `b` breadth first: the
/// shorter path first, and of two paths of one length the one that comes
/// first in the order of the codes.
pub open spec fn comes_before(a: Seq<u8>, b: Seq<u8>) -> bool {
    a.len() < b.len() || path_less(a, b)
}

/// Whether the paths of a list of nodes have one length and ascend in the
/// order of the codes.
pub open spec fn ascending(list: Seq<NodeView>) -> bool {
    forall|i: int, j: int|
        0 <= i < j < list.len() ==> path_less((#[trigger] list[i]).path, (#[trigger] list[j]).path)
}

/// A path with a smaller last code comes first.
pub proof fn lemma_path_less_last(a: Seq<u8>, s: u8, t: u8)
    requires
        s < t,
    ensures
        path_less(a.push(s), a.push(t)),
{
    let i = a.len() as int;
    assert(a.push(s).take(i) =~= a.push(t).take(i));
}

/// Paths that continue two paths of which one comes first come in the same
/// order.
pub proof fn lemma_path_less_longer(a: Seq<u8>, b: Seq<u8>, s: u8, t: u8)
    requires
        path_less(a, b),
    ensures
        path_less(a.push(s), b.push(t)),
{
    let i = choose|i: int| 0 <= i < a.len() && #[trigger] a.take(i) == b.take(i) && a[i] < b[i];
    assert(a.push(s).take(i) =~= a.take(i));
    assert(b.push(t).take(i) =~= b.take(i));
}

/// Whether `child` is `parent` and one code below `limit`.
pub open spec fn continues(parent: Seq<u8>, child: Seq<u8>, limit: int) -> bool {
    &&& child.len() == parent.len() + 1
    &&& child.drop_last() == parent
    &&& child.last() < limit
}

/// The children of a well-formed node ascend, and the path of each is the
/// path of the node and one code.
pub proof fn lemma_present_children_ascend(n: NodeView, k: nat)
    requires
        n.wf(),
        k <= 8,
    ensures
        ascending(present_children(n, k)),
        forall|j: int|
            0 <= j < present_children(n, k).len() ==> continues(
                n.path,
                (#[trigger] present_children(n, k)[j]).path,
                k as int,
            ),
    decreases k,
{
    if k > 0 {
        let rest = present_children(n, (k - 1) as nat);
        let all = present_children(n, k);
        lemma_present_children_ascend(n, (k - 1) as nat);
        assert forall|j: int| 0 <= j < all.len() implies continues(
            n.path,
            (#[trigger] all[j]).path,
            k as int,
        ) by {
            if j < rest.len() {
                assert(all[j] == rest[j]);
            } else {
                assert(all[j] == n.children[k - 1]->0);
                assert(all[j].path == n.path.push((k - 1) as u8));
                assert(n.path.push((k - 1) as u8).drop_last() =~= n.path);
            }
        }
        assert forall|i: int, j: int| 0 <= i < j < all.len() implies path_less(
            (#[trigger] all[i]).path,
            (#[trigger] all[j]).path,
        ) by {
            if j >= rest.len() {
                assert(all[i] == rest[i]);
                assert(continues(n.path, rest[i].path, k - 1));
                assert(rest[i].path =~= n.path.push(rest[i].path.last()));
                assert(all[j].path == n.path.push((k - 1) as u8));
                lemma_path_less_last(n.path, rest[i].path.last(), (k - 1) as u8);
            } else {
                assert(all[i] == rest[i] && all[j] == rest[j]);
            }
        }
    }
}

/// The next level of an ascending list of well-formed nodes ascends, and
/// the path of each of its nodes is the path of a node of the list and one
/// code.
pub proof fn lemma_next_level_ascends(list: Seq<NodeView>, m: nat)
    requires
        wave_wf(list),
        ascending(list),
        m <= list.len(),
    ensures
        ascending(next_level(list, m)),
        forall|j: int|
            0 <= j < next_level(list, m).len() ==> exists|p: int|
                0 <= p < m && continues(
                    (#[trigger] list[p]).path,
                    (#[trigger] next_level(list, m)[j]).path,
                    8,
                ),
    decreases m,
{
    if m > 0 {
        let n = list[m - 1];
        let rest = next_level(list, (m - 1) as nat);
        let last = present_children(n, 8);
        let all = next_level(list, m);
        lemma_next_level_ascends(list, (m - 1) as nat);
        lemma_present_children_ascend(n, 8);
        assert(all == rest + last);
        assert forall|j: int| 0 <= j < all.len() implies exists|p: int|
            0 <= p < m && continues((#[trigger] list[p]).path, (#[trigger] all[j]).path, 8) by {
            if j < rest.len() {
                let p = choose|p: int|
                    0 <= p < m - 1 && continues((#[trigger] list[p]).path, rest[j].path, 8);
                assert(all[j] == rest[j]);
                assert(continues(list[p].path, all[j].path, 8));
            } else {
                assert(all[j] == last[j - rest.len()]);
                assert(continues(list[m - 1].path, all[j].path, 8));
            }
        }
        assert forall|i: int, j: int| 0 <= i < j < all.len() implies path_less(
            (#[trigger] all[i]).path,
            (#[trigger] all[j]).path,
        ) by {
            if j < rest.len() {
                assert(all[i] == rest[i] && all[j] == rest[j]);
            } else if i >= rest.len() {
                assert(all[i] == last[i - rest.len()] && all[j] == last[j - rest.len()]);
            } else {
                let p = choose|p: int|
                    0 <= p < m - 1 && continues((#[trigger] list[p]).path, rest[i].path, 8);
                assert(all[i] == rest[i]);
                assert(all[j] == last[j - rest.len()]);
                assert(continues(n.path, all[j].path, 8));
                assert(path_less(list[p].path, list[m - 1].path));
                assert(all[i].path =~= list[p].path.push(all[i].path.last()));
                assert(all[j].path =~= n.path.push(all[j].path.last()));
                lemma_path_less_longer(list[p].path, n.path, all[i].path.last(), all[j].path.last());
            }
        }
    }
}

/// The nodes a number of levels below a well-formed node ascend.
pub proof fn lemma_level_nodes_ascend(r: NodeView, d: nat)
    requires
        r.wf(),
    ensures
        ascending(level_nodes(r, d)),
        wave_wf(level_nodes(r, d)),
    decreases d,
{
    if d > 0 {
        let above = level_nodes(r, (d - 1) as nat);
        lemma_level_nodes_ascend(r, (d - 1) as nat);
        lemma_next_level_ascends(above, above.len());
    }
    assert forall|i: int| 0 <= i < level_nodes(r, d).len() implies (#[trigger] level_nodes(
        r,
        d,
    )[i]).wf() by {
        lemma_level_nodes_wf(r, d, i);
    }
}

/// The nodes of a chunk of a well-formed node stand breadth first: a node
/// on a higher level before a node on a lower level, and the nodes of one
/// level in the order of the codes of their paths.
pub proof fn lemma_chunk_is_breadth_first(r: NodeView, levels: nat, i: int, j: int)
    requires
        r.wf(),
        0 <= i < j < chunk_nodes(r, levels).len(),
    ensures
        comes_before(chunk_nodes(r, levels)[i].path, chunk_nodes(r, levels)[j].path),
    decreases levels,
{
    if levels > 0 {
        let before = chunk_nodes(r, (levels - 1) as nat);
        let last = level_nodes(r, levels);
        if j < before.len() {
            lemma_chunk_is_breadth_first(r, (levels - 1) as nat, i, j);
        } else if i >= before.len() {
            lemma_level_nodes_ascend(r, levels);
            assert(chunk_nodes(r, levels)[i] == last[i - before.len()]);
            assert(chunk_nodes(r, levels)[j] == last[j - before.len()]);
        } else {
            lemma_chunk_nodes_wf(r, (levels - 1) as nat, i);
            lemma_level_nodes_wf(r, levels, j - before.len());
        }
    }
}

} // verus!
