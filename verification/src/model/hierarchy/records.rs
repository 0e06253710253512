//! The node records of a hierarchy and where each of them points.

use crate::model::hierarchy::counting::{is_chunk, record_count};
use crate::model::hierarchy::layout::{
    chunk_list, chunk_nodes, lemma_chunk_nodes_first, lemma_chunk_nodes_wf,
    lemma_level_nodes_lower, level_nodes,
};
use crate::model::hierarchy::Type;
use crate::model::node::NodeView;
use crate::model::tree::wave_height;
use crate::writer::encoding::{
    byte_range, le_value, lemma_le_bytes_len, lemma_le_bytes_value, u32_le_bytes, u64_le_bytes,
};
use vstd::prelude::*;

verus! {

/// The number of bytes of a node record: kind, child mask, number of
/// points, target offset, target size.
pub const BYTES_PER_NODE: usize = 22;

/// The byte that stands for a kind of record.
pub open spec fn type_code(kind: Type) -> u8 {
    match kind {
        Type::Normal => 0,
        Type::Leaf => 1,
        Type::Proxy => 2,
    }
}

/// Two to the power `i`.
pub open spec fn bit(i: nat) -> nat
    decreases i,
{
    if i == 0 {
        1
    } else {
        2 * bit((i - 1) as nat)
    }
}

/// The child mask of the slots `0..k`: bit `i` is set where slot `i` holds
/// a child.
pub open spec fn child_mask(n: NodeView, k: nat) -> nat
    decreases k,
{
    if k == 0 {
        0
    } else {
        child_mask(n, (k - 1) as nat) + if n.children[k - 1] is Some {
            bit((k - 1) as nat)
        } else {
            0
        }
    }
}

/// The mask of the slots `0..k` is below two to the power `k`.
pub proof fn lemma_child_mask_bound(n: NodeView, k: nat)
    ensures
        child_mask(n, k) < bit(k),
    decreases k,
{
    if k > 0 {
        lemma_child_mask_bound(n, (k - 1) as nat);
    }
}

/// The kind of the record of a node: a proxy on the lowest level of its
/// chunk, else a leaf or a normal node.
pub open spec fn kind_of(n: NodeView, proxy: bool) -> Type {
    if proxy {
        Type::Proxy
    } else if n.is_leaf() {
        Type::Leaf
    } else {
        Type::Normal
    }
}

/// The record of a node.
pub open spec fn record_of(n: NodeView, proxy: bool, target_offset: u64, target_size: u64) -> Seq<
    u8,
> {
    seq![type_code(kind_of(n, proxy)), child_mask(n, 8) as u8] + u32_le_bytes(
        n.num_points() as u32,
    ) + u64_le_bytes(target_offset) + u64_le_bytes(target_size)
}

/// A record has 22 bytes.
pub proof fn lemma_record_len(n: NodeView, proxy: bool, target_offset: u64, target_size: u64)
    ensures
        record_of(n, proxy, target_offset, target_size).len() == BYTES_PER_NODE,
{
    lemma_le_bytes_len(n.num_points() as u32 as nat, 4);
    lemma_le_bytes_len(target_offset as nat, 8);
    lemma_le_bytes_len(target_size as nat, 8);
}

/// The kind, the target offset and the target size that the bytes of a
/// record hold.
pub open spec fn record_target(record: Seq<u8>) -> (u8, nat, nat) {
    (record[0], le_value(record.subrange(6, 14)), le_value(record.subrange(14, 22)))
}

/// What is read back from a record is what was written to it.
pub proof fn lemma_record_target(n: NodeView, proxy: bool, target_offset: u64, target_size: u64)
    ensures
        record_target(record_of(n, proxy, target_offset, target_size)) == (
            type_code(kind_of(n, proxy)),
            target_offset as nat,
            target_size as nat,
        ),
{
    let record = record_of(n, proxy, target_offset, target_size);
    lemma_le_bytes_len(n.num_points() as u32 as nat, 4);
    lemma_le_bytes_len(target_offset as nat, 8);
    lemma_le_bytes_len(target_size as nat, 8);
    assert(record.subrange(6, 14) =~= u64_le_bytes(target_offset));
    assert(record.subrange(14, 22) =~= u64_le_bytes(target_size));
    assert(byte_range(8) == 0x1_0000_0000_0000_0000) by {
        reveal_with_fuel(byte_range, 9);
    }
    lemma_le_bytes_value(target_offset as nat, 8);
    lemma_le_bytes_value(target_size as nat, 8);
}

/// The index of the first chunk from `from` on whose root has the given
/// path, or the number of chunks if there is none.
pub open spec fn chunk_index(chunks: Seq<Seq<NodeView>>, path: Seq<u8>, from: nat) -> nat
    decreases chunks.len() - from,
{
    if from >= chunks.len() {
        from
    } else if chunks[from as int][0].path == path {
        from
    } else {
        chunk_index(chunks, path, from + 1)
    }
}

/// Where a chunk has the path, the first such chunk is found.
pub proof fn lemma_chunk_index_found(chunks: Seq<Seq<NodeView>>, path: Seq<u8>, from: nat, j: int)
    requires
        from <= j < chunks.len(),
        chunks[j][0].path == path,
    ensures
        from <= chunk_index(chunks, path, from) <= j,
        chunks[chunk_index(chunks, path, from) as int][0].path == path,
    decreases chunks.len() - from,
{
    if chunks[from as int][0].path != path {
        lemma_chunk_index_found(chunks, path, from + 1, j);
    }
}

/// Whether the node `k` of the chunk is on the lowest level of the chunk.
pub open spec fn is_proxy(c: Seq<NodeView>, k: int, step: nat) -> bool {
    c[k].path.len() == c[0].path.len() + step
}

/// The offset of the chunk `i` in the hierarchy.
pub open spec fn chunk_offset(chunks: Seq<Seq<NodeView>>, i: nat) -> nat {
    BYTES_PER_NODE as nat * record_count(chunks, i)
}

/// The number of bytes of a chunk.
pub open spec fn chunk_size(c: Seq<NodeView>) -> nat {
    BYTES_PER_NODE as nat * c.len()
}

/// The offset and the size to which the record of the node `k` of the
/// chunk `i` points: for a proxy the chunk of the node in the hierarchy,
/// else the points of the node in the point data.
pub open spec fn target_of(
    chunks: Seq<Seq<NodeView>>,
    ranges: Map<Seq<u8>, (u64, u64)>,
    i: int,
    k: int,
    step: nat,
) -> (u64, u64) {
    let path = chunks[i][k].path;
    if is_proxy(chunks[i], k, step) {
        let j = chunk_index(chunks, path, 0);
        (chunk_offset(chunks, j) as u64, chunk_size(chunks[j as int]) as u64)
    } else {
        (ranges[path].1, ranges[path].0)
    }
}

/// The record of the node `k` of the chunk `i`.
pub open spec fn record_at(
    chunks: Seq<Seq<NodeView>>,
    ranges: Map<Seq<u8>, (u64, u64)>,
    i: int,
    k: int,
    step: nat,
) -> Seq<u8> {
    record_of(
        chunks[i][k],
        is_proxy(chunks[i], k, step),
        target_of(chunks, ranges, i, k, step).0,
        target_of(chunks, ranges, i, k, step).1,
    )
}

/// The records of the first `k` nodes of the chunk `i`.
pub open spec fn chunk_bytes(
    chunks: Seq<Seq<NodeView>>,
    ranges: Map<Seq<u8>, (u64, u64)>,
    i: int,
    k: nat,
    step: nat,
) -> Seq<u8>
    decreases k,
{
    if k == 0 {
        Seq::empty()
    } else {
        chunk_bytes(chunks, ranges, i, (k - 1) as nat, step) + record_at(
            chunks,
            ranges,
            i,
            k - 1,
            step,
        )
    }
}

/// The records of the first `n` chunks, one chunk after the other.
pub open spec fn hierarchy_bytes(
    chunks: Seq<Seq<NodeView>>,
    ranges: Map<Seq<u8>, (u64, u64)>,
    n: nat,
    step: nat,
) -> Seq<u8>
    decreases n,
{
    if n == 0 {
        Seq::empty()
    } else {
        hierarchy_bytes(chunks, ranges, (n - 1) as nat, step) + chunk_bytes(
            chunks,
            ranges,
            n - 1,
            chunks[n - 1].len(),
            step,
        )
    }
}

/// The records of `k` nodes have 22 bytes each.
pub proof fn lemma_chunk_bytes_len(
    chunks: Seq<Seq<NodeView>>,
    ranges: Map<Seq<u8>, (u64, u64)>,
    i: int,
    k: nat,
    step: nat,
)
    ensures
        chunk_bytes(chunks, ranges, i, k, step).len() == BYTES_PER_NODE * k,
    decreases k,
{
    if k > 0 {
        lemma_chunk_bytes_len(chunks, ranges, i, (k - 1) as nat, step);
        lemma_record_len(
            chunks[i][k - 1],
            is_proxy(chunks[i], k - 1, step),
            target_of(chunks, ranges, i, k - 1, step).0,
            target_of(chunks, ranges, i, k - 1, step).1,
        );
    }
}

/// The chunk `n` starts at its offset: the records of the chunks before it
/// have as many bytes.
pub proof fn lemma_hierarchy_bytes_len(
    chunks: Seq<Seq<NodeView>>,
    ranges: Map<Seq<u8>, (u64, u64)>,
    n: nat,
    step: nat,
)
    ensures
        hierarchy_bytes(chunks, ranges, n, step).len() == chunk_offset(chunks, n),
    decreases n,
{
    if n > 0 {
        lemma_hierarchy_bytes_len(chunks, ranges, (n - 1) as nat, step);
        lemma_chunk_bytes_len(chunks, ranges, n - 1, chunks[n - 1].len(), step);
    }
}

/// Whether a record of the first `n` chunks that is no proxy is that of a
/// node without a byte range.
pub open spec fn range_missing(
    chunks: Seq<Seq<NodeView>>,
    ranges: Map<Seq<u8>, (u64, u64)>,
    n: nat,
    step: nat,
) -> bool {
    exists|i: int, k: int|
        0 <= i < n && 0 <= k < chunks[i].len() && !is_proxy(chunks[i], k, step)
            && !ranges.contains_key(#[trigger] chunks[i][k].path)
}

/// The largest level of the first `k` nodes of a chunk, 0 for none.
pub open spec fn deepest_in(c: Seq<NodeView>, k: nat) -> nat
    decreases k,
{
    if k == 0 {
        0
    } else {
        let rest = deepest_in(c, (k - 1) as nat);
        if c[k - 1].path.len() > rest {
            c[k - 1].path.len()
        } else {
            rest
        }
    }
}

/// The largest level of a node of the first `n` chunks, 0 for none.
pub open spec fn deepest(chunks: Seq<Seq<NodeView>>, n: nat) -> nat
    decreases n,
{
    if n == 0 {
        0
    } else {
        let rest = deepest(chunks, (n - 1) as nat);
        let last = deepest_in(chunks[n - 1], chunks[n - 1].len());
        if last > rest {
            last
        } else {
            rest
        }
    }
}

/// Each of the first `k` nodes of a list is the root of one of the chunks
/// that follow from them.
pub proof fn lemma_roots_have_chunks(roots: Seq<NodeView>, k: nat, step: nat, t: int)
    requires
        0 <= t < k <= roots.len(),
        step >= 1,
    ensures
        exists|j: int|
            0 <= j < chunk_list(roots, k, step).len() && (#[trigger] chunk_list(
                roots,
                k,
                step,
            )[j])[0] == roots[t],
    decreases k,
{
    let r = roots[k - 1];
    let border = level_nodes(r, step);
    let before = chunk_list(roots, (k - 1) as nat, step);
    lemma_chunk_nodes_first(r, step);
    if t < k - 1 {
        lemma_roots_have_chunks(roots, (k - 1) as nat, step, t);
        let j = choose|j: int| 0 <= j < before.len() && (#[trigger] before[j])[0] == roots[t];
        assert(chunk_list(roots, k, step)[j] == before[j]);
    } else {
        assert(chunk_list(roots, k, step)[before.len() as int] == chunk_nodes(r, step));
    }
}

/// Every node on the lowest level of a chunk is the root of a chunk.
pub proof fn lemma_border_has_chunk(roots: Seq<NodeView>, k: nat, step: nat, i: int, t: int)
    requires
        k <= roots.len(),
        step >= 1,
        0 <= i < chunk_list(roots, k, step).len(),
        0 <= t < level_nodes(chunk_list(roots, k, step)[i][0], step).len(),
    ensures
        exists|j: int|
            0 <= j < chunk_list(roots, k, step).len() && (#[trigger] chunk_list(
                roots,
                k,
                step,
            )[j])[0] == level_nodes(chunk_list(roots, k, step)[i][0], step)[t],
    decreases wave_height(roots), k,
{
    if k > 0 {
        let all = chunk_list(roots, k, step);
        let r = roots[k - 1];
        let border = level_nodes(r, step);
        let before = chunk_list(roots, (k - 1) as nat, step);
        let after = chunk_list(border, border.len(), step);
        let wanted = level_nodes(all[i][0], step)[t];
        lemma_level_nodes_lower(roots, k - 1, step);
        lemma_chunk_nodes_first(r, step);
        if i < before.len() {
            lemma_border_has_chunk(roots, (k - 1) as nat, step, i, t);
            let j = choose|j: int| 0 <= j < before.len() && (#[trigger] before[j])[0] == wanted;
            assert(all[j] == before[j]);
        } else if i == before.len() {
            assert(all[i] == chunk_nodes(r, step));
            lemma_roots_have_chunks(border, border.len(), step, t);
            let j = choose|j: int| 0 <= j < after.len() && (#[trigger] after[j])[0] == border[t];
            assert(all[before.len() + 1 + j] == after[j]);
        } else {
            assert(all[i] == after[i - before.len() - 1]);
            lemma_border_has_chunk(border, border.len(), step, i - before.len() - 1, t);
            let j = choose|j: int| 0 <= j < after.len() && (#[trigger] after[j])[0] == wanted;
            assert(all[before.len() + 1 + j] == after[j]);
        }
    }
}

/// A proxy of a chunk of a well-formed node is a node of the lowest level
/// of the chunk.
pub proof fn lemma_proxy_on_border(c: Seq<NodeView>, step: nat, bound: nat, k: int)
    requires
        is_chunk(c, step, bound),
        step >= 1,
        0 <= k < c.len(),
        is_proxy(c, k, step),
    ensures
        k >= chunk_nodes(c[0], (step - 1) as nat).len(),
        k - chunk_nodes(c[0], (step - 1) as nat).len() < level_nodes(c[0], step).len(),
        c[k] == level_nodes(c[0], step)[k - chunk_nodes(c[0], (step - 1) as nat).len()],
{
    lemma_chunk_nodes_wf(c[0], step, k);
    let inner = chunk_nodes(c[0], (step - 1) as nat);
    let border = level_nodes(c[0], step);
    assert(c == inner + border);
    assert(c.len() == inner.len() + border.len());
}

} // verus!
