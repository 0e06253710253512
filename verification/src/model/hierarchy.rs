//! The hierarchy encoder: a chunked binary index over the octree.

use crate::model::hierarchy::counting::{
    is_chunk, lemma_chunk_list_chunks, lemma_chunk_list_count, lemma_chunk_sound,
    lemma_record_count_grows, record_count,
};
use crate::model::hierarchy::layout::{
    chunk_nodes, chunks_between, chunks_of, lemma_chunk_list_is_between,
    lemma_chunk_nodes_first, lemma_chunk_nodes_wf, lemma_chunks_of_unfold,
    lemma_pending_chunks_prefix, level_nodes, next_level, pending_chunks, present_children,
};
use crate::model::hierarchy::records::{
    bit, BYTES_PER_NODE, child_mask, chunk_bytes, chunk_index, chunk_offset, chunk_size,
    deepest, deepest_in, hierarchy_bytes, is_proxy, kind_of, lemma_border_has_chunk,
    lemma_child_mask_bound, lemma_chunk_index_found, lemma_proxy_on_border, range_missing,
    record_at, target_of, type_code,
};
use crate::model::node::{Node, NodeView};
use crate::model::path::{copy_path, same_path};
use crate::model::tree::{subtree_sum, views, wave_wf};
use crate::writer::encoding::{put_u32_le, put_u64_le, u32_le_bytes, u64_le_bytes};
use crate::writer::ranges::NodeRanges;
use vstd::prelude::*;

pub mod counting;
pub mod coverage;
pub mod laws;
pub mod layout;
pub mod ownership;
pub mod records;

verus! {

/// The kind of a node record.
#[derive(Clone, Copy, Debug, PartialEq, Eq, Structural)]
pub enum Type {
    /// An inner node of its chunk that has children.
    Normal,
    /// A node without children.
    Leaf,
    /// A node on the lowest level of its chunk: its own chunk follows.
    Proxy,
}

/// The index of an octree.
pub struct Hierarchy {
    /// The number of levels of a chunk below its root.
    pub step_size: u8,
    /// The node records of all chunks, one chunk after the other.
    pub buffer: Vec<u8>,
    /// The number of bytes of the chunk of the root.
    pub first_chunk_size: i64,
    /// The largest level of a node.
    pub depth: u8,
}

/// The nodes of one chunk of the hierarchy.
pub struct HierarchyChunk<'a> {
    /// The path of the root of the chunk.
    pub name: Vec<u8>,
    /// The nodes of the chunk, level by level.
    pub nodes: Vec<&'a Node>,
}

impl<'a> View for HierarchyChunk<'a> {
    type V = Seq<NodeView>;

    open spec fn view(&self) -> Seq<NodeView> {
        views(self.nodes@)
    }
}

/// The values of a sequence of chunks.
pub open spec fn chunk_views(chunks: Seq<HierarchyChunk>) -> Seq<Seq<NodeView>> {
    Seq::new(chunks.len(), |i: int| chunks[i]@)
}

/// Gathers the chunk of `start`: `start` and its descendants down to
/// `levels` levels below it, level by level, each level in the order of
/// its paths.
pub fn gather_chunk<'a>(start: &'a Node, levels: usize) -> (chunk: HierarchyChunk<'a>)
    ensures
        chunk@ == chunk_nodes(start@, levels as nat),
        chunk.name@ == start.path@,
{
    let mut nodes: Vec<&'a Node> = vec![start];
    let mut current: Vec<&'a Node> = vec![start];
    assert(views(nodes@) =~= seq![start@]);
    assert(views(current@) =~= seq![start@]);
    let mut d: usize = 0;
    while d < levels
        invariant
            d <= levels,
            views(nodes@) == chunk_nodes(start@, d as nat),
            views(current@) == level_nodes(start@, d as nat),
        decreases levels - d,
    {
        let mut next: Vec<&'a Node> = Vec::new();
        let mut m: usize = 0;
        assert(views(next@) =~= next_level(views(current@), 0));
        while m < current.len()
            invariant
                m <= current@.len(),
                views(next@) == next_level(views(current@), m as nat),
            decreases current@.len() - m,
        {
            let node: &'a Node = current[m];
            let ghost before = views(next@);
            proof {
                node.lemma_view();
                assert(views(current@)[m as int] == node@);
            }
            let mut c: usize = 0;
            while c < node.children.len()
                invariant
                    c <= node.children@.len(),
                    node@.children.len() == node.children@.len(),
                    views(next@) == before + present_children(node@, c as nat),
                decreases node.children@.len() - c,
            {
                proof {
                    node.lemma_view();
                }
                match &node.children[c] {
                    Some(child) => {
                        let child_node: &'a Node = &**child;
                        let ghost listed = views(next@);
                        next.push(child_node);
                        assert(node@.children[c as int] == Some(child_node@));
                        assert(views(next@) =~= listed.push(child_node@));
                        assert(views(next@) =~= before + present_children(node@, (c + 1) as nat));
                    },
                    None => {
                        assert(node@.children[c as int] is None);
                    },
                }
                c += 1;
            }
            m += 1;
        }
        let mut e: usize = 0;
        let ghost gathered = views(nodes@);
        while e < next.len()
            invariant
                e <= next@.len(),
                views(nodes@) == gathered + views(next@).take(e as int),
            decreases next@.len() - e,
        {
            let ghost listed = views(nodes@);
            nodes.push(next[e]);
            assert(views(nodes@) =~= listed.push(next@[e as int]@));
            assert(views(nodes@) =~= gathered + views(next@).take(e + 1));
            e += 1;
        }
        assert(views(next@).take(e as int) =~= views(next@));
        current = next;
        d += 1;
    }
    HierarchyChunk { name: copy_path(&start.path), nodes }
}

/// Gathers the chunks of a tree: the chunk of the root, then, for each node
/// on the lowest level of a chunk, in the order of the paths, the chunk of
/// that node and all the chunks that follow from it.
pub fn create_hierarchy_chunks<'a>(root: &'a Node, hierarchy_step_size: usize) -> (chunks: Vec<
    HierarchyChunk<'a>,
>)
    requires
        root@.wf(),
        hierarchy_step_size >= 1,
    ensures
        chunk_views(chunks@) == chunks_of(root@, hierarchy_step_size as nat),
        forall|i: int|
            0 <= i < chunks@.len() ==> (#[trigger] chunks@[i])@.len() >= 1 && chunks@[i].name@
                == chunks@[i]@[0].path,
{
    let ghost step = hierarchy_step_size as nat;
    let mut hierarchy_chunks: Vec<HierarchyChunk<'a>> = Vec::new();
    let mut stack: Vec<&'a Node> = vec![root];
    proof {
        assert(views(stack@) =~= seq![root@]);
        assert(pending_chunks(views(stack@), 0, step) =~= Seq::<Seq<NodeView>>::empty());
        assert(pending_chunks(views(stack@), 1, step) =~= chunks_of(root@, step));
        assert(chunk_views(hierarchy_chunks@) =~= Seq::<Seq<NodeView>>::empty());
    }
    while stack.len() > 0
        invariant
            step == hierarchy_step_size,
            step >= 1,
            forall|i: int| 0 <= i < stack@.len() ==> (#[trigger] stack@[i])@.wf(),
            chunk_views(hierarchy_chunks@) + pending_chunks(
                views(stack@),
                stack@.len() as nat,
                step,
            ) == chunks_of(root@, step),
            forall|i: int|
                0 <= i < hierarchy_chunks@.len() ==> (#[trigger] hierarchy_chunks@[i])@.len() >= 1
                    && hierarchy_chunks@[i].name@ == hierarchy_chunks@[i]@[0].path,
        decreases pending_chunks(views(stack@), stack@.len() as nat, step).len(),
    {
        let ghost waiting = views(stack@);
        let chunk_root: &'a Node = stack.pop().unwrap();
        let ghost rest = views(stack@);
        let chunk = gather_chunk(chunk_root, hierarchy_step_size);
        let ghost r = chunk_root@;
        let ghost border = level_nodes(r, step);
        let ghost inner = chunk_nodes(r, (step - 1) as nat);
        proof {
            assert(waiting[waiting.len() - 1] == r);
            assert(rest =~= waiting.take(waiting.len() - 1));
            lemma_pending_chunks_prefix(rest, waiting, rest.len(), step);
            lemma_chunks_of_unfold(r, step);
            lemma_chunk_list_is_between(border, border.len(), step);
            lemma_chunk_nodes_first(r, step);
            chunk_root.lemma_view();
            assert(chunk@ =~= inner + border);
        }
        let mut j: usize = chunk.nodes.len();
        while j > 0
            invariant
                j <= chunk.nodes@.len(),
                r == chunk_root@,
                r.wf(),
                step == hierarchy_step_size,
                step >= 1,
                chunk@ == chunk_nodes(r, step),
                chunk@ == inner + border,
                inner == chunk_nodes(r, (step - 1) as nat),
                border == level_nodes(r, step),
                forall|i: int| 0 <= i < stack@.len() ==> (#[trigger] stack@[i])@.wf(),
                pending_chunks(views(stack@), stack@.len() as nat, step) == chunks_between(
                    border,
                    if j >= inner.len() {
                        j - inner.len()
                    } else {
                        0
                    },
                    border.len() as int,
                    step,
                ) + pending_chunks(rest, rest.len(), step),
            decreases j,
        {
            j -= 1;
            let node: &'a Node = chunk.nodes[j];
            proof {
                lemma_chunk_nodes_wf(r, step, j as int);
                assert(chunk@[j as int] == node@);
                node.lemma_view();
                chunk_root.lemma_view();
            }
            let is_proxy = node.level() - chunk_root.level() == hierarchy_step_size;
            if is_proxy {
                let ghost below = views(stack@);
                stack.push(node);
                proof {
                    let above = views(stack@);
                    assert(above =~= below.push(node@));
                    lemma_pending_chunks_prefix(below, above, below.len(), step);
                    assert(j >= inner.len());
                    assert(chunk@.len() == chunk.nodes@.len());
                    assert((inner + border).len() == inner.len() + border.len());
                    assert(j - inner.len() < border.len());
                    assert((inner + border)[j as int] == border[j - inner.len()]);
                    assert(border[j - inner.len()] == node@);
                    assert(pending_chunks(above, above.len(), step) == chunks_of(node@, step)
                        + pending_chunks(below, below.len(), step));
                    assert(chunks_between(border, j - inner.len(), border.len() as int, step)
                        == chunks_of(node@, step) + chunks_between(
                        border,
                        j - inner.len() + 1,
                        border.len() as int,
                        step,
                    ));
                    assert(pending_chunks(above, above.len(), step) =~= chunks_between(
                        border,
                        j - inner.len(),
                        border.len() as int,
                        step,
                    ) + pending_chunks(rest, rest.len(), step));
                }
            }
        }
        proof {
            assert(chunk_views(hierarchy_chunks@.push(chunk)) =~= chunk_views(hierarchy_chunks@)
                + seq![chunk@]);
            assert(pending_chunks(waiting, waiting.len(), step) == chunks_of(r, step)
                + pending_chunks(rest, rest.len(), step));
            assert(chunk_views(hierarchy_chunks@.push(chunk)) + (chunks_between(
                border,
                0,
                border.len() as int,
                step,
            ) + pending_chunks(rest, rest.len(), step)) =~= chunks_of(root@, step));
        }
        hierarchy_chunks.push(chunk);
    }
    proof {
        assert(pending_chunks(views(stack@), 0, step) =~= Seq::<Seq<NodeView>>::empty());
        assert(chunk_views(hierarchy_chunks@) =~= chunks_of(root@, step));
    }
    hierarchy_chunks
}

/// The number of levels of a chunk below its root.
pub const HIERARCHY_STEP_SIZE: u8 = 4;

/// Why no hierarchy was encoded.
#[derive(Clone, Copy, Debug, PartialEq, Eq, Structural)]
pub enum HierarchyError {
    /// A node that is no proxy has no byte range: the point data and the
    /// tree do not belong together.
    MissingByteRange,
    /// A node is on a level above 255, which the depth of a hierarchy
    /// cannot hold.
    TooDeep,
}

impl Type {
    /// The byte that stands for the kind in a node record.
    pub fn code(&self) -> (c: u8)
        ensures
            c == type_code(*self),
    {
        match self {
            Type::Normal => 0,
            Type::Leaf => 1,
            Type::Proxy => 2,
        }
    }
}

/// One shifted left by `i` is two to the power `i`.
proof fn lemma_shift_is_bit(i: u8)
    requires
        i < 8,
    ensures
        (1u8 << i) == bit(i as nat),
{
    reveal_with_fuel(bit, 9);
    assert(1u8 << 0u8 == 1) by (bit_vector);
    assert(1u8 << 1u8 == 2) by (bit_vector);
    assert(1u8 << 2u8 == 4) by (bit_vector);
    assert(1u8 << 3u8 == 8) by (bit_vector);
    assert(1u8 << 4u8 == 16) by (bit_vector);
    assert(1u8 << 5u8 == 32) by (bit_vector);
    assert(1u8 << 6u8 == 64) by (bit_vector);
    assert(1u8 << 7u8 == 128) by (bit_vector);
}

/// The child mask of a node: bit `i` is set where the node has a child in
/// slot `i`.
pub fn child_mask_of(node: &Node) -> (mask: u8)
    requires
        node@.children.len() == 8,
    ensures
        mask == child_mask(node@, 8),
{
    proof {
        node.lemma_view();
    }
    let mut mask: u8 = 0;
    let mut i: u8 = 0;
    while i < 8
        invariant
            i <= 8,
            node.children@.len() == 8,
            node@.children.len() == 8,
            mask == child_mask(node@, i as nat),
        decreases 8 - i,
    {
        proof {
            node.lemma_view();
            lemma_child_mask_bound(node@, i as nat);
            lemma_shift_is_bit(i);
        }
        let child = &node.children[i as usize];
        if child.is_some() {
            let flag: u8 = 1u8 << i;
            assert((mask | flag) == mask + flag) by (bit_vector)
                requires
                    i < 8,
                    flag == 1u8 << i,
                    mask < flag,
            ;
            mask = mask | flag;
            assert(node@.children[i as int] is Some);
        } else {
            assert(node@.children[i as int] is None);
        }
        i += 1;
    }
    mask
}

/// The index of the first chunk whose root has the given path, or the
/// number of chunks if there is none.
fn find_chunk(chunks: &Vec<HierarchyChunk>, path: &Vec<u8>) -> (index: usize)
    requires
        forall|i: int|
            0 <= i < chunks@.len() ==> (#[trigger] chunks@[i])@.len() >= 1 && chunks@[i].name@
                == chunks@[i]@[0].path,
    ensures
        index == chunk_index(chunk_views(chunks@), path@, 0),
        index <= chunks@.len(),
{
    let ghost all = chunk_views(chunks@);
    let mut j: usize = 0;
    while j < chunks.len()
        invariant
            j <= chunks@.len(),
            all == chunk_views(chunks@),
            forall|i: int|
                0 <= i < chunks@.len() ==> (#[trigger] chunks@[i])@.len() >= 1 && chunks@[i].name@
                    == chunks@[i]@[0].path,
            chunk_index(all, path@, 0) == chunk_index(all, path@, j as nat),
        decreases chunks@.len() - j,
    {
        assert(all[j as int] == chunks@[j as int]@);
        if same_path(&chunks[j].name, path) {
            return j;
        }
        j += 1;
    }
    j
}

/// The largest number of node records of the hierarchy of a tree with a
/// 32-bit number of points.
pub const MAX_RECORDS: u64 = 68_719_476_721;

/// Whether the chunks are those of the tree, each with the path of its root
/// as its name, and the offsets are those of the chunks in the hierarchy.
#[verifier::opaque]
pub open spec fn laid_out(
    chunks: Seq<HierarchyChunk>,
    offsets: Seq<u64>,
    root: NodeView,
) -> bool {
    let step = HIERARCHY_STEP_SIZE as nat;
    let all = chunk_views(chunks);
    &&& all == chunks_of(root, step)
    &&& record_count(all, all.len()) <= MAX_RECORDS
    &&& forall|j: int| 0 <= j < all.len() ==> is_chunk(#[trigger] all[j], step, u32::MAX as nat)
    &&& forall|j: int|
        0 <= j < chunks.len() ==> (#[trigger] chunks[j])@.len() >= 1 && chunks[j].name@
            == chunks[j]@[0].path
    &&& offsets.len() == chunks.len()
    &&& forall|j: int|
        0 <= j < chunks.len() ==> #[trigger] offsets[j] == chunk_offset(all, j as nat)
}

/// Appends the record of a node to the hierarchy.
fn push_record(
    buffer: &mut Vec<u8>,
    kind: Type,
    child_mask: u8,
    num_points: u32,
    target_offset: u64,
    target_size: u64,
)
    ensures
        final(buffer)@ == old(buffer)@ + (seq![type_code(kind), child_mask] + u32_le_bytes(
            num_points,
        ) + u64_le_bytes(target_offset) + u64_le_bytes(target_size)),
{
    let ghost before = buffer@;
    buffer.push(kind.code());
    buffer.push(child_mask);
    put_u32_le(buffer, num_points);
    put_u64_le(buffer, target_offset);
    put_u64_le(buffer, target_size);
    assert(buffer@ =~= before + (seq![type_code(kind), child_mask] + u32_le_bytes(num_points)
        + u64_le_bytes(target_offset) + u64_le_bytes(target_size)));
}

/// The offset and the size of the chunk to which the proxy `k` of the chunk
/// `i` points.
fn proxy_target(
    chunks: &Vec<HierarchyChunk>,
    chunk_byte_offsets: &Vec<u64>,
    i: usize,
    k: usize,
    Ghost(root): Ghost<NodeView>,
    Ghost(ranges): Ghost<Map<Seq<u8>, (u64, u64)>>,
) -> (target: (u64, u64))
    requires
        laid_out(chunks@, chunk_byte_offsets@, root),
        i < chunks@.len(),
        k < chunks@[i as int].nodes@.len(),
        is_proxy(chunk_views(chunks@)[i as int], k as int, HIERARCHY_STEP_SIZE as nat),
    ensures
        target == target_of(
            chunk_views(chunks@),
            ranges,
            i as int,
            k as int,
            HIERARCHY_STEP_SIZE as nat,
        ),
{
    reveal(laid_out);
    let ghost step = HIERARCHY_STEP_SIZE as nat;
    let ghost bound = u32::MAX as nat;
    let ghost all = chunk_views(chunks@);
    let node: &Node = chunks[i].nodes[k];
    let ghost n = node@;
    proof {
        assert(all[i as int] == chunks@[i as int]@);
        assert(all[i as int][k as int] == n);
        node.lemma_view();
    }
    let target_chunk_index = find_chunk(chunks, &node.path);
    proof {
        lemma_proxy_on_border(all[i as int], step, bound, k as int);
        let t = k - chunk_nodes(
            all[i as int][0],
            (step - 1) as nat,
        ).len();
        lemma_border_has_chunk(seq![root], 1, step, i as int, t);
        let j = choose|j: int| 0 <= j < all.len() && (#[trigger] all[j])[0] == n;
        lemma_chunk_index_found(all, n.path, 0, j);
        lemma_record_count_grows(all, (target_chunk_index + 1) as nat, all.len());
        assert(all[target_chunk_index as int] == chunks@[target_chunk_index as int]@);
    }
    (
        chunk_byte_offsets[target_chunk_index],
        BYTES_PER_NODE as u64 * chunks[target_chunk_index].nodes.len() as u64,
    )
}

/// The offsets of the chunks in the hierarchy.
fn chunk_offsets(chunks: &Vec<HierarchyChunk>, Ghost(root): Ghost<NodeView>) -> (offsets: Vec<u64>)
    requires
        root.wf(),
        root.subtree_points() <= u32::MAX,
        chunk_views(chunks@) == chunks_of(root, HIERARCHY_STEP_SIZE as nat),
        forall|j: int|
            0 <= j < chunks@.len() ==> (#[trigger] chunks@[j])@.len() >= 1 && chunks@[j].name@
                == chunks@[j]@[0].path,
    ensures
        laid_out(chunks@, offsets@, root),
        chunks@.len() >= 1,
        chunk_size(chunk_views(chunks@)[0]) <= BYTES_PER_NODE * MAX_RECORDS,
{
    reveal(laid_out);
    let ghost step = HIERARCHY_STEP_SIZE as nat;
    let ghost bound = u32::MAX as nat;
    let ghost all = chunk_views(chunks@);
    proof {
        assert(wave_wf(seq![root]));
        lemma_chunk_list_count(seq![root], 1, step);
        assert(subtree_sum(seq![root], 0) == 0);
        assert(subtree_sum(seq![root], 1) == root.subtree_points());
        assert forall|i: int| 0 <= i < all.len() implies is_chunk(#[trigger] all[i], step, bound) by {
            lemma_chunk_list_chunks(seq![root], 1, step, bound, i);
        }
        lemma_chunks_of_unfold(root, step);
        lemma_record_count_grows(all, 1, all.len());
        assert(record_count(all, 0) == 0);
    }
    let mut chunk_byte_offsets: Vec<u64> = Vec::new();
    let mut hierarchy_buffer_size: u64 = 0;
    let mut i: usize = 0;
    while i < chunks.len()
        invariant
            i <= chunks@.len(),
            all == chunk_views(chunks@),
            record_count(all, all.len()) <= MAX_RECORDS,
            chunk_byte_offsets@.len() == i,
            forall|j: int|
                0 <= j < i ==> #[trigger] chunk_byte_offsets@[j] == chunk_offset(all, j as nat),
            hierarchy_buffer_size == chunk_offset(all, i as nat),
        decreases chunks@.len() - i,
    {
        proof {
            lemma_record_count_grows(all, (i + 1) as nat, all.len());
            assert(all[i as int] == chunks@[i as int]@);
            assert(all[i as int].len() == chunks@[i as int].nodes@.len());
        }
        chunk_byte_offsets.push(hierarchy_buffer_size);
        hierarchy_buffer_size += BYTES_PER_NODE as u64 * chunks[i].nodes.len() as u64;
        i += 1;
    }
    chunk_byte_offsets
}

/// Appends the records of the chunk `i` to the hierarchy and returns the
/// largest level of a node of the chunk, or nothing where a node that is no
/// proxy has no byte range.
fn encode_chunk(
    buffer: &mut Vec<u8>,
    chunks: &Vec<HierarchyChunk>,
    chunk_byte_offsets: &Vec<u64>,
    node_hierarchy: &NodeRanges,
    i: usize,
    Ghost(root): Ghost<NodeView>,
) -> (deepest: Option<usize>)
    requires
        laid_out(chunks@, chunk_byte_offsets@, root),
        i < chunks@.len(),
    ensures
        deepest is Some ==> final(buffer)@ == old(buffer)@ + chunk_bytes(
            chunk_views(chunks@),
            node_hierarchy@,
            i as int,
            chunk_views(chunks@)[i as int].len(),
            HIERARCHY_STEP_SIZE as nat,
        ),
        deepest is Some ==> deepest->0 == deepest_in(
            chunk_views(chunks@)[i as int],
            chunk_views(chunks@)[i as int].len(),
        ),
        deepest is Some <==> forall|b: int|
            0 <= b < chunk_views(chunks@)[i as int].len() && !is_proxy(
                chunk_views(chunks@)[i as int],
                b,
                HIERARCHY_STEP_SIZE as nat,
            ) ==> node_hierarchy@.contains_key(#[trigger] chunk_views(chunks@)[i as int][b].path),
{
    let ghost step = HIERARCHY_STEP_SIZE as nat;
    let ghost ranges = node_hierarchy@;
    let ghost all = chunk_views(chunks@);
    let ghost c = all[i as int];
    let ghost emitted = buffer@;
    let chunk = &chunks[i];
    let chunk_level = chunk.name.len();
    proof {
        reveal(laid_out);
        assert(c == chunk@);
        assert(c.len() == chunk.nodes@.len());
    }
    let mut depth: usize = 0;
    let mut k: usize = 0;
    while k < chunk.nodes.len()
        invariant
            k <= chunk.nodes@.len(),
            i < chunks@.len(),
            chunk == chunks@[i as int],
            chunk_level == c[0].path.len(),
            c == all[i as int],
            c == chunk@,
            all == chunk_views(chunks@),
            step == HIERARCHY_STEP_SIZE,
            ranges == node_hierarchy@,
            is_chunk(c, step, u32::MAX as nat),
            laid_out(chunks@, chunk_byte_offsets@, root),
            buffer@ == emitted + chunk_bytes(all, ranges, i as int, k as nat, step),
            depth == deepest_in(c, k as nat),
            forall|b: int|
                0 <= b < k && !is_proxy(c, b, step) ==> ranges.contains_key(#[trigger] c[b].path),
        decreases chunk.nodes@.len() - k,
    {
        let node: &Node = chunk.nodes[k];
        let ghost n = node@;
        proof {
            assert(c[k as int] == n);
            lemma_chunk_sound(c, step, u32::MAX as nat, k as int);
            node.lemma_view();
        }
        let is_proxy_node = node.level() - chunk_level == HIERARCHY_STEP_SIZE as usize;
        let child_mask = child_mask_of(node);
        let num_points: u32 = node.num_points() as u32;
        let mut node_type = if node.is_leaf_node() {
            Type::Leaf
        } else {
            Type::Normal
        };
        let target_offset: u64;
        let target_size: u64;
        if is_proxy_node {
            let (offset, size) = proxy_target(
                chunks,
                chunk_byte_offsets,
                i,
                k,
                Ghost(root),
                Ghost(ranges),
            );
            node_type = Type::Proxy;
            target_offset = offset;
            target_size = size;
        } else {
            match node_hierarchy.get(&node.path) {
                Some((byte_size, byte_offset)) => {
                    target_offset = byte_offset;
                    target_size = byte_size;
                },
                None => {
                    assert(!ranges.contains_key(c[k as int].path));
                    return None;
                },
            }
        }
        let ghost before = buffer@;
        push_record(buffer, node_type, child_mask, num_points, target_offset, target_size);
        proof {
            assert(node_type == kind_of(n, is_proxy_node));
            assert(target_of(all, ranges, i as int, k as int, step) == (target_offset, target_size));
            assert(buffer@ == before + record_at(all, ranges, i as int, k as int, step));
            assert(buffer@ =~= emitted + chunk_bytes(
                all,
                ranges,
                i as int,
                (k + 1) as nat,
                step,
            ));
        }
        if node.level() > depth {
            depth = node.level();
        }
        k += 1;
    }
    Some(depth)
}

/// The error with which a tree and the byte ranges of its nodes are
/// rejected, if they are: a node that is no proxy has to have a byte range,
/// and no node may be on a level above 255.
pub open spec fn rejection(root: NodeView, ranges: Map<Seq<u8>, (u64, u64)>) -> Option<
    HierarchyError,
> {
    let chunks = chunks_of(root, HIERARCHY_STEP_SIZE as nat);
    if range_missing(chunks, ranges, chunks.len(), HIERARCHY_STEP_SIZE as nat) {
        Some(HierarchyError::MissingByteRange)
    } else if deepest(chunks, chunks.len()) > u8::MAX {
        Some(HierarchyError::TooDeep)
    } else {
        None
    }
}

/// Whether the hierarchy is that of the tree: its buffer holds the records
/// of the chunks of the tree, one chunk after the other, and its numbers
/// are the step size, the size of the chunk of the root, and the largest
/// level of a node.
pub open spec fn is_hierarchy_of(
    hierarchy: Hierarchy,
    root: NodeView,
    ranges: Map<Seq<u8>, (u64, u64)>,
) -> bool {
    let chunks = chunks_of(root, HIERARCHY_STEP_SIZE as nat);
    &&& hierarchy.buffer@ == hierarchy_bytes(
        chunks,
        ranges,
        chunks.len(),
        HIERARCHY_STEP_SIZE as nat,
    )
    &&& hierarchy.step_size == HIERARCHY_STEP_SIZE
    &&& hierarchy.first_chunk_size == chunk_size(chunks[0])
    &&& hierarchy.depth == deepest(chunks, chunks.len())
}

/// Encodes the hierarchy of a tree: the chunks of the tree one after the
/// other, each as the records of its nodes. The record of a proxy points to
/// the chunk of its node in the hierarchy; every other record points to
/// the points of its node in the point data, as `node_hierarchy` has them.
pub fn create_hierarchy(root: &Node, node_hierarchy: NodeRanges) -> (result: Result<
    Hierarchy,
    HierarchyError,
>)
    requires
        root@.wf(),
        root@.subtree_points() <= u32::MAX,
    ensures
        match result {
            Ok(hierarchy) => rejection(root@, node_hierarchy@) is None && is_hierarchy_of(
                hierarchy,
                root@,
                node_hierarchy@,
            ),
            Err(e) => rejection(root@, node_hierarchy@) == Some(e),
        },
{
    let ghost step = HIERARCHY_STEP_SIZE as nat;
    let ghost ranges = node_hierarchy@;
    let chunks = create_hierarchy_chunks(root, HIERARCHY_STEP_SIZE as usize);
    let ghost all = chunk_views(chunks@);
    let chunk_byte_offsets = chunk_offsets(&chunks, Ghost(root@));
    let mut hierarchy_buffer: Vec<u8> = Vec::new();
    let mut depth: usize = 0;
    let mut i: usize = 0;
    while i < chunks.len()
        invariant
            i <= chunks@.len(),
            step == HIERARCHY_STEP_SIZE,
            ranges == node_hierarchy@,
            all == chunk_views(chunks@),
            all == chunks_of(root@, step),
            laid_out(chunks@, chunk_byte_offsets@, root@),
            hierarchy_buffer@ == hierarchy_bytes(all, ranges, i as nat, step),
            depth == deepest(all, i as nat),
            forall|a: int, b: int|
                0 <= a < i && 0 <= b < all[a].len() && !is_proxy(all[a], b, step)
                    ==> ranges.contains_key(#[trigger] all[a][b].path),
        decreases chunks@.len() - i,
    {
        match encode_chunk(
            &mut hierarchy_buffer,
            &chunks,
            &chunk_byte_offsets,
            &node_hierarchy,
            i,
            Ghost(root@),
        ) {
            None => {
                proof {
                    let b = choose|b: int|
                        0 <= b < all[i as int].len() && !is_proxy(all[i as int], b, step)
                            && !ranges.contains_key(#[trigger] all[i as int][b].path);
                    assert(!ranges.contains_key(all[i as int][b].path));
                    assert(range_missing(all, ranges, all.len(), step));
                }
                return Err(HierarchyError::MissingByteRange);
            },
            Some(deepest_in_chunk) => {
                if deepest_in_chunk > depth {
                    depth = deepest_in_chunk;
                }
            },
        }
        i += 1;
    }
    proof {
        if range_missing(all, ranges, all.len(), step) {
            let (a, b) = choose|a: int, b: int|
                0 <= a < all.len() && 0 <= b < all[a].len() && !is_proxy(all[a], b, step)
                    && !ranges.contains_key(#[trigger] all[a][b].path);
            assert(ranges.contains_key(all[a][b].path));
        }
        assert(all[0] == chunks@[0]@);
    }
    if depth > u8::MAX as usize {
        return Err(HierarchyError::TooDeep);
    }
    Ok(
        Hierarchy {
            step_size: HIERARCHY_STEP_SIZE,
            buffer: hierarchy_buffer,
            first_chunk_size: (chunks[0].nodes.len() as u64 * BYTES_PER_NODE as u64) as i64,
            depth: depth as u8,
        },
    )
}

} // verus!
