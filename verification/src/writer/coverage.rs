//! Which nodes of a tree are written.

use crate::model::hierarchy::coverage::{
    is_record_of, lemma_every_node_has_a_record, lemma_record_is_node,
};
use crate::model::hierarchy::HIERARCHY_STEP_SIZE;
use crate::model::hierarchy::layout::chunks_of;
use crate::model::hierarchy::records::{is_proxy, range_missing};
use crate::model::node::NodeView;
use crate::model::tree::{
    is_descendant, lemma_child_is_descendant, lemma_descendant_chain,
    lemma_descendant_is_determined, lemma_descendant_of_itself, lemma_single_wave_height,
    lemma_wave_height_holds, wave_height, wave_wf,
};
use crate::model::vector3::Vector3;
use crate::potree::PotreeView;
use crate::writer::order::{
    fed_children, lemma_next_wave_height, lemma_next_wave_holds_rest, next_wave,
    starts_generation, wave_shaped, write_each, write_order,
};
use crate::writer::{point_data_of, Sink, written};
use vstd::prelude::*;

verus! {

/// Whether `x` is written when `w` is written with all that is below it:
/// `x` is `w`, or a node below `w` that holds points itself.
pub open spec fn written_from(w: NodeView, x: NodeView) -> bool {
    is_descendant(w, x) && (x == w || x.num_points() > 0)
}

/// A byte range is recorded for the paths of the written nodes, and for
/// no other path.
pub proof fn lemma_written_ranges(
    s: Sink,
    order: Seq<NodeView>,
    n: nat,
    origin: Vector3,
    scale: int,
    path: Seq<u8>,
)
    requires
        n <= order.len(),
    ensures
        written(s, order, n, origin, scale).ranges.contains_key(path) <==> s.ranges.contains_key(
            path,
        ) || exists|i: int| 0 <= i < n && (#[trigger] order[i]).path == path,
    decreases n,
{
    if n > 0 {
        lemma_written_ranges(s, order, (n - 1) as nat, origin, scale, path);
        if order[n - 1].path == path {
        } else if exists|i: int| 0 <= i < n && (#[trigger] order[i]).path == path {
            let i = choose|i: int| 0 <= i < n && (#[trigger] order[i]).path == path;
            assert(0 <= i < n - 1 && order[i].path == path);
        }
    }
}

/// A child that holds points is among the listed children of its slots.
pub proof fn lemma_fed_child_is_listed(n: NodeView, s: int, k: nat)
    requires
        0 <= s < k,
        n.children[s] is Some,
        n.children[s]->0.num_points() > 0,
    ensures
        fed_children(n, k).contains(n.children[s]->0),
    decreases k,
{
    let all = fed_children(n, k);
    if s == k - 1 {
        assert(all[all.len() - 1] == n.children[s]->0);
    } else {
        lemma_fed_child_is_listed(n, s, (k - 1) as nat);
        let rest = fed_children(n, (k - 1) as nat);
        let j = choose|j: int| 0 <= j < rest.len() && rest[j] == n.children[s]->0;
        assert(all[j] == n.children[s]->0);
    }
}

/// A child that holds points of one of the first `m` nodes of a wave is in
/// the next wave of these nodes.
pub proof fn lemma_fed_child_in_next_wave(wave: Seq<NodeView>, i: int, s: int, m: nat)
    requires
        0 <= i < m <= wave.len(),
        0 <= s < 8,
        wave[i].children[s] is Some,
        wave[i].children[s]->0.num_points() > 0,
    ensures
        next_wave(wave, m).contains(wave[i].children[s]->0),
    decreases m,
{
    let c = wave[i].children[s]->0;
    let all = next_wave(wave, m);
    let rest = next_wave(wave, (m - 1) as nat);
    if i == m - 1 {
        let last = fed_children(wave[i], 8);
        lemma_fed_child_is_listed(wave[i], s, 8);
        let j = choose|j: int| 0 <= j < last.len() && last[j] == c;
        assert(all[rest.len() + j] == c);
    } else {
        lemma_fed_child_in_next_wave(wave, i, s, (m - 1) as nat);
        let j = choose|j: int| 0 <= j < rest.len() && rest[j] == c;
        assert(all[j] == c);
    }
}

/// Every node of the next wave is a child that holds points of a node of
/// the wave.
pub proof fn lemma_next_wave_parent(wave: Seq<NodeView>, m: nat, j: int)
    requires
        m <= wave.len(),
        0 <= j < next_wave(wave, m).len(),
    ensures
        next_wave(wave, m)[j].num_points() > 0,
        exists|i: int, s: int|
            0 <= i < m && 0 <= s < 8 && #[trigger] wave[i].children[s] == Some(
                next_wave(wave, m)[j],
            ),
    decreases m,
{
    if m > 0 {
        let rest = next_wave(wave, (m - 1) as nat);
        if j < rest.len() {
            lemma_next_wave_parent(wave, (m - 1) as nat, j);
            let (i, s) = choose|i: int, s: int|
                0 <= i < m - 1 && 0 <= s < 8 && #[trigger] wave[i].children[s] == Some(rest[j]);
            assert(wave[i].children[s] == Some(next_wave(wave, m)[j]));
        } else {
            lemma_fed_children_hold_points(wave[m - 1], 8, j - rest.len());
            let s = choose|s: int|
                0 <= s < 8 && #[trigger] wave[m - 1].children[s] == Some(
                    fed_children(wave[m - 1], 8)[j - rest.len()],
                );
            assert(wave[m - 1].children[s] == Some(next_wave(wave, m)[j]));
        }
    }
}

/// Every listed child is a child that holds points.
pub proof fn lemma_fed_children_hold_points(n: NodeView, k: nat, j: int)
    requires
        0 <= j < fed_children(n, k).len(),
    ensures
        fed_children(n, k)[j].num_points() > 0,
        exists|s: int| 0 <= s < k && #[trigger] n.children[s] == Some(fed_children(n, k)[j]),
    decreases k,
{
    if k > 0 {
        let rest = fed_children(n, (k - 1) as nat);
        if j < rest.len() {
            lemma_fed_children_hold_points(n, (k - 1) as nat, j);
            let s = choose|s: int| 0 <= s < k - 1 && #[trigger] n.children[s] == Some(rest[j]);
            assert(n.children[s] == Some(fed_children(n, k)[j]));
        } else {
            assert(n.children[k - 1] == Some(fed_children(n, k)[j]));
        }
    }
}

/// What is written for one of the first `k` nodes of a list is written
/// when each of them is written with all that is below it.
pub proof fn lemma_write_each_holds(children: Seq<NodeView>, k: nat, j: int, x: NodeView)
    requires
        0 <= j < k <= children.len(),
        write_order(seq![children[j]]).contains(x),
    ensures
        write_each(children, k).contains(x),
    decreases k,
{
    let all = write_each(children, k);
    let rest = write_each(children, (k - 1) as nat);
    let last = write_order(seq![children[k - 1]]);
    if j == k - 1 {
        let i = choose|i: int| 0 <= i < last.len() && last[i] == x;
        assert(all[rest.len() + i] == x);
    } else {
        lemma_write_each_holds(children, (k - 1) as nat, j, x);
        let i = choose|i: int| 0 <= i < rest.len() && rest[i] == x;
        assert(all[i] == x);
    }
}

/// What is written when each of the first `k` nodes of a list is written
/// with all that is below it is written for one of them.
pub proof fn lemma_write_each_source(children: Seq<NodeView>, k: nat, x: NodeView) -> (j: int)
    requires
        k <= children.len(),
        write_each(children, k).contains(x),
    ensures
        0 <= j < k,
        write_order(seq![children[j]]).contains(x),
    decreases k,
{
    let all = write_each(children, k);
    let rest = write_each(children, (k - 1) as nat);
    let last = write_order(seq![children[k - 1]]);
    let i = choose|i: int| 0 <= i < all.len() && all[i] == x;
    if k == 0 {
        0
    } else if i < rest.len() {
        assert(rest[i] == x);
        lemma_write_each_source(children, (k - 1) as nat, x)
    } else {
        assert(last[i - rest.len()] == x);
        k - 1
    }
}

/// Every written node is a node of the wave or a node below one that holds
/// points itself.
pub proof fn lemma_written_is_reached(wave: Seq<NodeView>, x: NodeView) -> (i: int)
    requires
        wave_wf(wave),
        write_order(wave).contains(x),
    ensures
        0 <= i < wave.len(),
        written_from(wave[i], x),
    decreases wave_height(wave), 0nat, 0nat,
{
    let order = write_order(wave);
    let at = choose|at: int| 0 <= at < order.len() && order[at] == x;
    assert(wave.len() > 0);
    assert(wave_shaped(wave));
    let children = next_wave(wave, wave.len());
    lemma_next_wave_height(wave);
    lemma_next_wave_holds_rest(wave, wave.len());
    if at < wave.len() {
        assert(order[at] == wave[at]);
        lemma_descendant_of_itself(x);
        at
    } else {
        let c = if children.len() > 0 && starts_generation(children[0]) {
            let rest = write_each(children, children.len());
            assert(rest[at - wave.len()] == x);
            let j = lemma_write_each_source(children, children.len(), x);
            lemma_wave_height_holds(children, j);
            lemma_single_wave_height(children[j]);
            assert(wave_wf(seq![children[j]]));
            let w = lemma_written_is_reached(seq![children[j]], x);
            j
        } else {
            let rest = write_order(children);
            assert(rest[at - wave.len()] == x);
            lemma_written_is_reached(children, x)
        };
        lemma_next_wave_parent(wave, wave.len(), c);
        let (i, s) = choose|i: int, s: int|
            0 <= i < wave.len() && 0 <= s < 8 && #[trigger] wave[i].children[s] == Some(
                children[c],
            );
        lemma_descendant_of_itself(wave[i]);
        lemma_child_is_descendant(wave[i], wave[i], s);
        lemma_descendant_chain(wave[i], children[c], x);
        i
    }
}

/// Every node of a wave, and every node below one that holds points
/// itself, is written.
pub proof fn lemma_reached_is_written(wave: Seq<NodeView>, i: int, x: NodeView)
    requires
        wave_wf(wave),
        0 <= i < wave.len(),
        written_from(wave[i], x),
    ensures
        write_order(wave).contains(x),
    decreases x.path.len() - wave[i].path.len(),
{
    let w = wave[i];
    let order = write_order(wave);
    assert(wave_shaped(wave));
    let children = next_wave(wave, wave.len());
    if x.path.len() == w.path.len() {
        assert(order[i] == w);
    } else {
        let code = x.path[w.path.len() as int];
        let c = w.children[code as int]->0;
        assert(c.path == w.path.push(code));
        assert(x.path.take(c.path.len() as int) =~= c.path) by {
            assert(x.path.take(w.path.len() as int) == w.path);
        }
        assert(is_descendant(c, x));
        assert(c.wf());
        if c != x {
            assert(c.path.len() < x.path.len());
            assert(!c.is_leaf()) by {
                let next = x.path[c.path.len() as int];
                assert(c.children[next as int] is Some);
            }
            assert(c.grid_points().len() >= 1);
        } else {
            assert(x != w);
        }
        assert(c.num_points() > 0);
        lemma_fed_child_in_next_wave(wave, i, code as int, wave.len());
        let j = choose|j: int| 0 <= j < children.len() && children[j] == c;
        lemma_next_wave_holds_rest(wave, wave.len());
        if children.len() > 0 && starts_generation(children[0]) {
            assert(wave_wf(seq![c]));
            assert(seq![c][0] == c);
            lemma_reached_is_written(seq![c], 0, x);
            lemma_write_each_holds(children, children.len(), j, x);
            let rest = write_each(children, children.len());
            let at = choose|at: int| 0 <= at < rest.len() && rest[at] == x;
            assert(order[wave.len() + at] == x);
        } else {
            lemma_reached_is_written(children, j, x);
            let rest = write_order(children);
            let at = choose|at: int| 0 <= at < rest.len() && rest[at] == x;
            assert(order[wave.len() + at] == x);
        }
    }
}

/// The nodes of a well-formed tree that are written are the root and the
/// nodes that hold points themselves.
pub proof fn lemma_written_nodes(root: NodeView, x: NodeView)
    requires
        root.wf(),
    ensures
        write_order(seq![root]).contains(x) <==> written_from(root, x),
{
    assert(wave_wf(seq![root]));
    assert(seq![root][0] == root);
    if write_order(seq![root]).contains(x) {
        lemma_written_is_reached(seq![root], x);
    }
    if written_from(root, x) {
        lemma_reached_is_written(seq![root], 0, x);
    }
}

/// The hierarchy of an octree cannot be encoded from the byte ranges of
/// its written nodes exactly if a node of the tree other than the root
/// holds no point: every node has a record of its own, and a byte range is
/// recorded for the root and for the nodes that hold points.
pub proof fn lemma_range_is_missing_for_empty_nodes(potree: PotreeView)
    requires
        potree.wf(),
    ensures
        range_missing(
            chunks_of(potree.root, HIERARCHY_STEP_SIZE as nat),
            point_data_of(potree).ranges,
            chunks_of(potree.root, HIERARCHY_STEP_SIZE as nat).len(),
            HIERARCHY_STEP_SIZE as nat,
        ) <==> exists|n: NodeView| #[trigger]
            is_descendant(potree.root, n) && n != potree.root && n.num_points() == 0,
{
    let root = potree.root;
    let step = HIERARCHY_STEP_SIZE as nat;
    let chunks = chunks_of(root, step);
    let order = write_order(seq![root]);
    let start = Sink { bytes: Seq::empty(), ranges: Map::empty() };
    let origin = potree.bounds.lower();
    let scale = potree.scale as int;
    let ranges = point_data_of(potree).ranges;
    if range_missing(chunks, ranges, chunks.len(), step) {
        let (i, k) = choose|i: int, k: int|
            0 <= i < chunks.len() && 0 <= k < chunks[i].len() && !is_proxy(chunks[i], k, step)
                && !ranges.contains_key(#[trigger] chunks[i][k].path);
        let m = chunks[i][k];
        lemma_record_is_node(root, step, i, k);
        lemma_written_ranges(start, order, order.len(), origin, scale, m.path);
        lemma_written_nodes(root, m);
        if written_from(root, m) {
            let at = choose|at: int| 0 <= at < order.len() && order[at] == m;
            assert(order[at].path == m.path);
        }
        assert(is_descendant(root, m) && m != root && m.num_points() == 0);
    }
    if exists|n: NodeView| #[trigger]
        is_descendant(root, n) && n != root && n.num_points() == 0 {
        let n = choose|n: NodeView| #[trigger]
            is_descendant(root, n) && n != root && n.num_points() == 0;
        lemma_every_node_has_a_record(root, step, n);
        let (i, k) = choose|i: int, k: int| #[trigger] is_record_of(chunks, i, k, n, step);
        lemma_written_ranges(start, order, order.len(), origin, scale, n.path);
        if ranges.contains_key(n.path) {
            let at = choose|at: int| 0 <= at < order.len() && (#[trigger] order[at]).path == n.path;
            let x = order[at];
            assert(order.contains(x));
            lemma_written_nodes(root, x);
            lemma_descendant_is_determined(root, x, n);
        }
        assert(!ranges.contains_key(chunks[i][k].path));
    }
}

} // verus!
