//! The order in which the nodes of an octree are written.

use crate::model::node::NodeView;
use crate::model::tree::{
    height, lemma_child_height, lemma_children_points_of_leaf, lemma_own_points_concat,
    lemma_single_wave_height, lemma_subtree_sum_concat, lemma_wave_height_bound,
    lemma_wave_height_holds, own_points, subtree_sum, wave_height, wave_wf,
};
use vstd::prelude::*;

verus! {

/// The nodes of a generation start where the length of their name, the
/// letter of the root and one digit for each level, is a multiple of this
/// number.
pub const HRC_STEP_SIZE: usize = 5;

/// The children in the slots `0..k` that hold points themselves, in the
/// order of the slots.
pub open spec fn fed_children(n: NodeView, k: nat) -> Seq<NodeView>
    decreases k,
{
    if k == 0 {
        Seq::empty()
    } else {
        let rest = fed_children(n, (k - 1) as nat);
        match n.children[k - 1] {
            Some(c) => if c.num_points() > 0 {
                rest.push(c)
            } else {
                rest
            },
            None => rest,
        }
    }
}

/// The children that hold points of the first `m` nodes of a wave, in the
/// order of the wave.
pub open spec fn next_wave(wave: Seq<NodeView>, m: nat) -> Seq<NodeView>
    decreases m,
{
    if m == 0 {
        Seq::empty()
    } else {
        next_wave(wave, (m - 1) as nat) + fed_children(wave[m - 1], 8)
    }
}

/// Every one of the listed children is a child.
pub proof fn lemma_fed_children_are_children(n: NodeView, k: nat, j: int)
    requires
        k <= n.children.len(),
        0 <= j < fed_children(n, k).len(),
    ensures
        exists|s: int| 0 <= s < k && #[trigger] n.children[s] == Some(fed_children(n, k)[j]),
    decreases k,
{
    if k > 0 {
        let rest = fed_children(n, (k - 1) as nat);
        if j < rest.len() {
            lemma_fed_children_are_children(n, (k - 1) as nat, j);
            let s = choose|s: int| 0 <= s < k - 1 && #[trigger] n.children[s] == Some(rest[j]);
            assert(n.children[s] == Some(fed_children(n, k)[j]));
        } else {
            assert(n.children[k - 1] == Some(fed_children(n, k)[j]));
        }
    }
}

/// The children of the nodes of a wave are lower than the nodes.
pub proof fn lemma_next_wave_lower(wave: Seq<NodeView>, m: nat, j: int)
    requires
        m <= wave.len(),
        forall|i: int| 0 <= i < wave.len() ==> (#[trigger] wave[i]).children.len() == 8,
        0 <= j < next_wave(wave, m).len(),
    ensures
        height(next_wave(wave, m)[j]) + 1 < wave_height(wave),
    decreases m,
{
    if m > 0 {
        let rest = next_wave(wave, (m - 1) as nat);
        if j < rest.len() {
            lemma_next_wave_lower(wave, (m - 1) as nat, j);
        } else {
            let n = wave[m - 1];
            let c = fed_children(n, 8)[j - rest.len()];
            lemma_fed_children_are_children(n, 8, j - rest.len());
            let s = choose|s: int| 0 <= s < 8 && #[trigger] n.children[s] == Some(c);
            lemma_child_height(n, s, 8);
            lemma_wave_height_holds(wave, m - 1);
        }
    }
}

/// The next wave is lower than the wave.
pub proof fn lemma_next_wave_height(wave: Seq<NodeView>)
    requires
        wave.len() > 0,
        forall|i: int| 0 <= i < wave.len() ==> (#[trigger] wave[i]).children.len() == 8,
    ensures
        wave_height(next_wave(wave, wave.len())) < wave_height(wave),
{
    let next = next_wave(wave, wave.len());
    lemma_wave_height_holds(wave, 0);
    assert forall|j: int| 0 <= j < next.len() implies height(#[trigger] next[j]) < (wave_height(
        wave,
    ) - 1) as nat by {
        lemma_next_wave_lower(wave, wave.len(), j);
    }
    lemma_wave_height_bound(next, (wave_height(wave) - 1) as nat);
}

/// Whether a new generation starts with the node: the length of its name
/// is a multiple of `HRC_STEP_SIZE`.
pub open spec fn starts_generation(n: NodeView) -> bool {
    (n.path.len() + 1) as int % (HRC_STEP_SIZE as int) == 0
}

/// Whether every node of the wave has eight child slots.
pub open spec fn wave_shaped(wave: Seq<NodeView>) -> bool {
    forall|i: int| 0 <= i < wave.len() ==> (#[trigger] wave[i]).children.len() == 8
}

/// The order in which a wave of nodes and all that is below it are written:
/// first the nodes of the wave; then, where a generation starts with their
/// children, each child that holds points with all that is below it, one
/// child after the other; else those children as the next wave.
pub open spec fn write_order(wave: Seq<NodeView>) -> Seq<NodeView>
    decreases wave_height(wave), 0nat, 0nat,
{
    if wave.len() == 0 || !wave_shaped(wave) {
        wave
    } else {
        let children = next_wave(wave, wave.len());
        proof {
            lemma_next_wave_height(wave);
        }
        if children.len() > 0 && starts_generation(children[0]) {
            wave + write_each(children, children.len())
        } else {
            wave + write_order(children)
        }
    }
}

/// The first `k` nodes of `children`, each followed by all that is below it.
pub open spec fn write_each(children: Seq<NodeView>, k: nat) -> Seq<NodeView>
    decreases wave_height(children), 1nat, k,
{
    if k == 0 || k > children.len() {
        Seq::empty()
    } else {
        proof {
            lemma_wave_height_holds(children, k - 1);
            lemma_single_wave_height(children[k - 1]);
        }
        write_each(children, (k - 1) as nat) + write_order(seq![children[k - 1]])
    }
}

/// The points below the child slots `0..k` of a well-formed node are below
/// the children that hold points themselves: a child without points is a
/// leaf, and nothing is below it.
pub proof fn lemma_fed_children_hold_all(n: NodeView, k: nat)
    requires
        n.wf(),
        k <= 8,
    ensures
        n.children_points(k) == subtree_sum(fed_children(n, k), fed_children(n, k).len()),
        wave_wf(fed_children(n, k)),
    decreases k,
{
    if k > 0 {
        let rest = fed_children(n, (k - 1) as nat);
        lemma_fed_children_hold_all(n, (k - 1) as nat);
        match n.children[k - 1] {
            Some(c) => {
                assert(c.wf());
                if c.num_points() > 0 {
                    lemma_subtree_sum_concat(rest, seq![c], 1);
                    assert(rest.push(c) =~= rest + seq![c]);
                    assert(subtree_sum(seq![c], 0) == 0);
                    assert(subtree_sum(seq![c], 1) == c.subtree_points());
                } else {
                    assert(c.is_leaf());
                    lemma_children_points_of_leaf(c, 8);
                }
            },
            None => {},
        }
    }
}

/// The points below the first `m` nodes of a well-formed wave are those
/// that these nodes hold themselves and those below the next wave.
pub proof fn lemma_next_wave_holds_rest(wave: Seq<NodeView>, m: nat)
    requires
        wave_wf(wave),
        m <= wave.len(),
    ensures
        subtree_sum(wave, m) == own_points(wave, m) + subtree_sum(
            next_wave(wave, m),
            next_wave(wave, m).len(),
        ),
        wave_wf(next_wave(wave, m)),
    decreases m,
{
    if m > 0 {
        let n = wave[m - 1];
        lemma_next_wave_holds_rest(wave, (m - 1) as nat);
        lemma_fed_children_hold_all(n, 8);
        lemma_subtree_sum_concat(
            next_wave(wave, (m - 1) as nat),
            fed_children(n, 8),
            fed_children(n, 8).len(),
        );
    }
}

/// Every point of a well-formed wave is written once: the nodes in the
/// order in which they are written hold as many points themselves as there
/// are points in the wave and below it.
pub proof fn lemma_write_order_holds_all(wave: Seq<NodeView>)
    requires
        wave_wf(wave),
    ensures
        own_points(write_order(wave), write_order(wave).len()) == subtree_sum(wave, wave.len()),
    decreases wave_height(wave), 0nat, 0nat,
{
    if wave.len() > 0 {
        assert(wave_shaped(wave));
        let children = next_wave(wave, wave.len());
        lemma_next_wave_height(wave);
        lemma_next_wave_holds_rest(wave, wave.len());
        if children.len() > 0 && starts_generation(children[0]) {
            lemma_write_each_holds_all(children, children.len());
            lemma_own_points_concat(
                wave,
                write_each(children, children.len()),
                write_each(children, children.len()).len(),
            );
        } else {
            lemma_write_order_holds_all(children);
            lemma_own_points_concat(wave, write_order(children), write_order(children).len());
        }
    }
}

/// Every point of the first `k` nodes of a well-formed wave and below them
/// is written once when each is written with all that is below it.
pub proof fn lemma_write_each_holds_all(children: Seq<NodeView>, k: nat)
    requires
        wave_wf(children),
        k <= children.len(),
    ensures
        own_points(write_each(children, k), write_each(children, k).len()) == subtree_sum(
            children,
            k,
        ),
    decreases wave_height(children), 1nat, k,
{
    if k > 0 {
        let c = children[k - 1];
        lemma_wave_height_holds(children, k - 1);
        lemma_single_wave_height(c);
        lemma_write_each_holds_all(children, (k - 1) as nat);
        assert(wave_wf(seq![c]));
        lemma_write_order_holds_all(seq![c]);
        assert(subtree_sum(seq![c], 0) == 0);
        assert(subtree_sum(seq![c], 1) == c.subtree_points());
        lemma_own_points_concat(
            write_each(children, (k - 1) as nat),
            write_order(seq![c]),
            write_order(seq![c]).len(),
        );
    }
}

} // verus!
