//! The byte range of each written node, by the path of the node.

use crate::model::path::same_path;
use vstd::prelude::*;

verus! {

/// The byte range of the points of one node in the point data.
pub struct RangeEntry {
    /// The path of the node.
    pub path: Vec<u8>,
    pub byte_size: u64,
    pub byte_offset: u64,
}

/// The byte ranges of the written nodes: for the path of a node, the size
/// and the offset of its points in the point data.
pub struct NodeRanges {
    /// The entries in the order in which they came; a later entry for a path
    /// replaces an earlier one.
    pub entries: Vec<RangeEntry>,
}

/// The map made by the first `n` entries: path to size and offset.
pub open spec fn ranges_of(entries: Seq<RangeEntry>, n: nat) -> Map<Seq<u8>, (u64, u64)>
    decreases n,
{
    if n == 0 {
        Map::empty()
    } else {
        ranges_of(entries, (n - 1) as nat).insert(
            entries[n - 1].path@,
            (entries[n - 1].byte_size, entries[n - 1].byte_offset),
        )
    }
}

/// Entries that no entry from `n` on overrides decide the map.
proof fn lemma_ranges_of_latest(entries: Seq<RangeEntry>, key: Seq<u8>, i: int, n: nat)
    requires
        0 <= i < n <= entries.len(),
        entries[i].path@ == key,
        forall|j: int| i < j < n ==> (#[trigger] entries[j]).path@ != key,
    ensures
        ranges_of(entries, n).contains_key(key),
        ranges_of(entries, n)[key] == (entries[i].byte_size, entries[i].byte_offset),
    decreases n,
{
    if i < n - 1 {
        lemma_ranges_of_latest(entries, key, i, (n - 1) as nat);
    }
}

/// A path that no entry has is not in the map.
proof fn lemma_ranges_of_absent(entries: Seq<RangeEntry>, key: Seq<u8>, n: nat)
    requires
        n <= entries.len(),
        forall|j: int| 0 <= j < n ==> (#[trigger] entries[j]).path@ != key,
    ensures
        !ranges_of(entries, n).contains_key(key),
    decreases n,
{
    if n > 0 {
        lemma_ranges_of_absent(entries, key, (n - 1) as nat);
    }
}

impl View for NodeRanges {
    type V = Map<Seq<u8>, (u64, u64)>;

    open spec fn view(&self) -> Map<Seq<u8>, (u64, u64)> {
        ranges_of(self.entries@, self.entries@.len())
    }
}

impl NodeRanges {
    /// No ranges.
    pub fn new() -> (ranges: NodeRanges)
        ensures
            ranges@ == Map::<Seq<u8>, (u64, u64)>::empty(),
    {
        NodeRanges { entries: Vec::new() }
    }

    /// Records the byte range of the node at `path`, in place of an earlier
    /// one where there is one.
    pub fn insert(&mut self, path: Vec<u8>, byte_size: u64, byte_offset: u64)
        ensures
            final(self)@ == old(self)@.insert(path@, (byte_size, byte_offset)),
    {
        let ghost before = self.entries@;
        self.entries.push(RangeEntry { path, byte_size, byte_offset });
        proof {
            lemma_ranges_of_prefix(before, self.entries@, before.len());
        }
    }

    /// The size and the offset recorded for the node at `path`, if any.
    pub fn get(&self, path: &Vec<u8>) -> (range: Option<(u64, u64)>)
        ensures
            range == if self@.contains_key(path@) {
                Some(self@[path@])
            } else {
                None
            },
    {
        let mut k: usize = self.entries.len();
        while k > 0
            invariant
                k <= self.entries@.len(),
                forall|j: int| k <= j < self.entries@.len() ==> (#[trigger] self.entries@[j]).path@
                    != path@,
            decreases k,
        {
            k -= 1;
            if same_path(&self.entries[k].path, path) {
                proof {
                    lemma_ranges_of_latest(
                        self.entries@,
                        path@,
                        k as int,
                        self.entries@.len() as nat,
                    );
                }
                return Some((self.entries[k].byte_size, self.entries[k].byte_offset));
            }
        }
        proof {
            lemma_ranges_of_absent(self.entries@, path@, self.entries@.len() as nat);
        }
        None
    }
}

/// The map of a prefix of the entries does not depend on what follows it.
proof fn lemma_ranges_of_prefix(a: Seq<RangeEntry>, b: Seq<RangeEntry>, n: nat)
    requires
        n <= a.len() <= b.len(),
        forall|j: int| 0 <= j < a.len() ==> a[j] == b[j],
    ensures
        ranges_of(a, n) == ranges_of(b, n),
    decreases n,
{
    if n > 0 {
        lemma_ranges_of_prefix(a, b, (n - 1) as nat);
    }
}

} // verus!
