//! The point-data writer: the order in which the nodes of an octree are
//! written, the records of their points, and the byte range of each node.

use crate::model::hierarchy::layout::chunks_of;
use crate::model::hierarchy::records::chunk_size;
use crate::model::hierarchy::{
    create_hierarchy, Hierarchy, HIERARCHY_STEP_SIZE, HierarchyError, is_hierarchy_of, rejection,
};
use crate::model::metadata::Attribute as AttributeDescription;
use crate::model::metadata::Hierarchy as HierarchySummary;
use crate::model::metadata::{attribute_views, AttributeView, Metadata, metadata_of, MetadataView};
use crate::model::node::{Node, NodeView};
use crate::model::options::{Encoding, Options};
use crate::model::path::copy_path;
use crate::model::State;
use crate::model::tree::{
    height, lemma_points_in_range, lemma_single_wave_height, lemma_slot_points_bounded,
    own_points, slot_points, subtree_sum, views, wave_height, wave_wf,
};
use crate::model::vector3::Vector3;
use crate::potree::{lemma_build_is_determined, Potree, PotreeView};
use crate::writer::encoding::{
    lemma_point_records_len, MAX_SCALE, point_record, point_records, put_i32_le, quantize,
};
use crate::writer::order::{
    fed_children, HRC_STEP_SIZE, lemma_next_wave_height, lemma_next_wave_lower,
    lemma_write_order_holds_all, next_wave, starts_generation, wave_shaped, write_each,
    write_order,
};
use crate::writer::ranges::NodeRanges;
use vstd::prelude::*;

pub mod coverage;
pub mod encoding;
pub mod order;
pub mod ranges;

verus! {

/// The number of bytes of a point record.
pub const BYTES_PER_POINT: u64 = 12;

/// What a writer has produced: the bytes of the point data, and for the
/// path of each written node the size and the offset of its points.
pub struct Sink {
    pub bytes: Seq<u8>,
    pub ranges: Map<Seq<u8>, (u64, u64)>,
}

/// What has been produced after one more node was written: the records of
/// its points follow the bytes, and its byte range is recorded.
pub open spec fn write_one(s: Sink, node: NodeView, origin: Vector3, scale: int) -> Sink {
    Sink {
        bytes: s.bytes + point_records(node.points(), origin, scale, node.points().len()),
        ranges: s.ranges.insert(
            node.path,
            ((BYTES_PER_POINT * node.num_points()) as u64, s.bytes.len() as u64),
        ),
    }
}

/// What has been produced after the first `n` nodes of `order` were
/// written.
pub open spec fn written(s: Sink, order: Seq<NodeView>, n: nat, origin: Vector3, scale: int) -> Sink
    decreases n,
{
    if n == 0 {
        s
    } else {
        write_one(written(s, order, (n - 1) as nat, origin, scale), order[n - 1], origin, scale)
    }
}

/// Writing the first nodes of a sequence does not depend on what follows
/// them.
pub proof fn lemma_written_prefix(
    s: Sink,
    a: Seq<NodeView>,
    b: Seq<NodeView>,
    n: nat,
    origin: Vector3,
    scale: int,
)
    requires
        n <= a.len(),
    ensures
        written(s, a + b, n, origin, scale) == written(s, a, n, origin, scale),
    decreases n,
{
    if n > 0 {
        lemma_written_prefix(s, a, b, (n - 1) as nat, origin, scale);
        assert((a + b)[n - 1] == a[n - 1]);
    }
}

/// Writing two sequences of nodes one after the other is writing the one,
/// then the other.
pub proof fn lemma_written_concat(
    s: Sink,
    a: Seq<NodeView>,
    b: Seq<NodeView>,
    n: nat,
    origin: Vector3,
    scale: int,
)
    requires
        n <= b.len(),
    ensures
        written(s, a + b, a.len() + n, origin, scale) == written(
            written(s, a, a.len(), origin, scale),
            b,
            n,
            origin,
            scale,
        ),
    decreases n,
{
    if n == 0 {
        lemma_written_prefix(s, a, b, a.len(), origin, scale);
    } else {
        lemma_written_concat(s, a, b, (n - 1) as nat, origin, scale);
        assert((a + b)[a.len() + n - 1] == b[n - 1]);
    }
}

/// Each written node adds twelve bytes for each point that it holds.
pub proof fn lemma_written_len(
    s: Sink,
    order: Seq<NodeView>,
    n: nat,
    origin: Vector3,
    scale: int,
)
    ensures
        written(s, order, n, origin, scale).bytes.len() == s.bytes.len() + BYTES_PER_POINT
            * own_points(order, n),
    decreases n,
{
    if n > 0 {
        lemma_written_len(s, order, (n - 1) as nat, origin, scale);
        lemma_point_records_len(order[n - 1].points(), origin, scale, order[n - 1].points().len());
    }
}

/// The point data of a well-formed tree has twelve bytes for each point of
/// the tree.
pub proof fn lemma_point_data_len(s: Sink, root: NodeView, origin: Vector3, scale: int)
    requires
        root.wf(),
    ensures
        written(
            s,
            write_order(seq![root]),
            write_order(seq![root]).len(),
            origin,
            scale,
        ).bytes.len() == s.bytes.len() + BYTES_PER_POINT * root.subtree_points(),
{
    let order = write_order(seq![root]);
    lemma_written_len(s, order, order.len(), origin, scale);
    assert(wave_wf(seq![root]));
    lemma_write_order_holds_all(seq![root]);
    assert(subtree_sum(seq![root], 0) == 0);
    assert(subtree_sum(seq![root], 1) == root.subtree_points());
}

/// Writes the point data of an octree.
pub struct Writer {
    /// The point data written so far.
    pub buffer: Vec<u8>,
    /// The byte range of each node written so far.
    pub node_hierarchy: NodeRanges,
}

impl View for Writer {
    type V = Sink;

    open spec fn view(&self) -> Sink {
        Sink { bytes: self.buffer@, ranges: self.node_hierarchy@ }
    }
}

impl Writer {
    /// A writer that has written nothing.
    pub fn new() -> (writer: Writer)
        ensures
            writer@.bytes.len() == 0,
            writer@.ranges == Map::<Seq<u8>, (u64, u64)>::empty(),
    {
        Writer { buffer: Vec::new(), node_hierarchy: NodeRanges::new() }
    }

    /// The number of bytes written so far: the offset of what comes next.
    pub fn byte_offset(&self) -> (offset: u64)
        ensures
            offset == self@.bytes.len(),
    {
        self.buffer.len() as u64
    }

    /// Writes the nodes of an octree in their order, quantized against the
    /// lower corner of the bounds with the scale of the octree, and records
    /// the byte range of each.
    pub fn write(&mut self, potree: &Potree)
        ensures
            final(self)@ == written(
                old(self)@,
                write_order(seq![potree@.root]),
                write_order(seq![potree@.root]).len(),
                potree@.bounds.lower(),
                potree@.scale as int,
            ),
    {
        let bounds = potree.bounds();
        let offset = Vector3 { x: bounds.lx, y: bounds.ly, z: bounds.lz };
        let nodes: Vec<&Node> = vec![potree.root()];
        assert(views(nodes@) =~= seq![potree@.root]);
        self.write_nodes(nodes, potree.scale(), &offset)
    }

    /// Writes a wave of nodes and all that is below them.
    fn write_nodes<'a>(&mut self, nodes: Vec<&'a Node>, scale: i64, offset: &Vector3)
        requires
            nodes@.len() > 0,
            forall|i: int|
                0 <= i < nodes@.len() ==> (#[trigger] nodes@[i])@.wf() && nodes@[i]@.subtree_points()
                    <= u32::MAX,
            0 < scale <= MAX_SCALE,
            offset.in_range(),
        ensures
            final(self)@ == written(
                old(self)@,
                write_order(views(nodes@)),
                write_order(views(nodes@)).len(),
                *offset,
                scale as int,
            ),
        decreases wave_height(views(nodes@)),
    {
        let ghost wave = views(nodes@);
        let ghost start = self@;
        let mut children: Vec<&'a Node> = Vec::new();
        let mut k: usize = 0;
        while k < nodes.len()
            invariant
                k <= nodes@.len(),
                wave == views(nodes@),
                forall|i: int|
                    0 <= i < nodes@.len() ==> (#[trigger] nodes@[i])@.wf()
                        && nodes@[i]@.subtree_points() <= u32::MAX,
                0 < scale <= MAX_SCALE,
                offset.in_range(),
                self@ == written(start, wave, k as nat, *offset, scale as int),
                views(children@) == next_wave(wave, k as nat),
                forall|i: int|
                    0 <= i < children@.len() ==> (#[trigger] children@[i])@.wf()
                        && children@[i]@.subtree_points() <= u32::MAX,
            decreases nodes@.len() - k,
        {
            let node: &'a Node = nodes[k];
            assert(wave[k as int] == node@);
            self.write_points(node, scale, offset);
            proof {
                node.lemma_view();
            }
            let ghost before = views(children@);
            let mut c: usize = 0;
            while c < 8
                invariant
                    c <= 8,
                    node@.wf(),
                    node@.subtree_points() <= u32::MAX,
                    views(children@) == before + fed_children(node@, c as nat),
                    forall|i: int|
                        0 <= i < children@.len() ==> (#[trigger] children@[i])@.wf()
                            && children@[i]@.subtree_points() <= u32::MAX,
                decreases 8 - c,
            {
                proof {
                    node.lemma_view();
                }
                match &node.children[c] {
                    Some(child) => {
                        let child_node: &'a Node = &**child;
                        proof {
                            assert(node@.children[c as int] == Some(child_node@));
                            lemma_slot_points_bounded(node@, c as int, 8);
                            assert(slot_points(node@, c as int) == child_node@.subtree_points());
                        }
                        if child_node.num_points() > 0 {
                            let ghost listed = views(children@);
                            children.push(child_node);
                            assert(views(children@) =~= listed.push(child_node@));
                            assert(views(children@) =~= before + fed_children(
                                node@,
                                (c + 1) as nat,
                            ));
                        }
                    },
                    None => {},
                }
                c += 1;
            }
            assert(views(children@) =~= next_wave(wave, (k + 1) as nat));
            k += 1;
        }
        let ghost next = views(children@);
        let ghost done = self@;
        proof {
            assert(wave_shaped(wave));
            assert forall|j: int| 0 <= j < next.len() implies height_below(
                #[trigger] next[j],
                wave,
            ) by {
                lemma_next_wave_lower(wave, wave.len(), j);
            }
        }
        let new_hierarchy_level = children.len() > 0 && children[0].path.len() % HRC_STEP_SIZE
            == HRC_STEP_SIZE - 1;
        proof {
            if children.len() > 0 {
                assert(next[0] == children@[0]@);
                children@[0].lemma_view();
                assert(new_hierarchy_level == starts_generation(next[0]));
            }
        }
        if new_hierarchy_level {
            let mut j: usize = 0;
            while j < children.len()
                invariant
                    j <= children@.len(),
                    next == views(children@),
                    forall|i: int|
                        0 <= i < children@.len() ==> (#[trigger] children@[i])@.wf()
                            && children@[i]@.subtree_points() <= u32::MAX,
                    forall|i: int| 0 <= i < next.len() ==> height_below(#[trigger] next[i], wave),
                    wave == views(nodes@),
                    0 < scale <= MAX_SCALE,
                    offset.in_range(),
                    self@ == written(
                        done,
                        write_each(next, j as nat),
                        write_each(next, j as nat).len(),
                        *offset,
                        scale as int,
                    ),
                decreases children@.len() - j,
            {
                let single: Vec<&'a Node> = vec![children[j]];
                proof {
                    assert(views(single@) =~= seq![next[j as int]]);
                    lemma_single_wave_height(next[j as int]);
                    assert(height_below(next[j as int], wave));
                    lemma_written_concat(
                        done,
                        write_each(next, j as nat),
                        write_order(seq![next[j as int]]),
                        write_order(seq![next[j as int]]).len(),
                        *offset,
                        scale as int,
                    );
                }
                self.write_nodes(single, scale, offset);
                j += 1;
            }
            proof {
                lemma_written_concat(
                    start,
                    wave,
                    write_each(next, next.len()),
                    write_each(next, next.len()).len(),
                    *offset,
                    scale as int,
                );
            }
        } else if children.len() > 0 {
            proof {
                lemma_next_wave_height(wave);
                lemma_written_concat(
                    start,
                    wave,
                    write_order(next),
                    write_order(next).len(),
                    *offset,
                    scale as int,
                );
            }
            self.write_nodes(children, scale, offset);
        } else {
            proof {
                assert(write_order(next) =~= Seq::<NodeView>::empty());
                assert(write_order(wave) =~= wave);
            }
        }
    }

    /// Writes the records of the points of a node and records the byte
    /// range of the node.
    fn write_points(&mut self, node: &Node, scale: i64, offset: &Vector3)
        requires
            node@.wf(),
            0 < scale <= MAX_SCALE,
            offset.in_range(),
        ensures
            final(self)@ == write_one(old(self)@, node@, *offset, scale as int),
    {
        let ghost start = self@;
        let byte_offset = self.buffer.len() as u64;
        let points = node.points();
        proof {
            lemma_points_in_range(node@);
        }
        let mut k: usize = 0;
        while k < points.len()
            invariant
                k <= points@.len(),
                0 < scale <= MAX_SCALE,
                offset.in_range(),
                forall|i: int| 0 <= i < points@.len() ==> (#[trigger] points@[i]).in_range(),
                self.node_hierarchy@ == start.ranges,
                self.buffer@ == start.bytes + point_records(
                    points@,
                    *offset,
                    scale as int,
                    k as nat,
                ),
            decreases points@.len() - k,
        {
            let point = &points[k];
            let ghost before = self.buffer@;
            let cart_x = quantize(point.x, offset.x, scale);
            let cart_y = quantize(point.y, offset.y, scale);
            let cart_z = quantize(point.z, offset.z, scale);
            put_i32_le(&mut self.buffer, cart_x);
            put_i32_le(&mut self.buffer, cart_y);
            put_i32_le(&mut self.buffer, cart_z);
            assert(self.buffer@ =~= before + point_record(*point, *offset, scale as int));
            assert(self.buffer@ =~= start.bytes + point_records(
                points@,
                *offset,
                scale as int,
                (k + 1) as nat,
            ));
            k += 1;
        }
        proof {
            lemma_point_records_len(points@, *offset, scale as int, points@.len());
        }
        let byte_size = self.buffer.len() as u64 - byte_offset;
        self.node_hierarchy.insert(copy_path(&node.path), byte_size, byte_offset);
        proof {
            node.lemma_view();
        }
    }
}

/// Whether the node is so much lower than the wave that a wave of it alone
/// is lower than the wave.
pub open spec fn height_below(n: NodeView, wave: Seq<NodeView>) -> bool {
    height(n) + 1 < wave_height(wave)
}

/// Why a cloud was not written.
#[derive(Debug)]
pub enum WriteError {
    /// The directory for the files could not be prepared.
    PrepareDirError { msg: String },
    /// The hierarchy could not be encoded.
    HierarchyError { cause: HierarchyError },
    /// The chunk of the root has more bytes than a 16-bit number holds.
    FirstChunkTooLarge,
}

impl WriteError {
    /// What went wrong, in words.
    pub fn message(&self) -> (text: String)
        ensures
            text@ == match *self {
                WriteError::PrepareDirError { .. } => "Could not prepare directory"@,
                WriteError::HierarchyError { cause: HierarchyError::MissingByteRange } =>
                    "A node of the hierarchy has no byte range"@,
                WriteError::HierarchyError { cause: HierarchyError::TooDeep } =>
                    "The tree is deeper than the hierarchy can hold"@,
                WriteError::FirstChunkTooLarge => "The first chunk of the hierarchy is too large"@,
            },
    {
        match self {
            WriteError::PrepareDirError { .. } => String::from_str("Could not prepare directory"),
            WriteError::HierarchyError { cause: HierarchyError::MissingByteRange } =>
                String::from_str("A node of the hierarchy has no byte range"),
            WriteError::HierarchyError { cause: HierarchyError::TooDeep } => String::from_str(
                "The tree is deeper than the hierarchy can hold",
            ),
            WriteError::FirstChunkTooLarge => String::from_str(
                "The first chunk of the hierarchy is too large",
            ),
        }
    }
}

/// The description of the position of a point: three signed 32-bit
/// integers, with the corners of the bounds as least and greatest values.
pub open spec fn position_description(potree: PotreeView) -> AttributeView {
    AttributeView {
        name: "position"@,
        description: ""@,
        size: 12,
        num_elements: 3,
        element_size: 4,
        kind: "int32"@,
        min: seq![potree.bounds.lx, potree.bounds.ly, potree.bounds.lz],
        max: seq![potree.bounds.ux, potree.bounds.uy, potree.bounds.uz],
    }
}

/// The record of an octree and its hierarchy: one attribute, the position;
/// the number of points of the octree; the lower corner of its bounds as
/// the origin and its scale as the step of the quantization along each
/// axis; its spacing; the cell of its root as the bounding box.
pub open spec fn metadata_for(potree: PotreeView, hierarchy: &Hierarchy) -> MetadataView {
    metadata_of(
        potree.root.bounds,
        seq![position_description(potree)],
        ""@,
        Encoding::DEFAULT,
        potree.size as u64,
        HierarchySummary {
            first_chunk_size: hierarchy.first_chunk_size as u16,
            step_size: hierarchy.step_size,
            depth: hierarchy.depth,
        },
        potree.bounds.lower(),
        Vector3 { x: potree.scale, y: potree.scale, z: potree.scale },
        potree.spacing,
    )
}

/// Assembles the record of an octree and its hierarchy. There is no record
/// where the size of the first chunk does not fit in 16 bits.
pub fn create_metadata(potree: &Potree, hierarchy: &Hierarchy) -> (result: Option<Metadata>)
    ensures
        result is Some <==> 0 <= hierarchy.first_chunk_size <= u16::MAX,
        result is Some ==> result->0@ == metadata_for(potree@, hierarchy),
{
    let bounds = potree.bounds();
    let scale = potree.scale();
    let root = potree.root();
    proof {
        root.lemma_view();
    }
    let mut min: Vec<i64> = Vec::new();
    min.push(bounds.lx);
    min.push(bounds.ly);
    min.push(bounds.lz);
    let mut max: Vec<i64> = Vec::new();
    max.push(bounds.ux);
    max.push(bounds.uy);
    max.push(bounds.uz);
    let position = AttributeDescription {
        name: String::from_str("position"),
        description: String::from_str(""),
        size: 12,
        num_elements: 3,
        element_size: 4,
        kind: String::from_str("int32"),
        min,
        max,
    };
    proof {
        assert(position.min@ =~= seq![bounds.lx, bounds.ly, bounds.lz]);
        assert(position.max@ =~= seq![bounds.ux, bounds.uy, bounds.uz]);
    }
    let mut attributes: Vec<AttributeDescription> = Vec::new();
    attributes.push(position);
    assert(attribute_views(attributes@) =~= seq![position_description(potree@)]);
    Metadata::create_2(
        root,
        attributes,
        &Options { encoding: Encoding::DEFAULT, keep_chunks: false, name: String::from_str("") },
        &State { name: String::from_str(""), points_total: potree.size() as u64 },
        hierarchy,
        Vector3 { x: bounds.lx, y: bounds.ly, z: bounds.lz },
        Vector3 { x: scale, y: scale, z: scale },
        potree.spacing(),
        hierarchy.depth,
    )
}

/// The three artifacts of a conversion: the point data, the hierarchy and
/// the descriptive record.
pub struct PotreeData {
    pub octree: Vec<u8>,
    pub hierarchy: Vec<u8>,
    pub metadata: Metadata,
}

impl PotreeData {
    /// The descriptive record.
    pub fn get_metadata(&self) -> (metadata: &Metadata)
        ensures
            metadata == &self.metadata,
    {
        &self.metadata
    }

    /// The bytes of the hierarchy.
    pub fn get_hierarchy(&self) -> (bytes: &Vec<u8>)
        ensures
            bytes == &self.hierarchy,
    {
        &self.hierarchy
    }

    /// The bytes of the point data.
    pub fn get_octree(&self) -> (bytes: &Vec<u8>)
        ensures
            bytes == &self.octree,
    {
        &self.octree
    }
}

/// What a new writer has produced after it wrote the octree: the point
/// data and the byte range of each written node.
pub open spec fn point_data_of(potree: PotreeView) -> Sink {
    written(
        Sink { bytes: Seq::empty(), ranges: Map::empty() },
        write_order(seq![potree.root]),
        write_order(seq![potree.root]).len(),
        potree.bounds.lower(),
        potree.scale as int,
    )
}

/// The error with which an octree is rejected, if it is: its hierarchy has
/// to be encodable from the byte ranges of its written nodes, and the chunk
/// of its root has to fit in 16 bits.
pub open spec fn conversion_error(potree: PotreeView) -> Option<WriteError> {
    match rejection(potree.root, point_data_of(potree).ranges) {
        Some(cause) => Some(WriteError::HierarchyError { cause }),
        None => if chunk_size(chunks_of(potree.root, HIERARCHY_STEP_SIZE as nat)[0]) > u16::MAX {
            Some(WriteError::FirstChunkTooLarge)
        } else {
            None
        },
    }
}

/// Whether the artifacts are those of the octree: its point data, the
/// hierarchy encoded from the byte ranges of its written nodes, and the
/// record of both.
pub open spec fn is_conversion_of(data: &PotreeData, potree: PotreeView) -> bool {
    &&& data.octree@ == point_data_of(potree).bytes
    &&& exists|hierarchy: Hierarchy| #[trigger]
        is_hierarchy_of(hierarchy, potree.root, point_data_of(potree).ranges) && data.hierarchy@
            == hierarchy.buffer@ && data.metadata@ == metadata_for(potree, &hierarchy)
}

/// Converts an octree into its three artifacts: writes the point data,
/// encodes the hierarchy from the byte ranges of the written nodes, and
/// assembles the descriptive record.
pub fn write_potree_to_struct(potree: Potree) -> (result: Result<PotreeData, WriteError>)
    ensures
        match result {
            Ok(data) => conversion_error(potree@) is None && is_conversion_of(&data, potree@),
            Err(e) => conversion_error(potree@) == Some(e),
        },
{
    let mut writer = Writer::new();
    assert(writer@ == (Sink { bytes: Seq::empty(), ranges: Map::empty() })) by {
        assert(writer@.bytes =~= Seq::<u8>::empty());
    }
    writer.write(&potree);
    let Writer { buffer, node_hierarchy } = writer;
    let size = potree.size();
    match create_hierarchy(potree.root(), node_hierarchy) {
        Err(cause) => Err(WriteError::HierarchyError { cause }),
        Ok(hierarchy) => {
            match create_metadata(&potree, &hierarchy) {
                None => {
                    Err(WriteError::FirstChunkTooLarge)
                },
                Some(metadata) => {
                    let ghost encoded = hierarchy;
                    let data = PotreeData { octree: buffer, hierarchy: hierarchy.buffer, metadata };
                    proof {
                        assert(is_hierarchy_of(
                            encoded,
                            potree@.root,
                            point_data_of(potree@).ranges,
                        ));
                    }
                    Ok(data)
                },
            }
        },
    }
}

/// The point data of an octree has twelve bytes for each of its points.
pub proof fn lemma_point_data_holds_all(potree: PotreeView)
    requires
        potree.wf(),
    ensures
        point_data_of(potree).bytes.len() == BYTES_PER_POINT * potree.size,
        point_data_of(potree).bytes.len() / 12 == potree.size,
{
    lemma_point_data_len(
        Sink { bytes: Seq::empty(), ranges: Map::empty() },
        potree.root,
        potree.bounds.lower(),
        potree.scale as int,
    );
}

/// The point data of the octree of a point set has twelve bytes for each
/// point of the set.
pub proof fn lemma_point_data_of_built_tree(potree: PotreeView, points: Seq<Vector3>, limit: u32)
    requires
        potree.is_built_from(points, limit),
    ensures
        point_data_of(potree).bytes.len() / 12 == points.len(),
{
    lemma_point_data_holds_all(potree);
}

/// Whether an octree is rejected, and with which error, is determined by
/// the points and the limit from which it was built.
pub proof fn lemma_rejection_is_determined(
    points: Seq<Vector3>,
    limit: u32,
    a: PotreeView,
    b: PotreeView,
)
    requires
        a.is_built_from(points, limit),
        b.is_built_from(points, limit),
    ensures
        point_data_of(a) == point_data_of(b),
        conversion_error(a) == conversion_error(b),
{
    lemma_build_is_determined(a, b, points, limit);
}

/// A conversion is determined by the points and the limit: two octrees
/// built from the same points with the same limit give the same point
/// data, the same hierarchy and the same descriptive record.
pub proof fn lemma_conversion_is_determined(
    points: Seq<Vector3>,
    limit: u32,
    a: PotreeView,
    b: PotreeView,
    x: &PotreeData,
    y: &PotreeData,
)
    requires
        a.is_built_from(points, limit),
        b.is_built_from(points, limit),
        is_conversion_of(x, a),
        is_conversion_of(y, b),
    ensures
        x.octree@ == y.octree@,
        x.hierarchy@ == y.hierarchy@,
        x.metadata@ == y.metadata@,
{
    lemma_build_is_determined(a, b, points, limit);
    let g = choose|hierarchy: Hierarchy| #[trigger]
        is_hierarchy_of(hierarchy, a.root, point_data_of(a).ranges) && x.hierarchy@
            == hierarchy.buffer@ && x.metadata@ == metadata_for(a, &hierarchy);
    let h = choose|hierarchy: Hierarchy| #[trigger]
        is_hierarchy_of(hierarchy, b.root, point_data_of(b).ranges) && y.hierarchy@
            == hierarchy.buffer@ && y.metadata@ == metadata_for(b, &hierarchy);
    assert(metadata_for(a, &g) == metadata_for(b, &h));
}

} // verus!
