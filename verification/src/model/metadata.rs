//! The descriptive record of a converted point cloud.

use crate::model::attributes::Attribute as PointAttribute;
use crate::model::attributes::{Attributes, type_text};
use crate::model::bounds::Bounds;
use crate::model::hierarchy::Hierarchy as EncodedHierarchy;
use crate::model::node::Node;
use crate::model::options::{Encoding, Options};
use crate::model::State;
use crate::model::vector3::Vector3;
use vstd::prelude::*;

verus! {

/// What a reader has to know of the hierarchy before it loads it.
#[derive(Clone, Copy, Debug, PartialEq, Eq, Structural)]
pub struct Hierarchy {
    pub first_chunk_size: u16,
    pub step_size: u8,
    pub depth: u8,
}

/// The description of an attribute of the point records.
pub struct Attribute {
    pub name: String,
    pub description: String,
    /// The number of bytes of the attribute in a point record.
    pub size: u8,
    /// The number of components.
    pub num_elements: u8,
    /// The number of bytes of one component.
    pub element_size: u8,
    /// The name of the number type of the components.
    pub kind: String,
    /// The least value of each component.
    pub min: Vec<i64>,
    /// The greatest value of each component.
    pub max: Vec<i64>,
}

/// The value of the description of an attribute.
pub struct AttributeView {
    pub name: Seq<char>,
    pub description: Seq<char>,
    pub size: u8,
    pub num_elements: u8,
    pub element_size: u8,
    pub kind: Seq<char>,
    pub min: Seq<i64>,
    pub max: Seq<i64>,
}

impl View for Attribute {
    type V = AttributeView;

    open spec fn view(&self) -> AttributeView {
        AttributeView {
            name: self.name@,
            description: self.description@,
            size: self.size,
            num_elements: self.num_elements,
            element_size: self.element_size,
            kind: self.kind@,
            min: self.min@,
            max: self.max@,
        }
    }
}

/// The first `count` components of a vector, none where the count is not
/// 1, 2 or 3.
pub open spec fn components(v: Vector3, count: int) -> Seq<i64> {
    if count == 1 {
        seq![v.x]
    } else if count == 2 {
        seq![v.x, v.y]
    } else if count == 3 {
        seq![v.x, v.y, v.z]
    } else {
        Seq::empty()
    }
}

/// The description of an attribute of a point.
pub open spec fn described(attribute: PointAttribute) -> AttributeView {
    AttributeView {
        name: attribute.name@,
        description: attribute.description@,
        size: attribute.size as u8,
        num_elements: attribute.num_elements as u8,
        element_size: attribute.element_size as u8,
        kind: type_text(attribute.kind),
        min: components(attribute.min, attribute.num_elements as int),
        max: components(attribute.max, attribute.num_elements as int),
    }
}

/// The first `count` components of a vector.
fn components_of(v: &Vector3, count: i32) -> (list: Vec<i64>)
    ensures
        list@ == components(*v, count as int),
{
    let mut list: Vec<i64> = Vec::new();
    if count == 1 {
        list.push(v.x);
        assert(list@ =~= seq![v.x]);
    } else if count == 2 {
        list.push(v.x);
        list.push(v.y);
        assert(list@ =~= seq![v.x, v.y]);
    } else if count == 3 {
        list.push(v.x);
        list.push(v.y);
        list.push(v.z);
        assert(list@ =~= seq![v.x, v.y, v.z]);
    }
    list
}

impl Attribute {
    /// Describes an attribute of a point: its name, its sizes, the name of
    /// its number type, and the least and greatest value of each of its
    /// components.
    pub fn from_attribute(attribute: &PointAttribute) -> (description: Attribute)
        requires
            attribute.wf(),
        ensures
            description@ == described(*attribute),
    {
        let min = components_of(&attribute.min, attribute.num_elements);
        let max = components_of(&attribute.max, attribute.num_elements);
        Attribute {
            name: attribute.name.clone(),
            description: attribute.description.clone(),
            size: attribute.size as u8,
            num_elements: attribute.num_elements as u8,
            element_size: attribute.element_size as u8,
            kind: attribute.kind.text(),
            min,
            max,
        }
    }
}

/// The corners of the bounding box of the cloud.
#[derive(Clone, Copy, Debug)]
pub struct BoundingBox {
    pub min: [i64; 3],
    pub max: [i64; 3],
}

/// The descriptive record of a converted point cloud. Lengths are in
/// lattice units.
pub struct Metadata {
    pub version: String,
    pub name: String,
    pub description: String,
    pub points: u64,
    pub projection: String,
    pub hierarchy: Hierarchy,
    /// The origin against which the point records are quantized.
    pub offset: [i64; 3],
    /// The quantization step of the point records along each axis.
    pub scale: [i64; 3],
    /// The spacing of the root.
    pub spacing: u64,
    pub bounding_box: BoundingBox,
    pub encoding: Encoding,
    pub attributes: Vec<Attribute>,
}

/// The value of a descriptive record.
pub struct MetadataView {
    pub version: Seq<char>,
    pub name: Seq<char>,
    pub description: Seq<char>,
    pub points: u64,
    pub projection: Seq<char>,
    pub hierarchy: Hierarchy,
    pub offset: Seq<i64>,
    pub scale: Seq<i64>,
    pub spacing: u64,
    pub bounding_box_min: Seq<i64>,
    pub bounding_box_max: Seq<i64>,
    pub encoding: Encoding,
    pub attributes: Seq<AttributeView>,
}

/// The values of a list of attribute descriptions.
pub open spec fn attribute_views(list: Seq<Attribute>) -> Seq<AttributeView> {
    Seq::new(list.len(), |i: int| list[i]@)
}

impl View for Metadata {
    type V = MetadataView;

    open spec fn view(&self) -> MetadataView {
        MetadataView {
            version: self.version@,
            name: self.name@,
            description: self.description@,
            points: self.points,
            projection: self.projection@,
            hierarchy: self.hierarchy,
            offset: self.offset@,
            scale: self.scale@,
            spacing: self.spacing,
            bounding_box_min: self.bounding_box.min@,
            bounding_box_max: self.bounding_box.max@,
            encoding: self.encoding,
            attributes: attribute_views(self.attributes@),
        }
    }
}

/// The record of a cloud: the format version "2.0", the name of the job,
/// the number of points, what a reader has to know of the hierarchy, the
/// origin and the step of the quantization, the spacing of the root, and
/// the cell of the root as the bounding box.
pub open spec fn metadata_of(
    cell: Bounds,
    attributes: Seq<AttributeView>,
    name: Seq<char>,
    encoding: Encoding,
    points_total: u64,
    hierarchy: Hierarchy,
    offset: Vector3,
    scale: Vector3,
    spacing: u64,
) -> MetadataView {
    MetadataView {
        version: "2.0"@,
        name,
        description: ""@,
        points: points_total,
        projection: ""@,
        hierarchy,
        offset: seq![offset.x, offset.y, offset.z],
        scale: seq![scale.x, scale.y, scale.z],
        spacing,
        bounding_box_min: seq![cell.lx, cell.ly, cell.lz],
        bounding_box_max: seq![cell.ux, cell.uy, cell.uz],
        encoding,
        attributes,
    }
}

/// The descriptions of the first `n` attributes of a list.
pub open spec fn described_list(list: Seq<PointAttribute>, n: nat) -> Seq<AttributeView>
    decreases n,
{
    if n == 0 {
        Seq::empty()
    } else {
        described_list(list, (n - 1) as nat).push(described(list[n - 1]))
    }
}

impl Metadata {
    /// Assembles the record of a cloud from the attributes of its points;
    /// the origin and the step of the quantization are those of the
    /// attributes. There is no record where the size of the first chunk
    /// does not fit in 16 bits.
    pub fn create(
        root: &Node,
        attributes: &Attributes,
        options: &Options,
        state: &State,
        hierarchy: &EncodedHierarchy,
        spacing: u64,
        depth: u8,
    ) -> (result: Option<Metadata>)
        requires
            forall|i: int|
                0 <= i < attributes.list@.len() ==> (#[trigger] attributes.list@[i]).wf(),
        ensures
            result is Some <==> 0 <= hierarchy.first_chunk_size <= u16::MAX,
            result is Some ==> result->0@ == metadata_of(
                root.bounds,
                described_list(attributes.list@, attributes.list@.len()),
                options.name@,
                options.encoding,
                state.points_total,
                Hierarchy {
                    first_chunk_size: hierarchy.first_chunk_size as u16,
                    step_size: hierarchy.step_size,
                    depth,
                },
                attributes.pos_offset,
                attributes.pos_scale,
                spacing,
            ),
    {
        let mut list: Vec<Attribute> = Vec::new();
        let mut k: usize = 0;
        assert(attribute_views(list@) =~= described_list(attributes.list@, 0));
        while k < attributes.list.len()
            invariant
                k <= attributes.list@.len(),
                forall|i: int|
                    0 <= i < attributes.list@.len() ==> (#[trigger] attributes.list@[i]).wf(),
                attribute_views(list@) == described_list(attributes.list@, k as nat),
            decreases attributes.list@.len() - k,
        {
            let ghost before = attribute_views(list@);
            let description = Attribute::from_attribute(&attributes.list[k]);
            list.push(description);
            assert(attribute_views(list@) =~= before.push(described(attributes.list@[k as int])));
            k += 1;
        }
        Metadata::create_2(
            root,
            list,
            options,
            state,
            hierarchy,
            attributes.pos_offset,
            attributes.pos_scale,
            spacing,
            depth,
        )
    }

    /// Assembles the record of a cloud from the descriptions of its
    /// attributes and the origin and the step of the quantization. There is
    /// no record where the size of the first chunk does not fit in 16 bits.
    pub fn create_2(
        root: &Node,
        attributes: Vec<Attribute>,
        options: &Options,
        state: &State,
        hierarchy: &EncodedHierarchy,
        offset: Vector3,
        scale: Vector3,
        spacing: u64,
        depth: u8,
    ) -> (result: Option<Metadata>)
        ensures
            result is Some <==> 0 <= hierarchy.first_chunk_size <= u16::MAX,
            result is Some ==> result->0@ == metadata_of(
                root.bounds,
                attribute_views(attributes@),
                options.name@,
                options.encoding,
                state.points_total,
                Hierarchy {
                    first_chunk_size: hierarchy.first_chunk_size as u16,
                    step_size: hierarchy.step_size,
                    depth,
                },
                offset,
                scale,
                spacing,
            ),
    {
        if hierarchy.first_chunk_size < 0 || hierarchy.first_chunk_size > u16::MAX as i64 {
            return None;
        }
        let bounds = &root.bounds;
        let metadata = Metadata {
            version: String::from_str("2.0"),
            name: options.name.clone(),
            description: String::from_str(""),
            points: state.points_total,
            projection: String::from_str(""),
            hierarchy: Hierarchy {
                first_chunk_size: hierarchy.first_chunk_size as u16,
                step_size: hierarchy.step_size,
                depth,
            },
            offset: [offset.x, offset.y, offset.z],
            scale: [scale.x, scale.y, scale.z],
            spacing,
            bounding_box: BoundingBox {
                min: [bounds.lx, bounds.ly, bounds.lz],
                max: [bounds.ux, bounds.uy, bounds.uz],
            },
            encoding: options.encoding,
            attributes,
        };
        proof {
            assert(metadata.offset@ =~= seq![offset.x, offset.y, offset.z]);
            assert(metadata.scale@ =~= seq![scale.x, scale.y, scale.z]);
            assert(metadata.bounding_box.min@ =~= seq![bounds.lx, bounds.ly, bounds.lz]);
            assert(metadata.bounding_box.max@ =~= seq![bounds.ux, bounds.uy, bounds.uz]);
        }
        Some(metadata)
    }
}

} // verus!
