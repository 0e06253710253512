use rusty_potree_converter::model::attributes::{Attribute, AttributeType, Attributes};
use rusty_potree_converter::model::hierarchy::Hierarchy;
use rusty_potree_converter::model::metadata::{Attribute as Description, Metadata};
use rusty_potree_converter::model::options::{Encoding, Options};
use rusty_potree_converter::model::vector3::Vector3;
use rusty_potree_converter::model::State;
use rusty_potree_converter::potree::Potree;

fn attribute(name: &str, size: i32, elements: i32, kind: AttributeType) -> Attribute {
    Attribute {
        name: name.to_string(),
        description: format!("the {}", name),
        size,
        num_elements: elements,
        element_size: if elements == 0 { 0 } else { size / elements },
        kind,
        min: Vector3 { x: 1, y: 2, z: 3 },
        max: Vector3 { x: 4, y: 5, z: 6 },
    }
}

#[test]
fn offsets_add_up_the_sizes_before() {
    let attributes = Attributes::from_attributes(vec![
        attribute("position", 12, 3, AttributeType::INT32),
        attribute("intensity", 2, 1, AttributeType::UINT16),
        attribute("rgb", 6, 3, AttributeType::UINT16),
        attribute("intensity", 4, 1, AttributeType::FLOAT),
    ]);
    assert_eq!(attributes.get_offset("position".to_string()), 0);
    assert_eq!(attributes.get_offset("intensity".to_string()), 12);
    assert_eq!(attributes.get_offset("rgb".to_string()), 14);
    assert_eq!(attributes.get_offset("classification".to_string()), -1);
    assert_eq!(attributes.get("intensity".to_string()).unwrap().size, 2);
    assert!(attributes.get("classification".to_string()).is_none());
    assert_eq!(attributes.bytes, 0);
}

#[test]
fn new_attributes_are_empty() {
    let attributes = Attributes::new();
    assert!(attributes.list.is_empty());
    assert_eq!(attributes.pos_scale, Vector3 { x: 10_000, y: 10_000, z: 10_000 });
    assert_eq!(attributes.pos_offset, Vector3 { x: 0, y: 0, z: 0 });
    assert_eq!(attributes.get_offset("position".to_string()), -1);
}

#[test]
fn number_types_have_numbers_and_texts() {
    assert_eq!(AttributeType::INT8.number(), 0);
    assert_eq!(AttributeType::INT64.number(), 3);
    assert_eq!(AttributeType::UINT8.number(), 10);
    assert_eq!(AttributeType::UINT64.number(), 13);
    assert_eq!(AttributeType::FLOAT.number(), 20);
    assert_eq!(AttributeType::DOUBLE.number(), 21);
    assert_eq!(AttributeType::UNDEFINED.number(), 123456);
    assert_eq!(AttributeType::INT32.text(), "\"INT32\"");
    assert_eq!(AttributeType::UNDEFINED.text(), "\"UNDEFINED\"");
}

#[test]
fn descriptions_keep_as_many_components_as_the_attribute_has() {
    let one = Description::from_attribute(&attribute("intensity", 2, 1, AttributeType::UINT16));
    assert_eq!(one.name, "intensity");
    assert_eq!(one.description, "the intensity");
    assert_eq!((one.size, one.num_elements, one.element_size), (2, 1, 2));
    assert_eq!(one.kind, "\"UINT16\"");
    assert_eq!((one.min, one.max), (vec![1], vec![4]));
    let two = Description::from_attribute(&attribute("uv", 8, 2, AttributeType::FLOAT));
    assert_eq!((two.min, two.max), (vec![1, 2], vec![4, 5]));
    let three = Description::from_attribute(&attribute("position", 12, 3, AttributeType::INT32));
    assert_eq!((three.min, three.max), (vec![1, 2, 3], vec![4, 5, 6]));
    let none = Description::from_attribute(&attribute("flags", 0, 0, AttributeType::UNDEFINED));
    assert_eq!((none.min, none.max), (Vec::<i64>::new(), Vec::<i64>::new()));
    let four = Description::from_attribute(&attribute("rgba", 4, 4, AttributeType::UINT8));
    assert_eq!((four.min, four.max), (Vec::<i64>::new(), Vec::<i64>::new()));
}

#[test]
fn metadata_from_attributes_uses_their_origin_and_step() {
    let tree = Potree::new(
        vec![Vector3 { x: 0, y: 0, z: 0 }, Vector3 { x: 10, y: 20, z: 30 }],
        10,
    )
    .unwrap();
    let mut attributes = Attributes::from_attributes(vec![
        attribute("position", 12, 3, AttributeType::INT32),
        attribute("intensity", 2, 1, AttributeType::UINT16),
    ]);
    attributes.pos_offset = Vector3 { x: 7, y: 8, z: 9 };
    attributes.pos_scale = Vector3 { x: 1, y: 10, z: 100 };
    let options = Options { keep_chunks: true, name: "cloud".to_string(), encoding: Encoding::BROTLI };
    let state = State { name: "INDEXING".to_string(), points_total: 2 };
    let hierarchy = Hierarchy { step_size: 4, buffer: Vec::new(), first_chunk_size: 44, depth: 9 };
    let metadata =
        Metadata::create(tree.root(), &attributes, &options, &state, &hierarchy, 17, 5).unwrap();
    assert_eq!(metadata.version, "2.0");
    assert_eq!(metadata.name, "cloud");
    assert_eq!(metadata.points, 2);
    assert_eq!(metadata.offset, [7, 8, 9]);
    assert_eq!(metadata.scale, [1, 10, 100]);
    assert_eq!(metadata.spacing, 17);
    assert_eq!(metadata.hierarchy.first_chunk_size, 44);
    assert_eq!(metadata.hierarchy.step_size, 4);
    assert_eq!(metadata.hierarchy.depth, 5);
    assert!(matches!(metadata.encoding, Encoding::BROTLI));
    assert_eq!(metadata.bounding_box.min, [0, 0, 0]);
    assert_eq!(metadata.bounding_box.max, [30, 30, 30]);
    assert_eq!(metadata.attributes.len(), 2);
    assert_eq!(metadata.attributes[1].name, "intensity");
    assert_eq!(metadata.attributes[1].kind, "\"UINT16\"");
    let too_large = Hierarchy { step_size: 4, buffer: Vec::new(), first_chunk_size: 70_000, depth: 0 };
    assert!(Metadata::create(tree.root(), &attributes, &options, &state, &too_large, 17, 5).is_none());
}
