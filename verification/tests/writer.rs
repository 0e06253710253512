use rusty_potree_converter::model::vector3::Vector3;
use rusty_potree_converter::potree::Potree;
use rusty_potree_converter::writer::encoding::quantize;
use rusty_potree_converter::writer::ranges::NodeRanges;
use rusty_potree_converter::writer::{
    create_metadata, write_potree_to_struct, WriteError, Writer,
};
use rusty_potree_converter::model::hierarchy::{Hierarchy, HierarchyError};
use rusty_potree_converter::model::options::Encoding;

fn scattered_points(count: usize) -> Vec<Vector3> {
    let mut state: u64 = 88172645463325252;
    let mut next = move |modulus: u64| {
        state ^= state << 13;
        state ^= state >> 7;
        state ^= state << 17;
        (state % modulus) as i64
    };
    let mut points = Vec::new();
    for _ in 0..count {
        points.push(Vector3 { x: next(1_000_000), y: next(100_000), z: next(100_000) });
    }
    points
}

fn chain_of_duplicates(copies: usize) -> Vec<Vector3> {
    let mut points = vec![
        Vector3 { x: 0, y: 0, z: 0 },
        Vector3 { x: 1_000_000, y: 1_000_000, z: 1_000_000 },
    ];
    for _ in 1..copies {
        points.push(Vector3 { x: 0, y: 0, z: 0 });
    }
    points
}

#[test]
fn test_write_potree() {
    let count = 100;
    let potree = Potree::new(scattered_points(count), 1000).unwrap();
    let mut writer = Writer::new();
    writer.write(&potree);
    let points_written = writer.buffer.len() / (3 * 4);
    assert_eq!(count, points_written);
    assert_eq!(writer.byte_offset(), 1200);
}

#[test]
fn test_write_to_struct() {
    let potree = Potree::new(scattered_points(100), 20000).unwrap();
    let potree_data = write_potree_to_struct(potree).unwrap();
    let points_written = potree_data.get_octree().len() / (3 * 4);
    assert_eq!(100, points_written);
    assert_eq!(potree_data.get_metadata().points, 100);
    assert_eq!(potree_data.get_metadata().version, "2.0");
    assert_eq!(potree_data.get_hierarchy().len(), 22);
}

#[test]
fn single_point_gives_twelve_bytes() {
    let tree = Potree::new(vec![Vector3 { x: 5, y: 6, z: 7 }], 1).unwrap();
    let mut writer = Writer::new();
    writer.write(&tree);
    assert_eq!(writer.buffer, vec![0u8; 12]);
    assert_eq!(writer.node_hierarchy.get(&Vec::new()), Some((12, 0)));
    assert_eq!(writer.node_hierarchy.get(&vec![7]), None);
}

#[test]
fn records_are_quantized_little_endian() {
    let points = vec![
        Vector3 { x: -20_000, y: 0, z: 5 },
        Vector3 { x: -7_655, y: 2_560, z: 4 },
        Vector3 { x: 10_000, y: 30_000, z: 123_456_789 },
    ];
    let tree = Potree::new(points, 10).unwrap();
    assert_eq!(tree.scale(), 10);
    let mut writer = Writer::new();
    writer.write(&tree);
    let expected: Vec<u8> = vec![
        0, 0, 0, 0, 0, 0, 0, 0, 0, 0, 0, 0, // first point: the origin corner in x and y
        0xD3, 0x04, 0, 0, 0, 1, 0, 0, 0, 0, 0, 0, // 1234.5 rounds to 1235; 256; 0
        0xB8, 0x0B, 0, 0, 0xB8, 0x0B, 0, 0, 0x4F, 0x61, 0xBC, 0x00, // 3000; 3000; 12345678.5 rounds to 12345679
    ];
    assert_eq!(writer.buffer[12..24], expected[12..24]);
    assert_eq!(writer.buffer, expected);
    assert_eq!(writer.node_hierarchy.get(&Vec::new()), Some((36, 0)));
}

#[test]
fn quantize_rounds_to_nearest_and_saturates() {
    assert_eq!(quantize(12_345, 0, 10), 1235);
    assert_eq!(quantize(12_344, 0, 10), 1234);
    assert_eq!(quantize(0, 15, 10), -2);
    assert_eq!(quantize(0, 14, 10), -1);
    assert_eq!(quantize(7, 3, 1), 4);
    assert_eq!(quantize(150, 0, 100), 2);
    assert_eq!(quantize(149, 0, 100), 1);
    assert_eq!(quantize(1 << 53, -(1 << 53), 1), i32::MAX);
    assert_eq!(quantize(-(1 << 53), 1 << 53, 1), i32::MIN);
    assert_eq!(quantize(i32::MAX as i64, 0, 1), i32::MAX);
    assert_eq!(quantize(-2_147_483_648, 0, 1), i32::MIN);
}

#[test]
fn point_data_holds_every_point_of_a_split_tree() {
    let potree = Potree::new(scattered_points(5_000), 300).unwrap();
    assert!(!potree.root().is_leaf_node());
    let mut writer = Writer::new();
    writer.write(&potree);
    assert_eq!(writer.buffer.len(), 12 * 5_000);
    let (size, offset) = writer.node_hierarchy.get(&Vec::new()).unwrap();
    assert_eq!(offset, 0);
    assert_eq!(size as usize, 12 * potree.root().num_points());
}

#[test]
fn writing_twice_gives_the_same_bytes() {
    let first = write_potree_to_struct(Potree::new(scattered_points(400), 1000).unwrap()).unwrap();
    let second = write_potree_to_struct(Potree::new(scattered_points(400), 1000).unwrap()).unwrap();
    assert_eq!(first.octree, second.octree);
    assert_eq!(first.hierarchy, second.hierarchy);
    assert_eq!(first.metadata.spacing, second.metadata.spacing);
    assert_eq!(first.metadata.offset, second.metadata.offset);
}

#[test]
fn nodes_are_written_wave_by_wave_until_a_generation_starts() {
    let tree = Potree::new(chain_of_duplicates(7), 1).unwrap();
    let mut writer = Writer::new();
    writer.write(&tree);
    assert_eq!(writer.buffer.len(), 12 * 8);
    assert_eq!(writer.node_hierarchy.get(&Vec::new()), Some((24, 0)));
    for level in 1..7usize {
        let path = vec![0u8; level];
        assert_eq!(writer.node_hierarchy.get(&path), Some((12, 12 + 12 * level as u64)));
    }
    assert_eq!(writer.node_hierarchy.get(&vec![0u8; 7]), None);
}

#[test]
fn a_tree_with_an_empty_leaf_has_no_hierarchy() {
    let tree = Potree::new(vec![Vector3 { x: 5, y: 6, z: 7 }], 1).unwrap();
    let result = write_potree_to_struct(tree);
    assert!(matches!(
        result,
        Err(WriteError::HierarchyError { cause: HierarchyError::MissingByteRange })
    ));
    assert_eq!(result.err().unwrap().message(), "A node of the hierarchy has no byte range");
}

#[test]
fn metadata_describes_the_cloud() {
    let points = vec![
        Vector3 { x: -20_000, y: 0, z: 5 },
        Vector3 { x: 10_000, y: 30_000, z: 123_456_789 },
    ];
    let data = write_potree_to_struct(Potree::new(points, 10).unwrap()).unwrap();
    let metadata = data.get_metadata();
    assert_eq!(metadata.version, "2.0");
    assert_eq!(metadata.name, "");
    assert_eq!(metadata.description, "");
    assert_eq!(metadata.projection, "");
    assert_eq!(metadata.points, 2);
    assert_eq!(metadata.hierarchy.first_chunk_size, 22);
    assert_eq!(metadata.hierarchy.step_size, 4);
    assert_eq!(metadata.hierarchy.depth, 0);
    assert_eq!(metadata.offset, [-20_000, 0, 5]);
    assert_eq!(metadata.scale, [10, 10, 10]);
    assert_eq!(metadata.bounding_box.min, [-20_000, 0, 5]);
    assert_eq!(
        metadata.bounding_box.max,
        [-20_000 + 123_456_784, 123_456_784, 123_456_789]
    );
    assert!(matches!(metadata.encoding, Encoding::DEFAULT));
    assert_eq!(metadata.attributes.len(), 1);
    let position = &metadata.attributes[0];
    assert_eq!(position.name, "position");
    assert_eq!(position.description, "");
    assert_eq!((position.size, position.num_elements, position.element_size), (12, 3, 4));
    assert_eq!(position.kind, "int32");
    assert_eq!(position.min, vec![-20_000, 0, 5]);
    assert_eq!(position.max, vec![10_000, 30_000, 123_456_789]);
    assert_eq!(metadata.spacing, 1_069_167);
}

#[test]
fn metadata_needs_a_first_chunk_of_sixteen_bits() {
    let tree = Potree::new(vec![Vector3 { x: 5, y: 6, z: 7 }], 2).unwrap();
    let large = Hierarchy { step_size: 4, buffer: Vec::new(), first_chunk_size: 65_536, depth: 0 };
    assert!(create_metadata(&tree, &large).is_none());
    let negative = Hierarchy { step_size: 4, buffer: Vec::new(), first_chunk_size: -1, depth: 0 };
    assert!(create_metadata(&tree, &negative).is_none());
    let fits = Hierarchy { step_size: 4, buffer: Vec::new(), first_chunk_size: 65_535, depth: 3 };
    let metadata = create_metadata(&tree, &fits).unwrap();
    assert_eq!(metadata.hierarchy.first_chunk_size, 65_535);
    assert_eq!(metadata.hierarchy.depth, 3);
}

#[test]
fn a_later_range_replaces_an_earlier_one() {
    let mut ranges = NodeRanges::new();
    assert_eq!(ranges.get(&vec![1, 2]), None);
    ranges.insert(vec![1, 2], 12, 0);
    ranges.insert(vec![1], 24, 12);
    ranges.insert(vec![1, 2], 36, 48);
    assert_eq!(ranges.get(&vec![1, 2]), Some((36, 48)));
    assert_eq!(ranges.get(&vec![1]), Some((24, 12)));
    assert_eq!(ranges.get(&vec![2, 1]), None);
    assert_eq!(ranges.get(&Vec::new()), None);
}

#[test]
fn write_error_messages() {
    let error = WriteError::PrepareDirError { msg: String::from("x") };
    assert_eq!(error.message(), "Could not prepare directory");
    assert_eq!(
        WriteError::FirstChunkTooLarge.message(),
        "The first chunk of the hierarchy is too large"
    );
    let deep = WriteError::HierarchyError { cause: HierarchyError::TooDeep };
    assert_eq!(deep.message(), "The tree is deeper than the hierarchy can hold");
}

#[test]
fn a_first_chunk_above_sixteen_bits_is_rejected() {
    let mut points = Vec::new();
    for x in 0..16i64 {
        for y in 0..16i64 {
            for z in 0..16i64 {
                for _ in 0..5 {
                    points.push(Vector3 { x: x * 1_000_000, y: y * 1_000_000, z: z * 1_000_000 });
                }
            }
        }
    }
    let tree = Potree::new(points, 2).unwrap();
    let mut writer = Writer::new();
    writer.write(&tree);
    assert_eq!(writer.buffer.len(), 12 * 5 * 4096);
    let result = write_potree_to_struct(tree);
    assert!(matches!(result, Err(WriteError::FirstChunkTooLarge)));
}
