use rusty_potree_converter::model::hierarchy::{
    child_mask_of, create_hierarchy, create_hierarchy_chunks, gather_chunk, HierarchyError, Type,
};
use rusty_potree_converter::model::node::Node;
use rusty_potree_converter::model::vector3::Vector3;
use rusty_potree_converter::potree::Potree;
use rusty_potree_converter::writer::ranges::NodeRanges;
use rusty_potree_converter::writer::Writer;

fn chain(copies: usize) -> Potree {
    let mut points = vec![
        Vector3 { x: 0, y: 0, z: 0 },
        Vector3 { x: 1_000_000, y: 1_000_000, z: 1_000_000 },
    ];
    for _ in 1..copies {
        points.push(Vector3 { x: 0, y: 0, z: 0 });
    }
    Potree::new(points, 1).unwrap()
}

fn spread() -> Potree {
    let mut points = Vec::new();
    for x in 0..4 {
        for y in 0..4 {
            for z in 0..4 {
                for _ in 0..6 {
                    points.push(Vector3 { x: x * 1000, y: y * 1000, z: z * 1000 });
                }
            }
        }
    }
    Potree::new(points, 1).unwrap()
}

fn record_every_node(node: &Node, ranges: &mut NodeRanges, next: &mut u64) {
    ranges.insert(node.path.clone(), 12 * node.num_points() as u64, *next);
    *next += 12 * node.num_points() as u64;
    for child in node.children.iter() {
        if let Some(child) = child {
            record_every_node(child, ranges, next);
        }
    }
}

fn all_ranges(tree: &Potree) -> NodeRanges {
    let mut ranges = NodeRanges::new();
    let mut next = 0;
    record_every_node(tree.root(), &mut ranges, &mut next);
    ranges
}

fn u64_at(buffer: &[u8], at: usize) -> u64 {
    let mut value = 0u64;
    for i in 0..8 {
        value |= (buffer[at + i] as u64) << (8 * i);
    }
    value
}

fn u32_at(buffer: &[u8], at: usize) -> u32 {
    let mut value = 0u32;
    for i in 0..4 {
        value |= (buffer[at + i] as u32) << (8 * i);
    }
    value
}

#[test]
fn record_of_a_single_leaf() {
    let tree = Potree::new(vec![Vector3 { x: 5, y: 6, z: 7 }], 2).unwrap();
    let mut writer = Writer::new();
    writer.write(&tree);
    let hierarchy = create_hierarchy(tree.root(), writer.node_hierarchy).unwrap();
    assert_eq!(
        hierarchy.buffer,
        vec![1, 0, 1, 0, 0, 0, 0, 0, 0, 0, 0, 0, 0, 0, 12, 0, 0, 0, 0, 0, 0, 0]
    );
    assert_eq!(hierarchy.first_chunk_size, 22);
    assert_eq!(hierarchy.step_size, 4);
    assert_eq!(hierarchy.depth, 0);
}

#[test]
fn missing_byte_range_is_an_error() {
    let tree = Potree::new(vec![Vector3 { x: 5, y: 6, z: 7 }], 2).unwrap();
    let result = create_hierarchy(tree.root(), NodeRanges::new());
    assert!(matches!(result, Err(HierarchyError::MissingByteRange)));
}

#[test]
fn targets_are_written_little_endian() {
    let tree = Potree::new(vec![Vector3 { x: 5, y: 6, z: 7 }], 2).unwrap();
    let mut ranges = NodeRanges::new();
    ranges.insert(Vec::new(), 0x0102_0304_0506_0708, 0x1112_1314_1516_1718);
    let hierarchy = create_hierarchy(tree.root(), ranges).unwrap();
    assert_eq!(
        hierarchy.buffer,
        vec![
            1, 0, 1, 0, 0, 0, 0x18, 0x17, 0x16, 0x15, 0x14, 0x13, 0x12, 0x11, 0x08, 0x07, 0x06,
            0x05, 0x04, 0x03, 0x02, 0x01
        ]
    );
}

#[test]
fn chunks_follow_the_proxies() {
    let tree = chain(7);
    let mut writer = Writer::new();
    writer.write(&tree);
    let Writer { buffer, mut node_hierarchy } = writer;
    assert_eq!(buffer.len(), 96);
    node_hierarchy.insert(vec![0u8; 7], 0, 96);
    let hierarchy = create_hierarchy(tree.root(), node_hierarchy).unwrap();
    assert_eq!(hierarchy.buffer.len(), 9 * 22);
    assert_eq!(hierarchy.first_chunk_size, 5 * 22);
    assert_eq!(hierarchy.depth, 7);
    let records: Vec<&[u8]> = hierarchy.buffer.chunks(22).collect();
    let kinds: Vec<u8> = records.iter().map(|r| r[0]).collect();
    assert_eq!(kinds, vec![0, 0, 0, 0, 2, 0, 0, 0, 1]);
    let masks: Vec<u8> = records.iter().map(|r| r[1]).collect();
    assert_eq!(masks, vec![1, 1, 1, 1, 1, 1, 1, 1, 0]);
    let counts: Vec<u32> = records.iter().map(|r| u32_at(r, 2)).collect();
    assert_eq!(counts, vec![2, 1, 1, 1, 1, 1, 1, 1, 0]);
    assert_eq!((u64_at(records[0], 6), u64_at(records[0], 14)), (0, 24));
    assert_eq!((u64_at(records[3], 6), u64_at(records[3], 14)), (48, 12));
    assert_eq!((u64_at(records[4], 6), u64_at(records[4], 14)), (110, 88));
    assert_eq!((u64_at(records[5], 6), u64_at(records[5], 14)), (60, 12));
    assert_eq!((u64_at(records[8], 6), u64_at(records[8], 14)), (96, 0));
}

#[test]
fn every_proxy_points_to_the_chunk_of_its_node() {
    let tree = spread();
    let ranges = all_ranges(&tree);
    let chunks = create_hierarchy_chunks(tree.root(), 4);
    let hierarchy = create_hierarchy(tree.root(), ranges).unwrap();
    let mut starts = Vec::new();
    let mut offset = 0u64;
    for chunk in chunks.iter() {
        starts.push(offset);
        offset += 22 * chunk.nodes.len() as u64;
    }
    assert_eq!(offset as usize, hierarchy.buffer.len());
    let mut proxies = 0;
    for (index, chunk) in chunks.iter().enumerate() {
        for (k, node) in chunk.nodes.iter().enumerate() {
            let at = starts[index] as usize + 22 * k;
            let record = &hierarchy.buffer[at..at + 22];
            if record[0] == 2 {
                proxies += 1;
                let target = u64_at(record, 6);
                let size = u64_at(record, 14);
                let j = starts.iter().position(|s| *s == target).unwrap();
                assert_eq!(chunks[j].name, node.path);
                assert_eq!(chunks[j].nodes[0].path, node.path);
                assert_eq!(size, 22 * chunks[j].nodes.len() as u64);
                let first = &hierarchy.buffer[target as usize..target as usize + 22];
                assert_ne!(first[0], 2);
                assert_eq!(first[1], record[1]);
                assert_eq!(first[2..6], record[2..6]);
            } else {
                assert!(node.level() < chunk.name.len() + 4);
            }
        }
    }
    assert!(proxies > 0);
}

#[test]
fn chunk_nodes_are_sorted_breadth_first() {
    let tree = spread();
    let chunks = create_hierarchy_chunks(tree.root(), 4);
    assert_eq!(chunks[0].name, Vec::<u8>::new());
    for chunk in chunks.iter() {
        assert_eq!(chunk.nodes[0].path, chunk.name);
        for pair in chunk.nodes.windows(2) {
            let a = (pair[0].path.len(), pair[0].path.clone());
            let b = (pair[1].path.len(), pair[1].path.clone());
            assert!(a < b);
            assert!(pair[1].path.len() <= chunk.name.len() + 4);
            assert!(pair[1].path.starts_with(&chunk.name));
        }
    }
    let mut seen = 0;
    for chunk in chunks.iter() {
        seen += chunk.nodes.iter().filter(|n| n.path.len() < chunk.name.len() + 4).count();
    }
    fn count(node: &Node) -> usize {
        1 + node.children.iter().flatten().map(|c| count(c)).sum::<usize>()
    }
    assert_eq!(seen, count(tree.root()));
}

#[test]
fn gathered_chunk_stops_at_its_lowest_level() {
    let tree = chain(7);
    let chunk = gather_chunk(tree.root(), 2);
    let names: Vec<String> = chunk.nodes.iter().map(|n| n.name()).collect();
    assert_eq!(names, vec!["r", "r0", "r00"]);
    assert_eq!(chunk.name, Vec::<u8>::new());
    let lower = gather_chunk(chunk.nodes[2], 0);
    assert_eq!(lower.nodes.len(), 1);
    assert_eq!(lower.name, vec![0, 0]);
}

#[test]
fn a_tree_deeper_than_a_byte_is_rejected() {
    let tree = chain(300);
    let ranges = all_ranges(&tree);
    let result = create_hierarchy(tree.root(), ranges);
    assert!(matches!(result, Err(HierarchyError::TooDeep)));
    let shallow = chain(255);
    let ranges = all_ranges(&shallow);
    let hierarchy = create_hierarchy(shallow.root(), ranges).unwrap();
    assert_eq!(hierarchy.depth, 255);
}

#[test]
fn child_mask_has_a_bit_for_each_child() {
    let tree = spread();
    fn expect_mask(node: &Node) {
        let mut expected = 0u8;
        for i in 0..8 {
            if node.children[i].is_some() {
                expected |= 1 << i;
            }
        }
        assert_eq!(child_mask_of(node), expected);
        for child in node.children.iter().flatten() {
            expect_mask(child);
        }
    }
    expect_mask(tree.root());
    let single = Potree::new(vec![Vector3 { x: 5, y: 6, z: 7 }], 1).unwrap();
    assert_eq!(child_mask_of(single.root()), 128);
}

#[test]
fn record_kinds_have_their_codes() {
    assert_eq!(Type::Normal.code(), 0);
    assert_eq!(Type::Leaf.code(), 1);
    assert_eq!(Type::Proxy.code(), 2);
}
