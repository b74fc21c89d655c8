use point_viewer::batch::{try_for_each_batch, Flow, IterError};
use point_viewer::encoding::{decode_coordinate, encode_coordinate, Cube, PositionEncoding};
use point_viewer::node_id::{ChildIndex, NodeId};
use point_viewer::node_io::{decode_positions, encode_positions, NodeError};
use point_viewer::octree::{NodeIdsIterator, Octree};
use point_viewer::query::{
    points_in_box, points_in_box_of_nodes, try_for_each_batch_in_box, Aabb, Relation,
};
use std::cell::Cell;

#[test]
fn parent_of_child_is_self() {
    let n = NodeId::from_level_index(3, 100);
    for c in 0..8u8 {
        let child = n.get_child_id(ChildIndex::from_u8(c));
        assert_eq!(child.level(), 4);
        assert_eq!(child.index(), 800 + c as u64);
        assert_eq!(child.parent_id(), Some(n));
        assert_eq!(child.child_index().as_u8(), c);
    }
    assert_eq!(NodeId::root().parent_id(), None);
}

#[test]
fn node_names() {
    let root = NodeId::root();
    assert_eq!(root.to_string(), "r");
    let a = root.get_child_id(ChildIndex::from_u8(1));
    let b = a.get_child_id(ChildIndex::from_u8(4));
    let c = b.get_child_id(ChildIndex::from_u8(2));
    assert_eq!(c.to_string(), "r142");
    assert_eq!(NodeId::from_level_index(4, 0o142).to_string(), "r0142");
}

fn cube(min: [i64; 3], edge: u64) -> Cube {
    Cube { min, edge }
}

#[test]
fn encoding_selection() {
    // A cube of 1 m at a resolution of 10 cm needs 10 steps.
    assert_eq!(PositionEncoding::new(&cube([0, 0, 0], 1000), 100), PositionEncoding::Uint8);
    assert_eq!(PositionEncoding::new(&cube([0, 0, 0], 25600), 100), PositionEncoding::Uint8);
    assert_eq!(PositionEncoding::new(&cube([0, 0, 0], 25601), 100), PositionEncoding::Uint16);
    assert_eq!(PositionEncoding::new(&cube([0, 0, 0], 6553600), 100), PositionEncoding::Uint16);
    assert_eq!(PositionEncoding::new(&cube([0, 0, 0], 6553601), 100), PositionEncoding::Float32);
    assert_eq!(PositionEncoding::Uint16.bytes_per_coordinate(), 2);
}

#[test]
fn coordinate_quantization() {
    let enc = PositionEncoding::Uint8;
    assert_eq!(encode_coordinate(0, 0, 1000, enc), 0);
    assert_eq!(encode_coordinate(1000, 0, 1000, enc), 255);
    assert_eq!(encode_coordinate(500, 0, 1000, enc), 128);
    assert_eq!(encode_coordinate(-5, 0, 1000, enc), 0);
    assert_eq!(encode_coordinate(2000, 0, 1000, enc), 255);
    assert_eq!(decode_coordinate(255, 0, 1000, enc), 1000);
    assert_eq!(decode_coordinate(128, 0, 1000, enc), 502);
    for x in [-300i64, -299, -1, 0, 1, 333, 699, 700] {
        let q = encode_coordinate(x, -300, 1000, enc);
        let back = decode_coordinate(q, -300, 1000, enc);
        assert!(255 * (back - x).abs() <= 1000);
    }
    let enc16 = PositionEncoding::Uint16;
    let q = encode_coordinate(123_456, 100_000, 1_000_000, enc16);
    let back = decode_coordinate(q, 100_000, 1_000_000, enc16);
    assert!(65535 * (back - 123_456).abs() <= 1_000_000);
}

#[test]
fn positions_round_trip() {
    let c = cube([-1000, 0, 500], 2000);
    let points = vec![[-1000, 0, 500], [1000, 2000, 2500], [3, 777, 1234], [0, 1, 2000]];
    for enc in [PositionEncoding::Uint8, PositionEncoding::Uint16] {
        let bytes = encode_positions(&points, &c, enc);
        assert_eq!(bytes.len(), 3 * points.len() * enc.bytes_per_coordinate());
        let back = decode_positions(&bytes, points.len(), &c, enc).unwrap();
        assert_eq!(back.len(), points.len());
        let max = if enc == PositionEncoding::Uint8 { 255 } else { 65535 };
        for (p, q) in points.iter().zip(back.iter()) {
            for a in 0..3 {
                assert!(max * (p[a] - q[a]).abs() <= 2000);
            }
        }
    }
    let bytes = encode_positions(&points, &c, PositionEncoding::Uint16);
    assert_eq!(bytes[0], 0);
    assert_eq!(bytes[1], 0);
    assert_eq!(bytes[2], 0);
    assert_eq!(bytes[3], 0);
    // The second point sits on the maximum corner: every coordinate is stored as 65535.
    assert!(bytes[6..12].iter().all(|b| *b == 0xff));
}

#[test]
fn short_position_blob_is_malformed() {
    let c = cube([0, 0, 0], 1000);
    let bytes = vec![1u8, 2, 3, 4, 5];
    assert_eq!(decode_positions(&bytes, 2, &c, PositionEncoding::Uint8), Err(NodeError::MalformedData));
    assert_eq!(decode_positions(&bytes, 1, &c, PositionEncoding::Uint16), Err(NodeError::MalformedData));
    assert_eq!(decode_positions(&bytes, 1, &c, PositionEncoding::Uint8).unwrap().len(), 1);
    assert_eq!(decode_positions(&bytes, 0, &c, PositionEncoding::Uint16).unwrap().len(), 0);
}

fn tiny_cloud() -> Vec<[i64; 3]> {
    vec![[0, 0, 0], [1000, 0, 0], [0, 1000, 0], [0, 0, 1000]]
}

#[test]
fn tiny_cloud_index() {
    let c = cube([0, 0, 0], 1000);
    assert_eq!(PositionEncoding::new(&c, 100), PositionEncoding::Uint8);
    let mut octree = Octree::new();
    let root = NodeId::root();
    octree.set_num_points(&root, tiny_cloud().len() as u64);
    assert!(octree.contains(&root));
    assert_eq!(octree.num_points(&root), 4);
    let leaf = root.get_child_id(ChildIndex::from_u8(0));
    assert!(!octree.contains(&leaf));
    assert_eq!(octree.num_points(&leaf), 0);
}

#[test]
fn box_query() {
    let c = cube([0, 0, 0], 1000);
    let region = Aabb { min: [-100, -100, -100], max: [500, 500, 500] };
    assert_eq!(region.classify(&c), Relation::Crosses);
    let found = points_in_box(&region, &c, &tiny_cloud());
    assert_eq!(found, vec![[0, 0, 0]]);
}

#[test]
fn region_matching_root_cube_returns_every_point() {
    let c = cube([0, 0, 0], 1000);
    let region = Aabb { min: [0, 0, 0], max: [1000, 1000, 1000] };
    assert_eq!(region.classify(&c), Relation::Inside);
    assert_eq!(points_in_box(&region, &c, &tiny_cloud()), tiny_cloud());
}

#[test]
fn disjoint_region_returns_nothing() {
    let c = cube([0, 0, 0], 1000);
    let region = Aabb { min: [2000, 2000, 2000], max: [3000, 3000, 3000] };
    assert_eq!(region.classify(&c), Relation::Outside);
    assert!(points_in_box(&region, &c, &tiny_cloud()).is_empty());
}

#[test]
fn cancellation_after_first_batch() {
    let points: Vec<u32> = (0..10).collect();
    let calls = Cell::new(0usize);
    let seen = Cell::new(0usize);
    let r = try_for_each_batch(&points, 3, |b: &Vec<u32>| {
        calls.set(calls.get() + 1);
        seen.set(seen.get() + b.len());
        Flow::Stop
    });
    assert_eq!(r, Err(IterError::Cancelled));
    assert_eq!(calls.get(), 1);
    assert_eq!(seen.get(), 3);
}

#[test]
fn batches_cover_all_points() {
    let points: Vec<u32> = (0..10).collect();
    let sizes = std::cell::RefCell::new(Vec::new());
    let all = std::cell::RefCell::new(Vec::new());
    let r = try_for_each_batch(&points, 4, |b: &Vec<u32>| {
        sizes.borrow_mut().push(b.len());
        all.borrow_mut().extend_from_slice(b);
        Flow::Continue
    });
    assert_eq!(r, Ok(()));
    assert_eq!(*sizes.borrow(), vec![4, 4, 2]);
    assert_eq!(*all.borrow(), points);
}

#[test]
fn empty_query_invokes_no_callback() {
    let points: Vec<u32> = Vec::new();
    let calls = Cell::new(0usize);
    let r = try_for_each_batch(&points, 5, |_b: &Vec<u32>| {
        calls.set(calls.get() + 1);
        Flow::Continue
    });
    assert_eq!(r, Ok(()));
    assert_eq!(calls.get(), 0);
}

#[test]
fn node_ids_breadth_first() {
    let mut octree = Octree::new();
    let root = NodeId::root();
    let c1 = root.get_child_id(ChildIndex::from_u8(1));
    let c5 = root.get_child_id(ChildIndex::from_u8(5));
    let c12 = c1.get_child_id(ChildIndex::from_u8(2));
    let c50 = c5.get_child_id(ChildIndex::from_u8(0));
    for n in [root, c1, c5, c12, c50] {
        octree.set_num_points(&n, 10);
    }
    let mut it = NodeIdsIterator::new(&octree, |_id: &NodeId, _o: &Octree| true);
    let mut order = Vec::new();
    while let Some(id) = it.next() {
        order.push(id);
    }
    assert_eq!(order, vec![root, c1, c5, c12, c50]);

    // Rejecting a node skips its subtree.
    let mut it = NodeIdsIterator::new(&octree, move |id: &NodeId, _o: &Octree| *id != c1);
    let mut order = Vec::new();
    while let Some(id) = it.next() {
        order.push(id);
    }
    assert_eq!(order, vec![root, c5, c50]);
}

#[test]
fn classify_per_axis() {
    let c = cube([0, 0, 0], 100);
    // Touching on a face is not apart.
    assert_eq!(Aabb { min: [100, 0, 0], max: [200, 100, 100] }.classify(&c), Relation::Crosses);
    assert_eq!(Aabb { min: [101, 0, 0], max: [200, 100, 100] }.classify(&c), Relation::Outside);
    assert_eq!(Aabb { min: [0, 0, -1], max: [100, 100, 100] }.classify(&c), Relation::Inside);
    assert_eq!(Aabb { min: [0, 0, 1], max: [100, 100, 100] }.classify(&c), Relation::Crosses);
}

#[test]
fn query_over_several_nodes() {
    let cubes = vec![cube([0, 0, 0], 1000), cube([1000, 0, 0], 1000)];
    let nodes = vec![tiny_cloud(), vec![[1000, 0, 0], [1500, 10, 10], [1999, 999, 999]]];
    let region = Aabb { min: [-100, -100, -100], max: [1500, 500, 500] };
    let found = points_in_box_of_nodes(&region, &cubes, &nodes);
    assert_eq!(found, vec![[0, 0, 0], [1000, 0, 0], [1000, 0, 0], [1500, 10, 10]]);
    let calls = Cell::new(0usize);
    let r = try_for_each_batch_in_box(&region, &cubes, &nodes, 3, |b: &Vec<[i64; 3]>| {
        calls.set(calls.get() + 1);
        assert!(b.len() <= 3);
        Flow::Continue
    });
    assert_eq!(r, Ok(()));
    assert_eq!(calls.get(), 2);
}
