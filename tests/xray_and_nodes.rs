use point_viewer::encoding::{Cube, PositionEncoding};
use point_viewer::node_id::{ChildIndex, NodeId};
use point_viewer::node_io::{decode_colors, encode_colors, encode_positions, NodeError};
use point_viewer::tile::Rgb;
use point_viewer::octree::{node_points, Octree, OctreeMeta};
use point_viewer::query::Aabb;
use point_viewer::xray::{
    colors_from_points, discretize, xray_buckets_from_points, ColorSums, Rgba, XRayBuckets,
};

#[test]
fn xray_of_disjoint_box_is_empty() {
    let points = vec![[0i64, 0, 0], [1000, 0, 0], [0, 1000, 0], [0, 0, 1000]];
    let b = Aabb { min: [5000, 5000, 5000], max: [6000, 6000, 6000] };
    assert!(xray_buckets_from_points(&points, &b, 64, 64).is_none());
}

#[test]
fn xray_counts_distinct_height_buckets() {
    let b = Aabb { min: [0, 0, 0], max: [1024, 1024, 1024] };
    // x = 10 * 64 / 1024 = 0, row = (1024 - 10) * 64 / 1024 = 63, bucket = z.
    assert_eq!(discretize([10, 10, 5], &b, 64, 64), (0, 63, 5));
    assert_eq!(discretize([1024, 0, 1024], &b, 64, 64), (64, 64, 1024));
    let points = vec![[10, 10, 5], [11, 12, 5], [10, 10, 700], [600, 600, 1], [5000, 0, 0]];
    let acc = xray_buckets_from_points(&points, &b, 64, 64).unwrap();
    assert_eq!(acc.bucket_count(0, 63), 2);
    assert_eq!(acc.bucket_count(37, 26), 1);
    assert_eq!(acc.bucket_count(1, 1), 0);
    let mut direct = XRayBuckets::new();
    direct.process_discretized_point(3, 4, 9);
    direct.process_discretized_point(3, 4, 9);
    direct.process_discretized_point(4, 3, 9);
    assert_eq!(direct.bucket_count(3, 4), 1);
    assert_eq!(direct.bucket_count(4, 3), 1);
}

#[test]
fn node_bounding_cubes() {
    let root = Cube { min: [0, 0, 0], edge: 1024 };
    let n = NodeId::root().get_child_id(ChildIndex::from_u8(5));
    let c = n.find_bounding_cube(&root);
    assert_eq!(c.min, [512, 0, 512]);
    assert_eq!(c.edge, 512);
    let m = n.get_child_id(ChildIndex::from_u8(2));
    let c = m.find_bounding_cube(&root);
    assert_eq!(c.min, [512, 256, 512]);
    assert_eq!(c.edge, 256);
}

#[test]
fn reading_node_points() {
    let meta = OctreeMeta { root: Cube { min: [0, 0, 0], edge: 1000 }, resolution: 100 };
    let points = vec![[0i64, 0, 0], [1000, 0, 0], [0, 1000, 0], [0, 0, 1000]];
    let colors = vec![
        Rgb { red: 1, green: 2, blue: 3 },
        Rgb { red: 4, green: 5, blue: 6 },
        Rgb { red: 7, green: 8, blue: 9 },
        Rgb { red: 255, green: 0, blue: 128 },
    ];
    let mut octree = Octree::new();
    let root = NodeId::root();
    octree.set_num_points(&root, 4);
    let bytes = encode_positions(&points, &meta.root, PositionEncoding::Uint8);
    let color_bytes = encode_colors(&colors);
    assert_eq!(bytes.len(), 12);
    assert_eq!(color_bytes, vec![1, 2, 3, 4, 5, 6, 7, 8, 9, 255, 0, 128]);
    let data = node_points(&octree, &meta, &root, &bytes, Some(&color_bytes)).unwrap();
    assert_eq!(data.positions, points);
    assert_eq!(data.colors, colors);
    assert!(matches!(
        node_points(&octree, &meta, &root, &bytes[..11].to_vec(), Some(&color_bytes)),
        Err(NodeError::MalformedData)
    ));
    assert!(matches!(
        node_points(&octree, &meta, &root, &bytes, Some(&color_bytes[..11].to_vec())),
        Err(NodeError::MalformedData)
    ));
    assert!(matches!(
        node_points(&octree, &meta, &root, &bytes, None),
        Err(NodeError::UnknownAttribute)
    ));
    let too_fine = OctreeMeta { root: Cube { min: [0, 0, 0], edge: 70_000 }, resolution: 1 };
    assert!(matches!(
        node_points(&octree, &too_fine, &root, &bytes, Some(&color_bytes)),
        Err(NodeError::UnquantizedPositions)
    ));
}

#[test]
fn empty_node_reads_as_empty() {
    let huge = OctreeMeta { root: Cube { min: [0, 0, 0], edge: 1_000_000 }, resolution: 1 };
    let octree = Octree::new();
    let data = node_points(&octree, &huge, &NodeId::root(), &Vec::new(), None).unwrap();
    assert!(data.positions.is_empty());
    assert!(data.colors.is_empty());
}

#[test]
fn colors_round_trip() {
    let colors = vec![Rgb { red: 9, green: 8, blue: 7 }, Rgb { red: 0, green: 255, blue: 1 }];
    let bytes = encode_colors(&colors);
    assert_eq!(decode_colors(&bytes, 2), Ok(colors.clone()));
    assert_eq!(decode_colors(&bytes, 1), Ok(vec![colors[0]]));
    assert_eq!(decode_colors(&bytes, 3), Err(NodeError::MalformedData));
}

#[test]
fn point_colors_are_averaged_per_pixel() {
    let mut sums = ColorSums::new();
    assert_eq!(sums.mean(2, 3), None);
    sums.process_discretized_point(Rgba { red: 10, green: 0, blue: 255, alpha: 255 }, 2, 3);
    sums.process_discretized_point(Rgba { red: 21, green: 1, blue: 255, alpha: 0 }, 2, 3);
    sums.process_discretized_point(Rgba { red: 99, green: 99, blue: 99, alpha: 99 }, 3, 2);
    assert_eq!(sums.mean(2, 3), Some(Rgba { red: 15, green: 0, blue: 255, alpha: 127 }));
    assert_eq!(sums.mean(3, 2), Some(Rgba { red: 99, green: 99, blue: 99, alpha: 99 }));
    assert_eq!(sums.mean(0, 0), None);
}

#[test]
fn colors_from_points_of_box() {
    let b = Aabb { min: [0, 0, 0], max: [1024, 1024, 1024] };
    let points = vec![[10, 10, 5], [11, 12, 900], [600, 600, 1], [5000, 0, 0]];
    let red = Rgba { red: 200, green: 0, blue: 0, alpha: 255 };
    let blue = Rgba { red: 0, green: 0, blue: 100, alpha: 255 };
    let colors = vec![red, blue, blue, red];
    let sums = colors_from_points(&points, &colors, &b, 64, 64).unwrap();
    assert_eq!(sums.mean(0, 63), Some(Rgba { red: 100, green: 0, blue: 50, alpha: 255 }));
    assert_eq!(sums.mean(37, 26), Some(blue));
    let far = Aabb { min: [9000, 9000, 9000], max: [9001, 9001, 9001] };
    assert!(colors_from_points(&points, &colors, &far, 64, 64).is_none());
}
