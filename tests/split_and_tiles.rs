use point_viewer::s2::{
    s2_cloud_to_meta_proto, AttributeDataType, AttributeMeta, S2Cell, group_by_cell, is_valid_ecef, s2_cell_to_proto, split_by_cell, OpenMode, S2Splitter,
    SplitError, MAX_NUM_NODE_WRITERS,
};
use point_viewer::tile::{build_parent, Rgb, Tile};

#[test]
fn cell_to_proto() {
    let c = s2_cell_to_proto(-42, 17);
    assert_eq!(c.id, -42);
    assert_eq!(c.num_points, 17);
}

#[test]
fn ecef_band_boundaries() {
    assert!(is_valid_ecef([6_352_800_000, 0, 0]));
    assert!(!is_valid_ecef([6_352_799_999, 0, 0]));
    assert!(is_valid_ecef([0, 0, -6_384_400_000]));
    assert!(!is_valid_ecef([0, 6_384_400_001, 0]));
    assert!(is_valid_ecef([4_500_000_000, 4_500_000_000, 0]));
    assert!(!is_valid_ecef([i64::MAX, i64::MIN, i64::MAX]));
}

#[test]
fn split_rejects_point_at_earth_center() {
    let positions = vec![[0i64, 0, 0]];
    let cells = vec![7u64];
    assert!(matches!(split_by_cell(&positions, &cells), Err(SplitError::DomainError(0))));
    let positions = vec![[6_370_000_000i64, 0, 0], [1, 2, 3]];
    let cells = vec![7u64, 7];
    assert!(matches!(split_by_cell(&positions, &cells), Err(SplitError::DomainError(1))));
    assert!(matches!(split_by_cell(&positions, &vec![7u64]), Err(SplitError::LengthMismatch)));
}

#[test]
fn split_groups_by_cell() {
    let p = [6_370_000_000i64, 0, 0];
    let positions = vec![p, p, p, p, p];
    let cells = vec![9u64, 4, 9, 9, 4];
    let groups = split_by_cell(&positions, &cells).unwrap();
    assert_eq!(groups.len(), 2);
    assert_eq!(groups[0].cell, 9);
    assert_eq!(groups[0].indices, vec![0, 2, 3]);
    assert_eq!(groups[1].cell, 4);
    assert_eq!(groups[1].indices, vec![1, 4]);
    assert!(group_by_cell(&Vec::new()).is_empty());
}

#[test]
fn writers_truncate_once_and_append_after_eviction() {
    let mut s = S2Splitter::new(OpenMode::Truncate);
    let a = s.writer(1);
    assert_eq!(a.open, Some(OpenMode::Truncate));
    assert_eq!(a.close, None);
    let again = s.writer(1);
    assert_eq!(again.open, None);
    assert_eq!(again.close, None);
    for cell in 2..=(MAX_NUM_NODE_WRITERS as u64) {
        let r = s.writer(cell);
        assert_eq!(r.open, Some(OpenMode::Truncate));
        assert_eq!(r.close, None);
    }
    // The cache is full: cell 1 is the least recently used and is closed.
    let r = s.writer(100);
    assert_eq!(r.open, Some(OpenMode::Truncate));
    assert_eq!(r.close, Some(1));
    // Reopening cell 1 extends what it wrote before.
    let r = s.writer(1);
    assert_eq!(r.open, Some(OpenMode::Append));
    assert_eq!(r.close, Some(2));
}

#[test]
fn writers_in_append_mode_never_truncate() {
    let mut s = S2Splitter::new(OpenMode::Append);
    assert_eq!(s.writer(5).open, Some(OpenMode::Append));
    assert_eq!(s.writer(6).open, Some(OpenMode::Append));
    assert_eq!(s.writer(5).open, None);
}

fn solid(n: usize, color: Rgb) -> Tile {
    Tile::from_pixel(n, n, color)
}

const RED: Rgb = Rgb { red: 255, green: 0, blue: 0 };
const GREEN: Rgb = Rgb { red: 0, green: 255, blue: 0 };
const BLUE: Rgb = Rgb { red: 0, green: 0, blue: 255 };
const WHITE: Rgb = Rgb { red: 255, green: 255, blue: 255 };

#[test]
fn tile_pyramid() {
    let children = vec![
        Some(solid(64, RED)),
        Some(solid(64, GREEN)),
        Some(solid(64, BLUE)),
        Some(solid(64, WHITE)),
    ];
    let parent = build_parent(&children, 64);
    assert_eq!(parent.width, 128);
    assert_eq!(parent.height, 128);
    assert_eq!(parent.get_pixel(0, 0), GREEN);
    assert_eq!(parent.get_pixel(63, 63), GREEN);
    assert_eq!(parent.get_pixel(0, 64), RED);
    assert_eq!(parent.get_pixel(63, 127), RED);
    assert_eq!(parent.get_pixel(64, 0), WHITE);
    assert_eq!(parent.get_pixel(127, 63), WHITE);
    assert_eq!(parent.get_pixel(64, 64), BLUE);
    assert_eq!(parent.get_pixel(127, 127), BLUE);
}

#[test]
fn tile_pyramid_keeps_child_pixels() {
    let mut child = solid(2, BLUE);
    child.pixels[1] = RED; // (x = 1, y = 0)
    let children = vec![None, Some(child), None, None];
    let parent = build_parent(&children, 2);
    assert_eq!(parent.get_pixel(1, 0), RED);
    assert_eq!(parent.get_pixel(0, 0), BLUE);
    assert_eq!(parent.get_pixel(3, 3), WHITE);
}

#[test]
fn parent_of_no_children_is_white() {
    let children: Vec<Option<Tile>> = vec![None, None, None, None];
    let parent = build_parent(&children, 16);
    assert_eq!(parent.width, 32);
    assert_eq!(parent.height, 32);
    assert_eq!(parent.pixels.len(), 32 * 32);
    assert!(parent.pixels.iter().all(|p| *p == WHITE));
}

#[test]
fn split_cloud_meta() {
    let cells = vec![s2_cell_to_proto(5, 10), S2Cell { id: 7, num_points: 1 }];
    let attributes = vec![
        AttributeMeta { name: "color".to_string(), data_type: AttributeDataType::U8Vec3 },
        AttributeMeta { name: "intensity".to_string(), data_type: AttributeDataType::F32 },
    ];
    let meta = s2_cloud_to_meta_proto(3, cells.clone(), &attributes);
    assert_eq!(meta.version, 3);
    assert_eq!(meta.cells, cells);
    assert_eq!(meta.attributes.len(), 2);
    assert_eq!(meta.attributes[0].name, "color");
    assert_eq!(meta.attributes[1].name, "intensity");
    assert_eq!(meta.attributes[1].data_type, AttributeDataType::F32);
}
