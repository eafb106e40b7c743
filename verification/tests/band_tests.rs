use rolling_shutter::image_processing::generage_subimage_coords;
use rolling_shutter::{direction_from_str, Direction};

#[test]
fn test_subimage_coords() {
    let x = 3u32;
    let y = 4u32;
    let width = 640u32;
    let height = 480u32;
    let bounds = (x, y, width, height);

    assert_eq!(
        generage_subimage_coords(bounds, 0, Direction::N),
        Some((x, y, width, 1))
    );
    assert_eq!(
        generage_subimage_coords(bounds, 30, Direction::N),
        Some((x, y + 30, width, 1))
    );
    assert_eq!(generage_subimage_coords(bounds, height + 5, Direction::N), None);

    assert_eq!(
        generage_subimage_coords(bounds, 0, Direction::S),
        Some((x, y + height - 1, width, 1))
    );
    assert_eq!(
        generage_subimage_coords(bounds, 30, Direction::S),
        Some((x, y + height - 30 - 1, width, 1))
    );
    assert_eq!(generage_subimage_coords(bounds, height + 5, Direction::S), None);

    assert_eq!(
        generage_subimage_coords(bounds, 0, Direction::W),
        Some((x, y, 1, height))
    );
    assert_eq!(
        generage_subimage_coords(bounds, 30, Direction::W),
        Some((x + 30, y, 1, height))
    );
    assert_eq!(generage_subimage_coords(bounds, width + 5, Direction::W), None);

    assert_eq!(
        generage_subimage_coords(bounds, 0, Direction::E),
        Some((x + width - 1, y, 1, height))
    );
    assert_eq!(
        generage_subimage_coords(bounds, 30, Direction::E),
        Some((x + width - 30 - 1, y, 1, height))
    );
    assert_eq!(generage_subimage_coords(bounds, width + 5, Direction::E), None);
}

#[test]
fn band_symmetry_north_south() {
    let bounds = (3u32, 4u32, 640u32, 480u32);
    for i in [0u32, 1, 30, 479] {
        assert_eq!(
            generage_subimage_coords(bounds, i, Direction::N),
            generage_subimage_coords(bounds, 480 - 1 - i, Direction::S)
        );
    }
}

#[test]
fn band_symmetry_west_east() {
    let bounds = (3u32, 4u32, 640u32, 480u32);
    for i in [0u32, 1, 30, 639] {
        assert_eq!(
            generage_subimage_coords(bounds, i, Direction::W),
            generage_subimage_coords(bounds, 640 - 1 - i, Direction::E)
        );
    }
}

#[test]
fn band_exhaustion_boundaries() {
    let bounds = (0u32, 0u32, 6u32, 4u32);
    assert!(generage_subimage_coords(bounds, 3, Direction::N).is_some());
    assert_eq!(generage_subimage_coords(bounds, 4, Direction::N), None);
    assert!(generage_subimage_coords(bounds, 3, Direction::S).is_some());
    assert_eq!(generage_subimage_coords(bounds, 4, Direction::S), None);
    assert!(generage_subimage_coords(bounds, 5, Direction::W).is_some());
    assert_eq!(generage_subimage_coords(bounds, 6, Direction::W), None);
    assert!(generage_subimage_coords(bounds, 5, Direction::E).is_some());
    assert_eq!(generage_subimage_coords(bounds, 6, Direction::E), None);
}

#[test]
fn direction_letters() {
    assert_eq!(direction_from_str("N"), Some(Direction::N));
    assert_eq!(direction_from_str("E"), Some(Direction::E));
    assert_eq!(direction_from_str("S"), Some(Direction::S));
    assert_eq!(direction_from_str("W"), Some(Direction::W));
    assert_eq!(direction_from_str("X"), None);
    assert_eq!(direction_from_str(""), None);
    assert_eq!(direction_from_str("NE"), None);
}
