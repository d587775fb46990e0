use fallen_age::lod::{determine_lod_level, LodLevel};

#[test]
fn directory_names_per_level() {
    assert_eq!(LodLevel::High.directory_name(), "lod0");
    assert_eq!(LodLevel::Medium.directory_name(), "lod1");
    assert_eq!(LodLevel::Low.directory_name(), "lod2");
}

#[test]
fn from_index_maps_and_rejects() {
    assert_eq!(LodLevel::from_index(0), Some(LodLevel::High));
    assert_eq!(LodLevel::from_index(1), Some(LodLevel::Medium));
    assert_eq!(LodLevel::from_index(2), Some(LodLevel::Low));
    assert_eq!(LodLevel::from_index(3), None);
    assert_eq!(LodLevel::from_index(usize::MAX), None);
}

#[test]
fn all_levels_in_order() {
    assert_eq!(LodLevel::all_levels(), vec![LodLevel::High, LodLevel::Medium, LodLevel::Low]);
}

#[test]
fn divisors_and_indices() {
    assert_eq!(LodLevel::High.divisor(), 1);
    assert_eq!(LodLevel::Medium.divisor(), 2);
    assert_eq!(LodLevel::Low.divisor(), 4);
    assert_eq!(LodLevel::Low.index(), 2);
}

#[test]
fn camera_height_picks_level() {
    let thresholds = vec![300, 700];
    assert_eq!(determine_lod_level(120, &thresholds), LodLevel::High);
    assert_eq!(determine_lod_level(300, &thresholds), LodLevel::Medium);
    assert_eq!(determine_lod_level(699, &thresholds), LodLevel::Medium);
    assert_eq!(determine_lod_level(1300, &thresholds), LodLevel::Low);
    assert_eq!(determine_lod_level(5000, &vec![]), LodLevel::High);
    assert_eq!(determine_lod_level(5000, &vec![1, 2, 3]), LodLevel::Low);
}
