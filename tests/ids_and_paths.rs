use fallen_age::cache::{cache_directory_under, setup, terrain_mesh_cache, terrain_mesh_cache_dir, terrain_mesh_lod_dir};
use fallen_age::lod::LodLevel;
use fallen_age::short_hash::{generate_short_hash, short_hash_from_checksum};

#[test]
fn short_hash_is_crc_prefix() {
    assert_eq!(generate_short_hash("0"), Some("f4dbdf".to_string()));
    assert_eq!(generate_short_hash("1"), Some("83dcef".to_string()));
    assert_eq!(generate_short_hash("abc"), Some("352441".to_string()));
}

#[test]
fn short_hash_needs_six_digits() {
    // CRC-32 of "665" is 0x81566: five digits only
    assert_eq!(generate_short_hash("665"), None);
    assert_eq!(short_hash_from_checksum(0x100000), "100000");
    assert_eq!(short_hash_from_checksum(0xffffffff), "ffffff");
    assert_eq!(short_hash_from_checksum(0x0abcdef1), "abcdef");
}

#[test]
fn cache_paths_nest_by_level() {
    assert_eq!(cache_directory_under("/home/u/.cache"), "/home/u/.cache/fallen-age/cache");
    assert_eq!(terrain_mesh_cache_dir("/c"), "/c/terrain");
    assert_eq!(terrain_mesh_lod_dir("/c", LodLevel::Low), "/c/terrain/lod2");
    assert_eq!(terrain_mesh_cache("/c", "f4dbdf", LodLevel::Medium), "/c/terrain/lod1/f4dbdf.mesh");
}

#[test]
fn setup_lists_directories_parents_first() {
    assert_eq!(
        setup("/c"),
        vec!["/c/terrain".to_string(), "/c/terrain/lod0".to_string(), "/c/terrain/lod1".to_string(), "/c/terrain/lod2".to_string()]
    );
}
