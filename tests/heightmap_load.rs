use fallen_age::heightmap::{load_heightmap, Heightmap, HeightmapError};

fn png_bytes(w: u32, h: u32, px: Vec<u8>) -> Vec<u8> {
    let img = image::GrayImage::from_raw(w, h, px).unwrap();
    let mut buf = Vec::new();
    img.write_to(&mut std::io::Cursor::new(&mut buf), image::ImageFormat::Png).unwrap();
    buf
}

#[test]
fn png_decodes_to_samples() {
    let bytes = png_bytes(3, 2, vec![1, 2, 3, 4, 5, 6]);
    let hm = load_heightmap(&bytes).unwrap();
    assert_eq!(hm.width, 3);
    assert_eq!(hm.height, 2);
    assert_eq!(hm.pixels, vec![1, 2, 3, 4, 5, 6]);
    assert_eq!(hm.get_pixel(2, 1), 6);
}

#[test]
fn garbage_is_undecodable() {
    assert_eq!(load_heightmap(&[1, 2, 3, 4]).err(), Some(HeightmapError::Undecodable));
}

#[test]
fn sample_buffer_must_match_size() {
    assert_eq!(Heightmap::new(0, 5, vec![]).err(), Some(HeightmapError::Empty));
    assert_eq!(Heightmap::new(2, 2, vec![0; 3]).err(), Some(HeightmapError::SizeMismatch));
    assert!(Heightmap::new(2, 2, vec![0; 4]).is_ok());
}
