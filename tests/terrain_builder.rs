use fallen_age::heightmap::{calc_height, Heightmap};
use fallen_age::lod::LodLevel;
use fallen_age::mesh_builder::{flat_grid_indices, generate_terrain_mesh, subdivisions};

fn flat_map(w: u32, h: u32, v: u8) -> Heightmap {
    Heightmap::new(w, h, vec![v; (w * h) as usize]).unwrap()
}

#[test]
fn height_curve_values() {
    assert_eq!(calc_height(0), 0);
    assert_eq!(calc_height(5), 0);
    assert_eq!(calc_height(6), 48);
    assert_eq!(calc_height(10), 80);
    assert_eq!(calc_height(16), 128);
    assert_eq!(calc_height(17), 135);
    assert_eq!(calc_height(255), 1801);
}

#[test]
fn subdivisions_per_level() {
    assert_eq!(subdivisions(LodLevel::High), 256);
    assert_eq!(subdivisions(LodLevel::Medium), 128);
    assert_eq!(subdivisions(LodLevel::Low), 64);
}

#[test]
fn flat_chunk_is_one_quad() {
    let hm = flat_map(300, 300, 10);
    let g = generate_terrain_mesh(0, 0, 256, 256, LodLevel::Low, &hm);
    assert_eq!(g.subdivisions, 64);
    assert_eq!(g.heights.len(), 65 * 65);
    assert!(g.heights.iter().all(|&h| h == 80));
    assert_eq!(g.indices, vec![0, 4160, 64, 64, 4160, 4224]);
}

#[test]
fn flat_block_with_steep_neighbour_is_split() {
    // Grid column i samples pixel 4 * i. Columns 0..=32 are flat, columns
    // from 33 on are high: the flat top-left block of side 32 touches a
    // steep neighbour column and must not be drawn as one quad.
    let mut px = vec![10u8; 300 * 300];
    for z in 0..300 {
        for x in 132..300 {
            px[z * 300 + x] = 200;
        }
    }
    let hm = Heightmap::new(300, 300, px).unwrap();
    let g = generate_terrain_mesh(0, 0, 256, 256, LodLevel::Low, &hm);
    let one_quad: Vec<u32> = vec![0, 32 * 65, 32, 32, 32 * 65, 32 * 65 + 32];
    assert_ne!(g.indices[0..6].to_vec(), one_quad);
    // its own top-left quarter of side 16 is flat and far from the step
    assert_eq!(g.indices[0..6].to_vec(), vec![0, 16 * 65, 16, 16, 16 * 65, 16 * 65 + 16]);
}

#[test]
fn spike_forces_subdivision() {
    let mut px = vec![10u8; 300 * 300];
    px[0] = 200;
    let hm = Heightmap::new(300, 300, px).unwrap();
    let g = generate_terrain_mesh(0, 0, 256, 256, LodLevel::Low, &hm);
    assert!(g.indices.len() > 6);
    assert_eq!(g.indices.len() % 6, 0);
    assert!(g.indices.iter().all(|&i| (i as usize) < g.heights.len()));
    // the corner cell holding the spike is drawn at full resolution
    assert_eq!(&g.indices[0..6], &[0, 65, 1, 1, 65, 66]);
}

#[test]
fn build_twice_gives_same_grid() {
    let px: Vec<u8> = (0..200 * 200).map(|i| ((i * 7) % 251) as u8).collect();
    let hm = Heightmap::new(200, 200, px).unwrap();
    let a = generate_terrain_mesh(10, 20, 128, 128, LodLevel::Medium, &hm);
    let b = generate_terrain_mesh(10, 20, 128, 128, LodLevel::Medium, &hm);
    assert_eq!(a.subdivisions, b.subdivisions);
    assert_eq!(a.heights, b.heights);
    assert_eq!(a.indices, b.indices);
}

#[test]
fn neighbouring_chunks_share_edge_heights() {
    let w = 200u32;
    let px: Vec<u8> = (0..w * w).map(|i| (((i % w) * 3 + (i / w) * 5) % 256) as u8).collect();
    let hm = Heightmap::new(w, w, px).unwrap();
    let n = 256usize;
    let west = generate_terrain_mesh(0, 0, 64, 64, LodLevel::High, &hm);
    let east = generate_terrain_mesh(64, 0, 64, 64, LodLevel::High, &hm);
    let south = generate_terrain_mesh(0, 64, 64, 64, LodLevel::High, &hm);
    for row in 0..=n {
        assert_eq!(west.heights[row * (n + 1) + n], east.heights[row * (n + 1)]);
    }
    for col in 0..=n {
        assert_eq!(west.heights[n * (n + 1) + col], south.heights[col]);
    }
}

#[test]
fn samples_clamp_to_map_edge() {
    let mut px = vec![0u8; 4 * 4];
    px[3 * 4 + 3] = 16;
    let hm = Heightmap::new(4, 4, px).unwrap();
    let g = generate_terrain_mesh(0, 0, 256, 256, LodLevel::Low, &hm);
    // every vertex beyond the map reads its last pixel
    assert_eq!(*g.heights.last().unwrap(), 128);
    assert_eq!(g.heights[0], 0);
}

#[test]
fn flat_grid_is_two_triangles_per_cell() {
    assert_eq!(flat_grid_indices(2, 1), vec![0, 3, 1, 1, 3, 4, 1, 4, 2, 2, 4, 5]);
    assert_eq!(flat_grid_indices(1, 2), vec![0, 2, 1, 1, 2, 3, 2, 4, 3, 3, 4, 5]);
    assert_eq!(flat_grid_indices(32, 16).len(), 32 * 16 * 6);
    assert!(flat_grid_indices(3, 0).is_empty());
}
