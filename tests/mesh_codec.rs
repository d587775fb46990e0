use fallen_age::codec::{decode, encode, DecodeError, Float2, Float3, TerrainMeshData};

fn sample() -> TerrainMeshData {
    TerrainMeshData {
        positions: vec![Float3 { x: 1, y: 2, z: 3 }],
        normals: vec![Float3 { x: 4, y: 5, z: 6 }],
        uvs: vec![Float2 { u: 7, v: 8 }],
        indices: vec![0],
    }
}

fn same(a: &TerrainMeshData, b: &TerrainMeshData) -> bool {
    a.positions == b.positions && a.normals == b.normals && a.uvs == b.uvs && a.indices == b.indices
}

#[test]
fn encoded_layout_is_exact() {
    let bytes = encode(&sample());
    let mut expected = vec![1, 0, 0, 0, 0, 0, 0, 0, 1, 0, 0, 0, 2, 0, 0, 0, 3, 0, 0, 0];
    expected.extend([1, 0, 0, 0, 0, 0, 0, 0, 4, 0, 0, 0, 5, 0, 0, 0, 6, 0, 0, 0]);
    expected.extend([1, 0, 0, 0, 0, 0, 0, 0, 7, 0, 0, 0, 8, 0, 0, 0]);
    expected.extend([1, 0, 0, 0, 0, 0, 0, 0, 0, 0, 0, 0]);
    assert_eq!(bytes, expected);
}

#[test]
fn decode_of_encode_round_trips() {
    let m = TerrainMeshData {
        positions: vec![
            Float3 { x: 0x3f80_0000, y: 0, z: 0xbf80_0000 },
            Float3 { x: 0x4000_0000, y: 0x4040_0000, z: 7 },
            Float3 { x: 0xffff_ffff, y: 0x7fc0_0000, z: 1 },
        ],
        normals: vec![Float3 { x: 0, y: 0x3f80_0000, z: 0 }; 3],
        uvs: vec![Float2 { u: 0, v: 0 }, Float2 { u: 0x3f80_0000, v: 0 }, Float2 { u: 0, v: 0x3f80_0000 }],
        indices: vec![0, 1, 2, 2, 1, 0],
    };
    let back = decode(&encode(&m)).unwrap();
    assert!(same(&back, &m));
}

#[test]
fn empty_mesh_round_trips() {
    let m = TerrainMeshData { positions: vec![], normals: vec![], uvs: vec![], indices: vec![] };
    let bytes = encode(&m);
    assert_eq!(bytes.len(), 32);
    assert!(same(&decode(&bytes).unwrap(), &m));
}

#[test]
fn truncated_input_is_rejected() {
    let bytes = encode(&sample());
    for cut in [0, 3, 7, 8, 20, 67] {
        assert_eq!(decode(&bytes[..cut]).err(), Some(DecodeError::Truncated), "cut at {}", cut);
    }
}

#[test]
fn trailing_bytes_are_rejected() {
    let mut bytes = encode(&sample());
    bytes.extend([0, 0, 0, 0]);
    assert_eq!(decode(&bytes).err(), Some(DecodeError::TrailingBytes));
}

#[test]
fn attribute_counts_must_match() {
    let mut m = sample();
    m.uvs.push(Float2 { u: 1, v: 1 });
    assert_eq!(decode(&encode(&m)).err(), Some(DecodeError::AttributeLengthMismatch));
}

#[test]
fn indices_must_name_vertices() {
    let mut m = sample();
    m.indices = vec![0, 1];
    assert_eq!(decode(&encode(&m)).err(), Some(DecodeError::IndexOutOfRange));
}
