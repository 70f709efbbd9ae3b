use sim_core::coastline::{read_u32, CoastlineMap, DecodeError, LandMesh};

fn le(v: u32) -> [u8; 4] {
    v.to_le_bytes()
}

#[test]
fn read_u32_is_little_endian_and_advances() {
    let buf = [1u8, 2, 0, 0, 9];
    let mut cur = 0usize;
    assert_eq!(read_u32(&buf, &mut cur), Ok(0x0201));
    assert_eq!(cur, 4);
    assert_eq!(read_u32(&buf, &mut cur), Err(DecodeError::UnexpectedEof));
    assert_eq!(cur, 4);
}

#[test]
fn coastline_decodes_lines_of_points() {
    let mut buf = Vec::new();
    buf.extend_from_slice(&le(2));
    buf.extend_from_slice(&le(1));
    buf.extend_from_slice(&le(1.5f32.to_bits()));
    buf.extend_from_slice(&le((-2.0f32).to_bits()));
    buf.extend_from_slice(&le(0));
    buf.push(0xAA);
    let m = CoastlineMap::from_bytes(&buf).expect("decodes");
    assert_eq!(m.lines.len(), 2);
    assert_eq!(m.lines[0], vec![(1.5f32.to_bits(), (-2.0f32).to_bits())]);
    assert!(m.lines[1].is_empty());
}

#[test]
fn truncated_coastline_is_refused() {
    let mut buf = Vec::new();
    buf.extend_from_slice(&le(1));
    buf.extend_from_slice(&le(2));
    buf.extend_from_slice(&le(7));
    assert!(matches!(CoastlineMap::from_bytes(&buf), Err(DecodeError::UnexpectedEof)));
    assert!(matches!(CoastlineMap::from_bytes(&[1, 0]), Err(DecodeError::UnexpectedEof)));
    assert_eq!(CoastlineMap::empty().lines.len(), 0);
}

#[test]
fn land_mesh_decodes_vertices_then_indices() {
    let mut buf = Vec::new();
    buf.extend_from_slice(&le(1));
    buf.extend_from_slice(&le(10));
    buf.extend_from_slice(&le(20));
    buf.extend_from_slice(&le(3));
    for i in [0u32, 0, 0] {
        buf.extend_from_slice(&le(i));
    }
    let m = LandMesh::from_bytes(&buf).expect("decodes");
    assert_eq!(m.vertices, vec![(10, 20)]);
    assert_eq!(m.indices, vec![0, 0, 0]);
    buf.pop();
    assert!(matches!(LandMesh::from_bytes(&buf), Err(DecodeError::UnexpectedEof)));
}
