use sim_core::map::land::{decode_land_mask, LandGrid, LandMaskError};

fn grid(rows: &[&str]) -> LandGrid {
    let h = rows.len() as u32;
    let w = rows[0].len() as u32;
    let data: Vec<u8> = rows.iter().flat_map(|r| r.bytes().map(|b| if b == b'#' { 255 } else { 0 })).collect();
    LandGrid::from_raw(data, w, h)
}

#[test]
fn sea_cells_and_bounds() {
    let g = grid(&["..#", "...", "..."]);
    assert!(g.is_sea_cell(0, 0));
    assert!(!g.is_sea_cell(2, 0));
    assert!(!g.is_sea_cell(3, 0));
    assert!(!g.is_sea_cell(0, 3));
    assert!(g.is_land_cell(2, 0));
}

#[test]
fn clearance_needs_every_neighbour_at_sea_and_in_bounds() {
    let g = grid(&[".....", ".....", ".....", "....#", "....."]);
    assert!(g.is_clear_cell(1, 1));
    assert!(!g.is_clear_cell(0, 1));
    assert!(!g.is_clear_cell(3, 2));
    assert!(g.has_cell_clearance(2, 2, 0));
    assert!(g.has_cell_clearance(1, 1, 1));
    assert!(!g.has_cell_clearance(2, 2, 2));
}

#[test]
fn land_mask_header_and_data() {
    let mut bytes = Vec::new();
    bytes.extend_from_slice(&2u32.to_le_bytes());
    bytes.extend_from_slice(&1u32.to_le_bytes());
    bytes.extend_from_slice(&1.5f32.to_bits().to_le_bytes());
    bytes.extend_from_slice(&(-3.0f32).to_bits().to_le_bytes());
    bytes.extend_from_slice(&0.5f32.to_bits().to_le_bytes());
    bytes.extend_from_slice(&[0, 255]);
    let f = decode_land_mask(&bytes).expect("well formed");
    assert_eq!((f.grid.width, f.grid.height), (2, 1));
    assert_eq!(f.grid.data, vec![0, 255]);
    assert_eq!(f32::from_bits(f.origin_x_bits), 1.5);
    assert_eq!(f32::from_bits(f.origin_y_bits), -3.0);
    assert_eq!(f32::from_bits(f.cell_size_bits), 0.5);
    bytes.push(0);
    assert!(matches!(decode_land_mask(&bytes), Err(LandMaskError::SizeMismatch { expected: 2, got: 3 })));
    assert!(matches!(decode_land_mask(&bytes[..10]), Err(LandMaskError::TooSmall)));
}

#[test]
fn nearest_sea_cell_searches_one_ring_past_the_radius() {
    let g = grid(&["#####", "#####", "#####", "#####", "####."]);
    assert_eq!(g.nearest_sea_cell(0, 0, 3), Some((4, 4)));
    assert_eq!(g.nearest_sea_cell(0, 0, 2), None);
    assert_eq!(g.nearest_sea_cell(4, 4, 0), Some((4, 4)));
}

#[test]
fn nearest_sea_cell_prefers_west_then_east_among_equals() {
    let g = grid(&["#####", "#####", "#.#.#", "#####", "#####"]);
    assert_eq!(g.nearest_sea_cell(2, 2, 0), Some((1, 2)));
    let g = grid(&["#####", "##.##", "#####", "###.#", "#####"]);
    assert_eq!(g.nearest_sea_cell(2, 2, 5), Some((2, 1)));
}

#[test]
fn only_a_zero_byte_is_sea() {
    let g = LandGrid::from_raw(vec![0, 100, 255], 3, 1);
    assert!(g.is_sea_cell(0, 0));
    assert!(!g.is_sea_cell(1, 0));
    assert!(!g.is_land_cell(1, 0));
    assert!(g.is_land_cell(2, 0));
}
