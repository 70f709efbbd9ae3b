use sim_core::geo::classification::{ClassificationError, LandSea};
use sim_core::geo::index::{DirectionIndex, DEFAULT_LAT_CELLS, DEFAULT_LON_CELLS};
use sim_core::geo::mesh::expected_tile_count;

#[test]
fn expected_tile_counts_follow_formula() {
    assert_eq!(expected_tile_count(0), 12);
    assert_eq!(expected_tile_count(1), 42);
    assert_eq!(expected_tile_count(6), 40_962);
}

#[test]
fn land_sea_decodes_header_and_flags() {
    let mut bytes = Vec::new();
    bytes.extend_from_slice(&6u32.to_le_bytes());
    bytes.extend_from_slice(&3u32.to_le_bytes());
    bytes.extend_from_slice(&[1, 0, 7]);
    let ls = LandSea::from_bytes(&bytes).expect("well formed");
    assert_eq!(ls.subdivisions, 6);
    assert!(ls.is_land(0));
    assert!(!ls.is_land(1));
    assert!(ls.is_land(2));
}

#[test]
fn land_sea_rejects_bad_sizes() {
    assert!(matches!(LandSea::from_bytes(&[0u8; 7]), Err(ClassificationError::TooSmall)));
    let mut bytes = Vec::new();
    bytes.extend_from_slice(&6u32.to_le_bytes());
    bytes.extend_from_slice(&5u32.to_le_bytes());
    bytes.extend_from_slice(&[1, 0]);
    assert_eq!(
        LandSea::from_bytes(&bytes).err(),
        Some(ClassificationError::SizeMismatch { header: 5, data_bytes: 2 })
    );
}

#[test]
fn direction_index_ring_wraps_longitude() {
    let mut d = DirectionIndex::new(4, 3);
    assert_eq!(d.bucket_count(), 12);
    assert_eq!(d.ring_buckets(1, 1, 0), vec![5]);
    // radius 1 around column 0 of the top row: the row above is outside
    // the grid; longitude wraps to column 3.
    assert_eq!(d.ring_buckets(0, 0, 1), vec![3, 1, 7, 4, 5]);
    d.insert(2, 1, 99);
    d.insert(2, 1, 100);
    assert_eq!(d.bucket(6), &vec![99, 100]);
    let def = DirectionIndex::default();
    assert_eq!((def.lon_cells(), def.lat_cells()), (DEFAULT_LON_CELLS, DEFAULT_LAT_CELLS));
    assert_eq!(def.bucket_count(), 0);
}

use sim_core::geo::mesh::{build_topology, icosa_faces, subdivide_round, GeoAdjacency};

fn adjacency(n: u32) -> GeoAdjacency {
    let t = build_topology(n);
    GeoAdjacency::of_topology(&t).expect("closed triangulation")
}

#[test]
fn tile_count_matches_formula() {
    for n in 0..5u32 {
        let t = build_topology(n);
        assert_eq!(t.vertex_count as usize, expected_tile_count(n), "n={n}");
        assert_eq!(adjacency(n).tile_count(), expected_tile_count(n), "n={n}");
    }
}

#[test]
fn adjacency_is_symmetric_and_duplicate_free() {
    for n in 0..4u32 {
        let mesh = adjacency(n);
        for tile in 0..mesh.tile_count() as u32 {
            let ring: Vec<u32> = (0..mesh.degree(tile)).map(|i| mesh.neighbor(tile, i)).collect();
            let mut sorted = ring.clone();
            sorted.sort_unstable();
            sorted.dedup();
            assert_eq!(sorted.len(), ring.len(), "tile {tile} has duplicate neighbors");
            for &neighbor in &ring {
                assert!(mesh.edge_towards(neighbor, tile).is_some(), "tile {tile} lists {neighbor} but not vice versa (n={n})");
            }
        }
    }
}

#[test]
fn degree_is_five_or_six_with_exactly_twelve_pentagons() {
    for n in 0..5u32 {
        let mesh = adjacency(n);
        let mut pentagons = 0;
        for tile in 0..mesh.tile_count() as u32 {
            let d = mesh.degree(tile);
            assert!(d == 5 || d == 6, "unexpected degree {d} (n={n})");
            if mesh.is_pentagon(tile) {
                pentagons += 1;
            }
        }
        assert_eq!(pentagons, 12, "n={n}");
    }
}

#[test]
fn one_round_makes_one_midpoint_per_edge() {
    let faces = icosa_faces();
    let (parents, next) = subdivide_round(12, &faces);
    assert_eq!(parents.len(), 30);
    assert_eq!(next.len(), 80);
    assert_eq!(parents[0], (0, 11));
    assert_eq!(next[0], [0, 12, 14]);
    assert_eq!(next[3], [12, 13, 14]);
    let t = build_topology(2);
    for (k, &(a, b)) in t.parents.iter().enumerate() {
        assert!(a < b && (b as usize) < 12 + k);
    }
}

#[test]
fn edge_towards_finds_ring_position() {
    let mesh = adjacency(1);
    let first = mesh.neighbor(0, 0);
    assert_eq!(mesh.edge_towards(0, first), Some(0));
    assert_eq!(mesh.edge_towards(0, 0), None);
    assert!(mesh.is_pentagon(0));
}
