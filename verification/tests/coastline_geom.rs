use sim_core::coastline::{CoastlineMap, LandMesh};
use sim_core::coastline_geom::{coast_edges, land_triangles, CoastEdge, CoastlineGeom, LandTriangle};

fn pt(x: f32, y: f32) -> (u32, u32) {
    (x.to_bits(), y.to_bits())
}

#[test]
fn segments_follow_each_polyline_in_order() {
    let (p0, p1, p2, p3) = (pt(0.0, 0.0), pt(5.0, 0.0), pt(15.0, -12.0), pt(3.0, 3.0));
    let coast = CoastlineMap { lines: vec![vec![p0, p1, p2], vec![p3], vec![]] };
    let edges = coast_edges(&coast);
    assert_eq!(edges, vec![CoastEdge { a: p0, b: p1 }, CoastEdge { a: p1, b: p2 }]);
}

#[test]
fn triangles_take_full_index_triples_only() {
    let vs = vec![pt(0.0, 0.0), pt(1.0, 0.0), pt(0.0, 1.0)];
    let mesh = LandMesh { vertices: vs.clone(), indices: vec![0, 1, 2, 2, 1] };
    let tris = land_triangles(&mesh);
    assert_eq!(tris, vec![LandTriangle { v0: vs[0], v1: vs[1], v2: vs[2] }]);
}

#[test]
fn each_primitive_is_filed_in_every_bucket_of_its_range() {
    let (p0, p1, p2) = (pt(0.0, 0.0), pt(5.0, 0.0), pt(15.0, -12.0));
    let coast = CoastlineMap { lines: vec![vec![p0, p1, p2]] };
    let e0 = CoastEdge { a: p0, b: p1 };
    let e1 = CoastEdge { a: p1, b: p2 };
    let vs = vec![pt(1.0, -1.0), pt(2.0, -1.0), pt(1.0, -2.0)];
    let mesh = LandMesh { vertices: vs.clone(), indices: vec![0, 1, 2] };
    let tri = LandTriangle { v0: vs[0], v1: vs[1], v2: vs[2] };
    let g = CoastlineGeom::build(pt(0.0, 0.0), 2, 2, &coast, &[(0, 0, 1, 0), (1, 0, 1, 1)], &mesh, &[(0, 0, 0, 0)]);
    assert_eq!((g.cols(), g.rows()), (2, 2));
    assert_eq!(g.edges_in(0, 0), &vec![e0]);
    assert_eq!(g.edges_in(1, 0), &vec![e0, e1]);
    assert!(g.edges_in(0, 1).is_empty());
    assert_eq!(g.edges_in(1, 1), &vec![e1]);
    assert_eq!(g.triangles_in(0, 0), &vec![tri]);
    assert!(g.triangles_in(1, 1).is_empty());
    assert_eq!(g.coast_edge_count(), 4);
    assert_eq!(g.land_triangle_count(), 1);
    assert!(g.has_polylines());
    assert!(g.has_triangles());
}

#[test]
fn missing_sources_are_flagged() {
    let g = CoastlineGeom::build(pt(0.0, 0.0), 3, 1, &CoastlineMap::empty(), &[], &LandMesh::empty(), &[]);
    assert!(!g.has_polylines());
    assert!(!g.has_triangles());
    assert_eq!(g.coast_edge_count(), 0);
    assert_eq!(g.land_triangle_count(), 0);
    let lone = CoastlineMap { lines: vec![vec![pt(1.0, 1.0)]] };
    let g = CoastlineGeom::build(pt(0.0, 0.0), 3, 1, &lone, &[], &LandMesh::empty(), &[]);
    assert!(g.has_polylines());
    assert_eq!(g.coast_edge_count(), 0);
}
