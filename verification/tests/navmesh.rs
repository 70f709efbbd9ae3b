use sim_core::map::land::LandGrid;
use sim_core::navmesh::{channel_cells, label_components, largest_component, open_water_cells, prune_to_component, Edge};

fn grid(rows: &[&str]) -> LandGrid {
    let h = rows.len() as u32;
    let w = rows[0].len() as u32;
    let data: Vec<u8> = rows.iter().flat_map(|r| r.bytes().map(|b| if b == b'#' { 255 } else { 0 })).collect();
    LandGrid::from_raw(data, w, h)
}

fn e(to: u32, d: f32) -> Edge<f32> {
    Edge { to, dist: d }
}

#[test]
fn components_follow_edges_and_largest_wins() {
    // 0-1, 2-3-4, 5 alone
    let adj = vec![
        vec![e(1, 1.0)],
        vec![e(0, 1.0)],
        vec![e(3, 2.0)],
        vec![e(2, 2.0), e(4, 3.0)],
        vec![e(3, 3.0)],
        vec![],
    ];
    let (comp, n) = label_components(&adj);
    assert_eq!(comp, vec![0, 0, 1, 1, 1, 2]);
    assert_eq!(n, 3);
    assert_eq!(largest_component(&comp, n), 1);
    let (remap, new_adj) = prune_to_component(&adj, &comp, 1);
    assert_eq!(remap, vec![-1, -1, 0, 1, 2, -1]);
    assert_eq!(new_adj.len(), 3);
    assert_eq!(new_adj[1].iter().map(|x| (x.to, x.dist)).collect::<Vec<_>>(), vec![(0, 2.0), (2, 3.0)]);
}

#[test]
fn largest_component_prefers_lowest_label_on_tie() {
    assert_eq!(largest_component(&vec![1, 0, 1, 0], 2), 0);
    assert_eq!(largest_component(&vec![], 0), 0);
}

#[test]
fn open_water_lattice_respects_stride_and_depth() {
    let g = grid(&["....", "....", "..#.", "...."]);
    let dist: Vec<u8> = vec![3, 3, 3, 3, 3, 2, 1, 1, 3, 1, 0, 1, 3, 1, 1, 1];
    assert_eq!(open_water_cells(&g, &dist, 2, 2), vec![(0, 0), (2, 0), (0, 2)]);
    assert_eq!(open_water_cells(&g, &dist, 3, 0), vec![(0, 0), (3, 0), (0, 3), (3, 3)]);
}

#[test]
fn channel_pass_takes_deepest_sea_cell_of_mixed_blocks() {
    let g = grid(&["#...", "....", "....", "...."]);
    let dist: Vec<u8> = vec![0, 1, 1, 1, 1, 2, 2, 2, 1, 2, 3, 3, 1, 2, 3, 3];
    // blocks of 2: only the top-left block mixes land and sea; its
    // deepest sea cell is (1, 1).
    assert_eq!(channel_cells(&g, &dist, 2, 0), vec![(1, 1)]);
    // a single block over the whole grid: first deepest cell in row order.
    assert_eq!(channel_cells(&g, &dist, 4, 0), vec![(2, 2)]);
    // a depth floor above every cell leaves nothing.
    assert_eq!(channel_cells(&g, &dist, 4, 9), Vec::<(u32, u32)>::new());
}

#[test]
fn components_are_numbered_by_their_lowest_node() {
    let e = |to: u32| Edge { to, dist: 1u32 };
    let adj = vec![vec![e(2)], vec![e(3)], vec![e(0)], vec![e(1)], vec![]];
    let (comp, n) = label_components(&adj);
    assert_eq!(n, 3);
    assert_eq!(comp, vec![0, 1, 0, 1, 2]);
}
