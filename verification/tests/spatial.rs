use sim_core::spatial::SpatialHash;

#[test]
fn finalize_groups_cells_and_orders_by_id() {
    let mut h: SpatialHash<(f32, f32)> = SpatialHash::new();
    assert!(h.is_empty());
    h.insert(7, 0, 0, (1.0, 1.0));
    h.insert(3, -1, 2, (-5.0, 25.0));
    h.insert(2, 0, 0, (2.0, 2.0));
    h.insert(9, 0, -1, (3.0, -3.0));
    assert_eq!(h.len(), 4);
    h.finalize();
    let ids: Vec<u64> = (0..h.len()).map(|i| h.entry(i).id).collect();
    assert_eq!(ids, vec![3, 9, 2, 7]);
    assert_eq!(h.cell_range(0, 0), (2, 4));
    assert_eq!(h.cell_range(-1, 2), (0, 1));
    let (s, e) = h.cell_range(5, 5);
    assert_eq!(s, e);
    assert_eq!(h.entry(2).pos, (2.0, 2.0));
    let run: Vec<u64> = h.cell_slice(0, 0).iter().map(|e| e.id).collect();
    assert_eq!(run, vec![2, 7]);
    assert!(h.cell_slice(5, 5).is_empty());
}

#[test]
fn clear_leaves_an_empty_finalized_index() {
    let mut h: SpatialHash<u8> = SpatialHash::default();
    h.insert(1, 0, 0, 0);
    h.clear();
    assert_eq!(h.len(), 0);
    assert_eq!(h.cell_range(0, 0), (0, 0));
}

#[test]
fn finalized_order_does_not_depend_on_insertion_order() {
    let items = [(5u64, 0, 0), (1, 1, 0), (9, 0, 0), (4, -2, 7), (2, 1, 0)];
    let mut a: SpatialHash<u64> = SpatialHash::new();
    let mut b: SpatialHash<u64> = SpatialHash::new();
    for &(id, cx, cy) in items.iter() {
        a.insert(id, cx, cy, id * 10);
    }
    for &(id, cx, cy) in items.iter().rev() {
        b.insert(id, cx, cy, id * 10);
    }
    a.finalize();
    b.finalize();
    let ea: Vec<(u64, u64)> = (0..a.len()).map(|i| (a.entry(i).id, a.entry(i).pos)).collect();
    let eb: Vec<(u64, u64)> = (0..b.len()).map(|i| (b.entry(i).id, b.entry(i).pos)).collect();
    assert_eq!(ea, eb);
    assert_eq!(ea.iter().map(|e| e.0).collect::<Vec<_>>(), vec![4, 5, 9, 1, 2]);
}
