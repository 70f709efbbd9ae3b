use sim_core::portroutes::{walk_predecessors, NO_PRED};

#[test]
fn chain_runs_from_start_to_source() {
    let pred = vec![NO_PRED, 0, 1, 2];
    assert_eq!(walk_predecessors(&pred, 3), Some(vec![3, 2, 1, 0]));
    assert_eq!(walk_predecessors(&pred, 0), Some(vec![0]));
}

#[test]
fn broken_chains_are_refused() {
    assert_eq!(walk_predecessors(&[1, 0], 0), None);
    assert_eq!(walk_predecessors(&[5], 0), None);
    assert_eq!(walk_predecessors(&[NO_PRED], 4), None);
}
