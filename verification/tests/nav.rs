use sim_core::nav::NavGoal;

#[test]
fn nav_goal_construction_and_clear() {
    let g: NavGoal<(f32, f32), u64> = NavGoal::new();
    assert!(g.destination.is_none() && g.dest_port.is_none() && g.pursue_target.is_none());
    let mut g: NavGoal<(f32, f32), u64> = NavGoal::with_destination((3.0, 4.0));
    g.dest_port = Some(7);
    g.estimated_position = Some((1.0, 1.0));
    g.pursue_target = Some(11);
    g.last_noon_sight_day = 40;
    g.clear();
    assert_eq!(g.destination, None);
    assert_eq!(g.dest_port, None);
    assert_eq!(g.estimated_position, Some((1.0, 1.0)));
    assert_eq!(g.pursue_target, Some(11));
    assert_eq!(g.last_noon_sight_day, 40);
}
