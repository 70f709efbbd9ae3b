use sim_core::ai::build_ship_bt;
use sim_core::bt::{tick, Behavior, BtState, Status, TableContext};

fn action_calls(ctx: &TableContext) -> Vec<usize> {
    ctx.calls.iter().filter(|c| c.0).map(|c| c.1).collect()
}

#[test]
fn sequence_runs_all_on_success() {
    let tree = Behavior::Sequence(vec![Behavior::Action(0), Behavior::Action(1), Behavior::Action(2)]);
    let mut state = BtState::new();
    let mut ctx = TableContext::new(vec![Status::Success, Status::Success, Status::Success], vec![]);
    let result = tick(&tree, &mut state, &mut ctx, 0);
    assert_eq!(result, Status::Success);
    assert_eq!(action_calls(&ctx), vec![0, 1, 2]);
}

#[test]
fn sequence_stops_on_failure() {
    let tree = Behavior::Sequence(vec![Behavior::Action(0), Behavior::Action(1), Behavior::Action(2)]);
    let mut state = BtState::new();
    let mut ctx = TableContext::new(vec![Status::Success, Status::Failure, Status::Success], vec![]);
    let result = tick(&tree, &mut state, &mut ctx, 0);
    assert_eq!(result, Status::Failure);
    assert_eq!(action_calls(&ctx), vec![0, 1]);
}

#[test]
fn sequence_resumes_after_running() {
    let tree = Behavior::Sequence(vec![Behavior::Action(0), Behavior::Action(1)]);
    let mut state = BtState::new();
    let mut ctx = TableContext::new(vec![Status::Success, Status::Running], vec![]);
    let result = tick(&tree, &mut state, &mut ctx, 0);
    assert_eq!(result, Status::Running);
    ctx.actions[1] = Status::Success;
    ctx.calls.clear();
    let result = tick(&tree, &mut state, &mut ctx, 0);
    assert_eq!(result, Status::Success);
    assert_eq!(action_calls(&ctx), vec![1]);
}

#[test]
fn selector_succeeds_on_first_success() {
    let tree = Behavior::Selector(vec![Behavior::Action(0), Behavior::Action(1)]);
    let mut state = BtState::new();
    let mut ctx = TableContext::new(vec![Status::Failure, Status::Success], vec![]);
    let result = tick(&tree, &mut state, &mut ctx, 0);
    assert_eq!(result, Status::Success);
    assert_eq!(action_calls(&ctx), vec![0, 1]);
}

#[test]
fn condition_gates_sequence() {
    let tree = Behavior::Sequence(vec![Behavior::Condition(0), Behavior::Action(0)]);
    let mut state = BtState::new();
    let mut ctx = TableContext::new(vec![Status::Success], vec![false]);
    let result = tick(&tree, &mut state, &mut ctx, 0);
    assert_eq!(result, Status::Failure);
    assert_eq!(action_calls(&ctx), Vec::<usize>::new());
}

#[test]
fn selector_fails_when_every_child_fails() {
    let tree = Behavior::Selector(vec![Behavior::Action(0), Behavior::Condition(0)]);
    let mut state = BtState::new();
    let mut ctx = TableContext::new(vec![Status::Failure], vec![false]);
    assert_eq!(tick(&tree, &mut state, &mut ctx, 0), Status::Failure);
    assert_eq!(action_calls(&ctx), vec![0]);
}

#[test]
fn invert_flips_success_and_failure() {
    let mut state = BtState::new();
    let mut ctx = TableContext::new(vec![Status::Success, Status::Running], vec![false]);
    let t1 = Behavior::Invert(Box::new(Behavior::Action(0)));
    assert_eq!(tick(&t1, &mut state, &mut ctx, 0), Status::Failure);
    let t2 = Behavior::Invert(Box::new(Behavior::Condition(0)));
    assert_eq!(tick(&t2, &mut state, &mut ctx, 0), Status::Success);
    let t3 = Behavior::Invert(Box::new(Behavior::Action(1)));
    assert_eq!(tick(&t3, &mut state, &mut ctx, 0), Status::Running);
}

#[test]
fn selector_resumes_at_running_child() {
    let tree = Behavior::Selector(vec![Behavior::Action(0), Behavior::Action(1)]);
    let mut state = BtState::new();
    let mut ctx = TableContext::new(vec![Status::Failure, Status::Running], vec![]);
    assert_eq!(tick(&tree, &mut state, &mut ctx, 0), Status::Running);
    ctx.calls.clear();
    ctx.actions[1] = Status::Success;
    assert_eq!(tick(&tree, &mut state, &mut ctx, 0), Status::Success);
    assert_eq!(action_calls(&ctx), vec![1]);
    state.reset();
    assert!(state.running_child.is_empty());
}

#[test]
fn leaf_calls_are_logged_with_their_results() {
    let tree = Behavior::Sequence(vec![Behavior::Condition(1), Behavior::Invert(Box::new(Behavior::Action(0)))]);
    let mut state = BtState::new();
    let mut ctx = TableContext::new(vec![Status::Failure], vec![false, true]);
    assert_eq!(tick(&tree, &mut state, &mut ctx, 0), Status::Success);
    assert_eq!(ctx.calls, vec![(false, 1, Status::Success), (true, 0, Status::Failure)]);
}

#[test]
fn docked_ship_sells_resupplies_buys_careens_and_undocks() {
    let tree = build_ship_bt();
    let mut state = BtState::new();
    let mut ctx = TableContext::new(vec![Status::Success; 14], vec![true]);
    assert_eq!(tick(&tree, &mut state, &mut ctx, 0), Status::Success);
    assert_eq!(action_calls(&ctx), vec![6, 1, 7, 2, 3]);
    let conds: Vec<usize> = ctx.calls.iter().filter(|c| !c.0).map(|c| c.1).collect();
    assert_eq!(conds, vec![0]);
}
