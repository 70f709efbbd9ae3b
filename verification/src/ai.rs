//! The ship captain's behavior tree: which action or condition each leaf
//! names, and the priority order of the branches.

use vstd::prelude::*;

use crate::money::{fits_i64, Pesos};
use crate::policy::DockLegality;
use crate::bt::{composite_from, answered, lemma_answers_fix_tick, log_of, BtContext, all_leaves, fresh_at, lemma_sequence_all_success, leaf_keys, pad, reset_level, tick_spec, Behavior, Status};

verus! {

pub const ACT_SAIL: usize = 0;
pub const ACT_RESUPPLY: usize = 1;
pub const ACT_CAREEN: usize = 2;
pub const ACT_UNDOCK: usize = 3;
pub const ACT_CHOOSE_DESTINATION: usize = 4;
pub const ACT_DIVERT_TO_PORT: usize = 5;
pub const ACT_SELL_ALL: usize = 6;
pub const ACT_BUY_BEST: usize = 7;
pub const ACT_PURSUE: usize = 8;
pub const ACT_FLEE: usize = 9;
/// Break off an engagement (out of ordnance, outclassed, or contact lost).
pub const ACT_DISENGAGE: usize = 10;
/// Coast on the previous course while reloading.
pub const ACT_HOLD: usize = 11;
/// Strike colours to the engaged counterpart.
pub const ACT_STRIKE: usize = 12;
/// Board the engaged counterpart.
pub const ACT_BOARD: usize = 13;

pub const COND_IS_DOCKED: usize = 0;
pub const COND_HAS_DESTINATION: usize = 1;
pub const COND_IS_LOW_PROVISIONS: usize = 2;
pub const COND_IS_SAILING_PIRATE: usize = 3;
pub const COND_IS_SAILING_MERCHANT: usize = 4;
pub const COND_SEE_PREY: usize = 5;
pub const COND_SEE_THREAT: usize = 6;
/// Shots have been exchanged with another ship.
pub const COND_IS_ENGAGED: usize = 7;
pub const COND_SHOULD_DISENGAGE: usize = 8;
pub const COND_SHOULD_FIGHT: usize = 9;
pub const COND_SHOULD_FLEE: usize = 10;
pub const COND_SHOULD_STRIKE: usize = 11;
pub const COND_SHOULD_BOARD: usize = 12;

/// Shape of a behavior tree, with children as sequences.
pub enum Shape {
    Action(usize),
    Condition(usize),
    Sequence(Seq<Shape>),
    Selector(Seq<Shape>),
    Invert(Box<Shape>),
}

/// The shape of `b`.
pub open spec fn shape_of(b: Behavior) -> Shape
    decreases b,
{
    match b {
        Behavior::Action(id) => Shape::Action(id),
        Behavior::Condition(id) => Shape::Condition(id),
        Behavior::Sequence(children) => Shape::Sequence(shapes_of(children@)),
        Behavior::Selector(children) => Shape::Selector(shapes_of(children@)),
        Behavior::Invert(child) => Shape::Invert(Box::new(shape_of(*child))),
    }
}

/// The shapes of `children`, in order.
pub open spec fn shapes_of(children: Seq<Behavior>) -> Seq<Shape>
    decreases children,
{
    Seq::new(children.len(), |i: int| if 0 <= i < children.len() { shape_of(children[i]) } else { Shape::Action(0) })
}

/// A two-leaf branch: check `cond`, then run `act`.
pub open spec fn guarded(cond: usize, act: usize) -> Shape {
    Shape::Sequence(seq![Shape::Condition(cond), Shape::Action(act)])
}

/// The captain's tree, by priority:
/// 1. docked: sell everything, resupply, buy the best next cargo, careen,
///    undock;
/// 2. engaged: strike, board, disengage, fight, flee, or else hold;
/// 3. a sailing pirate that sees prey pursues it;
/// 4. a sailing merchant that sees a threat flees;
/// 5. low on provisions: divert to a port and sail;
/// 6. with a destination: sail;
/// 7. otherwise choose a destination.
pub open spec fn ship_tree() -> Shape {
    Shape::Selector(
        seq![
            Shape::Sequence(
                seq![
                    Shape::Condition(COND_IS_DOCKED),
                    Shape::Sequence(
                        seq![
                            Shape::Action(ACT_SELL_ALL),
                            Shape::Action(ACT_RESUPPLY),
                            Shape::Action(ACT_BUY_BEST),
                            Shape::Action(ACT_CAREEN),
                            Shape::Action(ACT_UNDOCK),
                        ],
                    ),
                ],
            ),
            Shape::Sequence(
                seq![
                    Shape::Condition(COND_IS_ENGAGED),
                    Shape::Selector(
                        seq![
                            guarded(COND_SHOULD_STRIKE, ACT_STRIKE),
                            guarded(COND_SHOULD_BOARD, ACT_BOARD),
                            guarded(COND_SHOULD_DISENGAGE, ACT_DISENGAGE),
                            guarded(COND_SHOULD_FIGHT, ACT_PURSUE),
                            guarded(COND_SHOULD_FLEE, ACT_FLEE),
                            Shape::Action(ACT_HOLD),
                        ],
                    ),
                ],
            ),
            Shape::Sequence(
                seq![Shape::Condition(COND_IS_SAILING_PIRATE), Shape::Condition(COND_SEE_PREY), Shape::Action(ACT_PURSUE)],
            ),
            Shape::Sequence(
                seq![
                    Shape::Condition(COND_IS_SAILING_MERCHANT),
                    Shape::Condition(COND_SEE_THREAT),
                    Shape::Action(ACT_FLEE),
                ],
            ),
            Shape::Sequence(
                seq![
                    Shape::Condition(COND_IS_LOW_PROVISIONS),
                    Shape::Action(ACT_DIVERT_TO_PORT),
                    Shape::Action(ACT_SAIL),
                ],
            ),
            guarded(COND_HAS_DESTINATION, ACT_SAIL),
            Shape::Action(ACT_CHOOSE_DESTINATION),
        ],
    )
}

fn guarded_node(cond: usize, act: usize) -> (b: Behavior)
    ensures
        shape_of(b) == guarded(cond, act),
{
    let b = Behavior::Sequence(vec![Behavior::Condition(cond), Behavior::Action(act)]);
    proof {
        let kids = seq![Shape::Condition(cond), Shape::Action(act)];
        if let Behavior::Sequence(c) = &b {
            assert(shapes_of(c@) =~= kids);
        }
    }
    b
}

/// Build the ship captain's behavior tree.
pub fn build_ship_bt() -> (b: Behavior)
    ensures
        shape_of(b) == ship_tree(),
{
    let dock_tree = Behavior::Sequence(
        vec![
            Behavior::Action(ACT_SELL_ALL),
            Behavior::Action(ACT_RESUPPLY),
            Behavior::Action(ACT_BUY_BEST),
            Behavior::Action(ACT_CAREEN),
            Behavior::Action(ACT_UNDOCK),
        ],
    );
    let ghost dock_shape = Shape::Sequence(
        seq![
            Shape::Action(ACT_SELL_ALL),
            Shape::Action(ACT_RESUPPLY),
            Shape::Action(ACT_BUY_BEST),
            Shape::Action(ACT_CAREEN),
            Shape::Action(ACT_UNDOCK),
        ],
    );
    proof {
        if let Behavior::Sequence(c) = &dock_tree {
            assert(shapes_of(c@) =~= seq![
                Shape::Action(ACT_SELL_ALL),
                Shape::Action(ACT_RESUPPLY),
                Shape::Action(ACT_BUY_BEST),
                Shape::Action(ACT_CAREEN),
                Shape::Action(ACT_UNDOCK),
            ]);
        }
    }
    let docked = Behavior::Sequence(vec![Behavior::Condition(COND_IS_DOCKED), dock_tree]);
    let ghost docked_shape = Shape::Sequence(seq![Shape::Condition(COND_IS_DOCKED), dock_shape]);
    proof {
        if let Behavior::Sequence(c) = &docked {
            assert(shapes_of(c@) =~= seq![Shape::Condition(COND_IS_DOCKED), dock_shape]);
        }
    }
    let tactics = Behavior::Selector(
        vec![
            guarded_node(COND_SHOULD_STRIKE, ACT_STRIKE),
            guarded_node(COND_SHOULD_BOARD, ACT_BOARD),
            guarded_node(COND_SHOULD_DISENGAGE, ACT_DISENGAGE),
            guarded_node(COND_SHOULD_FIGHT, ACT_PURSUE),
            guarded_node(COND_SHOULD_FLEE, ACT_FLEE),
            Behavior::Action(ACT_HOLD),
        ],
    );
    let ghost tactics_shape = Shape::Selector(
        seq![
            guarded(COND_SHOULD_STRIKE, ACT_STRIKE),
            guarded(COND_SHOULD_BOARD, ACT_BOARD),
            guarded(COND_SHOULD_DISENGAGE, ACT_DISENGAGE),
            guarded(COND_SHOULD_FIGHT, ACT_PURSUE),
            guarded(COND_SHOULD_FLEE, ACT_FLEE),
            Shape::Action(ACT_HOLD),
        ],
    );
    proof {
        if let Behavior::Selector(c) = &tactics {
            assert(shapes_of(c@) =~= seq![
                guarded(COND_SHOULD_STRIKE, ACT_STRIKE),
                guarded(COND_SHOULD_BOARD, ACT_BOARD),
                guarded(COND_SHOULD_DISENGAGE, ACT_DISENGAGE),
                guarded(COND_SHOULD_FIGHT, ACT_PURSUE),
                guarded(COND_SHOULD_FLEE, ACT_FLEE),
                Shape::Action(ACT_HOLD),
            ]);
        }
    }
    let engaged = Behavior::Sequence(vec![Behavior::Condition(COND_IS_ENGAGED), tactics]);
    let ghost engaged_shape = Shape::Sequence(seq![Shape::Condition(COND_IS_ENGAGED), tactics_shape]);
    proof {
        if let Behavior::Sequence(c) = &engaged {
            assert(shapes_of(c@) =~= seq![Shape::Condition(COND_IS_ENGAGED), tactics_shape]);
        }
    }
    let hunt = Behavior::Sequence(
        vec![
            Behavior::Condition(COND_IS_SAILING_PIRATE),
            Behavior::Condition(COND_SEE_PREY),
            Behavior::Action(ACT_PURSUE),
        ],
    );
    let ghost hunt_shape = Shape::Sequence(
        seq![Shape::Condition(COND_IS_SAILING_PIRATE), Shape::Condition(COND_SEE_PREY), Shape::Action(ACT_PURSUE)],
    );
    proof {
        if let Behavior::Sequence(c) = &hunt {
            assert(shapes_of(c@) =~= seq![
                Shape::Condition(COND_IS_SAILING_PIRATE),
                Shape::Condition(COND_SEE_PREY),
                Shape::Action(ACT_PURSUE),
            ]);
        }
    }
    let run = Behavior::Sequence(
        vec![
            Behavior::Condition(COND_IS_SAILING_MERCHANT),
            Behavior::Condition(COND_SEE_THREAT),
            Behavior::Action(ACT_FLEE),
        ],
    );
    let ghost run_shape = Shape::Sequence(
        seq![Shape::Condition(COND_IS_SAILING_MERCHANT), Shape::Condition(COND_SEE_THREAT), Shape::Action(ACT_FLEE)],
    );
    proof {
        if let Behavior::Sequence(c) = &run {
            assert(shapes_of(c@) =~= seq![
                Shape::Condition(COND_IS_SAILING_MERCHANT),
                Shape::Condition(COND_SEE_THREAT),
                Shape::Action(ACT_FLEE),
            ]);
        }
    }
    let divert = Behavior::Sequence(
        vec![
            Behavior::Condition(COND_IS_LOW_PROVISIONS),
            Behavior::Action(ACT_DIVERT_TO_PORT),
            Behavior::Action(ACT_SAIL),
        ],
    );
    let ghost divert_shape = Shape::Sequence(
        seq![Shape::Condition(COND_IS_LOW_PROVISIONS), Shape::Action(ACT_DIVERT_TO_PORT), Shape::Action(ACT_SAIL)],
    );
    proof {
        if let Behavior::Sequence(c) = &divert {
            assert(shapes_of(c@) =~= seq![
                Shape::Condition(COND_IS_LOW_PROVISIONS),
                Shape::Action(ACT_DIVERT_TO_PORT),
                Shape::Action(ACT_SAIL),
            ]);
        }
    }
    let sail = guarded_node(COND_HAS_DESTINATION, ACT_SAIL);
    let b = Behavior::Selector(
        vec![docked, engaged, hunt, run, divert, sail, Behavior::Action(ACT_CHOOSE_DESTINATION)],
    );
    proof {
        if let Behavior::Selector(c) = &b {
            assert(shapes_of(c@) =~= seq![
                docked_shape,
                engaged_shape,
                hunt_shape,
                run_shape,
                divert_shape,
                guarded(COND_HAS_DESTINATION, ACT_SAIL),
                Shape::Action(ACT_CHOOSE_DESTINATION),
            ]);
        }
    }
    b
}

/// The calls a docked ship's turn makes: the docked check, then sell
/// everything, resupply, buy the best cargo, careen and undock.
pub open spec fn docked_turn_calls() -> Seq<(bool, usize)> {
    seq![
        (false, COND_IS_DOCKED),
        (true, ACT_SELL_ALL),
        (true, ACT_RESUPPLY),
        (true, ACT_BUY_BEST),
        (true, ACT_CAREEN),
        (true, ACT_UNDOCK),
    ]
}

/// A docked ship whose docked check and port actions all succeed, ticked
/// from a fresh state, checks that it is docked, then sells everything,
/// resupplies, buys the best cargo, careens and undocks, in that order,
/// and calls nothing else; the turn succeeds.
pub proof fn lemma_docked_ship_turn(b: Behavior, outs: Seq<Status>)
    requires
        shape_of(b) == ship_tree(),
        outs.len() >= 6,
        forall|j: int| 0 <= j < 6 ==> #[trigger] outs[j] == Status::Success,
    ensures
        tick_spec(b, Seq::empty(), 0, outs) == (Status::Success, seq![0usize], docked_turn_calls()),
{
    match b {
        Behavior::Selector(top) => {
            assert(shapes_of(top@).len() == 7);
            assert(shapes_of(top@)[0] == shape_of(top@[0]));
            let d = top@[0];
            match d {
                Behavior::Sequence(dk) => {
                    assert(shapes_of(dk@).len() == 2);
                    assert(shapes_of(dk@)[0] == shape_of(dk@[0]));
                    assert(shapes_of(dk@)[1] == shape_of(dk@[1]));
                    match dk@[0] {
                        Behavior::Condition(c) => {},
                        Behavior::Action(_) => { assert(false); },
                        Behavior::Sequence(_) => { assert(false); },
                        Behavior::Selector(_) => { assert(false); },
                        Behavior::Invert(_) => { assert(false); },
                    }
                    assert(dk@[0] == Behavior::Condition(COND_IS_DOCKED));
                    match dk@[1] {
                        Behavior::Sequence(dock) => {
                            assert(shapes_of(dock@).len() == 5);
                            assert forall|k: int| 0 <= k < 5 implies #[trigger] dock@[k] == (Behavior::Action(
                                if k == 0 { ACT_SELL_ALL } else if k == 1 { ACT_RESUPPLY } else if k == 2 { ACT_BUY_BEST } else if k
                                    == 3 { ACT_CAREEN } else { ACT_UNDOCK },
                            )) by {
                                assert(shapes_of(dock@)[k] == shape_of(dock@[k]));
                                match dock@[k] {
                                    Behavior::Action(_) => {},
                                    Behavior::Condition(_) => { assert(false); },
                                    Behavior::Sequence(_) => { assert(false); },
                                    Behavior::Selector(_) => { assert(false); },
                                    Behavior::Invert(_) => { assert(false); },
                                }
                            }
                            let o1 = outs.skip(1);
                            assert(all_leaves(dock@));
                            let r2 = seq![0usize, 1usize];
                            assert(fresh_at(r2, 2));
                            lemma_sequence_all_success(dock, r2, 2, o1);
                            let keys5 = leaf_keys(dock@, 0, 5);
                            assert(keys5 =~= docked_turn_calls().skip(1));
                            assert(pad(r2, 2) =~= seq![0usize, 1usize, 0usize]);
                            assert(reset_level(seq![0usize, 1usize, 0usize], 2) =~= seq![0usize, 1usize, 0usize]);
                            let r1 = seq![0usize, 0usize];
                            assert(pad(seq![0usize], 1) =~= r1);
                            assert(r1.update(1, 0usize) =~= r1);
                            assert(r1.update(1, 1usize) =~= r2);
                            assert(tick_spec(dk@[0], r1, 2, outs) == (Status::Success, r1, seq![(false, COND_IS_DOCKED)]));
                            assert(tick_spec(dk@[1], r2, 2, o1) == (Status::Success, seq![0usize, 1usize, 0usize], keys5));
                            assert(o1.skip(5).len() >= 0);
                            assert(reset_level(seq![0usize, 1usize, 0usize], 1) =~= r1);
                            let after2 = crate::bt::composite_from(dk@, 2, seq![0usize, 1usize, 0usize], 1, o1.skip(5), false);
                            assert(after2 == (Status::Success, r1, Seq::<(bool, usize)>::empty()));
                            let after1 = crate::bt::composite_from(dk@, 1, r1, 1, o1, false);
                            assert(after1 == (Status::Success, r1, keys5 + Seq::<(bool, usize)>::empty()));
                            assert(outs.skip(1) == o1);
                            let docked = crate::bt::composite_from(dk@, 0, r1, 1, outs, false);
                            assert(docked.2 =~= docked_turn_calls());
                            assert(tick_spec(d, seq![0usize], 1, outs) == (Status::Success, r1, docked_turn_calls()));
                            assert(pad(Seq::<usize>::empty(), 0) =~= seq![0usize]);
                            assert(seq![0usize].update(0, 0usize) =~= seq![0usize]);
                            assert(reset_level(r1, 0) =~= seq![0usize]);
                            assert(top@[0] == d);
                            assert(tick_spec(top@[0], seq![0usize].update(0, 0usize), 1, outs) == (Status::Success, r1, docked_turn_calls()));
                            assert(crate::bt::composite_from(top@, 0, seq![0usize], 0, outs, true) == (
                                Status::Success,
                                seq![0usize],
                                docked_turn_calls(),
                            ));
                            assert(tick_spec(b, Seq::empty(), 0, outs) == crate::bt::composite_from(top@, 0, seq![0usize], 0, outs, true));
                        },
                        Behavior::Action(_) => { assert(false); },
                        Behavior::Condition(_) => { assert(false); },
                        Behavior::Selector(_) => { assert(false); },
                        Behavior::Invert(_) => { assert(false); },
                    }
                },
                Behavior::Action(_) => { assert(false); },
                Behavior::Condition(_) => { assert(false); },
                Behavior::Selector(_) => { assert(false); },
                Behavior::Invert(_) => { assert(false); },
            }
        },
        Behavior::Action(_) => { assert(false); },
        Behavior::Condition(_) => { assert(false); },
        Behavior::Sequence(_) => { assert(false); },
        Behavior::Invert(_) => { assert(false); },
    }
}

/// Silver a ship keeps aboard after settling with its owner port, in
/// centavos (500 pesos).
pub const HOME_PORT_FLOAT_CENTAVOS: i64 = 50_000;

/// What a ship that has reached its destination's harbor zone does.
#[derive(Debug, Clone, Copy, PartialEq, Eq)]
pub enum Arrival {
    /// The destination port refuses the ship's flag: drop the destination
    /// and fail the sailing action.
    Refused,
    /// Dock at `port` (none when the destination was a bare position).
    /// `collect_debt`: ask the port to settle the ship's debt first.
    /// `deposit`: silver above the float paid into the owner port.
    Docked { port: Option<usize>, collect_debt: bool, deposit: Option<Pesos> },
}

/// The arrival decision of the sailing action. `legality` is the
/// destination port's answer to the ship's flag, `markets` the number of
/// ports with a market, `owner_port` the port that owns the ship.
pub fn arrival(
    dest_port: Option<usize>,
    legality: DockLegality,
    markets: usize,
    owner_port: Option<usize>,
    silver: Pesos,
    debt: Pesos,
) -> (a: Arrival)
    requires
        fits_i64(silver@ - HOME_PORT_FLOAT_CENTAVOS),
    ensures
        dest_port is Some && legality == DockLegality::Refused ==> a == Arrival::Refused,
        !(dest_port is Some && legality == DockLegality::Refused) ==> (a matches Arrival::Docked { port, collect_debt, deposit }
            && port == dest_port
            && collect_debt == (dest_port matches Some(i) && i < markets && debt@ > 0)
            && (deposit matches Some(amount) ==> amount@ == silver@ - HOME_PORT_FLOAT_CENTAVOS)
            && (deposit is Some <==> (dest_port matches Some(i) && owner_port == Some(i) && i < markets && silver@
            > HOME_PORT_FLOAT_CENTAVOS))),
{
    if dest_port.is_some() && legality == DockLegality::Refused {
        return Arrival::Refused;
    }
    let mut collect_debt = false;
    let mut deposit: Option<Pesos> = None;
    if let Some(idx) = dest_port {
        if idx < markets && debt.is_positive() {
            collect_debt = true;
        }
        if let Some(owner) = owner_port {
            if idx == owner && idx < markets {
                let surplus = silver.minus(Pesos::from_centavos(HOME_PORT_FLOAT_CENTAVOS)).max_zero();
                if surplus.is_positive() {
                    deposit = Some(surplus);
                }
            }
        }
    }
    Arrival::Docked { port: dest_port, collect_debt, deposit }
}

/// A context that, whatever was called before, answers that the ship is
/// docked and that selling, resupplying, buying, careening and undocking
/// all succeed: a fresh tick of the ship's tree against it checks the
/// docked condition, then runs those five actions in that order and
/// nothing else, and succeeds.
pub proof fn lemma_docked_ship_turn_answers<C: BtContext>(c: C, log0: Seq<(bool, usize, Status)>, b: Behavior, outs: Seq<Status>)
    requires
        shape_of(b) == ship_tree(),
        forall|j: int, h: Seq<(bool, usize, Status)>|
            0 <= j < 6 ==> #[trigger] c.answer(h, docked_turn_calls()[j].0, docked_turn_calls()[j].1) == Status::Success,
        tick_spec(b, Seq::empty(), 0, outs).2.len() <= outs.len(),
        answered(c, log0, tick_spec(b, Seq::empty(), 0, outs).2, outs),
    ensures
        tick_spec(b, Seq::empty(), 0, outs) == (Status::Success, seq![0usize], docked_turn_calls()),
{
    let ideal = Seq::new(6, |j: int| Status::Success);
    lemma_docked_ship_turn(b, ideal);
    let keys = docked_turn_calls();
    assert forall|j: int| 0 <= j < keys.len() implies #[trigger] ideal[j] == c.answer(
        log0 + log_of(keys, ideal).take(j),
        keys[j].0,
        keys[j].1,
    ) by {
        assert(c.answer(log0 + log_of(keys, ideal).take(j), keys[j].0, keys[j].1) == Status::Success);
    }
    lemma_answers_fix_tick(c, log0, b, Seq::empty(), 0, outs, ideal);
}

/// The engaged ship's checks, in priority order: strike, board,
/// disengage, fight, flee.
pub open spec fn engaged_checks() -> Seq<usize> {
    seq![COND_SHOULD_STRIKE, COND_SHOULD_BOARD, COND_SHOULD_DISENGAGE, COND_SHOULD_FIGHT, COND_SHOULD_FLEE]
}

/// What each engaged check leads to: strike colours, board, break off,
/// pursue and broadside the counterpart, flee.
pub open spec fn engaged_responses() -> Seq<usize> {
    seq![ACT_STRIKE, ACT_BOARD, ACT_DISENGAGE, ACT_PURSUE, ACT_FLEE]
}

/// `b` checks condition `c` and, if it holds, runs action `a`.
pub open spec fn is_guard(b: Behavior, c: usize, a: usize) -> bool {
    b matches Behavior::Sequence(v) && v@ == seq![Behavior::Condition(c), Behavior::Action(a)]
}

proof fn lemma_guard_shape(b: Behavior, c: usize, a: usize)
    requires
        shape_of(b) == guarded(c, a),
    ensures
        is_guard(b, c, a),
{
    match b {
        Behavior::Sequence(v) => {
            assert(shapes_of(v@).len() == 2);
            assert(shapes_of(v@)[0] == shape_of(v@[0]));
            assert(shapes_of(v@)[1] == shape_of(v@[1]));
            match v@[0] {
                Behavior::Condition(_) => {},
                Behavior::Action(_) => { assert(false); },
                Behavior::Sequence(_) => { assert(false); },
                Behavior::Selector(_) => { assert(false); },
                Behavior::Invert(_) => { assert(false); },
            }
            match v@[1] {
                Behavior::Action(_) => {},
                Behavior::Condition(_) => { assert(false); },
                Behavior::Sequence(_) => { assert(false); },
                Behavior::Selector(_) => { assert(false); },
                Behavior::Invert(_) => { assert(false); },
            }
            assert(v@ =~= seq![Behavior::Condition(c), Behavior::Action(a)]);
        },
        Behavior::Action(_) => { assert(false); },
        Behavior::Condition(_) => { assert(false); },
        Behavior::Selector(_) => { assert(false); },
        Behavior::Invert(_) => { assert(false); },
    }
}

/// The failed checks `conds[i..k]`, as calls.
pub open spec fn failed_checks(conds: Seq<usize>, i: int, k: int) -> Seq<(bool, usize)> {
    Seq::new((k - i) as nat, |j: int| (false, conds[i + j]))
}

/// A selector over guards, run from child `i` with fresh guard cursors,
/// whose checks fail up to guard `k` and whose guard `k` check and action
/// succeed, succeeds after calling those checks and then action `k`.
proof fn lemma_guards_fire(
    kids: Seq<Behavior>,
    conds: Seq<usize>,
    acts: Seq<usize>,
    i: int,
    k: int,
    rc: Seq<usize>,
    depth: nat,
    outs: Seq<Status>,
)
    requires
        0 <= i <= k < kids.len(),
        k < conds.len(),
        k < acts.len(),
        forall|j: int| i <= j <= k ==> is_guard(#[trigger] kids[j], conds[j], acts[j]),
        rc.len() > depth,
        fresh_at(rc, depth + 1),
        outs.len() >= k - i + 2,
        forall|j: int| 0 <= j < k - i ==> #[trigger] outs[j] == Status::Failure,
        outs[k - i] == Status::Success,
        outs[k - i + 1] == Status::Success,
    ensures
        composite_from(kids, i, rc, depth, outs, true).0 == Status::Success,
        composite_from(kids, i, rc, depth, outs, true).2 == failed_checks(conds, i, k) + seq![(false, conds[k]), (true, acts[k])],
    decreases k - i,
{
    let d1: int = depth as int + 1;
    let rci = rc.update(depth as int, i as usize);
    let p = pad(rci, depth + 1);
    assert(p.len() > depth + 1);
    assert(p[d1] == 0) by {
        if rci.len() > depth + 1 {
            assert(pad(rc, depth + 1)[d1] == rc[d1]);
        }
    }
    let g = kids[i];
    assert(is_guard(g, conds[i], acts[i]));
    if let Behavior::Sequence(v) = g {
        let c0 = tick_spec(v@[0], p.update(d1, 0usize), depth + 2, outs);
        assert(c0 == (outs[0], p.update(d1, 0usize), seq![(false, conds[i])]));
        assert(p.update(d1, 0usize) =~= p);
        if i < k {
            assert(outs[0] == Status::Failure);
            let gr = composite_from(v@, 0, p, depth + 1, outs, false);
            assert(gr == (Status::Failure, reset_level(p, depth + 1), seq![(false, conds[i])]));
            assert(tick_spec(g, rci, depth + 1, outs) == gr);
            let rc2 = reset_level(p, depth + 1);
            assert(rc2 =~= p.take(d1 + 1));
            assert(fresh_at(rc2, depth + 1));
            assert(rc2.len() > depth);
            assert forall|j: int| 0 <= j < k - (i + 1) implies #[trigger] outs.skip(1)[j] == Status::Failure by {
                assert(outs.skip(1)[j] == outs[j + 1]);
            }
            lemma_guards_fire(kids, conds, acts, i + 1, k, rc2, depth, outs.skip(1));
            assert(failed_checks(conds, i, k) =~= seq![(false, conds[i])] + failed_checks(conds, i + 1, k));
            let rest = composite_from(kids, i + 1, rc2, depth, outs.skip(1), true);
            assert(seq![(false, conds[i])] + rest.2 =~= failed_checks(conds, i, k) + seq![(false, conds[k]), (true, acts[k])]);
        } else {
            assert(outs[0] == Status::Success);
            let c1 = tick_spec(v@[1], p.update(d1, 1usize), depth + 2, outs.skip(1));
            assert(outs.skip(1)[0] == Status::Success);
            assert(c1 == (Status::Success, p.update(d1, 1usize), seq![(true, acts[k])]));
            let after1 = composite_from(v@, 2, c1.1, depth + 1, outs.skip(1).skip(1), false);
            assert(after1.0 == Status::Success && after1.2 == Seq::<(bool, usize)>::empty());
            let mid = composite_from(v@, 1, p, depth + 1, outs.skip(1), false);
            assert(mid.0 == Status::Success);
            assert(mid.2 =~= seq![(true, acts[k])]);
            let gr = composite_from(v@, 0, p, depth + 1, outs, false);
            assert(gr.2 == seq![(false, conds[k])] + mid.2);
            assert(gr.0 == Status::Success);
            assert(gr.2 =~= seq![(false, conds[k]), (true, acts[k])]);
            assert(tick_spec(g, rci, depth + 1, outs) == gr);
            assert(failed_checks(conds, i, k) =~= Seq::<(bool, usize)>::empty());
            assert(failed_checks(conds, i, k) + seq![(false, conds[k]), (true, acts[k])] =~= gr.2);
        }
    }
}

/// The calls an engaged ship's turn makes when its first successful check
/// is number `k` (in `engaged_checks` order): not docked, engaged, the
/// checks before `k` fail, check `k` holds and its response runs.
pub open spec fn engaged_turn_calls(k: int) -> Seq<(bool, usize)> {
    seq![(false, COND_IS_DOCKED), (false, COND_IS_ENGAGED)] + failed_checks(engaged_checks(), 0, k) + seq![
        (false, engaged_checks()[k]),
        (true, engaged_responses()[k]),
    ]
}

/// An engaged ship, not docked, whose first check to hold (strike, board,
/// disengage, fight, flee, in that order) is check `k` while its response
/// succeeds, runs the response that check calls for and nothing else:
/// strike strikes, board boards, disengage breaks off, fight pursues and
/// broadsides, flee flees. The turn succeeds.
pub proof fn lemma_engaged_ship_turn(b: Behavior, outs: Seq<Status>, k: int)
    requires
        shape_of(b) == ship_tree(),
        0 <= k < 5,
        outs.len() >= k + 4,
        outs[0] == Status::Failure,
        outs[1] == Status::Success,
        forall|j: int| 2 <= j < k + 2 ==> #[trigger] outs[j] == Status::Failure,
        outs[k + 2] == Status::Success,
        outs[k + 3] == Status::Success,
    ensures
        tick_spec(b, Seq::empty(), 0, outs).0 == Status::Success,
        tick_spec(b, Seq::empty(), 0, outs).2 == engaged_turn_calls(k),
{
    match b {
        Behavior::Selector(top) => {
            assert(shapes_of(top@).len() == 7);
            assert(shapes_of(top@)[0] == shape_of(top@[0]));
            assert(shapes_of(top@)[1] == shape_of(top@[1]));
            let r0 = seq![0usize];
            assert(pad(Seq::<usize>::empty(), 0) =~= r0);
            assert(r0.update(0, 0usize) =~= r0);
            let r00 = seq![0usize, 0usize];
            assert(pad(r0, 1) =~= r00);
            assert(r00.update(1, 0usize) =~= r00);
            // The docked branch fails at its first check.
            let d = top@[0];
            let dres = tick_spec(d, r0, 1, outs);
            match d {
                Behavior::Sequence(dk) => {
                    assert(shapes_of(dk@).len() == 2);
                    assert(shapes_of(dk@)[0] == shape_of(dk@[0]));
                    match dk@[0] {
                        Behavior::Condition(_) => {},
                        Behavior::Action(_) => { assert(false); },
                        Behavior::Sequence(_) => { assert(false); },
                        Behavior::Selector(_) => { assert(false); },
                        Behavior::Invert(_) => { assert(false); },
                    }
                    assert(tick_spec(dk@[0], r00, 2, outs) == (Status::Failure, r00, seq![(false, COND_IS_DOCKED)]));
                    assert(dk@[0] == Behavior::Condition(COND_IS_DOCKED));
                    assert(composite_from(dk@, 0, r00, 1, outs, false) == (
                        Status::Failure,
                        reset_level(r00, 1),
                        seq![(false, COND_IS_DOCKED)],
                    ));
                    assert(pad(r0, 1)[1] == 0);
                    assert(dres == composite_from(dk@, 0, r00, 1, outs, false));
                },
                Behavior::Action(_) => { assert(false); },
                Behavior::Condition(_) => { assert(false); },
                Behavior::Selector(_) => { assert(false); },
                Behavior::Invert(_) => { assert(false); },
            }
            assert(reset_level(r00, 1) =~= r00);
            // The engaged branch.
            let o1 = outs.skip(1);
            let r10 = seq![1usize, 0usize];
            assert(r00.update(0, 1usize) =~= r10);
            let e = top@[1];
            match e {
                Behavior::Sequence(ek) => {
                    assert(shapes_of(ek@).len() == 2);
                    assert(shapes_of(ek@)[0] == shape_of(ek@[0]));
                    assert(shapes_of(ek@)[1] == shape_of(ek@[1]));
                    match ek@[0] {
                        Behavior::Condition(_) => {},
                        Behavior::Action(_) => { assert(false); },
                        Behavior::Sequence(_) => { assert(false); },
                        Behavior::Selector(_) => { assert(false); },
                        Behavior::Invert(_) => { assert(false); },
                    }
                    assert(pad(r10, 1) =~= r10);
                    assert(r10.update(1, 0usize) =~= r10);
                    assert(o1[0] == Status::Success);
                    assert(tick_spec(ek@[0], r10, 2, o1) == (Status::Success, r10, seq![(false, COND_IS_ENGAGED)]));
                    let r11 = seq![1usize, 1usize];
                    assert(r10.update(1, 1usize) =~= r11);
                    let o2 = o1.skip(1);
                    match ek@[1] {
                        Behavior::Selector(tac) => {
                            assert(shapes_of(tac@).len() == 6);
                            assert forall|j: int| 0 <= j <= k implies is_guard(
                                #[trigger] tac@[j],
                                engaged_checks()[j],
                                engaged_responses()[j],
                            ) by {
                                assert(shapes_of(tac@)[j] == shape_of(tac@[j]));
                                lemma_guard_shape(tac@[j], engaged_checks()[j], engaged_responses()[j]);
                            }
                            let r110 = seq![1usize, 1usize, 0usize];
                            assert(pad(r11, 2) =~= r110);
                            assert(fresh_at(r110, 3));
                            assert forall|j: int| 0 <= j < k implies #[trigger] o2[j] == Status::Failure by {
                                assert(o2[j] == outs[j + 2]);
                            }
                            assert(o2[k] == outs[k + 2]);
                            assert(o2[k + 1] == outs[k + 3]);
                            lemma_guards_fire(tac@, engaged_checks(), engaged_responses(), 0, k, r110, 2, o2);
                            let tr = composite_from(tac@, 0, r110, 2, o2, true);
                            assert(pad(r11, 2)[2] == 0);
                            assert(tick_spec(ek@[1], r11, 2, o2) == tr);
                            let eres = composite_from(ek@, 0, r10, 1, o1, false);
                            let rest2 = composite_from(ek@, 2, tr.1, 1, o2.skip(tr.2.len() as int), false);
                            assert(rest2.0 == Status::Success && rest2.2 == Seq::<(bool, usize)>::empty());
                            assert(ek@[0] == Behavior::Condition(COND_IS_ENGAGED));
                            assert(tr.0 == Status::Success);
                            let emid = composite_from(ek@, 1, r10, 1, o2, false);
                            assert(emid.0 == Status::Success);
                            assert(emid.2 =~= tr.2);
                            assert(eres.0 == Status::Success);
                            assert(eres.2 =~= seq![(false, COND_IS_ENGAGED)] + tr.2);
                            assert(tick_spec(e, r10, 1, o1) == eres);
                            let root = composite_from(top@, 1, r00, 0, o1, true);
                            assert(root.0 == Status::Success && root.2 == eres.2);
                            let full = composite_from(top@, 0, r0, 0, outs, true);
                            assert(full.0 == Status::Success);
                            assert(full.2 =~= engaged_turn_calls(k));
                            assert(tick_spec(b, Seq::empty(), 0, outs) == full);
                        },
                        Behavior::Action(_) => { assert(false); },
                        Behavior::Condition(_) => { assert(false); },
                        Behavior::Sequence(_) => { assert(false); },
                        Behavior::Invert(_) => { assert(false); },
                    }
                },
                Behavior::Action(_) => { assert(false); },
                Behavior::Condition(_) => { assert(false); },
                Behavior::Selector(_) => { assert(false); },
                Behavior::Invert(_) => { assert(false); },
            }
        },
        Behavior::Action(_) => { assert(false); },
        Behavior::Condition(_) => { assert(false); },
        Behavior::Sequence(_) => { assert(false); },
        Behavior::Invert(_) => { assert(false); },
    }
}

/// The engaged turn against a context: if, whatever was called before,
/// the context answers that the ship is not docked, is engaged, that
/// the checks before `k` fail, that check `k` holds and that its response
/// succeeds, a fresh tick of the ship's tree makes exactly the calls of
/// `engaged_turn_calls(k)`, running the response check `k` calls for,
/// and succeeds. In particular a ship that should fight, and should not
/// strike, board or disengage, pursues (`ACT_PURSUE`) and does not flee.
pub proof fn lemma_engaged_ship_turn_answers<C: BtContext>(
    c: C,
    log0: Seq<(bool, usize, Status)>,
    b: Behavior,
    outs: Seq<Status>,
    k: int,
)
    requires
        shape_of(b) == ship_tree(),
        0 <= k < 5,
        forall|h: Seq<(bool, usize, Status)>| #[trigger] c.answer(h, false, COND_IS_DOCKED) == Status::Failure,
        forall|h: Seq<(bool, usize, Status)>| #[trigger] c.answer(h, false, COND_IS_ENGAGED) == Status::Success,
        forall|h: Seq<(bool, usize, Status)>, j: int| 0 <= j < k ==> #[trigger] c.answer(h, false, engaged_checks()[j]) == Status::Failure,
        forall|h: Seq<(bool, usize, Status)>| #[trigger] c.answer(h, false, engaged_checks()[k]) == Status::Success,
        forall|h: Seq<(bool, usize, Status)>| #[trigger] c.answer(h, true, engaged_responses()[k]) == Status::Success,
        tick_spec(b, Seq::empty(), 0, outs).2.len() <= outs.len(),
        answered(c, log0, tick_spec(b, Seq::empty(), 0, outs).2, outs),
    ensures
        tick_spec(b, Seq::empty(), 0, outs).0 == Status::Success,
        tick_spec(b, Seq::empty(), 0, outs).2 == engaged_turn_calls(k),
        k == 3 ==> engaged_turn_calls(k).last() == (true, ACT_PURSUE) && !engaged_turn_calls(k).contains((true, ACT_FLEE)),
{
    let ideal = Seq::new(
        (k + 4) as nat,
        |j: int|
            if j == 0 || (2 <= j < k + 2) {
                Status::Failure
            } else {
                Status::Success
            },
    );
    lemma_engaged_ship_turn(b, ideal, k);
    let keys = engaged_turn_calls(k);
    assert(keys.len() == k + 4);
    assert forall|j: int| 0 <= j < keys.len() implies #[trigger] ideal[j] == c.answer(
        log0 + log_of(keys, ideal).take(j),
        keys[j].0,
        keys[j].1,
    ) by {
        let h = log0 + log_of(keys, ideal).take(j);
        if j == 0 {
            assert(keys[j] == (false, COND_IS_DOCKED));
        } else if j == 1 {
            assert(keys[j] == (false, COND_IS_ENGAGED));
        } else if j < k + 2 {
            assert(keys[j] == (false, engaged_checks()[j - 2]));
            assert(c.answer(h, false, engaged_checks()[j - 2]) == Status::Failure);
        } else if j == k + 2 {
            assert(keys[j] == (false, engaged_checks()[k]));
        } else {
            assert(keys[j] == (true, engaged_responses()[k]));
        }
    }
    lemma_answers_fix_tick(c, log0, b, Seq::empty(), 0, outs, ideal);
    if k == 3 {
        let t = engaged_turn_calls(3);
        assert(t.len() == 7);
        assert(t[6] == (true, ACT_PURSUE));
        assert forall|j: int| 0 <= j < t.len() implies t[j] != (true, ACT_FLEE) by {
            if j < 6 {
                assert(t[j].0 == false);
            }
        }
    }
}

} // verus!
