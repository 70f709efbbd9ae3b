//! Lightweight behavior-tree engine for hourly simulation ticks.
//!
//! Trees are pure data (no closures); actions and conditions are named by
//! index into tables the caller owns. Execution state is kept apart from
//! the tree so one tree definition can be shared.
//!
//! The meaning of a tick is given by `tick_spec`, which reads the results
//! of the leaves it visits, in visiting order, from a sequence of
//! outcomes, and names the leaves it visits. A context keeps a log of
//! the calls made on it; a tick adds exactly the visited leaves to it,
//! each with the result the context returned.

use vstd::prelude::*;

verus! {

/// Result of ticking a behavior node.
#[derive(Debug, Clone, Copy, PartialEq, Eq, Structural)]
pub enum Status {
    Success,
    Failure,
    Running,
}

/// A behavior-tree node: a description of what to do.
#[derive(Debug)]
pub enum Behavior {
    /// Leaf: execute an action. Running while in progress.
    Action(usize),
    /// Leaf: check a condition.
    Condition(usize),
    /// Run children in order; fail on the first failure, succeed when all
    /// succeed.
    Sequence(Vec<Behavior>),
    /// Try children in order; succeed on the first success, fail when all
    /// fail.
    Selector(Vec<Behavior>),
    /// Invert the child's result (Running stays Running).
    Invert(Box<Behavior>),
}

/// Execution state for a behavior tree: for each composite nesting
/// depth, the child the composite is currently on.
#[derive(Debug, Clone)]
pub struct BtState {
    pub running_child: Vec<usize>,
}

impl BtState {
    /// A fresh state: every composite starts at its first child.
    pub fn new() -> (s: BtState)
        ensures
            s.running_child@ == Seq::<usize>::empty(),
    {
        let s = BtState { running_child: Vec::new() };
        assert(s.running_child@ =~= Seq::<usize>::empty());
        s
    }

    /// Start the tree again from the beginning: afterwards the state is
    /// the fresh one, so a tick behaves, and calls the context, exactly as
    /// on a new state.
    pub fn reset(&mut self)
        ensures
            final(self).running_child@ == Seq::<usize>::empty(),
    {
        self.running_child.clear();
        assert(self.running_child@ =~= Seq::<usize>::empty());
    }
}

impl Default for BtState {
    fn default() -> (s: BtState)
        ensures
            s.running_child@ == Seq::<usize>::empty(),
    {
        BtState::new()
    }
}

/// What the simulation implements to run actions and check conditions.
pub trait BtContext {
    /// The calls made on this context so far, oldest first: whether it was
    /// an action (`true`) or a condition, its id, and what it returned.
    spec fn log(&self) -> Seq<(bool, usize, Status)>;

    /// What this context answers to a call on the leaf `(is_action, id)`
    /// once the calls in `done` have been made on it. Calls leave these
    /// answers as they are: the answers are fixed by the context as it is
    /// before any of the calls.
    spec fn answer(&self, done: Seq<(bool, usize, Status)>, is_action: bool, id: usize) -> Status;

    /// Execute the action `id`; Running if still in progress.
    fn execute_action(&mut self, id: usize) -> (r: Status)
        ensures
            r == old(self).answer(old(self).log(), true, id),
            final(self).log() == old(self).log().push((true, id, r)),
            forall|done: Seq<(bool, usize, Status)>, a: bool, i: usize| #[trigger] final(self).answer(done, a, i)
                == old(self).answer(done, a, i);

    /// Check the condition `id`.
    fn check_condition(&mut self, id: usize) -> (r: Status)
        ensures
            r == old(self).answer(old(self).log(), false, id),
            final(self).log() == old(self).log().push((false, id, r)),
            forall|done: Seq<(bool, usize, Status)>, a: bool, i: usize| #[trigger] final(self).answer(done, a, i)
                == old(self).answer(done, a, i);
}

/// Every result in `outs` is what `c` answers to the matching call of
/// `calls`, given the calls before it (`log0` and the earlier ones here).
pub open spec fn answered<C: BtContext>(
    c: C,
    log0: Seq<(bool, usize, Status)>,
    calls: Seq<(bool, usize)>,
    outs: Seq<Status>,
) -> bool {
    forall|j: int|
        0 <= j < calls.len() ==> #[trigger] outs[j] == c.answer(log0 + log_of(calls, outs).take(j), calls[j].0, calls[j].1)
}

/// `c` and `d` answer every call alike.
pub open spec fn same_answers<C: BtContext>(c: C, d: C) -> bool {
    forall|done: Seq<(bool, usize, Status)>, a: bool, i: usize| #[trigger] c.answer(done, a, i) == d.answer(done, a, i)
}

proof fn lemma_answered_same<C: BtContext>(c: C, d: C, log0: Seq<(bool, usize, Status)>, calls: Seq<(bool, usize)>, outs: Seq<Status>)
    requires
        same_answers(c, d),
        answered(c, log0, calls, outs),
    ensures
        answered(d, log0, calls, outs),
{
    assert forall|j: int| 0 <= j < calls.len() implies #[trigger] outs[j] == d.answer(
        log0 + log_of(calls, outs).take(j),
        calls[j].0,
        calls[j].1,
    ) by {
        assert(outs[j] == c.answer(log0 + log_of(calls, outs).take(j), calls[j].0, calls[j].1));
        assert(c.answer(log0 + log_of(calls, outs).take(j), calls[j].0, calls[j].1) == d.answer(
            log0 + log_of(calls, outs).take(j),
            calls[j].0,
            calls[j].1,
        ));
    }
}

proof fn lemma_answered_concat<C: BtContext>(
    c: C,
    log0: Seq<(bool, usize, Status)>,
    c1: Seq<(bool, usize)>,
    o1: Seq<Status>,
    c2: Seq<(bool, usize)>,
    o2: Seq<Status>,
)
    requires
        c1.len() == o1.len(),
        c2.len() == o2.len(),
        answered(c, log0, c1, o1),
        answered(c, log0 + log_of(c1, o1), c2, o2),
    ensures
        answered(c, log0, c1 + c2, o1 + o2),
{
    let cs = c1 + c2;
    let os = o1 + o2;
    assert forall|j: int| 0 <= j < cs.len() implies #[trigger] os[j] == c.answer(log0 + log_of(cs, os).take(j), cs[j].0, cs[j].1) by {
        if j < c1.len() {
            assert(log_of(cs, os).take(j) =~= log_of(c1, o1).take(j));
            assert(o1[j] == c.answer(log0 + log_of(c1, o1).take(j), c1[j].0, c1[j].1));
        } else {
            let j2 = j - c1.len();
            assert(log_of(cs, os).take(j) =~= log_of(c1, o1) + log_of(c2, o2).take(j2));
            assert(log0 + (log_of(c1, o1) + log_of(c2, o2).take(j2)) =~= (log0 + log_of(c1, o1)) + log_of(c2, o2).take(j2));
            assert(o2[j2] == c.answer((log0 + log_of(c1, o1)) + log_of(c2, o2).take(j2), c2[j2].0, c2[j2].1));
        }
    }
}

/// A context that answers from tables and records every call: action
/// `id` returns `actions[id]`, condition `id` succeeds when
/// `conditions[id]` holds; an id past its table gives Failure. Ticking a
/// tree against it fixes every leaf result in advance.
pub struct TableContext {
    pub actions: Vec<Status>,
    pub conditions: Vec<bool>,
    /// The calls made so far: whether an action, the id, the result.
    pub calls: Vec<(bool, usize, Status)>,
}

impl TableContext {
    /// A context over the given tables, with no calls yet.
    pub fn new(actions: Vec<Status>, conditions: Vec<bool>) -> (c: TableContext)
        ensures
            c.actions@ == actions@,
            c.conditions@ == conditions@,
            c.calls@.len() == 0,
    {
        TableContext { actions, conditions, calls: Vec::new() }
    }
}

impl BtContext for TableContext {
    open spec fn log(&self) -> Seq<(bool, usize, Status)> {
        self.calls@
    }

    /// The table's entry, whatever calls came before.
    open spec fn answer(&self, done: Seq<(bool, usize, Status)>, is_action: bool, id: usize) -> Status {
        if is_action {
            if id < self.actions@.len() { self.actions@[id as int] } else { Status::Failure }
        } else {
            if id < self.conditions@.len() && self.conditions@[id as int] { Status::Success } else { Status::Failure }
        }
    }

    fn execute_action(&mut self, id: usize) -> (r: Status)
        ensures
            r == (if id < old(self).actions@.len() { old(self).actions@[id as int] } else { Status::Failure }),
            final(self).actions@ == old(self).actions@,
            final(self).conditions@ == old(self).conditions@,
    {
        let r = if id < self.actions.len() { self.actions[id] } else { Status::Failure };
        self.calls.push((true, id, r));
        r
    }

    fn check_condition(&mut self, id: usize) -> (r: Status)
        ensures
            r == (if id < old(self).conditions@.len() && old(self).conditions@[id as int] { Status::Success } else { Status::Failure }),
            final(self).actions@ == old(self).actions@,
            final(self).conditions@ == old(self).conditions@,
    {
        let r = if id < self.conditions.len() && self.conditions[id] { Status::Success } else { Status::Failure };
        self.calls.push((false, id, r));
        r
    }
}

/// The leaf a call is made for: `(true, id)` for an action, `(false, id)`
/// for a condition.
pub open spec fn leaf_key(b: Behavior) -> (bool, usize) {
    match b {
        Behavior::Action(id) => (true, id),
        Behavior::Condition(id) => (false, id),
        _ => (false, 0),
    }
}

/// The leaves `children[i..j]`, in order.
pub open spec fn leaf_keys(children: Seq<Behavior>, i: int, j: int) -> Seq<(bool, usize)> {
    Seq::new((j - i) as nat, |m: int| leaf_key(children[i + m]))
}

/// Log entries for calls on the leaves `calls` that returned `outs`.
pub open spec fn log_of(calls: Seq<(bool, usize)>, outs: Seq<Status>) -> Seq<(bool, usize, Status)> {
    Seq::new(calls.len(), |k: int| (calls[k].0, calls[k].1, outs[k]))
}

/// Depth of the deepest composite nesting below `node`.
pub open spec fn height(node: Behavior) -> nat
    decreases node,
{
    match node {
        Behavior::Action(_) => 0,
        Behavior::Condition(_) => 0,
        Behavior::Sequence(children) => 1 + height_list(children@, 0),
        Behavior::Selector(children) => 1 + height_list(children@, 0),
        Behavior::Invert(child) => height(*child),
    }
}

/// Largest height among `children[i..]`.
pub open spec fn height_list(children: Seq<Behavior>, i: int) -> nat
    decreases children, children.len() - i,
{
    if i < 0 || i >= children.len() {
        0
    } else {
        let h = height(children[i]);
        let rest = height_list(children, i + 1);
        if h >= rest {
            h
        } else {
            rest
        }
    }
}

/// `rc` extended with zeros so that it has an entry for `depth`.
pub open spec fn pad(rc: Seq<usize>, depth: nat) -> Seq<usize> {
    if rc.len() > depth {
        rc
    } else {
        rc + Seq::new((depth + 1 - rc.len()) as nat, |k: int| 0usize)
    }
}

/// `rc` with the cursor at `depth` back at zero and deeper cursors dropped.
pub open spec fn reset_level(rc: Seq<usize>, depth: nat) -> Seq<usize> {
    rc.update(depth as int, 0usize).take(depth as int + 1)
}

/// Outcome of ticking `node` at `depth` with cursor stack `rc`, when the
/// leaves visited return, in order, the results in `outs`: the status,
/// the cursor stack afterwards, and the leaves visited, in order (one
/// result of `outs` is read per leaf).
pub open spec fn tick_spec(node: Behavior, rc: Seq<usize>, depth: nat, outs: Seq<Status>) -> (Status, Seq<usize>, Seq<
    (bool, usize),
>)
    decreases node, 0nat,
{
    match node {
        Behavior::Action(id) => (outs[0], rc, seq![(true, id)]),
        Behavior::Condition(id) => (outs[0], rc, seq![(false, id)]),
        Behavior::Sequence(children) => {
            let p = pad(rc, depth);
            composite_from(children@, p[depth as int] as int, p, depth, outs, false)
        },
        Behavior::Selector(children) => {
            let p = pad(rc, depth);
            composite_from(children@, p[depth as int] as int, p, depth, outs, true)
        },
        Behavior::Invert(child) => {
            let r = tick_spec(*child, rc, depth, outs);
            (
                match r.0 {
                    Status::Success => Status::Failure,
                    Status::Failure => Status::Success,
                    Status::Running => Status::Running,
                },
                r.1,
                r.2,
            )
        },
    }
}

/// Outcome of running a composite's children from child `i` on. A
/// sequence stops at the first Failure, a selector at the first Success;
/// either stops at the first Running without resetting its cursor.
pub open spec fn composite_from(
    children: Seq<Behavior>,
    i: int,
    rc: Seq<usize>,
    depth: nat,
    outs: Seq<Status>,
    selector: bool,
) -> (Status, Seq<usize>, Seq<(bool, usize)>)
    decreases children, children.len() - i,
{
    let done = if selector { Status::Success } else { Status::Failure };
    let finished = if selector { Status::Failure } else { Status::Success };
    if i < 0 || i >= children.len() {
        (finished, reset_level(rc, depth), Seq::empty())
    } else {
        let c = tick_spec(children[i], rc.update(depth as int, i as usize), depth + 1, outs);
        if c.0 == done {
            (done, reset_level(c.1, depth), c.2)
        } else if c.0 == Status::Running {
            (Status::Running, c.1, c.2)
        } else {
            let rest = composite_from(children, i + 1, c.1, depth, outs.skip(c.2.len() as int), selector);
            (rest.0, rest.1, c.2 + rest.2)
        }
    }
}

/// `r` with the leaves `k` visited first.
pub open spec fn after(k: Seq<(bool, usize)>, r: (Status, Seq<usize>, Seq<(bool, usize)>)) -> (Status, Seq<usize>, Seq<
    (bool, usize),
>) {
    (r.0, r.1, k + r.2)
}

proof fn lemma_after_after(a: Seq<(bool, usize)>, b: Seq<(bool, usize)>, r: (Status, Seq<usize>, Seq<(bool, usize)>))
    ensures
        after(a, after(b, r)) == after(a + b, r),
{
    assert(a + (b + r.2) =~= (a + b) + r.2);
}

proof fn lemma_after_empty(r: (Status, Seq<usize>, Seq<(bool, usize)>))
    ensures
        after(Seq::empty(), r) == r,
        after(r.2, (r.0, r.1, Seq::empty())) == r,
{
    assert(Seq::<(bool, usize)>::empty() + r.2 =~= r.2);
    assert(r.2 + Seq::<(bool, usize)>::empty() =~= r.2);
}

proof fn lemma_log_of_add(c1: Seq<(bool, usize)>, o1: Seq<Status>, c2: Seq<(bool, usize)>, o2: Seq<Status>)
    requires
        c1.len() == o1.len(),
        c2.len() == o2.len(),
    ensures
        log_of(c1 + c2, o1 + o2) == log_of(c1, o1) + log_of(c2, o2),
{
    assert(log_of(c1 + c2, o1 + o2) =~= log_of(c1, o1) + log_of(c2, o2));
}

proof fn lemma_height_list_bound(children: Seq<Behavior>, i: int, j: int)
    requires
        0 <= i <= j < children.len(),
    ensures
        height(children[j]) <= height_list(children, i),
    decreases j - i,
{
    if i < j {
        lemma_height_list_bound(children, i + 1, j);
    }
}

/// One step of a composite: what running child `i` does to the outcome.
proof fn lemma_composite_step(
    kids: Seq<Behavior>,
    i: int,
    cur: Seq<usize>,
    depth: nat,
    selector: bool,
    ct: Seq<Status>,
    cc: Seq<(bool, usize)>,
    fut: Seq<Status>,
    s: Status,
    after_child: Seq<usize>,
)
    requires
        0 <= i < kids.len(),
        cc.len() == ct.len(),
        tick_spec(kids[i], cur.update(depth as int, i as usize), depth + 1, ct + fut) == (s, after_child, cc),
    ensures
        composite_from(kids, i, cur, depth, ct + fut, selector) == if s == (if selector { Status::Success } else { Status::Failure }) {
            (s, reset_level(after_child, depth), cc)
        } else if s == Status::Running {
            (s, after_child, cc)
        } else {
            after(cc, composite_from(kids, i + 1, after_child, depth, fut, selector))
        },
{
    assert((ct + fut).skip(ct.len() as int) =~= fut);
}

/// A sequence or selector node ticks as its children from the cursor on.
proof fn lemma_composite_unfold(node: Behavior, kids: Seq<Behavior>, selector: bool, rc0: Seq<usize>, depth: nat, outs: Seq<Status>)
    requires
        selector ==> (node matches Behavior::Selector(c) && c@ == kids),
        !selector ==> (node matches Behavior::Sequence(c) && c@ == kids),
    ensures
        tick_spec(node, rc0, depth, outs) == composite_from(
            kids,
            pad(rc0, depth)[depth as int] as int,
            pad(rc0, depth),
            depth,
            outs,
            selector,
        ),
{
}

/// Tick `node` at nesting `depth`, also handing back the leaf results
/// read and the leaves visited, in order.
fn tick_traced<C: BtContext>(node: &Behavior, state: &mut BtState, ctx: &mut C, depth: usize) -> (res: (
    Status,
    Ghost<(Seq<Status>, Seq<(bool, usize)>)>,
))
    requires
        depth + height(*node) < usize::MAX,
    ensures
        forall|fut: Seq<Status>|
            #[trigger] tick_spec(*node, old(state).running_child@, depth as nat, res.1@.0 + fut) == (
                res.0,
                final(state).running_child@,
                res.1@.1,
            ),
        res.1@.0.len() == res.1@.1.len(),
        final(ctx).log() == old(ctx).log() + log_of(res.1@.1, res.1@.0),
        answered(*old(ctx), old(ctx).log(), res.1@.1, res.1@.0),
        same_answers(*final(ctx), *old(ctx)),
        old(state).running_child@.len() >= depth ==> final(state).running_child@.len() >= depth,
    decreases *node,
{
    let ghost rc0 = state.running_child@;
    let ghost log0 = ctx.log();
    let ghost c0: C = *ctx;
    match node {
        Behavior::Action(id) => {
            let s = ctx.execute_action(*id);
            let ghost t = seq![s];
            let ghost c = seq![(true, *id)];
            proof {
                assert forall|fut: Seq<Status>| #[trigger] tick_spec(*node, rc0, depth as nat, t + fut) == (s, rc0, c) by {
                    assert((t + fut)[0] == s);
                }
                assert(log_of(c, t) =~= seq![(true, *id, s)]);
                assert(log0 + log_of(c, t).take(0) =~= log0);
                assert(answered(c0, log0, c, t));
            }
            (s, Ghost((t, c)))
        },
        Behavior::Condition(id) => {
            let s = ctx.check_condition(*id);
            let ghost t = seq![s];
            let ghost c = seq![(false, *id)];
            proof {
                assert forall|fut: Seq<Status>| #[trigger] tick_spec(*node, rc0, depth as nat, t + fut) == (s, rc0, c) by {
                    assert((t + fut)[0] == s);
                }
                assert(log_of(c, t) =~= seq![(false, *id, s)]);
                assert(log0 + log_of(c, t).take(0) =~= log0);
                assert(answered(c0, log0, c, t));
            }
            (s, Ghost((t, c)))
        },
        Behavior::Sequence(children) => {
            tick_composite(node, children, state, ctx, depth, false)
        },
        Behavior::Selector(children) => {
            tick_composite(node, children, state, ctx, depth, true)
        },
        Behavior::Invert(child) => {
            let (s, Ghost(tc)) = tick_traced(child, state, ctx, depth);
            let out = match s {
                Status::Success => Status::Failure,
                Status::Failure => Status::Success,
                Status::Running => Status::Running,
            };
            proof {
                assert forall|fut: Seq<Status>|
                    #[trigger] tick_spec(*node, rc0, depth as nat, tc.0 + fut) == (out, state.running_child@, tc.1) by {
                    assert(tick_spec(**child, rc0, depth as nat, tc.0 + fut) == (s, state.running_child@, tc.1));
                }
            }
            (out, Ghost(tc))
        },
    }
}

/// Run a sequence (`selector == false`) or selector node `node` whose
/// children are `children`.
fn tick_composite<C: BtContext>(
    node: &Behavior,
    children: &Vec<Behavior>,
    state: &mut BtState,
    ctx: &mut C,
    depth: usize,
    selector: bool,
) -> (res: (Status, Ghost<(Seq<Status>, Seq<(bool, usize)>)>))
    requires
        depth + height(*node) < usize::MAX,
        (selector && *node == Behavior::Selector(*children)) || (!selector && *node == Behavior::Sequence(*children)),
    ensures
        forall|fut: Seq<Status>|
            #[trigger] tick_spec(*node, old(state).running_child@, depth as nat, res.1@.0 + fut) == (
                res.0,
                final(state).running_child@,
                res.1@.1,
            ),
        res.1@.0.len() == res.1@.1.len(),
        final(ctx).log() == old(ctx).log() + log_of(res.1@.1, res.1@.0),
        answered(*old(ctx), old(ctx).log(), res.1@.1, res.1@.0),
        same_answers(*final(ctx), *old(ctx)),
        final(state).running_child@.len() > depth,
    decreases *node, 1nat,
{
    let ghost rc0 = state.running_child@;
    let ghost log0 = ctx.log();
    let ghost c0: C = *ctx;
    let ghost kids = children@;
    let done = if selector { Status::Success } else { Status::Failure };
    while state.running_child.len() <= depth
        invariant
            rc0.len() <= depth ==> state.running_child@.len() <= depth + 1,
            rc0.len() <= depth ==> state.running_child@ =~= rc0 + Seq::new(
                (state.running_child@.len() - rc0.len()) as nat,
                |k: int| 0usize,
            ),
            rc0.len() > depth ==> state.running_child@ == rc0,
        decreases depth + 1 - state.running_child@.len(),
    {
        state.running_child.push(0);
    }
    let ghost rc1 = state.running_child@;
    assert(rc1 =~= pad(rc0, depth as nat));
    let start = state.running_child[depth];
    let mut i = start;
    let ghost mut trace: Seq<Status> = Seq::empty();
    let ghost mut calls: Seq<(bool, usize)> = Seq::empty();
    proof {
        assert forall|fut: Seq<Status>|
            #[trigger] composite_from(kids, start as int, rc1, depth as nat, trace + fut, selector) == after(
                calls,
                composite_from(kids, i as int, state.running_child@, depth as nat, fut, selector),
            ) by {
            assert(trace + fut =~= fut);
            lemma_after_empty(composite_from(kids, i as int, state.running_child@, depth as nat, fut, selector));
        }
        assert(log0 + log_of(calls, trace) =~= log0);
        assert(answered(c0, log0, calls, trace));
        assert(same_answers(*ctx, c0));
    }
    while i < children.len()
        invariant
            kids == children@,
            rc0 == old(state).running_child@,
            log0 == old(ctx).log(),
            rc1 == pad(rc0, depth as nat),
            rc1.len() > depth,
            start == rc1[depth as int],
            depth + height(*node) < usize::MAX,
            (selector && *node == Behavior::Selector(*children)) || (!selector && *node == Behavior::Sequence(*children)),
            done == if selector { Status::Success } else { Status::Failure },
            state.running_child@.len() > depth,
            trace.len() == calls.len(),
            ctx.log() == log0 + log_of(calls, trace),
            c0 == *old(ctx),
            answered(c0, log0, calls, trace),
            same_answers(*ctx, c0),
            forall|fut: Seq<Status>|
                #[trigger] composite_from(kids, start as int, rc1, depth as nat, trace + fut, selector) == after(
                    calls,
                    composite_from(kids, i as int, state.running_child@, depth as nat, fut, selector),
                ),
        decreases children@.len() - i,
    {
        let ghost cur = state.running_child@;
        state.running_child.set(depth, i);
        proof {
            lemma_height_list_bound(kids, 0, i as int);
        }
        let d1 = depth + 1;
        let child = &children[i];
        assert(state.running_child@ == cur.update(depth as int, i));
        let ghost before_child = state.running_child@;
        let ghost log_before = ctx.log();
        let ghost cb: C = *ctx;
        let (s, Ghost(tc)) = tick_traced(child, state, ctx, d1);
        let ghost ct = tc.0;
        let ghost cc = tc.1;
        proof {
            lemma_answered_same(cb, c0, log_before, cc, ct);
            lemma_answered_concat(c0, log0, calls, trace, cc, ct);
            assert forall|done: Seq<(bool, usize, Status)>, a: bool, i: usize| #[trigger] ctx.answer(done, a, i) == c0.answer(
                done,
                a,
                i,
            ) by {
                assert(ctx.answer(done, a, i) == cb.answer(done, a, i));
                assert(cb.answer(done, a, i) == c0.answer(done, a, i));
            }
        }
        let ghost after_child = state.running_child@;
        assert(*child == kids[i as int]);
        proof {
            lemma_log_of_add(calls, trace, cc, ct);
            assert(ctx.log() =~= log0 + log_of(calls + cc, trace + ct));
        }
        if s == done || s == Status::Running {
            if s == done {
                state.running_child.set(depth, 0);
                state.running_child.truncate(depth + 1);
                assert(state.running_child@ =~= reset_level(after_child, depth as nat));
            }
            let ghost total = trace + ct;
            let ghost all_calls = calls + cc;
            proof {
                assert forall|fut: Seq<Status>|
                    #[trigger] tick_spec(*node, rc0, depth as nat, total + fut) == (
                        s,
                        state.running_child@,
                        all_calls,
                    ) by {
                    assert(total + fut =~= trace + (ct + fut));
                    lemma_composite_unfold(*node, kids, selector, rc0, depth as nat, total + fut);
                    assert(tick_spec(*child, before_child, d1 as nat, ct + fut) == (s, after_child, cc));
                    lemma_composite_step(kids, i as int, cur, depth as nat, selector, ct, cc, fut, s, after_child);
                    assert(composite_from(kids, start as int, rc1, depth as nat, trace + (ct + fut), selector) == after(
                        calls,
                        composite_from(kids, i as int, cur, depth as nat, ct + fut, selector),
                    ));
                }
            }
            return (s, Ghost((total, all_calls)));
        }
        proof {
            let new_trace = trace + ct;
            let new_calls = calls + cc;
            assert forall|fut: Seq<Status>|
                #[trigger] composite_from(kids, start as int, rc1, depth as nat, new_trace + fut, selector) == after(
                    new_calls,
                    composite_from(kids, i + 1, after_child, depth as nat, fut, selector),
                ) by {
                assert(new_trace + fut =~= trace + (ct + fut));
                assert(tick_spec(*child, before_child, d1 as nat, ct + fut) == (s, after_child, cc));
                lemma_composite_step(kids, i as int, cur, depth as nat, selector, ct, cc, fut, s, after_child);
                assert(composite_from(kids, start as int, rc1, depth as nat, trace + (ct + fut), selector) == after(
                    calls,
                    composite_from(kids, i as int, cur, depth as nat, ct + fut, selector),
                ));
                lemma_after_after(calls, cc, composite_from(kids, i + 1, after_child, depth as nat, fut, selector));
            }
            trace = new_trace;
            calls = new_calls;
        }
        i = i + 1;
    }
    let ghost at_end = state.running_child@;
    state.running_child.set(depth, 0);
    state.running_child.truncate(depth + 1);
    assert(state.running_child@ =~= reset_level(at_end, depth as nat));
    let finished = if selector { Status::Failure } else { Status::Success };
    proof {
        assert forall|fut: Seq<Status>|
            #[trigger] tick_spec(*node, rc0, depth as nat, trace + fut) == (finished, state.running_child@, calls) by {
            lemma_composite_unfold(*node, kids, selector, rc0, depth as nat, trace + fut);
            assert(composite_from(kids, start as int, rc1, depth as nat, trace + fut, selector) == after(
                calls,
                composite_from(kids, i as int, at_end, depth as nat, fut, selector),
            ));
            lemma_after_empty((finished, state.running_child@, calls));
        }
    }
    (finished, Ghost((trace, calls)))
}

/// Ticking `node` from cursor stack `rc` at `depth`, with the visited
/// leaves returning `outs` in order, gives status `r` and cursor stack
/// `rc2`, reads every result of `outs`, and takes the context's call log
/// from `log0` to `log1` by exactly those calls: each visited leaf, with
/// the result it returned.
pub open spec fn tick_outcome(
    node: Behavior,
    rc: Seq<usize>,
    depth: nat,
    outs: Seq<Status>,
    r: Status,
    rc2: Seq<usize>,
    log0: Seq<(bool, usize, Status)>,
    log1: Seq<(bool, usize, Status)>,
) -> bool {
    let t = tick_spec(node, rc, depth, outs);
    &&& t.0 == r
    &&& t.1 == rc2
    &&& t.2.len() == outs.len()
    &&& log1 == log0 + log_of(t.2, outs)
}

/// Tick `node` at nesting `depth`. Leaves call into `ctx`; composites keep
/// their cursor in `state.running_child[depth]` so a Running child resumes
/// on the next tick.
///
/// The calls made on `ctx` are exactly the leaves `tick_spec` visits, in
/// order, and the status and the state afterwards are what `tick_spec`
/// gives for the results those calls returned.
pub fn tick<C: BtContext>(node: &Behavior, state: &mut BtState, ctx: &mut C, depth: usize) -> (r: Status)
    requires
        depth + height(*node) < usize::MAX,
    ensures
        exists|outs: Seq<Status>|
            #[trigger] tick_outcome(
                *node,
                old(state).running_child@,
                depth as nat,
                outs,
                r,
                final(state).running_child@,
                old(ctx).log(),
                final(ctx).log(),
            ) && answered(*old(ctx), old(ctx).log(), tick_spec(*node, old(state).running_child@, depth as nat, outs).2, outs),
        same_answers(*final(ctx), *old(ctx)),
{
    let ghost rc0 = state.running_child@;
    let ghost log0 = ctx.log();
    let (r, Ghost(tc)) = tick_traced(node, state, ctx, depth);
    proof {
        assert(tc.0 + Seq::<Status>::empty() =~= tc.0);
        assert(tick_spec(*node, rc0, depth as nat, tc.0 + Seq::<Status>::empty()) == (r, state.running_child@, tc.1));
        assert(tick_outcome(*node, rc0, depth as nat, tc.0, r, state.running_child@, log0, ctx.log()));
    }
    r
}

proof fn lemma_answered_split<C: BtContext>(
    c: C,
    log0: Seq<(bool, usize, Status)>,
    c1: Seq<(bool, usize)>,
    c2: Seq<(bool, usize)>,
    o: Seq<Status>,
)
    requires
        answered(c, log0, c1 + c2, o),
        o.len() >= c1.len() + c2.len(),
    ensures
        answered(c, log0, c1, o),
        answered(c, log0 + log_of(c1, o), c2, o.skip(c1.len() as int)),
{
    let cs = c1 + c2;
    assert forall|j: int| 0 <= j < c1.len() implies #[trigger] o[j] == c.answer(log0 + log_of(c1, o).take(j), c1[j].0, c1[j].1) by {
        assert(log_of(cs, o).take(j) =~= log_of(c1, o).take(j));
        assert(o[j] == c.answer(log0 + log_of(cs, o).take(j), cs[j].0, cs[j].1));
    }
    let o2 = o.skip(c1.len() as int);
    assert forall|j2: int| 0 <= j2 < c2.len() implies #[trigger] o2[j2] == c.answer(
        (log0 + log_of(c1, o)) + log_of(c2, o2).take(j2),
        c2[j2].0,
        c2[j2].1,
    ) by {
        let j = c1.len() + j2;
        assert(log_of(cs, o).take(j) =~= log_of(c1, o) + log_of(c2, o2).take(j2));
        assert(log0 + (log_of(c1, o) + log_of(c2, o2).take(j2)) =~= (log0 + log_of(c1, o)) + log_of(c2, o2).take(j2));
        assert(o[j] == c.answer(log0 + log_of(cs, o).take(j), cs[j].0, cs[j].1));
        assert(o2[j2] == o[j]);
    }
}

/// A tick's outcome is fixed by what the context answers: two runs of
/// leaf results, each read in full and each made of `c`'s answers to the
/// calls it leads to (after the calls in `log0`), give the same status,
/// cursor stack and calls, and agree on every result read.
pub proof fn lemma_answers_fix_tick<C: BtContext>(
    c: C,
    log0: Seq<(bool, usize, Status)>,
    node: Behavior,
    rc: Seq<usize>,
    depth: nat,
    o1: Seq<Status>,
    o2: Seq<Status>,
)
    requires
        tick_spec(node, rc, depth, o1).2.len() <= o1.len(),
        tick_spec(node, rc, depth, o2).2.len() <= o2.len(),
        answered(c, log0, tick_spec(node, rc, depth, o1).2, o1),
        answered(c, log0, tick_spec(node, rc, depth, o2).2, o2),
    ensures
        tick_spec(node, rc, depth, o1) == tick_spec(node, rc, depth, o2),
        o1.take(tick_spec(node, rc, depth, o1).2.len() as int) == o2.take(tick_spec(node, rc, depth, o1).2.len() as int),
    decreases node, 0nat,
{
    let t1 = tick_spec(node, rc, depth, o1);
    match node {
        Behavior::Action(id) => {
            assert(log_of(t1.2, o1).take(0) =~= Seq::<(bool, usize, Status)>::empty());
            assert(log_of(t1.2, o2).take(0) =~= Seq::<(bool, usize, Status)>::empty());
            assert(o1[0] == c.answer(log0 + log_of(t1.2, o1).take(0), true, id));
            assert(o2[0] == c.answer(log0 + log_of(t1.2, o2).take(0), true, id));
            assert(o1.take(1) =~= o2.take(1));
        },
        Behavior::Condition(id) => {
            assert(log_of(t1.2, o1).take(0) =~= Seq::<(bool, usize, Status)>::empty());
            assert(log_of(t1.2, o2).take(0) =~= Seq::<(bool, usize, Status)>::empty());
            assert(o1[0] == c.answer(log0 + log_of(t1.2, o1).take(0), false, id));
            assert(o2[0] == c.answer(log0 + log_of(t1.2, o2).take(0), false, id));
            assert(o1.take(1) =~= o2.take(1));
        },
        Behavior::Sequence(children) => {
            let p = pad(rc, depth);
            lemma_answers_fix_composite(c, log0, children@, p[depth as int] as int, p, depth, o1, o2, false);
        },
        Behavior::Selector(children) => {
            let p = pad(rc, depth);
            lemma_answers_fix_composite(c, log0, children@, p[depth as int] as int, p, depth, o1, o2, true);
        },
        Behavior::Invert(child) => {
            lemma_answers_fix_tick(c, log0, *child, rc, depth, o1, o2);
        },
    }
}

proof fn lemma_answers_fix_composite<C: BtContext>(
    c: C,
    log0: Seq<(bool, usize, Status)>,
    children: Seq<Behavior>,
    i: int,
    rc: Seq<usize>,
    depth: nat,
    o1: Seq<Status>,
    o2: Seq<Status>,
    selector: bool,
)
    requires
        composite_from(children, i, rc, depth, o1, selector).2.len() <= o1.len(),
        composite_from(children, i, rc, depth, o2, selector).2.len() <= o2.len(),
        answered(c, log0, composite_from(children, i, rc, depth, o1, selector).2, o1),
        answered(c, log0, composite_from(children, i, rc, depth, o2, selector).2, o2),
    ensures
        composite_from(children, i, rc, depth, o1, selector) == composite_from(children, i, rc, depth, o2, selector),
        o1.take(composite_from(children, i, rc, depth, o1, selector).2.len() as int) == o2.take(
            composite_from(children, i, rc, depth, o1, selector).2.len() as int,
        ),
    decreases children, children.len() - i,
{
    let r1 = composite_from(children, i, rc, depth, o1, selector);
    let r2 = composite_from(children, i, rc, depth, o2, selector);
    if i < 0 || i >= children.len() {
        assert(o1.take(0) =~= o2.take(0));
    } else {
        let rci = rc.update(depth as int, i as usize);
        let a1 = tick_spec(children[i], rci, depth + 1, o1);
        let a2 = tick_spec(children[i], rci, depth + 1, o2);
        let done = if selector { Status::Success } else { Status::Failure };
        let k1 = a1.2.len() as int;
        let k2 = a2.2.len() as int;
        let x1 = if a1.0 == done || a1.0 == Status::Running { Seq::<(bool, usize)>::empty() } else {
            composite_from(children, i + 1, a1.1, depth, o1.skip(k1), selector).2
        };
        let x2 = if a2.0 == done || a2.0 == Status::Running { Seq::<(bool, usize)>::empty() } else {
            composite_from(children, i + 1, a2.1, depth, o2.skip(k2), selector).2
        };
        assert(r1.2 =~= a1.2 + x1);
        assert(r2.2 =~= a2.2 + x2);
        lemma_answered_split(c, log0, a1.2, x1, o1);
        lemma_answered_split(c, log0, a2.2, x2, o2);
        lemma_answers_fix_tick(c, log0, children[i], rci, depth + 1, o1, o2);
        if !(a1.0 == done || a1.0 == Status::Running) {
            let p1 = o1.skip(k1);
            let p2 = o2.skip(k1);
            assert(log_of(a1.2, o1) =~= log_of(a1.2, o2)) by {
                assert forall|j: int| 0 <= j < k1 implies o1[j] == o2[j] by {
                    assert(o1.take(k1)[j] == o2.take(k1)[j]);
                }
            }
            lemma_answers_fix_composite(c, log0 + log_of(a1.2, o1), children, i + 1, a1.1, depth, p1, p2, selector);
            let rest = composite_from(children, i + 1, a1.1, depth, p1, selector);
            let m = rest.2.len() as int;
            assert forall|j: int| 0 <= j < k1 + m implies o1[j] == o2[j] by {
                if j < k1 {
                    assert(o1.take(k1)[j] == o2.take(k1)[j]);
                } else {
                    assert(p1.take(m)[j - k1] == p2.take(m)[j - k1]);
                }
            }
            assert(o1.take(k1 + m) =~= o2.take(k1 + m));
        }
    }
}

/// Every child is a leaf (an action or a condition).
pub open spec fn all_leaves(children: Seq<Behavior>) -> bool {
    forall|k: int| 0 <= k < children.len() ==> (#[trigger] children[k] is Action || children[k] is Condition)
}

/// A composite's cursor at `depth` starts from its first child.
pub open spec fn fresh_at(rc: Seq<usize>, depth: nat) -> bool {
    pad(rc, depth)[depth as int] == 0
}

proof fn lemma_leaf_steps(
    children: Seq<Behavior>,
    i: int,
    rc: Seq<usize>,
    depth: nat,
    outs: Seq<Status>,
    selector: bool,
    k: nat,
)
    requires
        all_leaves(children),
        0 <= i,
        i + k <= children.len(),
        rc.len() > depth,
        outs.len() >= k,
        k > 0,
        forall|j: int| 0 <= j < k ==> #[trigger] outs[j] == (if selector { Status::Failure } else { Status::Success }),
    ensures
        composite_from(children, i, rc, depth, outs, selector) == after(
            leaf_keys(children, i, i + k),
            composite_from(children, i + k, rc.update(depth as int, (i + k - 1) as usize), depth, outs.skip(k as int), selector),
        ),
    decreases k,
{
    let c = tick_spec(children[i], rc.update(depth as int, i as usize), depth + 1, outs);
    assert(c == (outs[0], rc.update(depth as int, i as usize), seq![leaf_key(children[i])]));
    let rc1 = rc.update(depth as int, i as usize);
    if k > 1 {
        lemma_leaf_steps(children, i + 1, rc1, depth, outs.skip(1), selector, (k - 1) as nat);
        assert(outs.skip(1).skip((k - 1) as int) =~= outs.skip(k as int));
        assert(rc1.update(depth as int, (i + k - 1) as usize) =~= rc.update(depth as int, (i + k - 1) as usize));
        let rest = composite_from(children, i + k, rc.update(depth as int, (i + k - 1) as usize), depth, outs.skip(k as int), selector);
        lemma_after_after(seq![leaf_key(children[i])], leaf_keys(children, i + 1, i + k), rest);
        assert(seq![leaf_key(children[i])] + leaf_keys(children, i + 1, i + k) =~= leaf_keys(children, i, i + k));
    } else {
        assert(outs.skip(1) =~= outs.skip(k as int));
        assert(seq![leaf_key(children[i])] =~= leaf_keys(children, i, i + k));
    }
}

/// A sequence of leaves, started fresh, whose leaves all succeed, visits
/// every leaf in order, succeeds and resets its cursor.
pub proof fn lemma_sequence_all_success(children: Vec<Behavior>, rc: Seq<usize>, depth: nat, outs: Seq<Status>)
    requires
        all_leaves(children@),
        fresh_at(rc, depth),
        outs.len() >= children@.len(),
        forall|j: int| 0 <= j < children@.len() ==> #[trigger] outs[j] == Status::Success,
    ensures
        tick_spec(Behavior::Sequence(children), rc, depth, outs) == (
            Status::Success,
            reset_level(pad(rc, depth), depth),
            leaf_keys(children@, 0, children@.len() as int),
        ),
{
    let n = children@.len();
    let p = pad(rc, depth);
    assert(p.len() > depth);
    assert(tick_spec(Behavior::Sequence(children), rc, depth, outs) == composite_from(children@, 0, p, depth, outs, false));
    if n > 0 {
        lemma_leaf_steps(children@, 0, p, depth, outs, false, n);
        assert(p.update(depth as int, (n - 1) as usize).update(depth as int, 0usize) =~= p.update(depth as int, 0usize));
        lemma_after_empty((Status::Success, reset_level(p, depth), leaf_keys(children@, 0, n as int)));
    } else {
        assert(leaf_keys(children@, 0, 0) =~= Seq::<(bool, usize)>::empty());
    }
    assert(p.update(depth as int, 0usize) =~= p);
}

/// A sequence of leaves, started fresh, whose first `k` leaves succeed and
/// whose next leaf fails, visits exactly those `k + 1` leaves, in order,
/// and fails: the leaves after the failing one are never reached.
pub proof fn lemma_sequence_stops_on_failure(
    children: Vec<Behavior>,
    rc: Seq<usize>,
    depth: nat,
    outs: Seq<Status>,
    k: nat,
)
    requires
        all_leaves(children@),
        fresh_at(rc, depth),
        k < children@.len(),
        outs.len() > k,
        forall|j: int| 0 <= j < k ==> #[trigger] outs[j] == Status::Success,
        outs[k as int] == Status::Failure,
    ensures
        tick_spec(Behavior::Sequence(children), rc, depth, outs) == (
            Status::Failure,
            reset_level(pad(rc, depth), depth),
            leaf_keys(children@, 0, k as int + 1),
        ),
{
    lemma_composite_stops(children@, rc, depth, outs, k, false);
}

/// A selector of leaves, started fresh, whose first `k` leaves fail and
/// whose next leaf succeeds, visits exactly those `k + 1` leaves, in
/// order, and succeeds.
pub proof fn lemma_selector_first_success(
    children: Vec<Behavior>,
    rc: Seq<usize>,
    depth: nat,
    outs: Seq<Status>,
    k: nat,
)
    requires
        all_leaves(children@),
        fresh_at(rc, depth),
        k < children@.len(),
        outs.len() > k,
        forall|j: int| 0 <= j < k ==> #[trigger] outs[j] == Status::Failure,
        outs[k as int] == Status::Success,
    ensures
        tick_spec(Behavior::Selector(children), rc, depth, outs) == (
            Status::Success,
            reset_level(pad(rc, depth), depth),
            leaf_keys(children@, 0, k as int + 1),
        ),
{
    lemma_composite_stops(children@, rc, depth, outs, k, true);
}

/// A composite of leaves, started fresh, whose first `k` leaves continue
/// it and whose next leaf decides it, visits those `k + 1` leaves and
/// ends with that leaf's result.
proof fn lemma_composite_stops(kids: Seq<Behavior>, rc: Seq<usize>, depth: nat, outs: Seq<Status>, k: nat, selector: bool)
    requires
        all_leaves(kids),
        fresh_at(rc, depth),
        k < kids.len(),
        outs.len() > k,
        forall|j: int| 0 <= j < k ==> #[trigger] outs[j] == (if selector { Status::Failure } else { Status::Success }),
        outs[k as int] == (if selector { Status::Success } else { Status::Failure }),
    ensures
        composite_from(kids, 0, pad(rc, depth), depth, outs, selector) == (
            outs[k as int],
            reset_level(pad(rc, depth), depth),
            leaf_keys(kids, 0, k as int + 1),
        ),
{
    let p = pad(rc, depth);
    assert(p.len() > depth);
    let q = if k == 0 { p } else { p.update(depth as int, (k - 1) as usize) };
    let last = composite_from(kids, k as int, q, depth, outs.skip(k as int), selector);
    assert(tick_spec(kids[k as int], q.update(depth as int, k as usize), depth + 1, outs.skip(k as int)) == (
        outs[k as int],
        q.update(depth as int, k as usize),
        seq![leaf_key(kids[k as int])],
    ));
    assert(outs.skip(k as int)[0] == outs[k as int]);
    assert(q.update(depth as int, k as usize).update(depth as int, 0usize) =~= p.update(depth as int, 0usize));
    assert(p.update(depth as int, 0usize) =~= p);
    assert(last == (outs[k as int], reset_level(p, depth), seq![leaf_key(kids[k as int])]));
    if k > 0 {
        lemma_leaf_steps(kids, 0, p, depth, outs, selector, k);
        assert(leaf_keys(kids, 0, k as int) + seq![leaf_key(kids[k as int])] =~= leaf_keys(kids, 0, k as int + 1));
    } else {
        assert(outs.skip(0) =~= outs);
        assert(seq![leaf_key(kids[0])] =~= leaf_keys(kids, 0, 1));
    }
}

/// A sequence of leaves, started fresh, whose first `k` leaves succeed and
/// whose next leaf is still running, visits those `k + 1` leaves and
/// reports Running with its cursor on that leaf; the next tick resumes at
/// that leaf, skipping the ones that already succeeded.
pub proof fn lemma_sequence_resumes_at_running(
    children: Vec<Behavior>,
    rc: Seq<usize>,
    depth: nat,
    outs: Seq<Status>,
    k: nat,
    next: Seq<Status>,
)
    requires
        all_leaves(children@),
        fresh_at(rc, depth),
        k < children@.len(),
        outs.len() > k,
        forall|j: int| 0 <= j < k ==> #[trigger] outs[j] == Status::Success,
        outs[k as int] == Status::Running,
    ensures
        ({
            let r = tick_spec(Behavior::Sequence(children), rc, depth, outs);
            &&& r.0 == Status::Running
            &&& r.2 == leaf_keys(children@, 0, k as int + 1)
            &&& r.1 == pad(rc, depth).update(depth as int, k as usize)
            &&& tick_spec(Behavior::Sequence(children), r.1, depth, next) == composite_from(
                children@,
                k as int,
                r.1,
                depth,
                next,
                false,
            )
        }),
{
    let p = pad(rc, depth);
    assert(p.len() > depth);
    assert(tick_spec(Behavior::Sequence(children), rc, depth, outs) == composite_from(children@, 0, p, depth, outs, false));
    let q = if k == 0 { p } else { p.update(depth as int, (k - 1) as usize) };
    assert(tick_spec(children@[k as int], q.update(depth as int, k as usize), depth + 1, outs.skip(k as int)) == (
        Status::Running,
        q.update(depth as int, k as usize),
        seq![leaf_key(children@[k as int])],
    ));
    assert(outs.skip(k as int)[0] == Status::Running);
    assert(q.update(depth as int, k as usize) =~= p.update(depth as int, k as usize));
    if k > 0 {
        lemma_leaf_steps(children@, 0, p, depth, outs, false, k);
        assert(leaf_keys(children@, 0, k as int) + seq![leaf_key(children@[k as int])] =~= leaf_keys(children@, 0, k as int + 1));
    } else {
        assert(outs.skip(0) =~= outs);
        assert(seq![leaf_key(children@[0])] =~= leaf_keys(children@, 0, 1));
    }
    let r1 = p.update(depth as int, k as usize);
    assert(children@.len() == children.len());
    assert(pad(r1, depth) == r1);
    assert(r1[depth as int] == k);
    assert(tick_spec(Behavior::Sequence(children), r1, depth, next) == composite_from(children@, k as int, r1, depth, next, false));
}

/// A context that answers Success to every leaf of a sequence of leaves,
/// whatever was called before, makes a fresh tick of it call every leaf
/// in order and succeed.
pub proof fn lemma_sequence_all_success_answers<C: BtContext>(
    c: C,
    log0: Seq<(bool, usize, Status)>,
    children: Vec<Behavior>,
    rc: Seq<usize>,
    depth: nat,
    outs: Seq<Status>,
)
    requires
        all_leaves(children@),
        fresh_at(rc, depth),
        forall|j: int, h: Seq<(bool, usize, Status)>|
            0 <= j < children@.len() ==> #[trigger] c.answer(h, leaf_key(children@[j]).0, leaf_key(children@[j]).1)
                == Status::Success,
        tick_spec(Behavior::Sequence(children), rc, depth, outs).2.len() <= outs.len(),
        answered(c, log0, tick_spec(Behavior::Sequence(children), rc, depth, outs).2, outs),
    ensures
        tick_spec(Behavior::Sequence(children), rc, depth, outs) == (
            Status::Success,
            reset_level(pad(rc, depth), depth),
            leaf_keys(children@, 0, children@.len() as int),
        ),
{
    let n = children@.len();
    let ideal = Seq::new(n, |j: int| Status::Success);
    lemma_sequence_all_success(children, rc, depth, ideal);
    let keys = leaf_keys(children@, 0, n as int);
    assert forall|j: int| 0 <= j < keys.len() implies #[trigger] ideal[j] == c.answer(
        log0 + log_of(keys, ideal).take(j),
        keys[j].0,
        keys[j].1,
    ) by {
        assert(keys[j] == leaf_key(children@[j]));
        assert(c.answer(log0 + log_of(keys, ideal).take(j), leaf_key(children@[j]).0, leaf_key(children@[j]).1) == Status::Success);
    }
    lemma_answers_fix_tick(c, log0, Behavior::Sequence(children), rc, depth, outs, ideal);
}

/// Ticking an inverter against a context gives its child's tick against
/// the same context, from the same state, with Success and Failure
/// swapped: the same calls, the same state afterwards.
pub proof fn lemma_invert_run<C: BtContext>(
    c: C,
    log0: Seq<(bool, usize, Status)>,
    child: Behavior,
    rc: Seq<usize>,
    depth: nat,
    o_inv: Seq<Status>,
    o_child: Seq<Status>,
)
    requires
        tick_spec(Behavior::Invert(Box::new(child)), rc, depth, o_inv).2.len() <= o_inv.len(),
        answered(c, log0, tick_spec(Behavior::Invert(Box::new(child)), rc, depth, o_inv).2, o_inv),
        tick_spec(child, rc, depth, o_child).2.len() <= o_child.len(),
        answered(c, log0, tick_spec(child, rc, depth, o_child).2, o_child),
    ensures
        ({
            let r = tick_spec(Behavior::Invert(Box::new(child)), rc, depth, o_inv);
            let k = tick_spec(child, rc, depth, o_child);
            &&& r.1 == k.1
            &&& r.2 == k.2
            &&& r.0 == (match k.0 {
                Status::Success => Status::Failure,
                Status::Failure => Status::Success,
                Status::Running => Status::Running,
            })
        }),
{
    lemma_answers_fix_tick(c, log0, child, rc, depth, o_inv, o_child);
}

/// Inverting a node flips Success and Failure and leaves Running, the
/// state and the results read as they are.
pub proof fn lemma_invert_flips(child: Behavior, rc: Seq<usize>, depth: nat, outs: Seq<Status>)
    ensures
        ({
            let r = tick_spec(Behavior::Invert(Box::new(child)), rc, depth, outs);
            let c = tick_spec(child, rc, depth, outs);
            &&& r.1 == c.1
            &&& r.2 == c.2
            &&& (c.0 == Status::Success ==> r.0 == Status::Failure)
            &&& (c.0 == Status::Failure ==> r.0 == Status::Success)
            &&& (c.0 == Status::Running ==> r.0 == Status::Running)
        }),
{
}

} // verus!
