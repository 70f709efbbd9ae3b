//! Faction trade policies and per-port overrides: which flags may enter
//! which ports, which goods may be bought or sold under which flag, and
//! what duty the crown levies.
//!
//! Each faction has a standard regime (`FactionTradePolicy`); each port
//! may carry sparse deltas (`PortPolicy`). Queries answer with a
//! structured legality rather than a `bool`.
//!
//! Duties are held in basis points (hundredths of a percent), so a
//! 2% duty is `200`.

use vstd::prelude::*;

pub mod load;

use crate::cargo::CARGO_SLOTS;
use crate::goods::ids;
use crate::goods::GoodId;
use crate::port::{Faction, N_FACTIONS};
use std::collections::BTreeMap;

verus! {

broadcast use {vstd::laws_cmp::group_laws_cmp, vstd::std_specs::btree::group_btree_axioms};

/// Highest duty a query reports, in basis points (99%): keeps a ship's
/// net proceeds on a sale positive.
pub const MAX_DUTY_BP: u32 = 9900;

// ------------------------------------------------------------------
// FactionSet
// ------------------------------------------------------------------

/// Compact bitset over the five factions: bit `i` stands for the faction
/// at table position `i`.
#[derive(Clone, Copy, Debug, Default, PartialEq, Eq, Structural)]
pub struct FactionSet(pub u8);

/// Bit `i` of `s` is set.
pub open spec fn bit_set(s: u8, i: int) -> bool {
    (s >> (i as u8)) & 1u8 == 1u8
}

proof fn lemma_bit_or(s: u8, i: u8, j: u8)
    by (bit_vector)
    requires
        i < 8,
        j < 8,
    ensures
        ((s | (1u8 << i)) >> j) & 1u8 == 1u8 <==> ((s >> j) & 1u8 == 1u8 || i == j),
{
}

proof fn lemma_bit_and_not(s: u8, i: u8, j: u8)
    by (bit_vector)
    requires
        i < 8,
        j < 8,
    ensures
        ((s & !(1u8 << i)) >> j) & 1u8 == 1u8 <==> ((s >> j) & 1u8 == 1u8 && i != j),
{
}

proof fn lemma_bit_single(i: u8, j: u8)
    by (bit_vector)
    requires
        i < 8,
        j < 8,
    ensures
        ((1u8 << i) >> j) & 1u8 == 1u8 <==> i == j,
{
}

proof fn lemma_bit_low_five(j: u8)
    by (bit_vector)
    requires
        j < 5,
    ensures
        (0x1fu8 >> j) & 1u8 == 1u8,
        (0u8 >> j) & 1u8 != 1u8,
{
}

impl FactionSet {
    /// `f` is a member.
    pub open spec fn has(self, f: Faction) -> bool {
        bit_set(self.0, f.ord_index())
    }

    /// The empty set.
    pub fn empty() -> (s: FactionSet)
        ensures
            s.0 == 0,
            forall|f: Faction| !s.has(f),
    {
        proof {
            assert forall|f: Faction| !FactionSet(0).has(f) by {
                lemma_bit_low_five(f.ord_index() as u8);
            }
        }
        FactionSet(0)
    }

    /// All five factions.
    pub fn all() -> (s: FactionSet)
        ensures
            s.0 == 0x1f,
            forall|f: Faction| s.has(f),
    {
        proof {
            assert forall|f: Faction| FactionSet(0x1f).has(f) by {
                lemma_bit_low_five(f.ord_index() as u8);
            }
        }
        FactionSet(0x1f)
    }

    /// The set holding `f` alone.
    pub fn single(f: Faction) -> (s: FactionSet)
        ensures
            s.0 == 1u8 << (f.ord_index() as u8),
            forall|g: Faction| s.has(g) <==> g == f,
    {
        let s = FactionSet(1u8 << (f.index() as u8));
        proof {
            assert forall|g: Faction| s.has(g) <==> g == f by {
                lemma_bit_single(f.ord_index() as u8, g.ord_index() as u8);
                crate::port::lemma_faction_index_injective(f, g);
            }
        }
        s
    }

    /// Membership test.
    pub fn contains(self, f: Faction) -> (b: bool)
        ensures
            b == self.has(f),
    {
        (self.0 >> (f.index() as u8)) & 1 == 1
    }

    /// The set with `f` added; the other bits are unchanged.
    pub fn with(self, f: Faction) -> (r: FactionSet)
        ensures
            r.0 == self.0 | (1u8 << (f.ord_index() as u8)),
            forall|g: Faction| r.has(g) <==> (self.has(g) || g == f),
    {
        let r = FactionSet(self.0 | (1u8 << (f.index() as u8)));
        proof {
            assert forall|g: Faction| r.has(g) <==> (self.has(g) || g == f) by {
                lemma_bit_or(self.0, f.ord_index() as u8, g.ord_index() as u8);
                crate::port::lemma_faction_index_injective(f, g);
            }
        }
        r
    }

    /// The set with `f` removed; the other bits are unchanged.
    pub fn without(self, f: Faction) -> (r: FactionSet)
        ensures
            r.0 == self.0 & !(1u8 << (f.ord_index() as u8)),
            forall|g: Faction| r.has(g) <==> (self.has(g) && g != f),
    {
        let r = FactionSet(self.0 & !(1u8 << (f.index() as u8)));
        proof {
            assert forall|g: Faction| r.has(g) <==> (self.has(g) && g != f) by {
                lemma_bit_and_not(self.0, f.ord_index() as u8, g.ord_index() as u8);
                crate::port::lemma_faction_index_injective(f, g);
            }
        }
        r
    }
}

// ------------------------------------------------------------------
// Docking
// ------------------------------------------------------------------

/// Who may enter the harbor zone at all.
#[derive(Clone, Copy, Debug, PartialEq, Eq, Structural)]
pub enum DockingRule {
    /// Any flag may enter.
    Open,
    /// Only the listed flags may enter.
    OnlyFlags(FactionSet),
    /// All flags may enter except the listed ones.
    ClosedTo(FactionSet),
}

impl DockingRule {
    /// Whether a ship flying `flag` may enter under this rule.
    pub open spec fn admits_spec(self, flag: Faction) -> bool {
        match self {
            DockingRule::Open => true,
            DockingRule::OnlyFlags(set) => set.has(flag),
            DockingRule::ClosedTo(set) => !set.has(flag),
        }
    }

    /// Whether a ship flying `flag` may enter under this rule.
    pub fn admits(&self, flag: Faction) -> (b: bool)
        ensures
            b == self.admits_spec(flag),
    {
        match self {
            DockingRule::Open => true,
            DockingRule::OnlyFlags(set) => set.contains(flag),
            DockingRule::ClosedTo(set) => !set.contains(flag),
        }
    }
}

/// Outcome of a docking-permission query.
#[derive(Clone, Copy, Debug, PartialEq, Eq, Structural)]
pub enum DockLegality {
    Open,
    Refused,
}

// ------------------------------------------------------------------
// Goods rules
// ------------------------------------------------------------------

/// Ad-valorem duties on the cleared price, in basis points.
#[derive(Clone, Copy, Debug, Default, PartialEq, Eq, Structural)]
pub struct GoodTariff {
    /// Levied when the ship buys the good from the port.
    pub buy_duty_bp: u32,
    /// Levied when the ship sells the good to the port.
    pub sell_duty_bp: u32,
}

/// Per-good legality and tariff.
#[derive(Clone, Copy, Debug, PartialEq, Eq, Structural)]
pub struct GoodRule {
    pub buy_allowed: bool,
    pub sell_allowed: bool,
    pub tariff: GoodTariff,
}

/// Both sides permitted at the given duty (basis points).
pub open spec fn flat_rule(rate_bp: u32) -> GoodRule {
    GoodRule { buy_allowed: true, sell_allowed: true, tariff: GoodTariff { buy_duty_bp: rate_bp, sell_duty_bp: rate_bp } }
}

/// Both sides forbidden, zero duty.
pub open spec fn banned_rule() -> GoodRule {
    GoodRule { buy_allowed: false, sell_allowed: false, tariff: GoodTariff { buy_duty_bp: 0, sell_duty_bp: 0 } }
}

impl GoodRule {
    /// All-permitted, zero duty (the Free baseline).
    pub fn free() -> (r: GoodRule)
        ensures
            r == flat_rule(0),
    {
        GoodRule::flat(0)
    }

    /// All-prohibited (the foreign-flag default at Spanish ports).
    pub fn prohibited() -> (r: GoodRule)
        ensures
            r == banned_rule(),
    {
        GoodRule {
            buy_allowed: false,
            sell_allowed: false,
            tariff: GoodTariff { buy_duty_bp: 0, sell_duty_bp: 0 },
        }
    }

    /// All-permitted at a flat duty on both sides.
    pub fn flat(rate_bp: u32) -> (r: GoodRule)
        ensures
            r == flat_rule(rate_bp),
    {
        GoodRule {
            buy_allowed: true,
            sell_allowed: true,
            tariff: GoodTariff { buy_duty_bp: rate_bp, sell_duty_bp: rate_bp },
        }
    }
}

/// Outcome of a per-good trade-permission query.
#[derive(Clone, Copy, Debug, PartialEq, Eq, Structural)]
pub enum TradeLegality {
    Legal { duty_bp: u32 },
    Prohibited,
}

/// Rule that a sparse rule-set gives for good `g`.
pub open spec fn rules_lookup(default_rule: GoodRule, overrides: Map<u8, GoodRule>, g: u8) -> GoodRule {
    if overrides.contains_key(g) {
        overrides[g]
    } else {
        default_rule
    }
}

/// Full trade rule-set for one ship-flag at one port. Sparse: only goods
/// that deviate from `default_rule` carry an override, keyed by the
/// good's catalogue position.
#[derive(Clone, Debug)]
pub struct TradeRules {
    pub default_rule: GoodRule,
    pub overrides: BTreeMap<u8, GoodRule>,
}

impl TradeRules {
    /// The rule these rules give for good `g`.
    pub open spec fn rule_of(&self, g: u8) -> GoodRule {
        rules_lookup(self.default_rule, self.overrides@, g)
    }

    /// The same rule for every good.
    pub fn uniform(rule: GoodRule) -> (t: TradeRules)
        ensures
            t.default_rule == rule,
            t.overrides@ == Map::<u8, GoodRule>::empty(),
    {
        TradeRules { default_rule: rule, overrides: BTreeMap::new() }
    }

    /// The rule for `good`: its override if it has one, else the default.
    pub fn rule_for(&self, good: GoodId) -> (r: GoodRule)
        ensures
            r == self.rule_of(good.0),
    {
        match self.overrides.get(&good.0) {
            Some(r) => *r,
            None => self.default_rule,
        }
    }

    /// Give `good` its own rule.
    pub fn set_override(&mut self, good: GoodId, rule: GoodRule)
        ensures
            final(self).default_rule == old(self).default_rule,
            final(self).overrides@ == old(self).overrides@.insert(good.0, rule),
    {
        self.overrides.insert(good.0, rule);
    }

    /// A copy of these rules.
    pub fn duplicate(&self) -> (t: TradeRules)
        ensures
            t.default_rule == self.default_rule,
            t.overrides@ == self.overrides@,
    {
        TradeRules { default_rule: self.default_rule, overrides: self.overrides.clone() }
    }
}

/// One faction's default trade policy, applied to every port of the
/// faction. `trade_by_flag` is indexed by the ship-flag's table position.
#[derive(Clone, Debug)]
pub struct FactionTradePolicy {
    pub docking: DockingRule,
    pub trade_by_flag: [TradeRules; 5],
}

/// Sparse per-port deltas. Each trade override replaces either one
/// good's rule (`Some(good)`) or, for `None`, the flag's whole default
/// rule together with every per-good override it had.
#[derive(Clone, Debug)]
pub struct PortPolicy {
    pub docking: Option<DockingRule>,
    pub trade_overrides: Vec<(Faction, Option<GoodId>, GoodRule)>,
}

impl PortPolicy {
    /// No deltas: the port runs its faction default.
    pub fn none() -> (p: PortPolicy)
        ensures
            p.docking is None,
            p.trade_overrides@.len() == 0,
    {
        PortPolicy { docking: None, trade_overrides: Vec::new() }
    }
}

// ------------------------------------------------------------------
// Historical baselines
// ------------------------------------------------------------------

/// Goods the English Navigation Acts and the French Exclusif enumerate:
/// colonial produce that must ship via the metropole.
pub open spec fn is_enumerated(g: u8) -> bool {
    g == ids::SUGAR || g == ids::MOLASSES || g == ids::RUM || g == ids::TOBACCO
}

/// The enumerated goods in catalogue order.
pub open spec fn enumerated_goods() -> Seq<GoodId> {
    seq![GoodId(ids::SUGAR), GoodId(ids::MOLASSES), GoodId(ids::RUM), GoodId(ids::TOBACCO)]
}

/// English enumerated goods (1660 / 1663 / 1672 Navigation Acts).
pub fn english_enumerated_goods() -> (v: Vec<GoodId>)
    ensures
        v@ == enumerated_goods(),
{
    let v = vec![GoodId(ids::SUGAR), GoodId(ids::MOLASSES), GoodId(ids::RUM), GoodId(ids::TOBACCO)];
    assert(v@ =~= enumerated_goods());
    v
}

/// French enumerated colonial staples (Exclusif).
pub fn french_enumerated_goods() -> (v: Vec<GoodId>)
    ensures
        v@ == enumerated_goods(),
{
    let v = vec![GoodId(ids::SUGAR), GoodId(ids::MOLASSES), GoodId(ids::RUM), GoodId(ids::TOBACCO)];
    assert(v@ =~= enumerated_goods());
    v
}

/// The five flags French ports turn away by default: every flag but the
/// French and the free flag.
pub open spec fn french_closed_set() -> u8 {
    0x0bu8
}

/// Default docking rule at ports of faction `port`.
pub open spec fn default_docking(port: Faction) -> DockingRule {
    match port {
        Faction::Spain => DockingRule::OnlyFlags(FactionSet(1u8)),
        Faction::England => DockingRule::Open,
        Faction::France => DockingRule::ClosedTo(FactionSet(french_closed_set())),
        Faction::Netherlands => DockingRule::Open,
        Faction::Free => DockingRule::Open,
    }
}

/// Default rule for good `g` bought or sold under `flag` at a port of
/// faction `port`:
/// - Dutch ports: 2% on everything for every flag.
/// - English ports: 5% for the own flag; 10% for foreign flags, and the
///   enumerated goods banned to them.
/// - French ports: 5% for the own flag; 12% for foreign flags, and the
///   enumerated goods banned to them.
/// - Spanish ports: 22% for the own flag, 20% on silver; everything
///   prohibited to foreign flags.
/// - Free ports: everything permitted, no duty.
pub open spec fn default_rule(port: Faction, flag: Faction, g: u8) -> GoodRule {
    match port {
        Faction::Netherlands => flat_rule(200),
        Faction::England => if flag == Faction::England {
            flat_rule(500)
        } else if is_enumerated(g) {
            banned_rule()
        } else {
            flat_rule(1000)
        },
        Faction::France => if flag == Faction::France {
            flat_rule(500)
        } else if is_enumerated(g) {
            banned_rule()
        } else {
            flat_rule(1200)
        },
        Faction::Spain => if flag == Faction::Spain {
            if g == ids::SILVER {
                flat_rule(2000)
            } else {
                flat_rule(2200)
            }
        } else {
            banned_rule()
        },
        Faction::Free => flat_rule(0),
    }
}

/// `p` is faction `port`'s default regime: its docking rule and, for
/// every flag and good, the rule it gives.
pub open spec fn is_default_policy(p: FactionTradePolicy, port: Faction) -> bool {
    &&& p.docking == default_docking(port)
    &&& forall|flag: Faction, g: u8| #[trigger] p.trade_by_flag[flag.ord_index()].rule_of(g) == default_rule(port, flag, g)
}

/// `rules` with every enumerated good banned.
fn with_bans(base: GoodRule, banned: &Vec<GoodId>) -> (t: TradeRules)
    requires
        banned@ == enumerated_goods(),
    ensures
        t.default_rule == base,
        forall|g: u8| #[trigger] t.rule_of(g) == if is_enumerated(g) { banned_rule() } else { base },
{
    let mut t = TradeRules::uniform(base);
    let mut i: usize = 0;
    while i < banned.len()
        invariant
            i <= banned@.len(),
            banned@ == enumerated_goods(),
            t.default_rule == base,
            forall|g: u8| #[trigger] t.overrides@.contains_key(g) <==> exists|k: int| 0 <= k < i && banned@[k].0 == g,
            forall|g: u8| t.overrides@.contains_key(g) ==> #[trigger] t.overrides@[g] == banned_rule(),
        decreases banned@.len() - i,
    {
        t.set_override(banned[i], GoodRule::prohibited());
        i = i + 1;
    }
    proof {
        assert forall|g: u8| #[trigger] t.rule_of(g) == if is_enumerated(g) { banned_rule() } else { base } by {
            if is_enumerated(g) {
                if g == ids::SUGAR { assert(banned@[0].0 == g); }
                else if g == ids::MOLASSES { assert(banned@[1].0 == g); }
                else if g == ids::RUM { assert(banned@[2].0 == g); }
                else { assert(banned@[3].0 == g); }
            } else {
                if t.overrides@.contains_key(g) {
                    let k = choose|k: int| 0 <= k < 4 && banned@[k].0 == g;
                    assert(false);
                }
            }
        }
    }
    t
}

/// Build the five-faction default policy table, indexed by the port
/// faction's table position.
pub fn faction_defaults() -> (r: [FactionTradePolicy; 5])
    ensures
        forall|port: Faction| is_default_policy(#[trigger] r[port.ord_index()], port),
{
    let all = [Faction::Spain, Faction::England, Faction::France, Faction::Netherlands, Faction::Free];

    // Netherlands: entrepot, open to all at a flat 2%.
    let dutch = FactionTradePolicy {
        docking: DockingRule::Open,
        trade_by_flag: [
            TradeRules::uniform(GoodRule::flat(200)),
            TradeRules::uniform(GoodRule::flat(200)),
            TradeRules::uniform(GoodRule::flat(200)),
            TradeRules::uniform(GoodRule::flat(200)),
            TradeRules::uniform(GoodRule::flat(200)),
        ],
    };

    // England: Navigation Acts.
    let english_own = TradeRules::uniform(GoodRule::flat(500));
    let english_enum = english_enumerated_goods();
    let english_foreign = with_bans(GoodRule::flat(1000), &english_enum);
    let ghost ef = english_foreign.overrides@;
    assert(forall|g: u8| #[trigger] rules_lookup(flat_rule(1000), ef, g) == english_foreign.rule_of(g));
    let english = FactionTradePolicy {
        docking: DockingRule::Open,
        trade_by_flag: [
            english_foreign.duplicate(),
            english_own.duplicate(),
            english_foreign.duplicate(),
            english_foreign.duplicate(),
            english_foreign,
        ],
    };

    // France: Exclusif, closed to foreign flags except the free flag.
    let french_own = TradeRules::uniform(GoodRule::flat(500));
    let french_enum = french_enumerated_goods();
    let french_foreign = with_bans(GoodRule::flat(1200), &french_enum);
    let ghost ff = french_foreign.overrides@;
    assert(forall|g: u8| #[trigger] rules_lookup(flat_rule(1200), ff, g) == french_foreign.rule_of(g));
    let closed = FactionSet::all().without(Faction::France).without(Faction::Free);
    let closed_bits = closed.0;
    assert(closed_bits == 0x0bu8) by (bit_vector)
        requires
            closed_bits == ((0x1fu8 & !(1u8 << 2u8)) & !(1u8 << 4u8)),
    ;
    let french = FactionTradePolicy {
        docking: DockingRule::ClosedTo(closed),
        trade_by_flag: [
            french_foreign.duplicate(),
            french_foreign.duplicate(),
            french_own.duplicate(),
            french_foreign.duplicate(),
            french_foreign,
        ],
    };

    // Spain: Casa de Contratacion. Own flag only; 22% on goods, 20% on silver.
    let mut spanish_own = TradeRules::uniform(GoodRule::flat(2200));
    spanish_own.set_override(GoodId(ids::SILVER), GoodRule::flat(2000));
    let spanish_docking = DockingRule::OnlyFlags(FactionSet::single(Faction::Spain));
    let spanish = FactionTradePolicy {
        docking: spanish_docking,
        trade_by_flag: [
            spanish_own,
            TradeRules::uniform(GoodRule::prohibited()),
            TradeRules::uniform(GoodRule::prohibited()),
            TradeRules::uniform(GoodRule::prohibited()),
            TradeRules::uniform(GoodRule::prohibited()),
        ],
    };

    // Free: pirate havens, zero duty, all flags welcome.
    let free = FactionTradePolicy {
        docking: DockingRule::Open,
        trade_by_flag: [
            TradeRules::uniform(GoodRule::free()),
            TradeRules::uniform(GoodRule::free()),
            TradeRules::uniform(GoodRule::free()),
            TradeRules::uniform(GoodRule::free()),
            TradeRules::uniform(GoodRule::free()),
        ],
    };

    proof {
        assert(1u8 << 0u8 == 1u8) by (bit_vector);
        assert forall|flag: Faction, g: u8| #[trigger] dutch.trade_by_flag[flag.ord_index()].rule_of(g)
            == default_rule(Faction::Netherlands, flag, g) by {
        }
        assert forall|flag: Faction, g: u8| #[trigger] english.trade_by_flag[flag.ord_index()].rule_of(g)
            == default_rule(Faction::England, flag, g) by {
            assert(rules_lookup(flat_rule(1000), ef, g) == if is_enumerated(g) { banned_rule() } else { flat_rule(1000) });
        }
        assert forall|flag: Faction, g: u8| #[trigger] french.trade_by_flag[flag.ord_index()].rule_of(g)
            == default_rule(Faction::France, flag, g) by {
            assert(rules_lookup(flat_rule(1200), ff, g) == if is_enumerated(g) { banned_rule() } else { flat_rule(1200) });
        }
        assert forall|flag: Faction, g: u8| #[trigger] spanish.trade_by_flag[flag.ord_index()].rule_of(g)
            == default_rule(Faction::Spain, flag, g) by {
        }
        assert forall|flag: Faction, g: u8| #[trigger] free.trade_by_flag[flag.ord_index()].rule_of(g)
            == default_rule(Faction::Free, flag, g) by {
        }
        assert(is_default_policy(dutch, Faction::Netherlands));
        assert(is_default_policy(english, Faction::England));
        assert(is_default_policy(french, Faction::France));
        assert(is_default_policy(spanish, Faction::Spain));
        assert(is_default_policy(free, Faction::Free));
    }
    let r = [spanish, english, french, dutch, free];
    r
}

// ------------------------------------------------------------------
// Resolver
// ------------------------------------------------------------------

/// Rule for good `g` under `flag` after a port's trade overrides are
/// applied in order to base rule `base`: the last override for `flag`
/// that replaces either `g` alone or the whole default decides; with no
/// such override the base rule stands.
pub open spec fn override_rule(
    ovs: Seq<(Faction, Option<GoodId>, GoodRule)>,
    flag: Faction,
    g: u8,
    base: GoodRule,
) -> GoodRule
    decreases ovs.len(),
{
    if ovs.len() == 0 {
        base
    } else {
        let e = ovs.last();
        if e.0 == flag && (e.1 is None || e.1 == Some(GoodId(g))) {
            e.2
        } else {
            override_rule(ovs.drop_last(), flag, g, base)
        }
    }
}

/// Docking rule in force at a port of faction `port` with deltas `ov`.
pub open spec fn effective_docking(port: Faction, ov: Option<PortPolicy>) -> DockingRule {
    match ov {
        Some(p) => match p.docking {
            Some(d) => d,
            None => default_docking(port),
        },
        None => default_docking(port),
    }
}

/// Rule in force for good `g` under `flag` at a port of faction `port`
/// with deltas `ov`.
pub open spec fn effective_rule(port: Faction, ov: Option<PortPolicy>, flag: Faction, g: u8) -> GoodRule {
    match ov {
        Some(p) => override_rule(p.trade_overrides@, flag, g, default_rule(port, flag, g)),
        None => default_rule(port, flag, g),
    }
}

/// Deltas recorded for port `i`, if any.
pub open spec fn overrides_for(overrides: Map<usize, PortPolicy>, i: int) -> Option<PortPolicy> {
    if overrides.contains_key(i as usize) {
        Some(overrides[i as usize])
    } else {
        None
    }
}

/// Duty as reported: capped at `MAX_DUTY_BP`.
pub open spec fn clamp_duty_spec(d: u32) -> u32 {
    if d > MAX_DUTY_BP {
        MAX_DUTY_BP
    } else {
        d
    }
}

/// Cap a duty at `MAX_DUTY_BP`, so that `1 - sell_duty` stays positive.
pub fn clamp_duty(d: u32) -> (r: u32)
    ensures
        r == clamp_duty_spec(d),
{
    if d > MAX_DUTY_BP {
        MAX_DUTY_BP
    } else {
        d
    }
}

/// Per-port effective rules, flattened per flag into a dense per-good table.
struct ResolvedPortPolicy {
    docking: DockingRule,
    trade_by_flag: Vec<Vec<GoodRule>>,
}

/// Read-only policy resolver: per-port effective rules, precomputed once.
pub struct PolicyResolver {
    per_port: Vec<ResolvedPortPolicy>,
    defaults: [FactionTradePolicy; 5],
}

impl PolicyResolver {
    #[verifier::type_invariant]
    spec fn well_formed(self) -> bool {
        forall|i: int|
            0 <= i < self.per_port@.len() ==> {
                &&& (#[trigger] self.per_port@[i]).trade_by_flag@.len() == N_FACTIONS
                &&& forall|f: int| 0 <= f < N_FACTIONS ==> #[trigger] self.per_port@[i].trade_by_flag@[f]@.len() == CARGO_SLOTS
            }
    }

    /// Number of ports the resolver covers.
    pub closed spec fn port_count(self) -> nat {
        self.per_port@.len()
    }

    /// Docking rule in force at port `i`.
    pub closed spec fn docking_at(self, i: int) -> DockingRule {
        self.per_port@[i].docking
    }

    /// Rule in force at port `i` for good `g` under `flag`.
    pub closed spec fn rule_at(self, i: int, flag: Faction, g: int) -> GoodRule {
        self.per_port@[i].trade_by_flag@[flag.ord_index()]@[g]
    }

    /// The faction-default table the resolver was built from.
    pub closed spec fn defaults_spec(self) -> [FactionTradePolicy; 5] {
        self.defaults
    }

    /// Build a resolver for ports whose factions are `port_factions`
    /// (port `i` has faction `port_factions[i]`). `overrides` maps a port
    /// index to its deltas and needs entries only for ports that deviate
    /// from their faction default. An override for a good outside the
    /// per-good table has no effect.
    pub fn build(port_factions: &[Faction], overrides: &BTreeMap<usize, PortPolicy>) -> (r: PolicyResolver)
        ensures
            r.port_count() == port_factions@.len(),
            forall|port: Faction| is_default_policy(#[trigger] r.defaults_spec()[port.ord_index()], port),
            forall|i: int|
                0 <= i < port_factions@.len() ==> #[trigger] r.docking_at(i) == effective_docking(
                    port_factions@[i],
                    overrides_for(overrides@, i),
                ),
            forall|i: int, flag: Faction, g: int|
                0 <= i < port_factions@.len() && 0 <= g < CARGO_SLOTS ==> #[trigger] r.rule_at(i, flag, g)
                    == effective_rule(port_factions@[i], overrides_for(overrides@, i), flag, g as u8),
    {
        let defaults = faction_defaults();
        let mut per_port: Vec<ResolvedPortPolicy> = Vec::new();
        let mut idx: usize = 0;
        while idx < port_factions.len()
            invariant
                idx <= port_factions@.len(),
                per_port@.len() == idx,
                forall|port: Faction| is_default_policy(#[trigger] defaults[port.ord_index()], port),
                forall|i: int|
                    0 <= i < idx ==> {
                        &&& (#[trigger] per_port@[i]).trade_by_flag@.len() == N_FACTIONS
                        &&& forall|f: int| 0 <= f < N_FACTIONS ==> #[trigger] per_port@[i].trade_by_flag@[f]@.len() == CARGO_SLOTS
                    },
                forall|i: int|
                    0 <= i < idx ==> #[trigger] per_port@[i].docking == effective_docking(
                        port_factions@[i],
                        overrides_for(overrides@, i),
                    ),
                forall|i: int, f: int, g: int|
                    0 <= i < idx && 0 <= f < N_FACTIONS && 0 <= g < CARGO_SLOTS ==> #[trigger] per_port@[i].trade_by_flag@[f]@[g]
                        == effective_rule(
                        port_factions@[i],
                        overrides_for(overrides@, i),
                        Faction::from_index_spec(f),
                        g as u8,
                    ),
            decreases port_factions@.len() - idx,
        {
            let port = port_factions[idx];
            let base = &defaults[port.index()];
            let ov = overrides.get(&idx);
            let docking = match ov {
                Some(p) => match p.docking {
                    Some(d) => d,
                    None => base.docking,
                },
                None => base.docking,
            };
            let mut trade_by_flag: Vec<Vec<GoodRule>> = Vec::new();
            let mut fi: usize = 0;
            while fi < N_FACTIONS
                invariant
                    fi <= N_FACTIONS,
                    trade_by_flag@.len() == fi,
                    is_default_policy(*base, port),
                    ov matches Some(p) ==> overrides@.contains_key(idx) && overrides@[idx] == *p,
                    ov is None ==> !overrides@.contains_key(idx),
                    forall|f: int| 0 <= f < fi ==> #[trigger] trade_by_flag@[f]@.len() == CARGO_SLOTS,
                    forall|f: int, g: int|
                        0 <= f < fi && 0 <= g < CARGO_SLOTS ==> #[trigger] trade_by_flag@[f]@[g] == effective_rule(
                            port,
                            overrides_for(overrides@, idx as int),
                            Faction::from_index_spec(f),
                            g as u8,
                        ),
                decreases N_FACTIONS - fi,
            {
                let flag = Faction::from_index(fi);
                let rules = &base.trade_by_flag[fi];
                let mut goods: Vec<GoodRule> = Vec::new();
                let mut gi: usize = 0;
                while gi < CARGO_SLOTS
                    invariant
                        gi <= CARGO_SLOTS,
                        goods@.len() == gi,
                        flag.ord_index() == fi,
                        *rules == base.trade_by_flag[flag.ord_index()],
                        is_default_policy(*base, port),
                        ov matches Some(p) ==> overrides@.contains_key(idx) && overrides@[idx] == *p,
                        ov is None ==> !overrides@.contains_key(idx),
                        forall|g: int| 0 <= g < gi ==> #[trigger] goods@[g] == effective_rule(
                            port,
                            overrides_for(overrides@, idx as int),
                            flag,
                            g as u8,
                        ),
                    decreases CARGO_SLOTS - gi,
                {
                    let g = GoodId(gi as u8);
                    let mut rule = rules.rule_for(g);
                    match ov {
                        Some(p) => {
                            let ovs = &p.trade_overrides;
                            let mut k: usize = 0;
                            while k < ovs.len()
                                invariant
                                    k <= ovs@.len(),
                                    g.0 == gi as u8,
                                    gi < CARGO_SLOTS,
                                    rule == override_rule(ovs@.take(k as int), flag, gi as u8, default_rule(port, flag, gi as u8)),
                                decreases ovs@.len() - k,
                            {
                                let e = &ovs[k];
                                assert(ovs@.take(k + 1).drop_last() =~= ovs@.take(k as int));
                                if e.0 == flag {
                                    match e.1 {
                                        None => {
                                            rule = e.2;
                                        },
                                        Some(eg) => {
                                            if eg.0 == g.0 {
                                                rule = e.2;
                                            }
                                        },
                                    }
                                }
                                k = k + 1;
                            }
                            assert(ovs@.take(ovs@.len() as int) =~= ovs@);
                        },
                        None => {},
                    }
                    goods.push(rule);
                    gi = gi + 1;
                }
                trade_by_flag.push(goods);
                fi = fi + 1;
            }
            per_port.push(ResolvedPortPolicy { docking, trade_by_flag });
            idx = idx + 1;
        }
        PolicyResolver { per_port, defaults }
    }

    /// Build a resolver with no per-port overrides.
    pub fn from_factions(port_factions: &[Faction]) -> (r: PolicyResolver)
        ensures
            r.port_count() == port_factions@.len(),
            forall|i: int|
                0 <= i < port_factions@.len() ==> #[trigger] r.docking_at(i) == default_docking(port_factions@[i]),
            forall|i: int, flag: Faction, g: int|
                0 <= i < port_factions@.len() && 0 <= g < CARGO_SLOTS ==> #[trigger] r.rule_at(i, flag, g)
                    == default_rule(port_factions@[i], flag, g as u8),
    {
        let empty: BTreeMap<usize, PortPolicy> = BTreeMap::new();
        let r = PolicyResolver::build(port_factions, &empty);
        proof {
            assert forall|i: int| 0 <= i < port_factions@.len() implies #[trigger] r.docking_at(i) == default_docking(port_factions@[i]) by {
                assert(overrides_for(empty@, i) is None);
            }
            assert forall|i: int, flag: Faction, g: int|
                0 <= i < port_factions@.len() && 0 <= g < CARGO_SLOTS implies #[trigger] r.rule_at(i, flag, g)
                    == default_rule(port_factions@[i], flag, g as u8) by {
                assert(overrides_for(empty@, i) is None);
            }
        }
        r
    }

    /// The faction-default table.
    pub fn faction_defaults(&self) -> (r: &[FactionTradePolicy; 5])
        ensures
            *r == self.defaults_spec(),
    {
        &self.defaults
    }

    /// Can a ship of `flag` enter `port_idx`'s harbor zone?
    pub fn dock_legality(&self, port_idx: usize, flag: Faction) -> (r: DockLegality)
        requires
            port_idx < self.port_count(),
        ensures
            r == if self.docking_at(port_idx as int).admits_spec(flag) {
                DockLegality::Open
            } else {
                DockLegality::Refused
            },
    {
        let p = &self.per_port[port_idx];
        if p.docking.admits(flag) {
            DockLegality::Open
        } else {
            DockLegality::Refused
        }
    }

    /// May `flag` buy `good` at `port_idx`, and at what duty?
    pub fn buy_legality(&self, port_idx: usize, flag: Faction, good: GoodId) -> (r: TradeLegality)
        requires
            port_idx < self.port_count(),
            (good.0 as int) < CARGO_SLOTS,
        ensures
            r == legality_of(self.rule_at(port_idx as int, flag, good.0 as int).buy_allowed,
                self.rule_at(port_idx as int, flag, good.0 as int).tariff.buy_duty_bp),
    {
        proof {
            use_type_invariant(self);
        }
        let rule = self.per_port[port_idx].trade_by_flag[flag.index()][good.0 as usize];
        if rule.buy_allowed {
            TradeLegality::Legal { duty_bp: clamp_duty(rule.tariff.buy_duty_bp) }
        } else {
            TradeLegality::Prohibited
        }
    }

    /// May `flag` sell `good` at `port_idx`, and at what duty?
    pub fn sell_legality(&self, port_idx: usize, flag: Faction, good: GoodId) -> (r: TradeLegality)
        requires
            port_idx < self.port_count(),
            (good.0 as int) < CARGO_SLOTS,
        ensures
            r == legality_of(self.rule_at(port_idx as int, flag, good.0 as int).sell_allowed,
                self.rule_at(port_idx as int, flag, good.0 as int).tariff.sell_duty_bp),
    {
        proof {
            use_type_invariant(self);
        }
        let rule = self.per_port[port_idx].trade_by_flag[flag.index()][good.0 as usize];
        if rule.sell_allowed {
            TradeLegality::Legal { duty_bp: clamp_duty(rule.tariff.sell_duty_bp) }
        } else {
            TradeLegality::Prohibited
        }
    }
}

/// Legality of one side of a trade under a rule: permitted at the capped
/// duty, or prohibited.
pub open spec fn legality_of(allowed: bool, duty_bp: u32) -> TradeLegality {
    if allowed {
        TradeLegality::Legal { duty_bp: clamp_duty_spec(duty_bp) }
    } else {
        TradeLegality::Prohibited
    }
}

} // verus!
