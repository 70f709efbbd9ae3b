//! Resolution of the per-port policy file: port names to port indices,
//! good names to good ids, faction lists to faction sets.
//!
//! Records are resolved in file order; the first record that names an
//! unknown port or an unknown good, or repeats a port, fails the whole
//! file.

use vstd::prelude::*;
use vstd::string::StringSliceAdditionalSpecFns;

use crate::goods::{first_name_match, position_by_name_ignore_case, str_eq, utf8_of, GoodId};
use crate::policy::{DockingRule, FactionSet, GoodRule, PortPolicy};
use crate::port::Faction;
use std::collections::BTreeMap;

verus! {

broadcast use {vstd::laws_cmp::group_laws_cmp, vstd::std_specs::btree::group_btree_axioms};

/// A docking rule as written in the file: faction lists, not sets.
pub enum DockingRuleRecord {
    Open,
    OnlyFlags(Vec<Faction>),
    ClosedTo(Vec<Faction>),
}

/// One trade override as written in the file. `good` is `None` for the
/// flag's default rule, else a good's catalogue name.
pub struct TradeOverrideRecord {
    pub flag: Faction,
    pub good: Option<String>,
    pub rule: GoodRule,
}

/// One port's entry in the file.
pub struct PortPolicyRecord {
    pub port: String,
    pub docking: Option<DockingRuleRecord>,
    pub trade: Vec<TradeOverrideRecord>,
}

/// Why the policy file was refused.
#[derive(Debug, Clone, PartialEq, Eq)]
pub enum PortPolicyLoadError {
    /// A record names a port that is not on the map.
    UnknownPort(String),
    /// A trade override names a good that is not in the catalogue.
    UnknownGood { port: String, good: String },
    /// Two records name the same port.
    DuplicatePort(String),
}

/// The bits of the set holding the listed factions.
pub open spec fn set_bits(v: Seq<Faction>) -> u8
    decreases v.len(),
{
    if v.len() == 0 {
        0u8
    } else {
        set_bits(v.drop_last()) | (1u8 << (v.last().ord_index() as u8))
    }
}

/// The rule a docking record stands for.
pub open spec fn docking_of(r: DockingRuleRecord) -> DockingRule {
    match r {
        DockingRuleRecord::Open => DockingRule::Open,
        DockingRuleRecord::OnlyFlags(v) => DockingRule::OnlyFlags(FactionSet(set_bits(v@))),
        DockingRuleRecord::ClosedTo(v) => DockingRule::ClosedTo(FactionSet(set_bits(v@))),
    }
}

fn set_of(v: &Vec<Faction>) -> (s: FactionSet)
    ensures
        s == FactionSet(set_bits(v@)),
        forall|f: Faction| s.has(f) <==> v@.contains(f),
{
    let mut s = FactionSet::empty();
    let mut i: usize = 0;
    while i < v.len()
        invariant
            i <= v@.len(),
            s == FactionSet(set_bits(v@.take(i as int))),
            forall|f: Faction| s.has(f) <==> v@.take(i as int).contains(f),
        decreases v@.len() - i,
    {
        proof {
            assert(v@.take(i + 1).drop_last() =~= v@.take(i as int));
            assert(v@.take(i + 1).last() == v@[i as int]);
        }
        let ghost prev = v@.take(i as int);
        s = s.with(v[i]);
        i = i + 1;
        proof {
            assert forall|f: Faction| s.has(f) <==> v@.take(i as int).contains(f) by {
                if f == v@[i - 1] {
                    assert(v@.take(i as int)[i - 1] == f);
                }
                if v@.take(i as int).contains(f) && f != v@[i - 1] {
                    let k = choose|k: int| 0 <= k < i && v@.take(i as int)[k] == f;
                    assert(prev[k] == f);
                }
                if prev.contains(f) {
                    let k = choose|k: int| 0 <= k < prev.len() && prev[k] == f;
                    assert(v@.take(i as int)[k] == f);
                }
            }
        }
    }
    assert(v@.take(v@.len() as int) =~= v@);
    s
}

impl DockingRule {
    /// The rule a docking record stands for: its faction list becomes a set.
    pub fn from_record(r: &DockingRuleRecord) -> (d: DockingRule)
        ensures
            d == docking_of(*r),
    {
        match r {
            DockingRuleRecord::Open => DockingRule::Open,
            DockingRuleRecord::OnlyFlags(v) => DockingRule::OnlyFlags(set_of(v)),
            DockingRuleRecord::ClosedTo(v) => DockingRule::ClosedTo(set_of(v)),
        }
    }
}

/// Position of the first name exactly equal to `s`.
pub open spec fn first_exact(names: Seq<Seq<char>>, s: Seq<char>) -> Option<int> {
    if exists|i: int| 0 <= i < names.len() && names[i] == s {
        Some(choose|i: int| 0 <= i < names.len() && names[i] == s && forall|j: int| 0 <= j < i ==> names[j] != s)
    } else {
        None
    }
}

/// The names' views.
pub open spec fn name_views(v: Seq<String>) -> Seq<Seq<char>> {
    v.map_values(|s: String| s@)
}

/// The names' UTF-8 bytes.
pub open spec fn name_bytes(v: Seq<String>) -> Seq<Seq<u8>> {
    v.map_values(|s: String| utf8_of(s))
}

/// A resolved override: flag, good (if one) and rule.
pub type Override = (Faction, Option<GoodId>, GoodRule);

/// One trade override with its good looked up, or the good's name if it
/// is not in the catalogue.
#[verifier::opaque]
pub open spec fn trade_step(t: TradeOverrideRecord, goods: Seq<String>) -> Result<Override, Seq<char>> {
    match t.good {
        None => Ok((t.flag, None, t.rule)),
        Some(name) => match first_name_match(name_bytes(goods), utf8_of(name)) {
            None => Err(name@),
            Some(i) => Ok((t.flag, Some(GoodId(i as u8)), t.rule)),
        },
    }
}

/// The trade overrides with their goods looked up, or the name of the
/// first good that is not in the catalogue.
pub open spec fn resolve_trades(trades: Seq<TradeOverrideRecord>, goods: Seq<String>) -> Result<Seq<Override>, Seq<char>>
    decreases trades.len(),
{
    if trades.len() == 0 {
        Ok(Seq::empty())
    } else {
        match resolve_trades(trades.drop_last(), goods) {
            Err(name) => Err(name),
            Ok(prev) => match trade_step(trades.last(), goods) {
                Err(name) => Err(name),
                Ok(o) => Ok(prev.push(o)),
            },
        }
    }
}

/// A resolved port policy: docking override and trade overrides.
pub type PolicyView = (Option<DockingRule>, Seq<Override>);

/// What a port policy holds.
pub open spec fn policy_view(p: PortPolicy) -> PolicyView {
    (p.docking, p.trade_overrides@)
}

/// A refusal: 0 for an unknown port, 1 for an unknown good, 2 for a
/// repeated port; the port's name; the good's name (empty unless 1).
pub type RefusalView = (int, Seq<char>, Seq<char>);

/// What a refusal holds.
pub open spec fn refusal_view(e: PortPolicyLoadError) -> RefusalView {
    match e {
        PortPolicyLoadError::UnknownPort(p) => (0, p@, Seq::empty()),
        PortPolicyLoadError::UnknownGood { port, good } => (1, port@, good@),
        PortPolicyLoadError::DuplicatePort(p) => (2, p@, Seq::empty()),
    }
}

/// One record applied to the policies resolved so far: its port and goods
/// looked up, refused if either is unknown or the port already has one.
#[verifier::opaque]
pub open spec fn resolve_step(m: Map<usize, PolicyView>, r: PortPolicyRecord, ports: Seq<String>, goods: Seq<String>) -> Result<Map<usize, PolicyView>, RefusalView> {
    match first_exact(name_views(ports), r.port@) {
        None => Err((0, r.port@, Seq::empty())),
        Some(idx) => match resolve_trades(r.trade@, goods) {
            Err(good) => Err((1, r.port@, good)),
            Ok(ts) => {
                let docking = match r.docking {
                    Some(d) => Some(docking_of(d)),
                    None => None,
                };
                if m.contains_key(idx as usize) {
                    Err((2, r.port@, Seq::empty()))
                } else {
                    Ok(m.insert(idx as usize, (docking, ts)))
                }
            },
        },
    }
}

/// The policies of the records, keyed by port index, or the first refusal.
pub open spec fn resolve_all(records: Seq<PortPolicyRecord>, ports: Seq<String>, goods: Seq<String>) -> Result<Map<usize, PolicyView>, RefusalView>
    decreases records.len(),
{
    if records.len() == 0 {
        Ok(Map::empty())
    } else {
        match resolve_all(records.drop_last(), ports, goods) {
            Err(e) => Err(e),
            Ok(m) => resolve_step(m, records.last(), ports, goods),
        }
    }
}

fn position_exact(names: &[String], s: &String) -> (r: Option<usize>)
    ensures
        r matches Some(i) ==> first_exact(name_views(names@), s@) == Some(i as int),
        r is None ==> first_exact(name_views(names@), s@) is None,
{
    let ghost all = name_views(names@);
    let mut i: usize = 0;
    while i < names.len()
        invariant
            i <= names@.len(),
            all == name_views(names@),
            forall|j: int| 0 <= j < i ==> all[j] != s@,
        decreases names@.len() - i,
    {
        if str_eq(names[i].as_str(), s.as_str()) {
            assert(all[i as int] == s@);
            return Some(i);
        }
        i = i + 1;
    }
    None
}

/// Look up one trade override's good.
fn resolve_override(t: &TradeOverrideRecord, good_names: &[String]) -> (r: Result<Override, String>)
    requires
        good_names@.len() <= 256,
    ensures
        r matches Ok(o) ==> trade_step(*t, good_names@) == Ok::<Override, Seq<char>>(o),
        r matches Err(g) ==> trade_step(*t, good_names@) == Err::<Override, Seq<char>>(g@),
{
    proof {
        reveal(trade_step);
    }
    match &t.good {
        None => Ok((t.flag, None, t.rule)),
        Some(name) => {
            let nm: &str = name.as_str();
            proof {
                assert(good_names@.map_values(|s: String| utf8_of(s)) == name_bytes(good_names@));
                assert(nm.spec_bytes() == utf8_of(*name));
            }
            match position_by_name_ignore_case(good_names, nm) {
                Some(k) => Ok((t.flag, Some(GoodId(k as u8)), t.rule)),
                None => Err(name.clone()),
            }
        },
    }
}

/// Resolve one record's trade overrides against the goods catalogue.
fn resolve_record_trades(trades: &Vec<TradeOverrideRecord>, good_names: &[String]) -> (r: Result<Vec<Override>, String>)
    requires
        good_names@.len() <= 256,
    ensures
        r matches Ok(v) ==> resolve_trades(trades@, good_names@) == Ok::<Seq<Override>, Seq<char>>(v@),
        r matches Err(g) ==> resolve_trades(trades@, good_names@) == Err::<Seq<Override>, Seq<char>>(g@),
{
    let mut out: Vec<Override> = Vec::new();
    let mut i: usize = 0;
    while i < trades.len()
        invariant
            i <= trades@.len(),
            good_names@.len() <= 256,
            resolve_trades(trades@.take(i as int), good_names@) == Ok::<Seq<Override>, Seq<char>>(out@),
        decreases trades@.len() - i,
    {
        proof {
            assert(trades@.take(i + 1).drop_last() =~= trades@.take(i as int));
            assert(trades@.take(i + 1).last() == trades@[i as int]);
        }
        match resolve_override(&trades[i], good_names) {
            Ok(o) => {
                out.push(o);
            },
            Err(g) => {
                proof {
                    lemma_trades_stay_refused(trades@, good_names@, (i + 1) as nat);
                }
                return Err(g);
            },
        }
        i = i + 1;
    }
    assert(trades@.take(trades@.len() as int) =~= trades@);
    Ok(out)
}

/// Once a prefix of the overrides is refused, so is the whole list.
proof fn lemma_trades_stay_refused(trades: Seq<TradeOverrideRecord>, goods: Seq<String>, k: nat)
    requires
        k <= trades.len(),
        resolve_trades(trades.take(k as int), goods) is Err,
    ensures
        resolve_trades(trades, goods) == resolve_trades(trades.take(k as int), goods),
    decreases trades.len() - k,
{
    if k < trades.len() {
        assert(trades.take((k + 1) as int).drop_last() =~= trades.take(k as int));
        lemma_trades_stay_refused(trades, goods, k + 1);
    } else {
        assert(trades.take(k as int) =~= trades);
    }
}

/// Resolve one record against the policies resolved so far.
fn resolve_record(rec: &PortPolicyRecord, port_names: &[String], good_names: &[String], taken: &BTreeMap<usize, PortPolicy>) -> (r: Result<
    (usize, PortPolicy),
    PortPolicyLoadError,
>)
    requires
        good_names@.len() <= 256,
    ensures
        r matches Ok((idx, p)) ==> !taken@.contains_key(idx) && resolve_step(
            taken@.map_values(|p: PortPolicy| policy_view(p)),
            *rec,
            port_names@,
            good_names@,
        ) == Ok::<Map<usize, PolicyView>, RefusalView>(taken@.map_values(|p: PortPolicy| policy_view(p)).insert(idx, policy_view(p))),
        r matches Err(e) ==> resolve_step(taken@.map_values(|p: PortPolicy| policy_view(p)), *rec, port_names@, good_names@)
            == Err::<Map<usize, PolicyView>, RefusalView>(refusal_view(e)),
{
    proof {
        reveal(resolve_step);
    }
    let idx = match position_exact(port_names, &rec.port) {
        Some(k) => k,
        None => {
            return Err(PortPolicyLoadError::UnknownPort(rec.port.clone()));
        },
    };
    let trades = match resolve_record_trades(&rec.trade, good_names) {
        Ok(v) => v,
        Err(g) => {
            return Err(PortPolicyLoadError::UnknownGood { port: rec.port.clone(), good: g });
        },
    };
    let docking = match &rec.docking {
        Some(d) => Some(DockingRule::from_record(d)),
        None => None,
    };
    if taken.contains_key(&idx) {
        return Err(PortPolicyLoadError::DuplicatePort(rec.port.clone()));
    }
    Ok((idx, PortPolicy { docking, trade_overrides: trades }))
}

/// Resolve the records of the policy file against the map's port names
/// and the goods catalogue's names.
pub fn resolve_port_policies(records: &Vec<PortPolicyRecord>, port_names: &[String], good_names: &[String]) -> (r: Result<
    BTreeMap<usize, PortPolicy>,
    PortPolicyLoadError,
>)
    requires
        good_names@.len() <= 256,
    ensures
        r matches Ok(m) ==> resolve_all(records@, port_names@, good_names@) == Ok::<Map<usize, PolicyView>, RefusalView>(
            m@.map_values(|p: PortPolicy| policy_view(p)),
        ),
        r matches Err(e) ==> resolve_all(records@, port_names@, good_names@) == Err::<Map<usize, PolicyView>, RefusalView>(
            refusal_view(e),
        ),
{
    let mut out: BTreeMap<usize, PortPolicy> = BTreeMap::new();
    let mut i: usize = 0;
    proof {
        assert(records@.take(0) =~= Seq::<PortPolicyRecord>::empty());
        assert(out@.map_values(|p: PortPolicy| policy_view(p)) =~= Map::<usize, PolicyView>::empty());
    }
    while i < records.len()
        invariant
            i <= records@.len(),
            good_names@.len() <= 256,
            resolve_all(records@.take(i as int), port_names@, good_names@) == Ok::<Map<usize, PolicyView>, RefusalView>(
                out@.map_values(|p: PortPolicy| policy_view(p)),
            ),
        decreases records@.len() - i,
    {
        proof {
            assert(records@.take(i + 1).drop_last() =~= records@.take(i as int));
            assert(records@.take(i + 1).last() == records@[i as int]);
        }
        match resolve_record(&records[i], port_names, good_names, &out) {
            Err(e) => {
                proof {
                    lemma_records_stay_refused(records@, port_names@, good_names@, (i + 1) as nat);
                }
                return Err(e);
            },
            Ok((idx, p)) => {
                let ghost before = out@;
                let ghost pv = policy_view(p);
                out.insert(idx, p);
                proof {
                    assert(out@.map_values(|p: PortPolicy| policy_view(p)) =~= before.map_values(|p: PortPolicy| policy_view(p)).insert(idx, pv));
                }
            },
        }
        i = i + 1;
    }
    assert(records@.take(records@.len() as int) =~= records@);
    Ok(out)
}

/// Once a prefix of the records is refused, so is the whole file, with
/// the same refusal.
proof fn lemma_records_stay_refused(records: Seq<PortPolicyRecord>, ports: Seq<String>, goods: Seq<String>, k: nat)
    requires
        k <= records.len(),
        resolve_all(records.take(k as int), ports, goods) is Err,
    ensures
        resolve_all(records, ports, goods) == resolve_all(records.take(k as int), ports, goods),
    decreases records.len() - k,
{
    if k < records.len() {
        assert(records.take((k + 1) as int).drop_last() =~= records.take(k as int));
        lemma_records_stay_refused(records, ports, goods, k + 1);
    } else {
        assert(records.take(k as int) =~= records);
    }
}

} // verus!
