//! Per-entity telemetry: running aggregates on factions and ports that the
//! simulation accrues as a byproduct of normal operation. The simulation
//! never reads them to make decisions.

use vstd::prelude::*;

use crate::goods::GoodId;
use crate::money::{fits_i64, Pesos};
use crate::port::{Faction, N_FACTIONS};
use core::sync::atomic::AtomicU32;
use core::sync::atomic::Ordering;

verus! {

/// Aggregates attached to a polity. All counters are non-decreasing over
/// a run.
#[derive(Default, Debug, Clone)]
pub struct FactionTelemetry {
    /// Total duty collected at ports of this faction.
    pub crown_revenue: Pesos,
    /// Trade profits remitted home by ships of this flag.
    pub silver_returned_home: Pesos,
    /// Ships launched at yards of this faction.
    pub ships_built: u32,
    /// Ships of this flag removed from the world.
    pub ships_lost: u32,
}

/// Aggregates attached to a port. `dockings_by_flag` is atomic because
/// dockings are counted from the parallel AI phase through a shared
/// reference.
#[derive(Debug)]
pub struct PortTelemetry {
    /// Cumulative duty collected at this port.
    pub lifetime_duties: Pesos,
    /// Base-currency value of every ton this port has sold to a ship.
    pub lifetime_production: Pesos,
    /// `lifetime_production` split by good, kept sorted by good id with
    /// each good at most once.
    pub lifetime_production_by_good: Vec<(GoodId, Pesos)>,
    /// Completed dockings at this port, by the docking ship's flag.
    pub dockings_by_flag: [AtomicU32; 5],
}

/// Good ids strictly increase along `v`.
pub open spec fn sorted_by_good(v: Seq<(GoodId, Pesos)>) -> bool {
    forall|i: int, j: int| 0 <= i < j < v.len() ==> (#[trigger] v[i]).0.0 < (#[trigger] v[j]).0.0
}

/// Sum of the amounts of the entries, in centavos.
pub open spec fn entries_total(v: Seq<(GoodId, Pesos)>) -> int
    decreases v.len(),
{
    if v.len() == 0 {
        0
    } else {
        entries_total(v.drop_last()) + v.last().1@
    }
}

proof fn lemma_entries_total_update(v: Seq<(GoodId, Pesos)>, i: int, e: (GoodId, Pesos))
    requires
        0 <= i < v.len(),
    ensures
        entries_total(v.update(i, e)) == entries_total(v) - v[i].1@ + e.1@,
    decreases v.len(),
{
    if i == v.len() - 1 {
        assert(v.update(i, e).drop_last() =~= v.drop_last());
    } else {
        lemma_entries_total_update(v.drop_last(), i, e);
        assert(v.update(i, e).drop_last() =~= v.drop_last().update(i, e));
    }
}

proof fn lemma_entries_total_insert(v: Seq<(GoodId, Pesos)>, i: int, e: (GoodId, Pesos))
    requires
        0 <= i <= v.len(),
    ensures
        entries_total(v.insert(i, e)) == entries_total(v) + e.1@,
    decreases v.len(),
{
    if i == v.len() {
        assert(v.insert(i, e).drop_last() =~= v);
    } else {
        lemma_entries_total_insert(v.drop_last(), i, e);
        assert(v.insert(i, e).drop_last() =~= v.drop_last().insert(i, e));
    }
}

/// `new` is `old` with `pesos` credited to `good` at position `i`: added
/// to the entry there if it is `good`'s, otherwise a fresh entry inserted
/// there, between the smaller and the larger ids.
pub open spec fn credited_at(old: Seq<(GoodId, Pesos)>, new: Seq<(GoodId, Pesos)>, good: GoodId, pesos: Pesos, i: int) -> bool {
    &&& 0 <= i <= old.len()
    &&& {
        ||| (i < old.len() && old[i].0 == good && new.len() == old.len() && new[i].0 == good && new[i].1@ == old[i].1@
            + pesos@ && forall|k: int| 0 <= k < old.len() && k != i ==> new[k] == old[k])
        ||| (new == old.insert(i, (good, pesos)) && (forall|k: int| 0 <= k < i ==> old[k].0.0 < good.0) && (forall|k: int|
            i <= k < old.len() ==> good.0 < old[k].0.0))
    }
}

/// `new` is `old` with `pesos` credited to `good`.
pub open spec fn credited(old: Seq<(GoodId, Pesos)>, new: Seq<(GoodId, Pesos)>, good: GoodId, pesos: Pesos) -> bool {
    exists|i: int| credited_at(old, new, good, pesos, i)
}

impl PortTelemetry {
    /// Fresh telemetry: every aggregate zero.
    pub fn new() -> (t: PortTelemetry)
        ensures
            t.lifetime_duties@ == 0,
            t.lifetime_production@ == 0,
            t.lifetime_production_by_good@.len() == 0,
    {
        PortTelemetry {
            lifetime_duties: Pesos::zero(),
            lifetime_production: Pesos::zero(),
            lifetime_production_by_good: Vec::new(),
            dockings_by_flag: [
                AtomicU32::new(0),
                AtomicU32::new(0),
                AtomicU32::new(0),
                AtomicU32::new(0),
                AtomicU32::new(0),
            ],
        }
    }

    /// Record `pesos` of base-currency production for `good`: added to the
    /// running total and to the good's entry, which is created in sorted
    /// position if absent.
    pub fn add_production(&mut self, good: GoodId, pesos: Pesos)
        requires
            sorted_by_good(old(self).lifetime_production_by_good@),
            fits_i64(old(self).lifetime_production@ + pesos@),
            forall|k: int|
                0 <= k < old(self).lifetime_production_by_good@.len() && (
                #[trigger] old(self).lifetime_production_by_good@[k]).0 == good ==> fits_i64(
                    old(self).lifetime_production_by_good@[k].1@ + pesos@,
                ),
        ensures
            final(self).lifetime_production@ == old(self).lifetime_production@ + pesos@,
            final(self).lifetime_duties == old(self).lifetime_duties,
            sorted_by_good(final(self).lifetime_production_by_good@),
            credited(old(self).lifetime_production_by_good@, final(self).lifetime_production_by_good@, good, pesos),
            entries_total(final(self).lifetime_production_by_good@) == entries_total(old(self).lifetime_production_by_good@)
                + pesos@,
            old(self).lifetime_production@ == entries_total(old(self).lifetime_production_by_good@)
                ==> final(self).lifetime_production@ == entries_total(final(self).lifetime_production_by_good@),
    {
        self.lifetime_production.add_in_place(pesos);
        let ghost before = self.lifetime_production_by_good@;
        // Binary search for the first entry whose id is not below `good`.
        let mut lo: usize = 0;
        let mut hi: usize = self.lifetime_production_by_good.len();
        while lo < hi
            invariant
                self.lifetime_production_by_good@ == before,
                sorted_by_good(before),
                lo <= hi <= before.len(),
                forall|k: int| 0 <= k < lo ==> before[k].0.0 < good.0,
                forall|k: int| hi <= k < before.len() ==> good.0 <= before[k].0.0,
            decreases hi - lo,
        {
            let mid = lo + (hi - lo) / 2;
            if self.lifetime_production_by_good[mid].0.0 < good.0 {
                lo = mid + 1;
            } else {
                hi = mid;
            }
        }
        if lo < self.lifetime_production_by_good.len() && self.lifetime_production_by_good[lo].0.0 == good.0 {
            let (g, total) = self.lifetime_production_by_good[lo];
            assert(before[lo as int].0 == good);
            let updated = total.plus(pesos);
            self.lifetime_production_by_good.set(lo, (g, updated));
            proof {
                let new = self.lifetime_production_by_good@;
                assert(forall|k: int| 0 <= k < before.len() && k != lo ==> new[k] == before[k]);
                let i = lo as int;
                assert(i < before.len() && before[i].0 == good && new.len() == before.len() && new[i].0 == good
                    && new[i].1@ == before[i].1@ + pesos@);
                assert(sorted_by_good(new)) by {
                    assert forall|i: int, j: int| 0 <= i < j < new.len() implies (#[trigger] new[i]).0.0 < (#[trigger] new[j]).0.0 by {
                        assert(before[i].0.0 < before[j].0.0);
                    }
                }
                assert(credited_at(before, new, good, pesos, i));
                assert(new == before.update(i, (g, updated)));
                lemma_entries_total_update(before, i, (g, updated));
            }
        } else {
            self.lifetime_production_by_good.insert(lo, (good, pesos));
            proof {
                let new = self.lifetime_production_by_good@;
                assert(new == before.insert(lo as int, (good, pesos)));
                assert(forall|k: int| lo <= k < before.len() ==> good.0 < before[k].0.0);
                assert(sorted_by_good(new)) by {
                    assert forall|i: int, j: int| 0 <= i < j < new.len() implies (#[trigger] new[i]).0.0 < (#[trigger] new[j]).0.0 by {
                        if j < lo {
                            assert(before[i].0.0 < before[j].0.0);
                        } else if j == lo {
                        } else if i == lo {
                            assert(new[j] == before[j - 1]);
                        } else if i < lo {
                            assert(new[j] == before[j - 1]);
                            assert(before[i].0.0 < good.0);
                        } else {
                            assert(before[i - 1].0.0 < before[j - 1].0.0);
                        }
                    }
                }
                assert(credited_at(before, new, good, pesos, lo as int));
                lemma_entries_total_insert(before, lo as int, (good, pesos));
            }
        }
    }

    /// Record one docking by a ship flying `flag`. Safe to call from any
    /// thread; the counter wraps like any atomic add.
    pub fn record_docking(&self, flag: Faction) {
        let idx = flag.index();
        if idx < N_FACTIONS {
            self.dockings_by_flag[idx].fetch_add(1, Ordering::Relaxed);
        }
    }

    /// Snapshot of the per-flag docking counters.
    pub fn dockings_snapshot(&self) -> (out: [u32; 5]) {
        let mut out = [0u32; 5];
        let mut i: usize = 0;
        while i < N_FACTIONS
            invariant
                i <= N_FACTIONS,
            decreases N_FACTIONS - i,
        {
            out[i] = self.dockings_by_flag[i].load(Ordering::Relaxed);
            i = i + 1;
        }
        out
    }
}

impl Default for PortTelemetry {
    fn default() -> (t: PortTelemetry)
        ensures
            t.lifetime_duties@ == 0,
            t.lifetime_production@ == 0,
            t.lifetime_production_by_good@.len() == 0,
    {
        PortTelemetry::new()
    }
}

} // verus!
