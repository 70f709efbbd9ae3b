//! Ship states, policies and crew accounting.

use vstd::prelude::*;

use crate::market::{min_int, nonneg};
use crate::money::{fits_i64, Pesos};

verus! {

broadcast use crate::money::lemma_pesos_fits;

/// The physical state of a ship.
#[derive(Debug, Clone, Copy, PartialEq, Eq, Structural)]
pub enum ShipState {
    Sailing,
    Docked,
    Anchored,
    /// Freshly built or discharged hull awaiting a crew.
    Hiring,
    /// Sunk this tick; removed at the end of the tick.
    Sunk,
}

/// What a ship is doing at the strategic level. Defaults to `Merchant`.
#[derive(Debug, Clone, Copy, PartialEq, Eq, Structural, Default)]
pub enum ShipPolicy {
    /// Trade, avoid pirates, run for a friendly port if threatened.
    #[default]
    Merchant,
    /// Hunt richer, slower merchant prey within visual range.
    Pirate,
}

/// What the ship is doing while docked.
#[derive(Debug, Clone, Copy, PartialEq, Eq, Structural)]
pub enum DockAction {
    Idle,
    Resupplying,
    Careening,
}

/// The pro-rata seasoned share of `part` heads out of a crew of `alive`
/// of whom `seasoned` are seasoned, rounded toward zero.
pub open spec fn seasoned_share(seasoned: int, part: int, alive: int) -> int {
    (seasoned * part) / (if alive > 1 { alive } else { 1 })
}

/// A ship's live head-count and how many of them are seasoned hands.
#[derive(Debug, Clone, Copy, PartialEq, Eq, Structural)]
pub struct Crew {
    /// Live head-count.
    pub alive: u16,
    /// Of `alive`, how many are seasoned; never more than `alive`.
    pub seasoned: u16,
}

proof fn lemma_share_bounds(s: int, k: int, a: int)
    requires
        0 <= s <= a,
        0 <= k <= a,
        a > 0,
    ensures
        0 <= seasoned_share(s, k, a) <= s,
        seasoned_share(s, k, a) <= k,
        s - seasoned_share(s, k, a) <= a - k,
{
    let q = seasoned_share(s, k, a);
    assert(q == (s * k) / a);
    assert(0 <= s * k <= s * a) by (nonlinear_arith)
        requires 0 <= s, 0 <= k <= a;
    assert(s * k <= a * k) by (nonlinear_arith)
        requires 0 <= k, s <= a;
    assert(0 <= q <= s) by (nonlinear_arith)
        requires q == (s * k) / a, 0 <= s * k <= s * a, a > 0;
    assert(q <= k) by (nonlinear_arith)
        requires q == (s * k) / a, s * k <= a * k, a > 0;
    // s - q <= a - k  <=>  s * a - q * a <= a * a - k * a, from q * a > s * k - a
    assert(q * a > s * k - a) by (nonlinear_arith)
        requires q == (s * k) / a, a > 0;
    assert(s * k - a < q * a);
    assert((s - q) * a < s * a - s * k + a) by (nonlinear_arith)
        requires q * a > s * k - a;
    assert(s * a - s * k <= a * a - a * k) by (nonlinear_arith)
        requires 0 <= s <= a, 0 <= k <= a;
    assert((s - q) * a < (a - k) * a + a) by (nonlinear_arith)
        requires (s - q) * a < s * a - s * k + a, s * a - s * k <= a * a - a * k;
    assert(s - q < a - k + 1) by (nonlinear_arith)
        requires (s - q) * a < (a - k) * a + a, a > 0;
}

impl Crew {
    /// Seasoned hands are a part of the live crew.
    pub open spec fn inv(self) -> bool {
        self.seasoned <= self.alive
    }

    /// How many of `n` requested heads a crew can give: all of them, or
    /// the whole crew.
    pub open spec fn capped(self, n: u16) -> int {
        if n <= self.alive { n as int } else { self.alive as int }
    }

    /// The crew after `losses` casualties, split pro-rata.
    pub open spec fn after_losses(self, losses: u16) -> Crew {
        if losses == 0 || self.alive == 0 {
            self
        } else {
            let k = self.capped(losses);
            Crew {
                alive: (self.alive - k) as u16,
                seasoned: (self.seasoned - seasoned_share(self.seasoned as int, k, self.alive as int)) as u16,
            }
        }
    }

    /// The `(alive, seasoned)` pair a prize-crew detachment of `amount` takes.
    pub open spec fn prize_detached(self, amount: u16) -> (u16, u16) {
        if amount == 0 || self.alive == 0 {
            (0, 0)
        } else {
            let k = self.capped(amount);
            (k as u16, seasoned_share(self.seasoned as int, k, self.alive as int) as u16)
        }
    }

    /// The crew left aboard after a prize-crew detachment of `amount`.
    pub open spec fn after_detach(self, amount: u16) -> Crew {
        let d = self.prize_detached(amount);
        Crew { alive: (self.alive - d.0) as u16, seasoned: (self.seasoned - d.1) as u16 }
    }

    /// A crew of `alive` heads, `seasoned` of them seasoned.
    pub fn new(alive: u16, seasoned: u16) -> (c: Crew)
        requires
            seasoned <= alive,
        ensures
            c.alive == alive,
            c.seasoned == seasoned,
            c.inv(),
    {
        Crew { alive, seasoned }
    }

    /// Apply `losses`, split pro-rata between seasoned and unseasoned
    /// (rounded toward zero). Losses beyond the live crew saturate.
    pub fn apply_losses(&mut self, losses: u16)
        requires
            old(self).inv(),
        ensures
            *final(self) == old(self).after_losses(losses),
            final(self).inv(),
    {
        proof {
            lemma_losses_keep_invariant(*self, losses);
        }
        if losses == 0 || self.alive == 0 {
            return;
        }
        let k: u16 = if losses <= self.alive { losses } else { self.alive };
        let a: u32 = self.alive as u32;
        let s: u32 = self.seasoned as u32;
        proof {
            lemma_share_bounds(s as int, k as int, a as int);
            assert(s * (k as u32) <= 65535 * 65535) by (nonlinear_arith)
                requires s <= 65535, k <= 65535;
        }
        let loss: u32 = (s * (k as u32)) / a;
        self.alive = self.alive - k;
        self.seasoned = (s - loss) as u16;
    }

    /// Detach `amount` heads (a prize crew), pro-rata over seasoned.
    /// Returns the detached `(alive, seasoned)` pair; saturates at the
    /// live crew.
    pub fn detach_prize_crew(&mut self, amount: u16) -> (r: (u16, u16))
        requires
            old(self).inv(),
        ensures
            r == old(self).prize_detached(amount),
            *final(self) == old(self).after_detach(amount),
            final(self).inv(),
    {
        proof {
            lemma_prize_transfer_conserves_crew(*self, amount);
        }
        if amount == 0 || self.alive == 0 {
            return (0, 0);
        }
        let k: u16 = if amount <= self.alive { amount } else { self.alive };
        let a: u32 = self.alive as u32;
        let s: u32 = self.seasoned as u32;
        proof {
            lemma_share_bounds(s as int, k as int, a as int);
            assert(s * (k as u32) <= 65535 * 65535) by (nonlinear_arith)
                requires s <= 65535, k <= 65535;
        }
        let ds: u32 = (s * (k as u32)) / a;
        self.alive = self.alive - k;
        self.seasoned = (s - ds) as u16;
        (k, ds as u16)
    }
}

/// Casualties never leave more seasoned hands than live ones.
pub proof fn lemma_losses_keep_invariant(c: Crew, losses: u16)
    requires
        c.inv(),
    ensures
        c.after_losses(losses).inv(),
        c.after_losses(losses).alive <= c.alive,
        c.after_losses(losses).seasoned <= c.seasoned,
{
    if losses != 0 && c.alive != 0 {
        lemma_share_bounds(c.seasoned as int, c.capped(losses), c.alive as int);
    }
}

/// A prize-crew transfer moves heads without creating or losing any: the
/// detached pair is itself a valid crew, both crews keep the invariant, and
/// what stays plus what leaves equals what there was, head for head and
/// seasoned hand for seasoned hand.
pub proof fn lemma_prize_transfer_conserves_crew(c: Crew, amount: u16)
    requires
        c.inv(),
    ensures
        ({
            let d = c.prize_detached(amount);
            let rest = c.after_detach(amount);
            &&& Crew { alive: d.0, seasoned: d.1 }.inv()
            &&& rest.inv()
            &&& rest.alive + d.0 == c.alive
            &&& rest.seasoned + d.1 == c.seasoned
        }),
{
    if amount != 0 && c.alive != 0 {
        lemma_share_bounds(c.seasoned as int, c.capped(amount), c.alive as int);
    }
}

/// A dockyard bill for repairs: paid from the ship's silver above zero,
/// any shortfall booked as debt, since the carpenters work whether or not
/// the captain can pay. Returns the silver paid.
pub fn pay_or_owe(silver: &mut Pesos, debt: &mut Pesos, bill: Pesos) -> (paid: Pesos)
    requires
        fits_i64(old(silver)@ - min_int(bill@, nonneg(old(silver)@))),
        fits_i64(bill@ - min_int(bill@, nonneg(old(silver)@))),
        fits_i64(old(debt)@ + (bill@ - min_int(bill@, nonneg(old(silver)@)))),
    ensures
        paid@ == min_int(bill@, nonneg(old(silver)@)),
        final(silver)@ == old(silver)@ - paid@,
        final(debt)@ == old(debt)@ + (bill@ - paid@),
        (old(silver)@ - final(silver)@) + (final(debt)@ - old(debt)@) == bill@,
        old(silver)@ >= 0 ==> final(silver)@ >= 0,
{
    let paid = bill.min(silver.max_zero());
    silver.sub_in_place(paid);
    debt.add_in_place(bill.minus(paid));
    paid
}

} // verus!
