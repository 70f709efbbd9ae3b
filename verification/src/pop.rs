//! Port demographics: sailor populations and their monthly dynamics.
//!
//! Each port carries a two-tier sailor pool (seasoned + unseasoned) that
//! evolves on the monthly tick through mortality, maturation of
//! unseasoned hands into seasoned ones, and organic growth.
//!
//! Rates are exact decimal fractions; every expected count is rounded to
//! the nearest whole sailor, halves up.

use vstd::prelude::*;

use crate::port::Faction;

verus! {

/// Coarse category that drives organic growth and mortality.
#[derive(Copy, Clone, Debug, Eq, PartialEq, Structural)]
pub enum PortCategory {
    /// Seville, Amsterdam, London, Bristol, Nantes.
    EuropeanHub,
    /// Port Royal, Havana, Cartagena, Curacao.
    CaribbeanEntrepot,
    /// Bridgetown, Boston, Charleston, San Juan.
    SmallColonial,
    /// Tortuga, Nassau, Petit-Goave: sailors only when ships arrive.
    PirateHaven,
}

/// Sailor population of one port.
#[derive(Clone, Debug)]
pub struct PortDemographics {
    /// Skilled, low-mortality sailors.
    pub seasoned: u32,
    /// Recently arrived or freshly converted hands.
    pub unseasoned: u32,
    pub category: PortCategory,
}

/// `n * num / den` rounded to the nearest integer, halves up (`den` even).
pub open spec fn round_frac(n: int, num: int, den: int) -> int {
    (n * num + den / 2) / den
}

/// Faction culture multiplier on organic growth and seed size, in
/// hundredths: English 1.00, French 0.90, Dutch 1.20, Spanish 0.50,
/// free 0.30.
pub open spec fn growth_percent(f: Faction) -> int {
    match f {
        Faction::England => 100,
        Faction::France => 90,
        Faction::Netherlands => 120,
        Faction::Spain => 50,
        Faction::Free => 30,
    }
}

/// Faction culture multiplier on organic growth and seed size, in
/// hundredths.
pub fn faction_growth_percent(f: Faction) -> (p: u32)
    ensures
        p == growth_percent(f),
{
    match f {
        Faction::England => 100,
        Faction::France => 90,
        Faction::Netherlands => 120,
        Faction::Spain => 50,
        Faction::Free => 30,
    }
}

/// Seed pool (seasoned, unseasoned) before the faction multiplier.
pub open spec fn seed_base(c: PortCategory) -> (int, int) {
    match c {
        PortCategory::EuropeanHub => (4000, 2000),
        PortCategory::CaribbeanEntrepot => (180, 120),
        PortCategory::SmallColonial => (40, 30),
        PortCategory::PirateHaven => (15, 25),
    }
}

/// Organic new sailors per month by category.
pub open spec fn organic_growth(c: PortCategory) -> int {
    match c {
        PortCategory::EuropeanHub => 100,
        PortCategory::CaribbeanEntrepot => 3,
        PortCategory::SmallColonial => 1,
        PortCategory::PirateHaven => 0,
    }
}

/// Monthly mortality of unseasoned sailors, in ten-thousandths: 0.75% in
/// temperate European hubs, 2.5% in tropical ports.
pub open spec fn unseasoned_mortality(c: PortCategory) -> int {
    if c == PortCategory::EuropeanHub {
        75
    } else {
        250
    }
}

/// Monthly mortality of seasoned sailors anywhere: 0.5% (in
/// ten-thousandths).
pub open spec fn seasoned_mortality() -> int {
    50
}

/// Monthly maturation rate of unseasoned sailors: 3% (in ten-thousandths).
pub open spec fn maturation_rate() -> int {
    300
}

/// The month's counts: (seasoned deaths, unseasoned deaths, matured, new
/// hands), each rounded on the pool it applies to.
pub open spec fn month_counts(s: int, u: int, c: PortCategory, f: Faction) -> (int, int, int, int) {
    let sd = round_frac(s, seasoned_mortality(), 10000);
    let ud = round_frac(u, unseasoned_mortality(c), 10000);
    let s1 = if s - sd < 0 { 0 } else { s - sd };
    let u1 = if u - ud < 0 { 0 } else { u - ud };
    let m = round_frac(u1, maturation_rate(), 10000);
    let g = round_frac(organic_growth(c), growth_percent(f), 100);
    (sd, ud, m, g)
}

/// Pool after one month: mortality on the standing pool first, then
/// maturation, then organic growth.
pub open spec fn month_after(s: int, u: int, c: PortCategory, f: Faction) -> (int, int) {
    let (sd, ud, m, g) = month_counts(s, u, c, f);
    let s1 = if s - sd < 0 { 0 } else { s - sd };
    let u1 = if u - ud < 0 { 0 } else { u - ud };
    let u2 = if u1 - m < 0 { 0 } else { u1 - m };
    (s1 + m, u2 + g)
}

impl PortDemographics {
    /// Total pool size.
    pub fn total(&self) -> (t: u32)
        requires
            self.seasoned + self.unseasoned <= u32::MAX,
        ensures
            t == self.seasoned + self.unseasoned,
    {
        self.seasoned + self.unseasoned
    }

    /// Initial pool for a freshly loaded world: the category's base pool
    /// scaled by the faction multiplier.
    pub fn seed(category: PortCategory, faction: Faction) -> (d: PortDemographics)
        ensures
            d.category == category,
            d.seasoned == round_frac(seed_base(category).0, growth_percent(faction), 100),
            d.unseasoned == round_frac(seed_base(category).1, growth_percent(faction), 100),
    {
        let (seasoned, unseasoned): (u32, u32) = match category {
            PortCategory::EuropeanHub => (4000, 2000),
            PortCategory::CaribbeanEntrepot => (180, 120),
            PortCategory::SmallColonial => (40, 30),
            PortCategory::PirateHaven => (15, 25),
        };
        let mult = faction_growth_percent(faction);
        PortDemographics {
            seasoned: (seasoned * mult + 50) / 100,
            unseasoned: (unseasoned * mult + 50) / 100,
            category,
        }
    }
}

/// `n * num / den` rounded to the nearest integer, halves up.
fn round_frac_u32(n: u32, num: u64, den: u64) -> (r: u64)
    requires
        num <= 10000,
        1 <= den <= 10000,
        den % 2 == 0,
    ensures
        r == round_frac(n as int, num as int, den as int),
{
    assert((n as u64) * num <= 0xffff_ffff * 10000) by (nonlinear_arith)
        requires
            n <= 0xffff_ffff,
            num <= 10000,
    ;
    ((n as u64) * num + den / 2) / den
}

/// The month's pool fits in `u32`.
pub open spec fn month_fits(d: PortDemographics, faction: Faction) -> bool {
    let r = month_after(d.seasoned as int, d.unseasoned as int, d.category, faction);
    r.0 <= u32::MAX && r.1 <= u32::MAX
}

/// Apply one month of mortality, maturation, and organic growth.
pub fn tick_monthly(d: &mut PortDemographics, faction: Faction)
    requires
        month_fits(*old(d), faction),
    ensures
        final(d).category == old(d).category,
        (final(d).seasoned as int, final(d).unseasoned as int) == month_after(
            old(d).seasoned as int,
            old(d).unseasoned as int,
            old(d).category,
            faction,
        ),
{
    let ghost s0 = d.seasoned as int;
    let ghost u0 = d.unseasoned as int;
    let temperate = match d.category {
        PortCategory::EuropeanHub => true,
        _ => false,
    };
    // 1. Mortality on the standing pool.
    let seasoned_dead = round_frac_u32(d.seasoned, 50, 10000);
    let unseasoned_rate: u64 = if temperate { 75 } else { 250 };
    let unseasoned_dead = round_frac_u32(d.unseasoned, unseasoned_rate, 10000);
    d.seasoned = if (d.seasoned as u64) < seasoned_dead { 0 } else { d.seasoned - seasoned_dead as u32 };
    d.unseasoned = if (d.unseasoned as u64) < unseasoned_dead { 0 } else { d.unseasoned - unseasoned_dead as u32 };
    // 2. Maturation.
    let matured = round_frac_u32(d.unseasoned, 300, 10000);
    assert(matured <= d.unseasoned);
    d.unseasoned = d.unseasoned - matured as u32;
    d.seasoned = d.seasoned + matured as u32;
    // 3. Organic growth.
    let mult = faction_growth_percent(faction);
    let organic: u32 = match d.category {
        PortCategory::EuropeanHub => 100,
        PortCategory::CaribbeanEntrepot => 3,
        PortCategory::SmallColonial => 1,
        PortCategory::PirateHaven => 0,
    };
    let new_unseasoned = (organic * mult + 50) / 100;
    d.unseasoned = d.unseasoned + new_unseasoned;
}

/// Without arrivals, a pirate haven's pool never grows: its organic
/// growth is zero and maturation only moves hands between tiers.
pub proof fn lemma_pirate_haven_never_grows(s: int, u: int, f: Faction)
    requires
        0 <= s,
        0 <= u,
    ensures
        ({
            let r = month_after(s, u, PortCategory::PirateHaven, f);
            r.0 + r.1 <= s + u
        }),
{
    let (sd, ud, m, g) = month_counts(s, u, PortCategory::PirateHaven, f);
    assert(sd >= 0 && ud >= 0);
    let u1 = if u - ud < 0 { 0 } else { u - ud };
    assert(m <= u1) by (nonlinear_arith)
        requires
            m == (u1 * 300 + 5000) / 10000,
            u1 >= 0,
    ;
    assert(g == 0);
}

/// One month changes the total pool by exactly the new hands minus the
/// deaths: maturation moves sailors between tiers without loss.
pub proof fn lemma_month_conserves_pool(s: int, u: int, c: PortCategory, f: Faction)
    requires
        0 <= s,
        0 <= u,
    ensures
        ({
            let r = month_after(s, u, c, f);
            let (sd, ud, m, g) = month_counts(s, u, c, f);
            &&& 0 <= sd <= s
            &&& 0 <= ud <= u
            &&& r.0 + r.1 == s + u - sd - ud + g
        }),
{
    let (sd, ud, m, g) = month_counts(s, u, c, f);
    assert(sd <= s) by (nonlinear_arith)
        requires
            sd == (s * 50 + 5000) / 10000,
            s >= 0,
    ;
    assert(ud <= u) by (nonlinear_arith)
        requires
            ud == (u * unseasoned_mortality(c) + 5000) / 10000,
            unseasoned_mortality(c) <= 250,
            u >= 0,
    ;
    let u1 = u - ud;
    assert(m <= u1) by (nonlinear_arith)
        requires
            m == (u1 * 300 + 5000) / 10000,
            u1 >= 0,
    ;
}

/// New hands land as unseasoned sailors: after a month the seasoned tier
/// holds no one who was not already in the pool (it is at most the old
/// seasoned plus the old unseasoned, since only maturation feeds it), and
/// the unseasoned tier holds at least the month's organic growth. An
/// empty pool gains exactly the organic growth, all of it unseasoned.
pub proof fn lemma_new_hands_are_unseasoned(s: int, u: int, c: PortCategory, f: Faction)
    requires
        0 <= s,
        0 <= u,
    ensures
        ({
            let r = month_after(s, u, c, f);
            let g = round_frac(organic_growth(c), growth_percent(f), 100);
            &&& r.0 <= s + u
            &&& r.1 >= g
            &&& (s == 0 && u == 0 ==> r.0 == 0 && r.1 == g)
        }),
{
    let (sd, ud, m, g) = month_counts(s, u, c, f);
    assert(sd >= 0) by (nonlinear_arith)
        requires
            sd == (s * 50 + 5000) / 10000,
            s >= 0,
    ;
    assert(ud >= 0) by (nonlinear_arith)
        requires
            ud == (u * unseasoned_mortality(c) + 5000) / 10000,
            unseasoned_mortality(c) <= 250,
            u >= 0,
    ;
    let u1 = if u - ud < 0 { 0 } else { u - ud };
    assert(0 <= m <= u1) by (nonlinear_arith)
        requires
            m == (u1 * 300 + 5000) / 10000,
            u1 >= 0,
    ;
    if s == 0 && u == 0 {
        assert(s * 50 == 0);
        assert(u * unseasoned_mortality(c) == 0) by (nonlinear_arith)
            requires
                u == 0,
        ;
        assert(sd == 0);
        assert(ud == 0);
        assert(m == 0);
    }
}

} // verus!
