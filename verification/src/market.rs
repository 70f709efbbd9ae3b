//! Port market vocabulary and the silver settlements between a docked
//! ship and the port treasury.

use vstd::prelude::*;

pub mod ports;
pub mod recipe;

use crate::goods::str_eq;
use crate::money::{fits_i64, Pesos};

verus! {

broadcast use crate::money::lemma_pesos_fits;

/// Why a buy or sell was rejected.
#[derive(Debug, Clone, Copy, PartialEq, Eq, Structural)]
pub enum TradeError {
    NonPositiveAmount,
    InsufficientSilver,
    InsufficientCargoSpace,
    InsufficientStockpile,
    InsufficientShipCargo,
    InsufficientPortSilver,
}

/// Historical archetype of a port, which fixes its default production
/// recipe.
#[derive(Clone, Copy, Debug, PartialEq, Eq, Structural)]
pub enum PortArchetype {
    /// Sugar/molasses/rum producer.
    SugarIsland,
    /// Tobacco / cacao producer.
    TobaccoColony,
    /// North Atlantic provisioner.
    NorthAmericanFarming,
    /// Spanish silver/treasure port.
    SpanishTreasure,
    /// Spanish secondary entrepot.
    SpanishEntrepot,
    /// Pirate haven: consumes, produces nothing.
    PirateHaven,
    /// Generic minor port.
    Minor,
    /// London.
    EuropeanLondon,
    /// Amsterdam.
    EuropeanAmsterdam,
    /// Cadiz.
    EuropeanCadiz,
    /// Nantes.
    EuropeanNantes,
    /// Elmina, Gold Coast.
    AfricanElmina,
    /// Ouidah, Bight of Benin.
    AfricanOuidah,
}

/// Archetype of the port named `name`; unknown names are minor ports.
pub open spec fn archetype_of(name: Seq<char>) -> PortArchetype {
    if name == "Bridgetown"@ || name == "Port Royal"@ || name == "Kingston"@ || name == "Basseterre"@ || name == "English Harbour"@ || name == "Fort-Royal"@ || name == "Basse-Terre"@ || name == "Cap-Français"@ || name == "Petit-Goâve"@ || name == "Paramaribo"@ || name == "Cayenne"@ || name == "Willemstad"@ || name == "St. Eustatius"@ {
        PortArchetype::SugarIsland
    } else if name == "Charleston"@ {
        PortArchetype::TobaccoColony
    } else if name == "Boston"@ || name == "Philadelphia"@ || name == "New York"@ {
        PortArchetype::NorthAmericanFarming
    } else if name == "Cartagena"@ || name == "Portobelo"@ {
        PortArchetype::SpanishTreasure
    } else if name == "Havana"@ || name == "Santo Domingo"@ || name == "Santiago de Cuba"@ || name == "San Juan"@ {
        PortArchetype::SpanishEntrepot
    } else if name == "Tortuga"@ || name == "Nassau"@ || name == "Tobago"@ {
        PortArchetype::PirateHaven
    } else if name == "Bermuda"@ {
        PortArchetype::NorthAmericanFarming
    } else if name == "London"@ {
        PortArchetype::EuropeanLondon
    } else if name == "Amsterdam"@ {
        PortArchetype::EuropeanAmsterdam
    } else if name == "Cadiz"@ {
        PortArchetype::EuropeanCadiz
    } else if name == "Nantes"@ {
        PortArchetype::EuropeanNantes
    } else if name == "Elmina"@ {
        PortArchetype::AfricanElmina
    } else if name == "Ouidah"@ {
        PortArchetype::AfricanOuidah
    } else {
        PortArchetype::Minor
    }
}

/// Map a port name to its archetype.
pub fn archetype_for(port_name: &str) -> (a: PortArchetype)
    ensures
        a == archetype_of(port_name@),
{
    if str_eq(port_name, "Bridgetown") || str_eq(port_name, "Port Royal") || str_eq(port_name, "Kingston") || str_eq(port_name, "Basseterre") || str_eq(port_name, "English Harbour") || str_eq(port_name, "Fort-Royal") || str_eq(port_name, "Basse-Terre") || str_eq(port_name, "Cap-Français") || str_eq(port_name, "Petit-Goâve") || str_eq(port_name, "Paramaribo") || str_eq(port_name, "Cayenne") || str_eq(port_name, "Willemstad") || str_eq(port_name, "St. Eustatius") {
        PortArchetype::SugarIsland
    } else if str_eq(port_name, "Charleston") {
        PortArchetype::TobaccoColony
    } else if str_eq(port_name, "Boston") || str_eq(port_name, "Philadelphia") || str_eq(port_name, "New York") {
        PortArchetype::NorthAmericanFarming
    } else if str_eq(port_name, "Cartagena") || str_eq(port_name, "Portobelo") {
        PortArchetype::SpanishTreasure
    } else if str_eq(port_name, "Havana") || str_eq(port_name, "Santo Domingo") || str_eq(port_name, "Santiago de Cuba") || str_eq(port_name, "San Juan") {
        PortArchetype::SpanishEntrepot
    } else if str_eq(port_name, "Tortuga") || str_eq(port_name, "Nassau") || str_eq(port_name, "Tobago") {
        PortArchetype::PirateHaven
    } else if str_eq(port_name, "Bermuda") {
        PortArchetype::NorthAmericanFarming
    } else if str_eq(port_name, "London") {
        PortArchetype::EuropeanLondon
    } else if str_eq(port_name, "Amsterdam") {
        PortArchetype::EuropeanAmsterdam
    } else if str_eq(port_name, "Cadiz") {
        PortArchetype::EuropeanCadiz
    } else if str_eq(port_name, "Nantes") {
        PortArchetype::EuropeanNantes
    } else if str_eq(port_name, "Elmina") {
        PortArchetype::AfricanElmina
    } else if str_eq(port_name, "Ouidah") {
        PortArchetype::AfricanOuidah
    } else {
        PortArchetype::Minor
    }
}

/// `x` clamped at zero.
pub open spec fn nonneg(x: int) -> int {
    if x < 0 {
        0
    } else {
        x
    }
}

/// Home-port settlement: a ship docking at its owner port hands its
/// silver above `float` to the port treasury. Returns the amount moved.
pub fn deposit_owner_profit(port_silver: &mut Pesos, ship_silver: &mut Pesos, float: Pesos) -> (moved: Pesos)
    requires
        fits_i64(old(ship_silver)@ - float@),
        fits_i64(old(port_silver)@ + nonneg(old(ship_silver)@ - float@)),
    ensures
        moved@ == nonneg(old(ship_silver)@ - float@),
        final(ship_silver)@ == old(ship_silver)@ - moved@,
        final(port_silver)@ == old(port_silver)@ + moved@,
        final(port_silver)@ + final(ship_silver)@ == old(port_silver)@ + old(ship_silver)@,
{
    let surplus = ship_silver.minus(float);
    if !surplus.is_positive() {
        return Pesos::zero();
    }
    ship_silver.sub_in_place(surplus);
    port_silver.add_in_place(surplus);
    surplus
}

/// Outbound-cargo capital draw at the home port: tops the ship's silver
/// up toward `target`, taking at most `port_cap` (the share of the
/// treasury one draw may take, clamped at zero). Returns the amount
/// moved.
pub fn draw_for_outfit(port_silver: &mut Pesos, ship_silver: &mut Pesos, target: Pesos, port_cap: Pesos) -> (drawn: Pesos)
    requires
        fits_i64(target@ - old(ship_silver)@),
        fits_i64(old(port_silver)@ - nonneg(port_cap@)),
        fits_i64(old(ship_silver)@ + nonneg(port_cap@)),
    ensures
        drawn@ == if target@ - old(ship_silver)@ <= 0 {
            0
        } else {
            nonneg(min_int(target@ - old(ship_silver)@, nonneg(port_cap@)))
        },
        final(ship_silver)@ == old(ship_silver)@ + drawn@,
        final(port_silver)@ == old(port_silver)@ - drawn@,
        final(port_silver)@ + final(ship_silver)@ == old(port_silver)@ + old(ship_silver)@,
{
    let needed = target.minus(*ship_silver);
    if !needed.is_positive() {
        return Pesos::zero();
    }
    let cap = port_cap.max_zero();
    let drawn = needed.min(cap).max_zero();
    if !drawn.is_positive() {
        return Pesos::zero();
    }
    port_silver.sub_in_place(drawn);
    ship_silver.add_in_place(drawn);
    drawn
}

/// The smaller of two integers.
pub open spec fn min_int(a: int, b: int) -> int {
    if a <= b {
        a
    } else {
        b
    }
}

/// Chandler/factor credit to a docked ship: advances up to `target`, no
/// more than leaves the ship's debt at `max_total_debt`, and no more than
/// `liquidity_cap` (the share of the treasury the port will lend, clamped
/// at zero). The advance is booked as ship debt. Returns the amount
/// advanced.
pub fn extend_credit(
    port_silver: &mut Pesos,
    ship_silver: &mut Pesos,
    ship_debt: &mut Pesos,
    target: Pesos,
    max_total_debt: Pesos,
    liquidity_cap: Pesos,
) -> (advance: Pesos)
    requires
        fits_i64(max_total_debt@ - old(ship_debt)@),
        fits_i64(old(port_silver)@ - nonneg(liquidity_cap@)),
        fits_i64(old(ship_silver)@ + nonneg(liquidity_cap@)),
        fits_i64(old(ship_debt)@ + nonneg(liquidity_cap@)),
    ensures
        advance@ == nonneg(min_int(min_int(nonneg(target@), nonneg(max_total_debt@ - old(ship_debt)@)), nonneg(liquidity_cap@))),
        final(port_silver)@ == old(port_silver)@ - advance@,
        final(ship_silver)@ == old(ship_silver)@ + advance@,
        final(ship_debt)@ == old(ship_debt)@ + advance@,
        final(port_silver)@ + final(ship_silver)@ == old(port_silver)@ + old(ship_silver)@,
        old(ship_debt)@ <= max_total_debt@ ==> final(ship_debt)@ <= max_total_debt@,
        old(ship_debt)@ > max_total_debt@ ==> final(ship_debt)@ == old(ship_debt)@,
{
    let needed = target.max_zero();
    let debt_headroom = max_total_debt.minus(*ship_debt).max_zero();
    let liquidity = liquidity_cap.max_zero();
    let advance = needed.min(debt_headroom).min(liquidity);
    if !advance.is_positive() {
        return Pesos::zero();
    }
    port_silver.sub_in_place(advance);
    ship_silver.add_in_place(advance);
    ship_debt.add_in_place(advance);
    advance
}

/// Settle outstanding ship debt against the port treasury from the
/// ship's silver above `float`. Returns the amount paid.
pub fn collect_debt(port_silver: &mut Pesos, ship_silver: &mut Pesos, ship_debt: &mut Pesos, float: Pesos) -> (payment: Pesos)
    requires
        fits_i64(old(ship_silver)@ - float@),
        fits_i64(old(port_silver)@ + nonneg(old(ship_debt)@)),
    ensures
        payment@ == if old(ship_debt)@ <= 0 {
            0
        } else {
            min_int(nonneg(old(ship_silver)@ - float@), old(ship_debt)@)
        },
        final(ship_silver)@ == old(ship_silver)@ - payment@,
        final(ship_debt)@ == old(ship_debt)@ - payment@,
        final(port_silver)@ == old(port_silver)@ + payment@,
        final(port_silver)@ + final(ship_silver)@ == old(port_silver)@ + old(ship_silver)@,
        0 <= final(ship_debt)@ <= old(ship_debt)@ || (old(ship_debt)@ <= 0 && final(ship_debt)@ == old(ship_debt)@),
{
    if !ship_debt.is_positive() {
        return Pesos::zero();
    }
    let available = ship_silver.minus(float).max_zero();
    let payment = available.min(*ship_debt);
    if !payment.is_positive() {
        return Pesos::zero();
    }
    ship_silver.sub_in_place(payment);
    ship_debt.sub_in_place(payment);
    port_silver.add_in_place(payment);
    payment
}

/// The silver side of a direct buy from the port. `base` is the goods'
/// value at the post-trade price and `duty` the crown's levy on it;
/// `positive`, `room` and `stocked` are the tonnage checks (an amount
/// above zero, room in the hold, enough stock in the port), made in that
/// order around the silver check. On success the ship pays `base + duty`,
/// the port receives `base` and the crown `duty`; on any error nothing
/// moves.
pub fn settle_buy(
    ship_silver: &mut Pesos,
    port_silver: &mut Pesos,
    crown_silver: &mut Pesos,
    base: Pesos,
    duty: Pesos,
    positive: bool,
    room: bool,
    stocked: bool,
) -> (r: Result<Pesos, TradeError>)
    requires
        positive ==> fits_i64(base@ + duty@),
        positive && base@ + duty@ <= old(ship_silver)@ && room && stocked ==> {
            &&& fits_i64(old(ship_silver)@ - (base@ + duty@))
            &&& fits_i64(old(port_silver)@ + base@)
            &&& fits_i64(old(crown_silver)@ + duty@)
        },
    ensures
        !positive ==> r == Err::<Pesos, TradeError>(TradeError::NonPositiveAmount),
        positive && base@ + duty@ > old(ship_silver)@ ==> r == Err::<Pesos, TradeError>(TradeError::InsufficientSilver),
        positive && base@ + duty@ <= old(ship_silver)@ && !room ==> r == Err::<Pesos, TradeError>(
            TradeError::InsufficientCargoSpace,
        ),
        positive && base@ + duty@ <= old(ship_silver)@ && room && !stocked ==> r == Err::<Pesos, TradeError>(
            TradeError::InsufficientStockpile,
        ),
        positive && base@ + duty@ <= old(ship_silver)@ && room && stocked ==> (r matches Ok(p) && p@ == base@ + duty@),
        final(ship_silver)@ + final(port_silver)@ + final(crown_silver)@ == old(ship_silver)@ + old(port_silver)@ + old(
            crown_silver,
        )@,
        r is Ok ==> {
            &&& final(ship_silver)@ == old(ship_silver)@ - (base@ + duty@)
            &&& final(port_silver)@ == old(port_silver)@ + base@
            &&& final(crown_silver)@ == old(crown_silver)@ + duty@
        },
        r is Err ==> {
            &&& final(ship_silver)@ == old(ship_silver)@
            &&& final(port_silver)@ == old(port_silver)@
            &&& final(crown_silver)@ == old(crown_silver)@
        },
{
    if !positive {
        return Err(TradeError::NonPositiveAmount);
    }
    let cost = base.plus(duty);
    if cost.as_centavos() > ship_silver.as_centavos() {
        return Err(TradeError::InsufficientSilver);
    }
    if !room {
        return Err(TradeError::InsufficientCargoSpace);
    }
    if !stocked {
        return Err(TradeError::InsufficientStockpile);
    }
    ship_silver.sub_in_place(cost);
    port_silver.add_in_place(base);
    crown_silver.add_in_place(duty);
    Ok(cost)
}

/// The silver side of a direct sale to the port. `base` is the goods'
/// value at the post-trade price and `duty` the crown's levy on it;
/// `positive` and `carried` are the tonnage checks (an amount above zero,
/// enough of the good aboard), made before the port's silver is checked.
/// On success the port pays `base`, the crown keeps `duty` of it and the
/// ship receives the rest; on any error nothing moves.
pub fn settle_sell(
    ship_silver: &mut Pesos,
    port_silver: &mut Pesos,
    crown_silver: &mut Pesos,
    base: Pesos,
    duty: Pesos,
    positive: bool,
    carried: bool,
) -> (r: Result<Pesos, TradeError>)
    requires
        positive && carried && base@ <= old(port_silver)@ ==> {
            &&& fits_i64(base@ - duty@)
            &&& fits_i64(old(port_silver)@ - base@)
            &&& fits_i64(old(crown_silver)@ + duty@)
            &&& fits_i64(old(ship_silver)@ + (base@ - duty@))
        },
    ensures
        !positive ==> r == Err::<Pesos, TradeError>(TradeError::NonPositiveAmount),
        positive && !carried ==> r == Err::<Pesos, TradeError>(TradeError::InsufficientShipCargo),
        positive && carried && base@ > old(port_silver)@ ==> r == Err::<Pesos, TradeError>(
            TradeError::InsufficientPortSilver,
        ),
        positive && carried && base@ <= old(port_silver)@ ==> (r matches Ok(p) && p@ == base@ - duty@),
        final(ship_silver)@ + final(port_silver)@ + final(crown_silver)@ == old(ship_silver)@ + old(port_silver)@ + old(
            crown_silver,
        )@,
        r is Ok ==> {
            &&& final(ship_silver)@ == old(ship_silver)@ + (base@ - duty@)
            &&& final(port_silver)@ == old(port_silver)@ - base@
            &&& final(crown_silver)@ == old(crown_silver)@ + duty@
        },
        r is Err ==> {
            &&& final(ship_silver)@ == old(ship_silver)@
            &&& final(port_silver)@ == old(port_silver)@
            &&& final(crown_silver)@ == old(crown_silver)@
        },
{
    if !positive {
        return Err(TradeError::NonPositiveAmount);
    }
    if !carried {
        return Err(TradeError::InsufficientShipCargo);
    }
    if base.as_centavos() > port_silver.as_centavos() {
        return Err(TradeError::InsufficientPortSilver);
    }
    let proceeds = base.minus(duty);
    port_silver.sub_in_place(base);
    crown_silver.add_in_place(duty);
    ship_silver.add_in_place(proceeds);
    Ok(proceeds)
}

} // verus!
