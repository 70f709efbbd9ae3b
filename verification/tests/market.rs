use sim_core::goods::ids;
use sim_core::goods::GoodId;
use sim_core::market::recipe::RecipeTable;
use sim_core::market::{
    archetype_for, collect_debt, deposit_owner_profit, draw_for_outfit, extend_credit, settle_buy, settle_sell, PortArchetype,
    TradeError,
};
use sim_core::money::Pesos;

#[test]
fn archetype_for_known_ports() {
    assert!(matches!(archetype_for("Bridgetown"), PortArchetype::SugarIsland));
    assert!(matches!(archetype_for("Boston"), PortArchetype::NorthAmericanFarming));
    assert!(matches!(archetype_for("London"), PortArchetype::EuropeanLondon));
    assert!(matches!(archetype_for("Atlantis"), PortArchetype::Minor));
}

#[test]
fn every_european_hub_produces_gunpowder() {
    for archetype in [
        PortArchetype::EuropeanLondon,
        PortArchetype::EuropeanAmsterdam,
        PortArchetype::EuropeanCadiz,
        PortArchetype::EuropeanNantes,
    ] {
        let recipe: RecipeTable = archetype.recipe_table();
        assert!(recipe.outputs.iter().any(|(g, _)| *g == GoodId(ids::GUNPOWDER)));
    }
}

#[test]
fn sugar_island_recipe_is_a_net_food_importer() {
    let r = PortArchetype::SugarIsland.recipe_table();
    assert_eq!(r.outputs[0], (GoodId(ids::SUGAR), 800));
    let out_food: u32 = r.outputs.iter().filter(|(g, _)| *g == GoodId(ids::PROVISIONS)).map(|(_, t)| *t).sum();
    let in_food: u32 = r.inputs.iter().filter(|(g, _)| *g == GoodId(ids::PROVISIONS)).map(|(_, t)| *t).sum();
    assert_eq!((out_food, in_food), (50, 120));
    let london = PortArchetype::EuropeanLondon.recipe_table();
    assert!(london.inputs.contains(&(GoodId(ids::SILVER), 3)));
}

#[test]
fn african_recipes_take_no_silver() {
    for a in [PortArchetype::AfricanElmina, PortArchetype::AfricanOuidah] {
        assert!(!a.recipe_table().inputs.iter().any(|(g, _)| *g == GoodId(ids::SILVER)));
    }
}

#[test]
fn archetype_aliases_and_accents_resolve() {
    assert!(matches!(archetype_for("Kingston"), PortArchetype::SugarIsland));
    assert!(matches!(archetype_for("Cap-Français"), PortArchetype::SugarIsland));
    assert!(matches!(archetype_for("Havana"), PortArchetype::SpanishEntrepot));
    assert!(matches!(archetype_for("havana"), PortArchetype::Minor));
}

#[test]
fn settlements_move_silver_without_creating_it() {
    let mut port = Pesos::from_pesos(1000);
    let mut ship = Pesos::from_pesos(300);
    let moved = deposit_owner_profit(&mut port, &mut ship, Pesos::from_pesos(100));
    assert_eq!(moved, Pesos::from_pesos(200));
    assert_eq!((port, ship), (Pesos::from_pesos(1200), Pesos::from_pesos(100)));

    let drawn = draw_for_outfit(&mut port, &mut ship, Pesos::from_pesos(500), Pesos::from_pesos(1200));
    assert_eq!(drawn, Pesos::from_pesos(400));
    assert_eq!((port, ship), (Pesos::from_pesos(800), Pesos::from_pesos(500)));

    let mut debt = Pesos::from_pesos(150);
    let paid = collect_debt(&mut port, &mut ship, &mut debt, Pesos::from_pesos(400));
    assert_eq!(paid, Pesos::from_pesos(100));
    assert_eq!(debt, Pesos::from_pesos(50));
    assert_eq!(port.plus(ship), Pesos::from_pesos(1300));

    let advance = extend_credit(&mut port, &mut ship, &mut debt, Pesos::from_pesos(300), Pesos::from_pesos(200), Pesos::from_pesos(1000));
    assert_eq!(advance, Pesos::from_pesos(150));
    assert_eq!(debt, Pesos::from_pesos(200));
    assert_eq!((port, ship), (Pesos::from_pesos(750), Pesos::from_pesos(550)));
}

#[test]
fn settle_buy_moves_cost_to_port_and_duty_to_crown() {
    let (mut ship, mut port, mut crown) = (Pesos::from_pesos(1_000), Pesos::from_pesos(50_000), Pesos::zero());
    let r = settle_buy(&mut ship, &mut port, &mut crown, Pesos::from_pesos(400), Pesos::from_pesos(40), true, true, true);
    assert_eq!(r, Ok(Pesos::from_pesos(440)));
    assert_eq!((ship, port, crown), (Pesos::from_pesos(560), Pesos::from_pesos(50_400), Pesos::from_pesos(40)));
}

#[test]
fn settle_buy_checks_in_order_and_moves_nothing_on_error() {
    let (mut ship, mut port, mut crown) = (Pesos::from_pesos(100), Pesos::from_pesos(500), Pesos::from_pesos(7));
    let base = Pesos::from_pesos(90);
    let duty = Pesos::from_pesos(20);
    assert_eq!(settle_buy(&mut ship, &mut port, &mut crown, base, duty, false, false, false), Err(TradeError::NonPositiveAmount));
    assert_eq!(settle_buy(&mut ship, &mut port, &mut crown, base, duty, true, false, false), Err(TradeError::InsufficientSilver));
    let duty = Pesos::from_pesos(10);
    assert_eq!(settle_buy(&mut ship, &mut port, &mut crown, base, duty, true, false, false), Err(TradeError::InsufficientCargoSpace));
    assert_eq!(settle_buy(&mut ship, &mut port, &mut crown, base, duty, true, true, false), Err(TradeError::InsufficientStockpile));
    assert_eq!((ship, port, crown), (Pesos::from_pesos(100), Pesos::from_pesos(500), Pesos::from_pesos(7)));
    assert_eq!(settle_buy(&mut ship, &mut port, &mut crown, base, duty, true, true, true), Ok(Pesos::from_pesos(100)));
    assert_eq!(ship, Pesos::zero());
}

#[test]
fn settle_sell_pays_proceeds_net_of_duty() {
    let (mut ship, mut port, mut crown) = (Pesos::from_pesos(10), Pesos::from_pesos(300), Pesos::zero());
    let base = Pesos::from_pesos(200);
    let duty = Pesos::from_pesos(30);
    assert_eq!(settle_sell(&mut ship, &mut port, &mut crown, base, duty, false, true), Err(TradeError::NonPositiveAmount));
    assert_eq!(settle_sell(&mut ship, &mut port, &mut crown, base, duty, true, false), Err(TradeError::InsufficientShipCargo));
    assert_eq!(
        settle_sell(&mut ship, &mut port, &mut crown, Pesos::from_pesos(301), duty, true, true),
        Err(TradeError::InsufficientPortSilver)
    );
    assert_eq!(settle_sell(&mut ship, &mut port, &mut crown, base, duty, true, true), Ok(Pesos::from_pesos(170)));
    assert_eq!((ship, port, crown), (Pesos::from_pesos(180), Pesos::from_pesos(100), Pesos::from_pesos(30)));
}
