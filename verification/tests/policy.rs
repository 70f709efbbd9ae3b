use std::collections::BTreeMap;

use sim_core::goods::ids;
use sim_core::goods::GoodId;
use sim_core::policy::{
    clamp_duty, DockLegality, DockingRule, FactionSet, GoodRule, PolicyResolver, PortPolicy, TradeLegality,
};
use sim_core::port::Faction;

const ALL_FLAGS: [Faction; 5] = [Faction::Spain, Faction::England, Faction::France, Faction::Netherlands, Faction::Free];

#[test]
fn faction_set_round_trip() {
    let s = FactionSet::empty().with(Faction::Spain).with(Faction::France);
    assert!(s.contains(Faction::Spain));
    assert!(s.contains(Faction::France));
    assert!(!s.contains(Faction::England));
    assert!(!s.without(Faction::Spain).contains(Faction::Spain));
    assert!(FactionSet::all().contains(Faction::Free));
}

#[test]
fn docking_rule_admits() {
    assert!(DockingRule::Open.admits(Faction::England));
    let only_spain = DockingRule::OnlyFlags(FactionSet::single(Faction::Spain));
    assert!(only_spain.admits(Faction::Spain));
    assert!(!only_spain.admits(Faction::England));
    let closed_to_dutch = DockingRule::ClosedTo(FactionSet::single(Faction::Netherlands));
    assert!(closed_to_dutch.admits(Faction::Spain));
    assert!(!closed_to_dutch.admits(Faction::Netherlands));
}

#[test]
fn spanish_port_refuses_foreign_dockers() {
    let r = PolicyResolver::from_factions(&[Faction::Spain]);
    assert_eq!(r.dock_legality(0, Faction::Spain), DockLegality::Open);
    assert_eq!(r.dock_legality(0, Faction::England), DockLegality::Refused);
    assert_eq!(r.dock_legality(0, Faction::Netherlands), DockLegality::Refused);
}

#[test]
fn dutch_port_open_to_all_low_duty() {
    let r = PolicyResolver::from_factions(&[Faction::Netherlands]);
    for f in ALL_FLAGS {
        assert_eq!(r.dock_legality(0, f), DockLegality::Open);
        match r.buy_legality(0, f, GoodId(ids::SUGAR)) {
            TradeLegality::Legal { duty_bp } => assert_eq!(duty_bp, 200),
            _ => panic!("dutch port should allow buying sugar under any flag"),
        }
    }
}

#[test]
fn english_port_bans_foreign_sale_of_enumerated_sugar() {
    let r = PolicyResolver::from_factions(&[Faction::England]);
    match r.sell_legality(0, Faction::England, GoodId(ids::SUGAR)) {
        TradeLegality::Legal { duty_bp } => assert_eq!(duty_bp, 500),
        _ => panic!("english own-flag should be able to sell sugar"),
    }
    assert_eq!(r.sell_legality(0, Faction::Netherlands, GoodId(ids::SUGAR)), TradeLegality::Prohibited);
    assert_eq!(r.buy_legality(0, Faction::Netherlands, GoodId(ids::SUGAR)), TradeLegality::Prohibited);
    match r.buy_legality(0, Faction::Netherlands, GoodId(ids::MANUFACTURES)) {
        TradeLegality::Legal { duty_bp } => assert_eq!(duty_bp, 1000),
        _ => panic!("english port should allow Dutch ship to buy manufactures"),
    }
}

#[test]
fn spanish_silver_taxed_at_quinto() {
    let r = PolicyResolver::from_factions(&[Faction::Spain]);
    match r.buy_legality(0, Faction::Spain, GoodId(ids::SILVER)) {
        TradeLegality::Legal { duty_bp } => assert_eq!(duty_bp, 2000),
        _ => panic!("Spanish own-flag should be able to buy silver under quinto"),
    }
}

#[test]
fn free_port_is_completely_open() {
    let r = PolicyResolver::from_factions(&[Faction::Free]);
    for f in ALL_FLAGS {
        assert_eq!(r.dock_legality(0, f), DockLegality::Open);
        match r.buy_legality(0, f, GoodId(ids::RUM)) {
            TradeLegality::Legal { duty_bp } => assert_eq!(duty_bp, 0),
            _ => panic!("free port should allow rum buys with zero duty"),
        }
    }
}

#[test]
fn port_override_replaces_docking() {
    let mut overrides = BTreeMap::new();
    overrides.insert(0, PortPolicy { docking: Some(DockingRule::Open), trade_overrides: Vec::new() });
    let r = PolicyResolver::build(&[Faction::Spain], &overrides);
    assert_eq!(r.dock_legality(0, Faction::England), DockLegality::Open);
}

#[test]
fn port_override_replaces_per_flag_default_rule() {
    let mut overrides = BTreeMap::new();
    overrides.insert(
        0,
        PortPolicy {
            docking: Some(DockingRule::Open),
            trade_overrides: vec![(Faction::England, None, GoodRule::flat(500))],
        },
    );
    let r = PolicyResolver::build(&[Faction::France], &overrides);
    match r.buy_legality(0, Faction::England, GoodId(ids::MANUFACTURES)) {
        TradeLegality::Legal { duty_bp } => assert_eq!(duty_bp, 500),
        _ => panic!("override should permit buy"),
    }
}

#[test]
fn per_good_override_touches_only_that_good() {
    let mut overrides = BTreeMap::new();
    overrides.insert(
        0,
        PortPolicy { docking: None, trade_overrides: vec![(Faction::England, Some(GoodId(ids::RUM)), GoodRule::prohibited())] },
    );
    let r = PolicyResolver::build(&[Faction::Free], &overrides);
    assert_eq!(r.buy_legality(0, Faction::England, GoodId(ids::RUM)), TradeLegality::Prohibited);
    assert_eq!(r.buy_legality(0, Faction::England, GoodId(ids::SUGAR)), TradeLegality::Legal { duty_bp: 0 });
    assert_eq!(r.buy_legality(0, Faction::Spain, GoodId(ids::RUM)), TradeLegality::Legal { duty_bp: 0 });
    assert_eq!(r.dock_legality(0, Faction::England), DockLegality::Open);
}

#[test]
fn duties_are_clamped_below_one() {
    assert_eq!(clamp_duty(12_000), 9900);
    assert_eq!(clamp_duty(250), 250);
    let mut overrides = BTreeMap::new();
    overrides.insert(0, PortPolicy { docking: None, trade_overrides: vec![(Faction::Spain, None, GoodRule::flat(50_000))] });
    let r = PolicyResolver::build(&[Faction::England], &overrides);
    assert_eq!(r.sell_legality(0, Faction::Spain, GoodId(ids::PROVISIONS)), TradeLegality::Legal { duty_bp: 9900 });
}

#[test]
fn french_port_refuses_closed_flags() {
    let r = PolicyResolver::from_factions(&[Faction::France]);
    assert_eq!(r.dock_legality(0, Faction::France), DockLegality::Open);
    assert_eq!(r.dock_legality(0, Faction::England), DockLegality::Refused);
}
