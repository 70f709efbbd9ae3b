use sim_core::goods::GoodId;
use sim_core::money::Pesos;
use sim_core::port::Faction;
use sim_core::telemetry::PortTelemetry;

#[test]
fn add_production_is_sorted_and_summed() {
    let mut t = PortTelemetry::default();
    t.add_production(GoodId(3), Pesos::from_pesos(100));
    t.add_production(GoodId(1), Pesos::from_pesos(50));
    t.add_production(GoodId(3), Pesos::from_pesos(25));
    assert_eq!(t.lifetime_production_by_good.len(), 2);
    assert_eq!(t.lifetime_production_by_good[0].0, GoodId(1));
    assert_eq!(t.lifetime_production_by_good[0].1, Pesos::from_pesos(50));
    assert_eq!(t.lifetime_production_by_good[1].0, GoodId(3));
    assert_eq!(t.lifetime_production_by_good[1].1, Pesos::from_pesos(125));
    assert_eq!(t.lifetime_production, Pesos::from_pesos(175));
}

#[test]
fn docking_counter_per_flag() {
    let t = PortTelemetry::default();
    t.record_docking(Faction::England);
    t.record_docking(Faction::England);
    t.record_docking(Faction::Spain);
    let snap = t.dockings_snapshot();
    assert_eq!(snap[Faction::England.index()], 2);
    assert_eq!(snap[Faction::Spain.index()], 1);
    assert_eq!(snap[Faction::Free.index()], 0);
}

#[test]
fn add_production_inserts_in_good_order() {
    let mut t = PortTelemetry::new();
    t.add_production(GoodId(9), Pesos::from_pesos(1));
    t.add_production(GoodId(0), Pesos::from_pesos(2));
    t.add_production(GoodId(4), Pesos::from_pesos(3));
    let goods: Vec<u8> = t.lifetime_production_by_good.iter().map(|(g, _)| g.0).collect();
    assert_eq!(goods, vec![0, 4, 9]);
    assert_eq!(t.lifetime_production, Pesos::from_pesos(6));
    assert_eq!(t.lifetime_duties, Pesos::zero());
}
