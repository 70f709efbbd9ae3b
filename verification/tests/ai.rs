use sim_core::ai::{arrival, Arrival};
use sim_core::money::Pesos;
use sim_core::policy::DockLegality;

#[test]
fn refused_port_turns_the_ship_away() {
    let a = arrival(Some(2), DockLegality::Refused, 5, Some(2), Pesos::from_pesos(900), Pesos::from_pesos(10));
    assert_eq!(a, Arrival::Refused);
}

#[test]
fn home_port_arrival_collects_debt_and_banks_the_surplus() {
    let a = arrival(Some(2), DockLegality::Open, 5, Some(2), Pesos::from_pesos(900), Pesos::from_pesos(10));
    assert_eq!(a, Arrival::Docked { port: Some(2), collect_debt: true, deposit: Some(Pesos::from_pesos(400)) });
    let a = arrival(Some(2), DockLegality::Open, 5, Some(3), Pesos::from_pesos(900), Pesos::zero());
    assert_eq!(a, Arrival::Docked { port: Some(2), collect_debt: false, deposit: None });
    let a = arrival(Some(2), DockLegality::Open, 5, Some(2), Pesos::from_pesos(500), Pesos::zero());
    assert_eq!(a, Arrival::Docked { port: Some(2), collect_debt: false, deposit: None });
    let a = arrival(None, DockLegality::Refused, 5, Some(2), Pesos::from_pesos(900), Pesos::from_pesos(1));
    assert_eq!(a, Arrival::Docked { port: None, collect_debt: false, deposit: None });
}
