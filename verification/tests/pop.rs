use sim_core::pop::{tick_monthly, PortCategory, PortDemographics};
use sim_core::port::Faction;

#[test]
fn seed_european_hub_is_large() {
    let d = PortDemographics::seed(PortCategory::EuropeanHub, Faction::England);
    assert!(d.total() > 5000);
}

#[test]
fn seed_pirate_haven_is_small() {
    let d = PortDemographics::seed(PortCategory::PirateHaven, Faction::Pirate);
    assert!(d.total() < 50);
}

#[test]
fn spain_seed_smaller_than_england_seed() {
    let s = PortDemographics::seed(PortCategory::CaribbeanEntrepot, Faction::Spain);
    let e = PortDemographics::seed(PortCategory::CaribbeanEntrepot, Faction::England);
    assert!(s.total() < e.total());
}

#[test]
fn monthly_tick_european_hub_grows_steadily() {
    let mut d = PortDemographics::seed(PortCategory::EuropeanHub, Faction::England);
    let start = d.total();
    for _ in 0..12 {
        tick_monthly(&mut d, Faction::England);
    }
    assert!(d.total() > start, "expected growth: start={} end={}", start, d.total());
}

#[test]
fn monthly_tick_pirate_haven_does_not_grow() {
    let mut d = PortDemographics::seed(PortCategory::PirateHaven, Faction::Pirate);
    let start = d.total();
    for _ in 0..12 {
        tick_monthly(&mut d, Faction::Pirate);
    }
    assert!(d.total() <= start, "expected no growth: start={} end={}", start, d.total());
}

#[test]
fn unseasoned_matures_into_seasoned() {
    let mut d = PortDemographics { seasoned: 0, unseasoned: 1000, category: PortCategory::SmallColonial };
    tick_monthly(&mut d, Faction::England);
    assert!(d.seasoned > 0, "expected some maturation");
}

#[test]
fn caribbean_pool_finds_steady_state() {
    let mut d = PortDemographics::seed(PortCategory::CaribbeanEntrepot, Faction::England);
    let start = d.total();
    for _ in 0..24 {
        tick_monthly(&mut d, Faction::England);
    }
    assert!(d.total() > start / 4, "collapsed: {} -> {}", start, d.total());
    assert!(d.total() < start * 4, "exploded: {} -> {}", start, d.total());
}

#[test]
fn empty_pool_stays_empty() {
    let mut d = PortDemographics { seasoned: 0, unseasoned: 0, category: PortCategory::PirateHaven };
    tick_monthly(&mut d, Faction::Free);
    assert_eq!(d.total(), 0);
}
