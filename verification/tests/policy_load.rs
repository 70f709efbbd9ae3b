use sim_core::goods::ids;
use sim_core::goods::GoodId;
use sim_core::policy::load::{
    resolve_port_policies, DockingRuleRecord, PortPolicyLoadError, PortPolicyRecord, TradeOverrideRecord,
};
use sim_core::policy::{DockingRule, FactionSet, GoodRule};
use sim_core::port::Faction;

fn names(xs: &[&str]) -> Vec<String> {
    xs.iter().map(|s| s.to_string()).collect()
}

fn goods() -> Vec<String> {
    names(&["Provisions", "Muscovado Sugar", "Molasses", "Rum"])
}

#[test]
fn docking_record_lists_become_sets() {
    let d = DockingRule::from_record(&DockingRuleRecord::OnlyFlags(vec![Faction::Spain, Faction::France, Faction::Spain]));
    assert_eq!(d, DockingRule::OnlyFlags(FactionSet::empty().with(Faction::Spain).with(Faction::France)));
    assert!(!d.admits(Faction::England));
    let c = DockingRule::from_record(&DockingRuleRecord::ClosedTo(vec![]));
    assert_eq!(c, DockingRule::ClosedTo(FactionSet::empty()));
    assert_eq!(DockingRule::from_record(&DockingRuleRecord::Open), DockingRule::Open);
}

#[test]
fn records_resolve_ports_and_goods_by_name() {
    let recs = vec![
        PortPolicyRecord {
            port: "Havana".to_string(),
            docking: Some(DockingRuleRecord::ClosedTo(vec![Faction::Free])),
            trade: vec![
                TradeOverrideRecord { flag: Faction::England, good: Some("muscovado SUGAR".to_string()), rule: GoodRule::prohibited() },
                TradeOverrideRecord { flag: Faction::Spain, good: None, rule: GoodRule::flat(300) },
            ],
        },
        PortPolicyRecord { port: "Nassau".to_string(), docking: None, trade: vec![] },
    ];
    let m = resolve_port_policies(&recs, &names(&["Nassau", "Havana"]), &goods()).expect("resolves");
    assert_eq!(m.len(), 2);
    let havana = &m[&1];
    assert_eq!(havana.docking, Some(DockingRule::ClosedTo(FactionSet::single(Faction::Free))));
    assert_eq!(
        havana.trade_overrides,
        vec![
            (Faction::England, Some(GoodId(ids::SUGAR)), GoodRule::prohibited()),
            (Faction::Spain, None, GoodRule::flat(300)),
        ]
    );
    assert!(m[&0].docking.is_none());
}

#[test]
fn unknown_port_good_and_repeats_are_refused() {
    let ports = names(&["Nassau", "Havana"]);
    let unknown_port = vec![PortPolicyRecord { port: "Atlantis".to_string(), docking: None, trade: vec![] }];
    assert_eq!(
        resolve_port_policies(&unknown_port, &ports, &goods()).err(),
        Some(PortPolicyLoadError::UnknownPort("Atlantis".to_string()))
    );
    let unknown_good = vec![PortPolicyRecord {
        port: "Nassau".to_string(),
        docking: None,
        trade: vec![TradeOverrideRecord { flag: Faction::Free, good: Some("Sugar".to_string()), rule: GoodRule::free() }],
    }];
    assert_eq!(
        resolve_port_policies(&unknown_good, &ports, &goods()).err(),
        Some(PortPolicyLoadError::UnknownGood { port: "Nassau".to_string(), good: "Sugar".to_string() })
    );
    let repeated = vec![
        PortPolicyRecord { port: "Havana".to_string(), docking: None, trade: vec![] },
        PortPolicyRecord { port: "Havana".to_string(), docking: Some(DockingRuleRecord::Open), trade: vec![] },
    ];
    assert_eq!(
        resolve_port_policies(&repeated, &ports, &goods()).err(),
        Some(PortPolicyLoadError::DuplicatePort("Havana".to_string()))
    );
    // port names are matched exactly
    let wrong_case = vec![PortPolicyRecord { port: "havana".to_string(), docking: None, trade: vec![] }];
    assert!(resolve_port_policies(&wrong_case, &ports, &goods()).is_err());
}
