use sim_core::money::Pesos;
use sim_core::ship::{pay_or_owe, Crew, ShipPolicy};

fn ratio(c: &Crew) -> f32 {
    if c.alive == 0 {
        0.0
    } else {
        c.seasoned as f32 / c.alive as f32
    }
}

#[test]
fn apply_crew_losses_keeps_seasoned_ratio() {
    let mut crew = Crew::new(40, 20);
    let ratio_before = ratio(&crew);
    crew.apply_losses(10);
    assert_eq!(crew.alive, 30);
    assert_eq!(crew.seasoned, 15);
    assert!((ratio(&crew) - ratio_before).abs() < 1.0 / 30.0);
}

#[test]
fn apply_crew_losses_saturates_and_preserves_invariant() {
    let mut crew = Crew::new(5, 5);
    crew.apply_losses(100);
    assert_eq!(crew.alive, 0);
    assert_eq!(crew.seasoned, 0);
}

#[test]
fn detach_prize_crew_splits_seasoned_pro_rata() {
    let mut crew = Crew::new(20, 10);
    let (alive, seasoned) = crew.detach_prize_crew(8);
    assert_eq!((alive, seasoned), (8, 4));
    assert_eq!(crew.alive, 12);
    assert_eq!(crew.seasoned, 6);
}

#[test]
fn apply_crew_losses_pro_rata_preserves_invariant() {
    let mut crew = Crew::new(100, 40);
    crew.apply_losses(50);
    assert_eq!(crew.alive, 50);
    assert_eq!(crew.seasoned, 20);
    assert!(crew.seasoned <= crew.alive);
}

#[test]
fn apply_crew_losses_saturates_at_alive_and_zeroes_seasoned() {
    let mut crew = Crew::new(20, 5);
    crew.apply_losses(999);
    assert_eq!(crew.alive, 0);
    assert_eq!(crew.seasoned, 0);
}

#[test]
fn detach_prize_crew_returns_pro_rata_split() {
    let mut crew = Crew::new(50, 20);
    let (alive, seasoned) = crew.detach_prize_crew(10);
    assert_eq!(alive, 10);
    assert_eq!(seasoned, 4);
    assert_eq!(crew.alive, 40);
    assert_eq!(crew.seasoned, 16);
    assert!(crew.seasoned <= crew.alive);
}

#[test]
fn losses_round_toward_unseasoned_and_zero_is_a_no_op() {
    let mut crew = Crew::new(7, 3);
    crew.apply_losses(0);
    assert_eq!(crew, Crew::new(7, 3));
    crew.apply_losses(2);
    assert_eq!(crew, Crew::new(5, 3));
    let mut empty = Crew::new(0, 0);
    assert_eq!(empty.detach_prize_crew(4), (0, 0));
}

#[test]
fn prize_transfer_conserves_heads() {
    let mut crew = Crew::new(33, 17);
    let (a, s) = crew.detach_prize_crew(100);
    assert_eq!((a, s), (33, 17));
    assert_eq!(crew, Crew::new(0, 0));
    let mut crew = Crew::new(9, 4);
    let (a, s) = crew.detach_prize_crew(5);
    assert_eq!(crew.alive + a, 9);
    assert_eq!(crew.seasoned + s, 4);
    assert!(s <= a);
}

#[test]
fn default_policy_is_merchant() {
    assert_eq!(ShipPolicy::default(), ShipPolicy::Merchant);
}

#[test]
fn repair_bill_short_of_silver_becomes_debt() {
    let (mut silver, mut debt) = (Pesos::from_pesos(30), Pesos::zero());
    assert_eq!(pay_or_owe(&mut silver, &mut debt, Pesos::from_pesos(100)), Pesos::from_pesos(30));
    assert_eq!((silver, debt), (Pesos::zero(), Pesos::from_pesos(70)));
    let (mut silver, mut debt) = (Pesos::from_pesos(-5), Pesos::from_pesos(1));
    assert_eq!(pay_or_owe(&mut silver, &mut debt, Pesos::from_pesos(10)), Pesos::zero());
    assert_eq!((silver, debt), (Pesos::from_pesos(-5), Pesos::from_pesos(11)));
    let (mut silver, mut debt) = (Pesos::from_pesos(500), Pesos::zero());
    assert_eq!(pay_or_owe(&mut silver, &mut debt, Pesos::from_pesos(100)), Pesos::from_pesos(100));
    assert_eq!((silver, debt), (Pesos::from_pesos(400), Pesos::zero()));
}
