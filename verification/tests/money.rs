use sim_core::money::Pesos;

#[test]
fn whole_peso_construction_and_arithmetic() {
    let a = Pesos::from_pesos(50);
    let b = Pesos::from_pesos(30);
    assert_eq!((a + b).as_centavos(), 8000);
    assert_eq!((a - b).as_centavos(), 2000);
}

#[test]
fn saturating_sub_never_goes_negative() {
    let a = Pesos::from_pesos(5);
    let b = Pesos::from_pesos(7);
    assert_eq!(a.saturating_sub(b), Pesos::zero());
    assert_eq!(b.saturating_sub(a).as_centavos(), 200);
}

#[test]
fn display_renders_two_decimals() {
    assert_eq!(Pesos::from_centavos(123_45).to_display_string(), "123.45 pesos");
    assert_eq!(Pesos::from_centavos(-7_05).to_display_string(), "-7.05 pesos");
}

#[test]
fn sum_iterator() {
    let xs = [Pesos::from_pesos(10), Pesos::from_pesos(20), Pesos::from_pesos(3)];
    let s = Pesos::sum_of(&xs);
    assert_eq!(s.as_centavos(), 3300);
}

#[test]
fn from_pesos_saturates_at_the_representable_range() {
    assert_eq!(Pesos::from_pesos(i64::MAX).as_centavos(), i64::MAX);
    assert_eq!(Pesos::from_pesos(i64::MIN).as_centavos(), i64::MIN);
    assert_eq!(Pesos::from_pesos(-3).as_centavos(), -300);
}

#[test]
fn sign_predicates_and_bounds() {
    let p = Pesos::from_centavos(250);
    let n = Pesos::from_centavos(-1);
    assert!(p.is_positive() && !p.is_negative() && !p.is_zero());
    assert!(n.is_negative() && !n.is_positive());
    assert!(Pesos::zero().is_zero());
    assert_eq!(n.max_zero(), Pesos::zero());
    assert_eq!(p.max_zero(), p);
    assert_eq!(p.min(n), n);
    assert_eq!(p.max(n), p);
    assert_eq!((-p).as_centavos(), -250);
    assert_eq!(p.negated().as_centavos(), -250);
}

#[test]
fn in_place_arithmetic_matches_operators() {
    let mut a = Pesos::from_pesos(7);
    a.add_in_place(Pesos::from_centavos(5));
    assert_eq!(a.as_centavos(), 705);
    a.sub_in_place(Pesos::from_pesos(8));
    assert_eq!(a.as_centavos(), -95);
    assert_eq!(Pesos::from_pesos(2).plus(Pesos::from_pesos(3)), Pesos::from_pesos(5));
    assert_eq!(Pesos::from_pesos(2).minus(Pesos::from_pesos(3)), Pesos::from_pesos(-1));
}

#[test]
fn display_of_small_negative_amount_drops_the_sign() {
    assert_eq!(Pesos::from_centavos(-5).display_parts(), (0, 5));
    assert_eq!(Pesos::from_centavos(-5).to_display_string(), "0.05 pesos");
    assert_eq!(Pesos::from_centavos(100).to_display_string(), "1.00 pesos");
}
