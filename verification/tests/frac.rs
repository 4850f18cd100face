use go_game::frac::{Frac, FracError};

#[test]
fn test_frac() {
    let a = Frac::new(1, 0);
    assert!(a.is_err());

    let a = Frac::new(1, 1).unwrap();
    let b = Frac::new(1, 1).unwrap();
    let c = a + b;
    assert_eq!(c, Frac::new(2, 1).unwrap());

    let a = Frac::new(1, 2).unwrap();
    let b = Frac::new(1, 3).unwrap();
    let c = a + b;
    assert_eq!(c, Frac::new(5, 6).unwrap());

    let a = Frac::new(1, 2).unwrap();
    let b = Frac::new(1, 4).unwrap();
    let c = a + b;
    assert_eq!(c, Frac::new(3, 4).unwrap());

    let a = Frac::new(3, 4).unwrap();
    let b = Frac::new(1, 4).unwrap();
    let c = a + b;
    assert_eq!(c, Frac::new(1, 1).unwrap());
}

#[test]
fn zero_denominator_is_refused() {
    assert_eq!(Frac::new(0, 0), Err(FracError::ZeroDenominator));
    assert_eq!(Frac::new(7, 0), Err(FracError::ZeroDenominator));
}

#[test]
fn a_fraction_keeps_what_it_was_made_of() {
    let f = Frac::new(6, 8).unwrap();
    assert_eq!(f.num(), 6);
    assert_eq!(f.denom(), 8);
}

#[test]
fn sums_are_in_lowest_terms() {
    let zero = Frac::new(0, 5).unwrap();
    let sum = zero + Frac::new(0, 3).unwrap();
    assert_eq!((sum.num(), sum.denom()), (0, 1));
    let sum = Frac::new(2, 4).unwrap() + Frac::new(2, 4).unwrap();
    assert_eq!((sum.num(), sum.denom()), (1, 1));
    let sum = Frac::new(15, 4).unwrap() + Frac::new(81, 1).unwrap();
    assert_eq!((sum.num(), sum.denom()), (339, 4));
}
