use schist::decimal::{Rounding, Decimal};
use std::cmp::Ordering;

#[test]
fn parse_and_display() {
    assert_eq!(Decimal::parse("12.34").unwrap().to_string(), "12.34");
    assert_eq!(Decimal::parse("-0.005").unwrap().to_string(), "-0.005");
    assert_eq!(Decimal::parse("100").unwrap().to_string(), "100");
    assert_eq!(Decimal::parse("0.50").unwrap().to_string(), "0.50");
    assert!(Decimal::parse("abc").is_err());
    assert!(Decimal::parse("").is_err());
}

#[test]
fn add_sub_align_scales() {
    let a = Decimal::parse("1.5").unwrap();
    let b = Decimal::parse("2.25").unwrap();
    assert_eq!(a.add(&b).to_string(), "3.75");
    assert_eq!(b.sub(&a).to_string(), "0.75");
}

#[test]
fn multiply_scales_add() {
    let a = Decimal::parse("1.2").unwrap();
    let b = Decimal::parse("1.3").unwrap();
    let p = a.mul(&b);
    assert_eq!(p.scale(), 2);
    assert_eq!(p.to_string(), "1.56");
}

#[test]
fn divide_with_rounding() {
    let a = Decimal::from_i64(10);
    let b = Decimal::from_i64(3);
    let q = a.div(&b, 4, Rounding::HalfUp).unwrap();
    assert_eq!(q.to_string(), "3.3333");
    assert!(a.div(&Decimal::zero(), 2, Rounding::HalfUp).is_none());
}

#[test]
fn rescale_rounds_half_even() {
    let a = Decimal::parse("2.5").unwrap();
    assert_eq!(a.rescale(0, Rounding::HalfEven).to_string(), "2");
    let b = Decimal::parse("3.5").unwrap();
    assert_eq!(b.rescale(0, Rounding::HalfEven).to_string(), "4");
}

#[test]
fn ordering_across_scales() {
    let a = Decimal::parse("1.5").unwrap();
    let b = Decimal::parse("1.50").unwrap();
    assert_eq!(a.cmp(&b), Ordering::Equal);
    let c = Decimal::parse("1.500001").unwrap();
    assert_eq!(a.cmp(&c), Ordering::Less);
}
