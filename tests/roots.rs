use amalie::{Error, ZZ};
use num::bigint::BigInt;

fn z(n: i64) -> ZZ {
    ZZ::from_i64(n)
}

fn val(a: &ZZ) -> BigInt {
    a.to_bigint()
}

#[test]
fn nth_root_exact_and_inexact() {
    assert_eq!(val(&z(27).nth_root(&z(3)).unwrap()), BigInt::from(3));
    assert_eq!(val(&z(0).nth_root(&z(5)).unwrap()), BigInt::from(0));
    assert_eq!(val(&z(1024).nth_root(&z(10)).unwrap()), BigInt::from(2));
    assert_eq!(z(28).nth_root(&z(3)).err(), Some(Error::NoResult));
}

#[test]
fn root_degree_out_of_range() {
    assert!(matches!(z(8).nth_root(&z(0)), Err(Error::InvalidInput(_))));
    assert!(matches!(z(8).root_floor(&z(-2)), Err(Error::InvalidInput(_))));
    assert_eq!(z(8).root_ceil(&z(1i64 << 40)).err(), Some(Error::Unsupported));
}

#[test]
fn root_floor_and_ceil() {
    assert_eq!(val(&z(28).root_floor(&z(3)).unwrap()), BigInt::from(3));
    assert_eq!(val(&z(28).root_ceil(&z(3)).unwrap()), BigInt::from(4));
    assert_eq!(val(&z(27).root_ceil(&z(3)).unwrap()), BigInt::from(3));
    assert_eq!(val(&z(0).root_ceil(&z(2)).unwrap()), BigInt::from(0));
    assert_eq!(val(&z(99).root_floor(&z(1)).unwrap()), BigInt::from(99));
}

#[test]
fn squares_and_parity() {
    assert!(z(49).is_square());
    assert!(z(0).is_square());
    assert!(!z(50).is_square());
    assert!(!z(-4).is_square());
    assert!(z(-4).is_even());
    assert!(!z(7).is_even());
    assert_eq!(val(&z(50).sqrt()), BigInt::from(7));
}

#[test]
fn lcm_and_gcd_methods() {
    assert_eq!(val(&z(4).lcm(&z(-6))), BigInt::from(12));
    assert_eq!(val(&z(0).lcm(&z(0))), BigInt::from(0));
    assert_eq!(val(&z(12).gcd(&z(18))), BigInt::from(6));
    let (g, x, y) = z(12).egcd(&z(18));
    assert_eq!(val(&g), val(&z(12).mul(&x).add(&z(18).mul(&y))));
}

#[test]
fn rand_range_stays_in_range() {
    for _ in 0..50 {
        let r = val(&ZZ::rand_range(&z(-5), &z(5)));
        assert!(r >= BigInt::from(-5) && r < BigInt::from(5));
    }
}

#[test]
fn dot_product_and_length_mismatch() {
    let a = vec![z(1), z(-2), z(3)];
    let b = vec![z(4), z(5), z(6)];
    assert_eq!(val(&amalie::dot(&a, &b).unwrap()), BigInt::from(12));
    assert!(amalie::dot(&a, &vec![z(1)]).is_err());
    assert_eq!(val(&amalie::dot(&vec![], &vec![]).unwrap()), BigInt::from(0));
}
