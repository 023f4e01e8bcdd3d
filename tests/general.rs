use amalie::{continued_fraction, crt, egcd, gcd, mod_inv, mod_pow, pow, smod, totient};
use amalie::{Error, ZZ};
use num::bigint::BigInt;

fn zz(s: &str) -> ZZ {
    ZZ::new(BigInt::parse_bytes(s.as_bytes(), 10).unwrap())
}

fn z(n: i64) -> ZZ {
    ZZ::from_i64(n)
}

fn same(a: &ZZ, b: &ZZ) -> bool {
    a.to_bigint() == b.to_bigint()
}

fn pairs(v: &[(i64, i64)]) -> Vec<(BigInt, BigInt)> {
    v.iter().map(|(a, b)| (BigInt::from(*a), BigInt::from(*b))).collect()
}

fn big_pairs(v: &[(ZZ, ZZ)]) -> Vec<(BigInt, BigInt)> {
    v.iter().map(|(a, b)| (a.to_bigint(), b.to_bigint())).collect()
}

#[test]
fn test_mod_pow() {
    let (g, e, m) = (z(3), z(1000), z(1321241));
    assert!(same(&mod_pow(&g, &e, &m).unwrap(), &z(587781)));

    let (g, e, m) = (z(3), z(-1000), z(1321241));
    assert!(same(&mod_pow(&g, &e, &m).unwrap(), &z(5478)));
}

#[test]
fn test_mod_inv() {
    let (g, m) = (z(123), z(937));
    assert!(same(&mod_inv(&g, &m).unwrap(), &z(678)));
}

#[test]
fn test_crt() {
    let m = vec![
        zz("678255406928205283764318788009"),
        zz("206668822692514401698496953701"),
        zz("209389899037793911571890084709"),
    ];
    let v = vec![
        zz("553595583601907102790863048168"),
        zz("179936685740203889915724224774"),
        zz("118574769100120356915050028243"),
    ];
    let sol = (
        zz("11729333136918336599556614225262019449383649885811789858959155083082618000073636325423824"),
        zz("29351071308657422647975598374376392562718985574346423618982742115523312472944466642614081"),
    );
    let (x, n) = crt(&v, &m).unwrap();
    assert!(same(&x, &sol.0));
    assert!(same(&n, &sol.1));
}

#[test]
fn test_totient() {
    let factors = vec![z(61), z(61), z(2113), z(3624601)];
    assert!(same(&totient(&factors), &z(28017868032000)));
}

#[test]
fn test_continued_fraction() {
    assert_eq!(big_pairs(&continued_fraction(&z(123), &z(2))), pairs(&[(61, 1), (123, 2)]));
    assert_eq!(
        big_pairs(&continued_fraction(&z(123127308098), &z(202187))),
        pairs(&[
            (608977, 1),
            (1217955, 2),
            (1826932, 3),
            (4871819, 8),
            (35929665, 59),
            (256379474, 421),
            (292309139, 480),
            (2594852586, 4261),
            (28835687585, 47351),
            (31430540171, 51612),
            (123127308098, 202187)
        ])
    );
}

#[test]
fn continued_fraction_last_convergent_is_the_ratio() {
    let (x, y) = (z(-355), z(113));
    let c = continued_fraction(&x, &y);
    assert!(!c.is_empty());
    let (n, d) = c.last().unwrap();
    assert_eq!(n.mul(&y).to_bigint(), x.mul(d).to_bigint());
}

#[test]
fn egcd_gives_bezout_identity() {
    for (a, b) in [(240, 46), (-240, 46), (0, 0), (0, -7), (17, 5), (-9, -6)] {
        let (g, x, y) = egcd(&z(a), &z(b));
        assert_eq!(g.to_bigint(), z(a).mul(&x).add(&z(b).mul(&y)).to_bigint());
        assert_eq!(g.to_bigint(), gcd(&z(a), &z(b)).to_bigint());
        assert!(g.to_bigint() >= BigInt::from(0));
    }
    assert!(same(&gcd(&z(240), &z(-46)), &z(2)));
    assert!(same(&gcd(&z(0), &z(0)), &z(0)));
}

#[test]
fn smod_is_non_negative() {
    assert!(same(&smod(&z(-7), &z(5)), &z(3)));
    assert!(same(&smod(&z(7), &z(5)), &z(2)));
    assert!(same(&smod(&z(-10), &z(5)), &z(0)));
    assert!(same(&smod(&z(-7), &z(-5)), &z(3)));
}

#[test]
fn mod_inv_inverts() {
    for (g, m) in [(3, 7), (-3, 7), (10, 17), (5, 2)] {
        let r = mod_inv(&z(g), &z(m)).unwrap();
        assert!(same(&smod(&z(g).mul(&r), &z(m)), &z(1)));
        assert!(r.to_bigint() >= BigInt::from(0) && r.to_bigint() < BigInt::from(m));
    }
}

#[test]
fn mod_inv_without_inverse_is_no_result() {
    assert_eq!(mod_inv(&z(6), &z(9)).err(), Some(Error::NoResult));
    assert_eq!(mod_inv(&z(0), &z(5)).err(), Some(Error::NoResult));
}

#[test]
fn mod_pow_matches_power() {
    assert!(same(&mod_pow(&z(2), &z(10), &z(1000)).unwrap(), &z(24)));
    assert!(same(&mod_pow(&z(-2), &z(3), &z(5)).unwrap(), &z(2)));
    assert!(same(&mod_pow(&z(2), &z(3), &z(-5)).unwrap(), &z(-2)));
    assert!(same(&mod_pow(&z(7), &z(0), &z(13)).unwrap(), &z(1)));
    let big_e = zz("123456789012345678901234567890");
    assert!(same(&mod_pow(&z(1), &big_e, &z(13)).unwrap(), &z(1)));
}

#[test]
fn mod_pow_negative_exponent_uses_inverse() {
    let (g, m) = (z(3), z(1321241));
    let inv = mod_inv(&g, &m).unwrap();
    let a = mod_pow(&g, &z(-1000), &m).unwrap();
    let b = mod_pow(&inv, &z(1000), &m).unwrap();
    assert!(same(&a, &b));
    assert_eq!(mod_pow(&z(6), &z(-1), &z(9)).err(), Some(Error::NoResult));
}

#[test]
fn mod_pow_zero_modulus_is_invalid() {
    assert!(matches!(mod_pow(&z(3), &z(5), &z(0)), Err(Error::InvalidInput(_))));
    assert!(matches!(mod_pow(&z(3), &z(-5), &z(0)), Err(Error::InvalidInput(_))));
}

#[test]
fn crt_small_system() {
    let (x, n) = crt(&vec![z(2), z(3), z(2)], &vec![z(3), z(5), z(7)]).unwrap();
    assert!(same(&x, &z(23)));
    assert!(same(&n, &z(105)));
}

#[test]
fn crt_length_mismatch_is_invalid() {
    assert!(matches!(crt(&vec![z(1)], &vec![z(3), z(5)]), Err(Error::InvalidInput(_))));
}

#[test]
fn crt_of_nothing() {
    let (x, n) = crt(&vec![], &vec![]).unwrap();
    assert!(same(&x, &z(0)));
    assert!(same(&n, &z(1)));
}

#[test]
fn totient_of_prime_powers() {
    assert!(same(&totient(&vec![z(2), z(2), z(2)]), &z(4)));
    assert!(same(&totient(&vec![z(3), z(2), z(3)]), &z(6)));
    assert!(same(&totient(&vec![]), &z(1)));
}

#[test]
fn pow_is_exact() {
    assert!(same(&pow(&z(-3), 5).unwrap(), &z(-243)));
    assert!(same(&z(2).pow(100), &zz("1267650600228229401496703205376")));
}

#[test]
fn mod_inv_modulo_zero_is_no_result() {
    assert_eq!(mod_inv(&z(5), &z(0)).err(), Some(Error::NoResult));
}

#[test]
fn crt_solution_meets_every_congruence() {
    let m = vec![z(4), z(9), z(25), z(7)];
    let v = vec![z(3), z(-1), z(12), z(100)];
    let (x, n) = crt(&v, &m).unwrap();
    assert!(same(&n, &z(6300)));
    for i in 0..m.len() {
        assert!(same(&smod(&x, &m[i]), &smod(&v[i], &m[i])));
    }
    assert!(x.to_bigint() >= BigInt::from(0) && x.to_bigint() < BigInt::from(6300));
}

#[test]
fn continued_fraction_ends_in_lowest_terms() {
    let c = continued_fraction(&z(246), &z(4));
    let (n, d) = c.last().unwrap();
    assert!(same(n, &z(123)));
    assert!(same(d, &z(2)));
    assert!(same(&gcd(n, d), &z(1)));
}
