use num::bigint::BigInt;
use num::integer::Integer;
use num::traits::Pow;
use vstd::prelude::*;
use vstd::arithmetic::power::pow;

verus! {

#[verifier::external_type_specification]
#[verifier::external_body]
pub struct ExBigInt(BigInt);

/// The mathematical integer that a `BigInt` denotes.
pub uninterp spec fn big_value(b: BigInt) -> int;

/// Absolute value.
pub open spec fn abs_int(a: int) -> int {
    if a < 0 { -a } else { a }
}

/// Quotient of a division that rounds toward zero.
pub open spec fn tdiv(a: int, b: int) -> int {
    let q = abs_int(a) / abs_int(b);
    if (a < 0) == (b < 0) { q } else { -q }
}

/// Remainder of a division that rounds toward zero: it has the sign of `a`.
pub open spec fn trem(a: int, b: int) -> int {
    a - b * tdiv(a, b)
}

/// Greatest common divisor of two integers, never negative; `gcd(0, 0) == 0`.
pub open spec fn gcd_spec(a: int, b: int) -> int
    decreases abs_int(b),
{
    if b == 0 {
        abs_int(a)
    } else {
        gcd_spec(b, abs_int(a) % abs_int(b))
    }
}

/// Residue of `x` modulo `m` that rounds like a floored division: in `[0, m)`
/// for `m > 0`, in `(m, 0]` for `m < 0`.
pub open spec fn floor_mod(x: int, m: int) -> int {
    let r = x % abs_int(m);
    if m < 0 && r != 0 { r + m } else { r }
}

/// Arbitrary-precision signed integer.
pub struct ZZ {
    v: BigInt,
}

impl View for ZZ {
    type V = int;

    closed spec fn view(&self) -> int {
        big_value(self.v)
    }
}

/// Bezout coefficients `(x, y)` that the extended Euclidean algorithm of
/// `num` yields for `(a, b)`.
pub uninterp spec fn bezout_of(a: int, b: int) -> (int, int);

/// Relies on `BigInt: From<i64>`: the same value.
#[verifier::external_body]
fn big_from_i64(n: i64) -> (r: BigInt)
    ensures
        big_value(r) == n,
{
    BigInt::from(n)
}

/// Relies on `BigInt: Clone`: the same value.
#[verifier::external_body]
fn big_clone(a: &BigInt) -> (r: BigInt)
    ensures
        big_value(r) == big_value(*a),
{
    a.clone()
}

/// Relies on `&BigInt + &BigInt`: exact sum.
#[verifier::external_body]
fn big_add(a: &BigInt, b: &BigInt) -> (r: BigInt)
    ensures
        big_value(r) == big_value(*a) + big_value(*b),
{
    a + b
}

/// Relies on `&BigInt - &BigInt`: exact difference.
#[verifier::external_body]
fn big_sub(a: &BigInt, b: &BigInt) -> (r: BigInt)
    ensures
        big_value(r) == big_value(*a) - big_value(*b),
{
    a - b
}

/// Relies on `&BigInt * &BigInt`: exact product.
#[verifier::external_body]
fn big_mul(a: &BigInt, b: &BigInt) -> (r: BigInt)
    ensures
        big_value(r) == big_value(*a) * big_value(*b),
{
    a * b
}

/// Relies on `&BigInt / &BigInt`: the quotient rounded toward zero; it
/// panics on a zero divisor.
#[verifier::external_body]
fn big_div(a: &BigInt, b: &BigInt) -> (r: BigInt)
    requires
        big_value(*b) != 0,
    ensures
        big_value(r) == tdiv(big_value(*a), big_value(*b)),
{
    a / b
}

/// Relies on `&BigInt % &BigInt`: the remainder of the division rounded
/// toward zero; it panics on a zero divisor.
#[verifier::external_body]
fn big_rem(a: &BigInt, b: &BigInt) -> (r: BigInt)
    requires
        big_value(*b) != 0,
    ensures
        big_value(r) == trem(big_value(*a), big_value(*b)),
{
    a % b
}

/// Relies on `BigInt: PartialEq`: equality of values.
#[verifier::external_body]
fn big_eq(a: &BigInt, b: &BigInt) -> (r: bool)
    ensures
        r == (big_value(*a) == big_value(*b)),
{
    a == b
}

/// Relies on `BigInt: PartialOrd`: the order of values.
#[verifier::external_body]
fn big_lt(a: &BigInt, b: &BigInt) -> (r: bool)
    ensures
        r == (big_value(*a) < big_value(*b)),
{
    a < b
}

/// Relies on `Integer::gcd` of `BigInt`: the greatest common divisor, never
/// negative.
#[verifier::external_body]
fn big_gcd(a: &BigInt, b: &BigInt) -> (r: BigInt)
    ensures
        big_value(r) == gcd_spec(big_value(*a), big_value(*b)),
{
    a.gcd(b)
}

/// Relies on `Integer::extended_gcd` of `BigInt`: the gcd, never negative,
/// with Bezout coefficients for it.
#[verifier::external_body]
fn big_egcd(a: &BigInt, b: &BigInt) -> (r: (BigInt, BigInt, BigInt))
    ensures
        big_value(r.0) == gcd_spec(big_value(*a), big_value(*b)),
        (big_value(r.1), big_value(r.2)) == bezout_of(big_value(*a), big_value(*b)),
        big_value(r.0) == big_value(*a) * big_value(r.1) + big_value(*b) * big_value(r.2),
{
    let t = a.extended_gcd(b);
    (t.gcd, t.x, t.y)
}

/// Relies on `Pow<u32>` of `BigInt`: exact power.
#[verifier::external_body]
fn big_pow(a: &BigInt, e: u32) -> (r: BigInt)
    ensures
        big_value(r) == pow(big_value(*a), e as nat),
{
    Pow::pow(a, e)
}

/// Relies on `BigInt::modpow`: the power reduced like a floored division; it
/// panics on a negative exponent or a zero modulus.
#[verifier::external_body]
fn big_modpow(a: &BigInt, e: &BigInt, m: &BigInt) -> (r: BigInt)
    requires
        big_value(*e) >= 0,
        big_value(*m) != 0,
    ensures
        big_value(r) == floor_mod(pow(big_value(*a), big_value(*e) as nat), big_value(*m)),
{
    a.modpow(e, m)
}

impl ZZ {
    /// The integer that `v` denotes.
    pub fn new(v: BigInt) -> (r: ZZ)
        ensures
            r@ == big_value(v),
    {
        ZZ { v }
    }

    /// The integer `n`.
    pub fn from_i64(n: i64) -> (r: ZZ)
        ensures
            r@ == n,
    {
        ZZ { v: big_from_i64(n) }
    }

    /// This value as a `BigInt`.
    pub fn to_bigint(&self) -> (r: BigInt)
        ensures
            big_value(r) == self@,
    {
        big_clone(&self.v)
    }

    /// A copy of this value.
    pub fn copy(&self) -> (r: ZZ)
        ensures
            r@ == self@,
    {
        ZZ { v: big_clone(&self.v) }
    }

    pub fn add(&self, o: &ZZ) -> (r: ZZ)
        ensures
            r@ == self@ + o@,
    {
        ZZ { v: big_add(&self.v, &o.v) }
    }

    pub fn sub(&self, o: &ZZ) -> (r: ZZ)
        ensures
            r@ == self@ - o@,
    {
        ZZ { v: big_sub(&self.v, &o.v) }
    }

    pub fn mul(&self, o: &ZZ) -> (r: ZZ)
        ensures
            r@ == self@ * o@,
    {
        ZZ { v: big_mul(&self.v, &o.v) }
    }

    /// Quotient rounded toward zero.
    pub fn div(&self, o: &ZZ) -> (r: ZZ)
        requires
            o@ != 0,
        ensures
            r@ == tdiv(self@, o@),
    {
        ZZ { v: big_div(&self.v, &o.v) }
    }

    /// Remainder of the division rounded toward zero.
    pub fn rem(&self, o: &ZZ) -> (r: ZZ)
        requires
            o@ != 0,
        ensures
            r@ == trem(self@, o@),
    {
        ZZ { v: big_rem(&self.v, &o.v) }
    }

    pub fn equals(&self, o: &ZZ) -> (r: bool)
        ensures
            r == (self@ == o@),
    {
        big_eq(&self.v, &o.v)
    }

    pub fn less_than(&self, o: &ZZ) -> (r: bool)
        ensures
            r == (self@ < o@),
    {
        big_lt(&self.v, &o.v)
    }

    /// Greatest common divisor, never negative.
    pub fn gcd(&self, other: &ZZ) -> (r: ZZ)
        ensures
            r@ == gcd_spec(self@, other@),
    {
        ZZ { v: big_gcd(&self.v, &other.v) }
    }

    /// Extended Euclidean algorithm: `(g, x, y)` with `g == gcd(self, other)`
    /// and `g == self * x + other * y`.
    pub fn egcd(&self, other: &ZZ) -> (r: (ZZ, ZZ, ZZ))
        ensures
            r.0@ == gcd_spec(self@, other@),
            (r.1@, r.2@) == bezout_of(self@, other@),
            r.0@ == self@ * r.1@ + other@ * r.2@,
    {
        let (g, x, y) = big_egcd(&self.v, &other.v);
        (ZZ { v: g }, ZZ { v: x }, ZZ { v: y })
    }

    /// `self` to the power `exp`.
    pub fn pow(&self, exp: u32) -> (r: ZZ)
        ensures
            r@ == pow(self@, exp as nat),
    {
        ZZ { v: big_pow(&self.v, exp) }
    }

    /// `self` to the power `exp`, reduced modulo `m` like a floored division,
    /// for a non-negative `exp` and a non-zero `m`.
    pub fn mod_pow_nonneg(&self, exp: &ZZ, m: &ZZ) -> (r: ZZ)
        requires
            exp@ >= 0,
            m@ != 0,
        ensures
            r@ == floor_mod(pow(self@, exp@ as nat), m@),
    {
        ZZ { v: big_modpow(&self.v, &exp.v, &m.v) }
    }
}

} // verus!
