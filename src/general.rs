use crate::coprime::{lemma_crt_congruent, lemma_product_remove, pairwise_coprime};
use crate::error::{Error, Result};
use crate::zz::{abs_int, bezout_of, floor_mod, gcd_spec, tdiv, trem, ZZ};
use vstd::arithmetic::div_mod::*;
use vstd::arithmetic::mul::lemma_mul_nonzero;
use vstd::prelude::*;

verus! {

/// The inverse of `g` modulo `m` that the Bezout coefficient of `(g, m)`
/// gives, reduced into `[0, |m|)`.
pub open spec fn mod_inv_spec(g: int, m: int) -> int {
    bezout_of(g, m).0 % abs_int(m)
}

/// For `m > 0`, the residue of `a` is read off `|a| % m`.
proof fn lemma_mod_of_abs(a: int, m: int)
    requires
        m > 0,
    ensures
        a >= 0 ==> a % m == abs_int(a) % m,
        a < 0 && abs_int(a) % m == 0 ==> a % m == 0,
        a < 0 && abs_int(a) % m != 0 ==> a % m == m - abs_int(a) % m,
{
    let q = abs_int(a) / m;
    let r0 = abs_int(a) % m;
    lemma_fundamental_div_mod(abs_int(a), m);
    lemma_mod_pos_bound(abs_int(a), m);
    if a < 0 {
        if r0 == 0 {
            assert(a == m * (-q) + 0) by (nonlinear_arith)
                requires a == -abs_int(a), abs_int(a) == m * q + r0, r0 == 0;
            lemma_fundamental_div_mod_converse_mod(a, m, -q, 0);
        } else {
            assert(a == m * (-q - 1) + (m - r0)) by (nonlinear_arith)
                requires a == -abs_int(a), abs_int(a) == m * q + r0;
            lemma_fundamental_div_mod_converse_mod(a, m, -q - 1, m - r0);
        }
    }
}

/// The remainder of a division rounded toward zero is `|a| % |m|` with the
/// sign of `a`.
pub(crate) proof fn lemma_trem(a: int, m: int)
    requires
        m != 0,
    ensures
        a >= 0 ==> trem(a, m) == abs_int(a) % abs_int(m),
        a < 0 ==> trem(a, m) == -(abs_int(a) % abs_int(m)),
{
    let am = abs_int(m);
    let q = abs_int(a) / am;
    lemma_fundamental_div_mod(abs_int(a), am);
    if m < 0 {
        assert(m * q == -(am * q)) by (nonlinear_arith)
            requires am == -m;
        assert(m * (-q) == am * q) by (nonlinear_arith)
            requires am == -m;
    } else {
        assert(m * (-q) == -(am * q)) by (nonlinear_arith)
            requires am == m;
    }
}

/// `(x * m + b) % m == b % m` for any sign of `m`, taken modulo `|m|`.
pub proof fn lemma_mod_multiple_abs(x: int, m: int, b: int)
    requires
        m != 0,
    ensures
        (x * m + b) % abs_int(m) == b % abs_int(m),
{
    let am = abs_int(m);
    if m < 0 {
        assert(x * m == am * (-x)) by (nonlinear_arith)
            requires am == -m;
        lemma_mod_multiples_vanish(-x, b, am);
    } else {
        assert(x * m == am * x) by (nonlinear_arith)
            requires am == m;
        lemma_mod_multiples_vanish(x, b, am);
    }
}

/// Non-negative residue of `a` modulo `m`: the result lies in `[0, |m|)`.
pub fn smod(a: &ZZ, m: &ZZ) -> (r: ZZ)
    requires
        m@ != 0,
    ensures
        r@ == a@ % abs_int(m@),
        0 <= r@ < abs_int(m@),
{
    let zero = ZZ::from_i64(0);
    let t = a.rem(m);
    let am = if m.less_than(&zero) { zero.sub(m) } else { m.copy() };
    proof {
        lemma_trem(a@, m@);
        lemma_mod_of_abs(a@, abs_int(m@));
        lemma_mod_pos_bound(abs_int(a@), abs_int(m@));
        lemma_mod_bound(a@, abs_int(m@));
    }
    if t.less_than(&zero) {
        t.add(&am)
    } else {
        t
    }
}

/// Greatest common divisor, never negative; `gcd(0, 0) == 0`.
pub fn gcd(a: &ZZ, b: &ZZ) -> (r: ZZ)
    ensures
        r@ == gcd_spec(a@, b@),
        r@ >= 0,
{
    proof { lemma_gcd_nonneg(a@, b@); }
    a.gcd(b)
}

/// The gcd is never negative.
pub proof fn lemma_gcd_nonneg(a: int, b: int)
    ensures
        gcd_spec(a, b) >= 0,
    decreases abs_int(b),
{
    if b != 0 {
        lemma_mod_pos_bound(abs_int(a), abs_int(b));
        lemma_gcd_nonneg(b, abs_int(a) % abs_int(b));
    }
}

/// Extended Euclidean algorithm: `(g, x, y)` with `g == a * x + b * y` and
/// `g == gcd(a, b)`, never negative.
pub fn egcd(a: &ZZ, b: &ZZ) -> (r: (ZZ, ZZ, ZZ))
    ensures
        r.0@ == gcd_spec(a@, b@),
        r.0@ >= 0,
        r.0@ == a@ * r.1@ + b@ * r.2@,
        (r.1@, r.2@) == bezout_of(a@, b@),
{
    proof { lemma_gcd_nonneg(a@, b@); }
    a.egcd(b)
}

/// Inverse of `g` modulo `m`: it exists exactly when `gcd(g, m) == 1`, and
/// then lies in `[0, |m|)`. Modulo zero only `g == 1` and `g == -1` would
/// have one, and those are left out.
pub fn mod_inv(g: &ZZ, m: &ZZ) -> (r: Result<ZZ>)
    requires
        m@ != 0 || abs_int(g@) != 1,
    ensures
        r.is_ok() == (gcd_spec(g@, m@) == 1),
        r matches Ok(v) ==> v@ == mod_inv_spec(g@, m@) && 0 <= v@ < abs_int(m@) && (g@ * v@)
            % abs_int(m@) == 1int % abs_int(m@),
        abs_int(m@) > 1 ==> (r matches Ok(v) ==> (g@ * v@) % abs_int(m@) == 1),
        r matches Err(e) ==> e == Error::NoResult,
{
    let (d, x, y) = egcd(g, m);
    let one = ZZ::from_i64(1);
    if d.equals(&one) {
        let v = smod(&x, m);
        proof {
            let am = abs_int(m@);
            lemma_mul_mod_noop_right(g@, x@, am);
            assert(g@ * x@ == y@ * (-m@) + 1) by (nonlinear_arith)
                requires 1 == g@ * x@ + m@ * y@;
            lemma_mod_multiple_abs(y@, -m@, 1);
            if am > 1 {
                lemma_small_mod(1, am as nat);
            }
        }
        Ok(v)
    } else {
        Err(Error::NoResult)
    }
}

/// `g` to the power `exp`.
pub fn pow(g: &ZZ, exp: u32) -> (r: Result<ZZ>)
    ensures
        r matches Ok(v) && v@ == vstd::arithmetic::power::pow(g@, exp as nat),
{
    Ok(g.pow(exp))
}

/// `g` to the power `e` modulo `m`, reduced like a floored division; a
/// negative `e` raises the inverse of `g` modulo `m` to `-e`.
pub open spec fn mod_pow_spec(g: int, e: int, m: int) -> int {
    if e >= 0 {
        floor_mod(vstd::arithmetic::power::pow(g, e as nat), m)
    } else {
        floor_mod(vstd::arithmetic::power::pow(mod_inv_spec(g, m), (-e) as nat), m)
    }
}

/// A residue reduced like a floored division is congruent to the value.
pub proof fn lemma_floor_mod_congruent(x: int, m: int)
    requires
        m != 0,
    ensures
        floor_mod(x, m) % abs_int(m) == x % abs_int(m),
{
    let am = abs_int(m);
    lemma_mod_bound(x, am);
    lemma_mod_mod(x, am, 1);
    if m < 0 && x % am != 0 {
        lemma_mod_multiple_abs(1, m, x % am);
        lemma_mod_basics_small(x % am, am);
    } else {
        lemma_mod_basics_small(x % am, am);
    }
}

/// `r % m == r` for `0 <= r < m`.
proof fn lemma_mod_basics_small(r: int, m: int)
    requires
        0 <= r < m,
    ensures
        r % m == r,
{
    lemma_small_mod(r as nat, m as nat);
}

/// A negative power of `g` modulo `m` is the positive power of the inverse.
pub proof fn lemma_mod_pow_negative(g: int, e: int, m: int)
    requires
        e < 0,
        m != 0,
        gcd_spec(g, m) == 1,
    ensures
        mod_pow_spec(g, e, m) == mod_pow_spec(mod_inv_spec(g, m), -e, m),
{
}

impl ZZ {
    /// `self` to the power `exp` modulo `m`, reduced like a floored division.
    /// A negative exponent raises the inverse of `self` modulo `m` to `-exp`;
    /// it fails with `NoResult` when there is none.
    pub fn mod_pow(&self, exp: &ZZ, m: &ZZ) -> (r: Result<ZZ>)
        ensures
            m@ == 0 ==> r matches Err(Error::InvalidInput(_)),
            m@ != 0 && exp@ >= 0 ==> r.is_ok(),
            m@ != 0 && exp@ < 0 ==> r.is_ok() == (gcd_spec(self@, m@) == 1),
            m@ != 0 ==> (r matches Ok(v) ==> v@ == mod_pow_spec(self@, exp@, m@)),
            m@ != 0 ==> (r matches Ok(v) ==> exp@ >= 0 ==> v@ % abs_int(m@)
                == vstd::arithmetic::power::pow(self@, exp@ as nat) % abs_int(m@)),
            m@ != 0 ==> (r matches Err(e) ==> e == Error::NoResult),
    {
        let zero = ZZ::from_i64(0);
        if m.equals(&zero) {
            return Err(Error::InvalidInput("modulus is 0".to_string()));
        }
        if exp.less_than(&zero) {
            let v = match mod_inv(self, m) {
                Ok(v) => v,
                Err(e) => return Err(e),
            };
            let e = zero.sub(exp);
            Ok(v.mod_pow_nonneg(&e, m))
        } else {
            proof {
                lemma_floor_mod_congruent(vstd::arithmetic::power::pow(self@, exp@ as nat), m@);
            }
            Ok(self.mod_pow_nonneg(exp, m))
        }
    }
}

/// `g` to the power `exp` modulo `m`; see [`ZZ::mod_pow`].
pub fn mod_pow(g: &ZZ, exp: &ZZ, m: &ZZ) -> (r: Result<ZZ>)
    ensures
        m@ == 0 ==> r matches Err(Error::InvalidInput(_)),
        m@ != 0 && exp@ >= 0 ==> r.is_ok(),
        m@ != 0 && exp@ < 0 ==> r.is_ok() == (gcd_spec(g@, m@) == 1),
        m@ != 0 ==> (r matches Ok(v) ==> v@ == mod_pow_spec(g@, exp@, m@)),
        m@ != 0 ==> (r matches Ok(v) ==> exp@ >= 0 ==> v@ % abs_int(m@)
            == vstd::arithmetic::power::pow(g@, exp@ as nat) % abs_int(m@)),
        m@ != 0 ==> (r matches Err(e) ==> e == Error::NoResult),
{
    g.mod_pow(exp, m)
}

/// The integers that a sequence of `ZZ` values denote.
pub open spec fn values(s: Seq<ZZ>) -> Seq<int> {
    s.map_values(|z: ZZ| z@)
}

/// Product of a sequence of integers.
pub open spec fn product(s: Seq<int>) -> int
    decreases s.len(),
{
    if s.len() == 0 {
        1
    } else {
        product(s.drop_last()) * s.last()
    }
}

/// `sum_{i < k} v[i] * y_i * (n / m[i])`, where `y_i` is the Bezout
/// coefficient of `n / m[i]` in the gcd of `m[i]` and `n / m[i]`.
pub open spec fn crt_sum(v: Seq<int>, m: Seq<int>, n: int, k: int) -> int
    decreases k,
{
    if k <= 0 {
        0
    } else {
        crt_sum(v, m, n, k - 1) + crt_term(v, m, n, k - 1)
    }
}

/// `v[j] * y_j * (n / m[j])`, where `y_j` is the Bezout coefficient of
/// `n / m[j]` in the gcd of `m[j]` and `n / m[j]`.
pub open spec fn crt_term(v: Seq<int>, m: Seq<int>, n: int, j: int) -> int {
    let l = tdiv(n, m[j]);
    v[j] * bezout_of(m[j], l).1 * l
}

/// The Bezout coefficients of `(a, b)` combine `a` and `b` into their gcd.
pub open spec fn bezout_holds(a: int, b: int) -> bool {
    gcd_spec(a, b) == a * bezout_of(a, b).0 + b * bezout_of(a, b).1
}

/// A product of non-zero integers is not zero.
proof fn lemma_product_nonzero(s: Seq<int>)
    requires
        forall|i: int| 0 <= i < s.len() ==> s[i] != 0,
    ensures
        product(s) != 0,
    decreases s.len(),
{
    if s.len() > 0 {
        lemma_product_nonzero(s.drop_last());
        lemma_mul_nonzero(product(s.drop_last()), s.last());
    }
}

/// Chinese remainder theorem: combines `x == v[i] (mod m[i])` into
/// `(x, N)` with `N` the product of the moduli and `x` in `[0, |N|)`.
pub fn crt(v: &Vec<ZZ>, m: &Vec<ZZ>) -> (r: Result<(ZZ, ZZ)>)
    requires
        v@.len() == m@.len() ==> forall|i: int| 0 <= i < m@.len() ==> m@[i]@ != 0,
    ensures
        v@.len() != m@.len() ==> r matches Err(Error::InvalidInput(_)),
        v@.len() == m@.len() ==> (r matches Ok(p) && p.1@ == product(values(m@)) && p.0@
            == crt_sum(values(v@), values(m@), p.1@, v@.len() as int) % abs_int(p.1@)),
        v@.len() == m@.len() ==> (r matches Ok(p) ==> 0 <= p.0@ < abs_int(p.1@)),
        v@.len() == m@.len() && pairwise_coprime(values(m@)) ==> (r matches Ok(p) ==> forall|i: int|
            0 <= i < m@.len() ==> #[trigger] (p.0@ % abs_int(m@[i]@)) == v@[i]@ % abs_int(
                m@[i]@,
            )),
{
    if v.len() != m.len() {
        return Err(Error::InvalidInput("v.len() != m.len()".to_string()));
    }
    let ghost ms = values(m@);
    let ghost vs = values(v@);
    let mut n = ZZ::from_i64(1);
    let mut i: usize = 0;
    while i < m.len()
        invariant
            i <= m@.len(),
            ms == values(m@),
            n@ == product(ms.subrange(0, i as int)),
        decreases m@.len() - i,
    {
        proof {
            assert(ms.subrange(0, i + 1).drop_last() =~= ms.subrange(0, i as int));
        }
        n = n.mul(&m[i]);
        i = i + 1;
    }
    proof {
        assert(ms.subrange(0, m@.len() as int) =~= ms);
        lemma_product_nonzero(ms);
    }
    let mut x = ZZ::from_i64(0);
    let mut i: usize = 0;
    while i < v.len()
        invariant
            i <= v@.len(),
            v@.len() == m@.len(),
            ms == values(m@),
            vs == values(v@),
            forall|j: int| 0 <= j < m@.len() ==> m@[j]@ != 0,
            n@ == product(ms),
            x@ == crt_sum(vs, ms, n@, i as int),
            forall|j: int| 0 <= j < i ==> #[trigger] bezout_holds(ms[j], tdiv(n@, ms[j])),
        decreases v@.len() - i,
    {
        let l = n.div(&m[i]);
        let (_, _, y) = egcd(&m[i], &l);
        proof {
            assert(ms[i as int] == m@[i as int]@);
            assert(bezout_holds(ms[i as int], tdiv(n@, ms[i as int])));
        }
        x = x.add(&v[i].mul(&y).mul(&l));
        i = i + 1;
    }
    let res = smod(&x, &n);
    proof {
        if pairwise_coprime(ms) {
            assert forall|i: int| 0 <= i < m@.len() implies #[trigger] (res@ % abs_int(m@[i]@))
                == v@[i]@ % abs_int(m@[i]@) by {
                assert(ms[i] == m@[i]@ && vs[i] == v@[i]@);
                lemma_crt_congruent(vs, ms, i);
                lemma_product_remove(ms, i);
                let rest = product(ms.remove(i));
                assert(rest != 0) by {
                    if rest == 0 {
                        assert(ms[i] * rest == 0) by (nonlinear_arith) requires rest == 0;
                    }
                }
                let am = abs_int(ms[i]);
                let ar = abs_int(rest);
                assert(abs_int(n@) == am * ar) by (nonlinear_arith)
                    requires n@ == ms[i] * rest, am == abs_int(ms[i]), ar == abs_int(rest);
                lemma_mod_mod(x@, am, ar);
            }
        }
    }
    Ok((res, n))
}

/// Number of occurrences of `p` in `s`.
pub open spec fn count(s: Seq<int>, p: int) -> nat
    decreases s.len(),
{
    if s.len() == 0 {
        0
    } else {
        count(s.drop_last(), p) + if s.last() == p { 1nat } else { 0nat }
    }
}

/// Whether `s[i]` is the first occurrence of its value in `s`.
pub open spec fn first_at(s: Seq<int>, i: int) -> bool {
    forall|j: int| 0 <= j < i ==> s[j] != s[i]
}

/// Euler's totient of the product of the primes in `s` (with repetition),
/// over its first `k` entries: each distinct prime `p` of multiplicity `e`
/// contributes `p^(e-1) * (p - 1)` once.
pub open spec fn totient_upto(s: Seq<int>, k: int) -> int
    decreases k,
{
    if k <= 0 {
        1
    } else {
        let p = s[k - 1];
        totient_upto(s, k - 1) * if first_at(s, k - 1) {
            vstd::arithmetic::power::pow(p, (count(s, p) - 1) as nat) * (p - 1)
        } else {
            1
        }
    }
}

/// Euler's totient of the product of the prime factors `primes`, given with
/// repetition: the product over the distinct primes `p`, of multiplicity `e`,
/// of `p^(e-1) * (p - 1)`.
pub fn totient(primes: &Vec<ZZ>) -> (r: ZZ)
    requires
        primes@.len() <= u32::MAX,
    ensures
        r@ == totient_upto(values(primes@), primes@.len() as int),
{
    let ghost s = values(primes@);
    let one = ZZ::from_i64(1);
    let mut out = ZZ::from_i64(1);
    let mut i: usize = 0;
    while i < primes.len()
        invariant
            i <= primes@.len() <= u32::MAX,
            s == values(primes@),
            one@ == 1,
            out@ == totient_upto(s, i as int),
        decreases primes@.len() - i,
    {
        let p = &primes[i];
        let mut seen = false;
        let mut j: usize = 0;
        while j < i
            invariant
                j <= i < primes@.len(),
                s == values(primes@),
                p@ == s[i as int],
                seen == exists|t: int| 0 <= t < j && s[t] == s[i as int],
            decreases i - j,
        {
            proof {
                assert(s[j as int] == primes@[j as int]@);
            }
            if primes[j].equals(p) {
                seen = true;
            }
            j = j + 1;
        }
        if !seen {
            let mut c: u32 = 0;
            let mut j: usize = 0;
            while j < primes.len()
                invariant
                    j <= primes@.len() <= u32::MAX,
                    i < primes@.len(),
                    s == values(primes@),
                    p@ == s[i as int],
                    c == count(s.subrange(0, j as int), p@),
                    c <= j,
                    j > i ==> c >= 1,
                decreases primes@.len() - j,
            {
                proof {
                    assert(s.subrange(0, j + 1).drop_last() =~= s.subrange(0, j as int));
                }
                proof {
                    assert(s[j as int] == primes@[j as int]@);
                }
                if primes[j].equals(p) {
                    c = c + 1;
                }
                j = j + 1;
            }
            proof {
                assert(s.subrange(0, primes@.len() as int) =~= s);
            }
            proof {
                assert(first_at(s, i as int));
            }
            let ghost prev = out@;
            let pw = p.pow(c - 1);
            out = out.mul(&pw).mul(&p.sub(&one));
            proof {
                vstd::arithmetic::mul::lemma_mul_is_associative(prev, pw@, p@ - 1);
                assert(pw@ == vstd::arithmetic::power::pow(p@, (count(s, p@) - 1) as nat));
            }
        } else {
            proof {
                assert(!first_at(s, i as int));
            }
        }
        i = i + 1;
    }
    out
}

} // verus!
