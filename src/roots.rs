use crate::error::{Error, Result};
use crate::zz::{abs_int, big_value, gcd_spec, ZZ};
use num::bigint::{BigInt, RandBigInt};
use num::integer::{Integer, Roots};
use num::traits::ToPrimitive;
use vstd::arithmetic::power::pow;
use vstd::prelude::*;

verus! {

/// Relies on `ToPrimitive::to_u32` of `BigInt`: the value when it fits in a
/// `u32`, else `None`.
#[verifier::external_body]
fn big_to_u32(a: &BigInt) -> (r: Option<u32>)
    ensures
        r.is_some() == (0 <= big_value(*a) <= u32::MAX),
        r matches Some(k) ==> k == big_value(*a),
{
    a.to_u32()
}

/// Relies on `Roots::nth_root` of `BigInt`: the truncated principal root; it
/// panics on a zero degree or an even root of a negative value.
#[verifier::external_body]
fn big_nth_root(a: &BigInt, n: u32) -> (r: BigInt)
    requires
        n >= 1,
        big_value(*a) >= 0,
    ensures
        big_value(r) >= 0,
        pow(big_value(r), n as nat) <= big_value(*a) < pow(big_value(r) + 1, n as nat),
{
    a.nth_root(n)
}

/// Relies on `Roots::sqrt` of `BigInt`: the truncated square root; it panics
/// on a negative value.
#[verifier::external_body]
fn big_sqrt(a: &BigInt) -> (r: BigInt)
    requires
        big_value(*a) >= 0,
    ensures
        big_value(r) >= 0,
        big_value(r) * big_value(r) <= big_value(*a) < (big_value(r) + 1) * (big_value(r) + 1),
{
    a.sqrt()
}

/// Least common multiple, never negative: `|a| / gcd(a, b) * |b|`, and `0`
/// when both are zero.
pub open spec fn lcm_spec(a: int, b: int) -> int {
    if a == 0 && b == 0 {
        0
    } else {
        abs_int(a) / gcd_spec(a, b) * abs_int(b)
    }
}

/// Relies on `Integer::lcm` of `BigInt`: `|a| / gcd(a, b) * |b|`, and `0` when
/// both are zero.
#[verifier::external_body]
fn big_lcm(a: &BigInt, b: &BigInt) -> (r: BigInt)
    ensures
        big_value(r) == lcm_spec(big_value(*a), big_value(*b)),
{
    a.lcm(b)
}

/// Relies on `Integer::is_even` of `BigInt`: divisibility by two.
#[verifier::external_body]
fn big_is_even(a: &BigInt) -> (r: bool)
    ensures
        r == (big_value(*a) % 2 == 0),
{
    a.is_even()
}

/// Relies on `RandBigInt::gen_bigint_range` with the thread-local generator of
/// `rand`: a value in `[a, b)`; it panics unless `a < b`.
#[verifier::external_body]
fn big_rand_range(a: &BigInt, b: &BigInt) -> (r: BigInt)
    requires
        big_value(*a) < big_value(*b),
    ensures
        big_value(*a) <= big_value(r) < big_value(*b),
{
    rand::thread_rng().gen_bigint_range(a, b)
}

/// Powers of non-negative bases grow with the base.
pub proof fn lemma_pow_base_le(a: int, b: int, n: nat)
    requires
        0 <= a <= b,
    ensures
        0 <= pow(a, n) <= pow(b, n),
    decreases n,
{
    reveal(pow);
    if n > 0 {
        lemma_pow_base_le(a, b, (n - 1) as nat);
        let x = pow(a, (n - 1) as nat);
        let y = pow(b, (n - 1) as nat);
        assert(a * x <= b * y) by (nonlinear_arith)
            requires 0 <= a <= b, 0 <= x <= y;
        assert(0 <= a * x) by (nonlinear_arith)
            requires 0 <= a, 0 <= x;
    }
}

/// Powers of positive degree of non-negative bases grow strictly with the base.
pub proof fn lemma_pow_base_lt(a: int, b: int, n: nat)
    requires
        0 <= a < b,
        n >= 1,
    ensures
        pow(a, n) < pow(b, n),
    decreases n,
{
    reveal(pow);
    if n == 1 {
        assert(pow(a, 0) == 1 && pow(b, 0) == 1);
        assert(pow(a, n) == a * pow(a, 0));
        assert(pow(b, n) == b * pow(b, 0));
    } else {
        lemma_pow_base_lt(a, b, (n - 1) as nat);
        lemma_pow_base_le(a, a, (n - 1) as nat);
        let x = pow(a, (n - 1) as nat);
        let y = pow(b, (n - 1) as nat);
        assert(a * x < b * y) by (nonlinear_arith)
            requires 0 <= a < b, 0 <= x < y;
        assert(pow(a, n) == a * x);
        assert(pow(b, n) == b * y);
    }
}

/// A value strictly between two consecutive nth powers is no nth power.
proof fn lemma_root_unique(r: int, k: int, n: nat, v: int)
    requires
        n >= 1,
        r >= 0,
        k >= 0,
        pow(r, n) <= v < pow(r + 1, n),
        pow(k, n) == v,
    ensures
        k == r,
{
    if k < r {
        lemma_pow_base_lt(k, r, n);
    } else if k > r {
        lemma_pow_base_le(r + 1, k, n);
    }
}

/// The degree of a root, checked: at least one and within `u32`.
fn root_degree(n: &ZZ) -> (r: Result<u32>)
    ensures
        n@ < 1 ==> r matches Err(Error::InvalidInput(_)),
        n@ > u32::MAX ==> r matches Err(Error::Unsupported),
        1 <= n@ <= u32::MAX ==> (r matches Ok(k) && k == n@),
{
    match big_to_u32(&n.to_bigint()) {
        Some(k) => {
            if k == 0 {
                Err(Error::InvalidInput("root of degree 0".to_string()))
            } else {
                Ok(k)
            }
        },
        None => {
            if n.less_than(&ZZ::from_i64(1)) {
                Err(Error::InvalidInput("root of negative degree".to_string()))
            } else {
                Err(Error::Unsupported)
            }
        },
    }
}

impl ZZ {
    /// A random value in `[a, b)`.
    pub fn rand_range(a: &ZZ, b: &ZZ) -> (r: ZZ)
        requires
            a@ < b@,
        ensures
            a@ <= r@ < b@,
    {
        ZZ::new(big_rand_range(&a.to_bigint(), &b.to_bigint()))
    }

    /// Truncated square root.
    pub fn sqrt(&self) -> (r: ZZ)
        requires
            self@ >= 0,
        ensures
            r@ >= 0,
            r@ * r@ <= self@ < (r@ + 1) * (r@ + 1),
    {
        ZZ::new(big_sqrt(&self.to_bigint()))
    }

    /// Least common multiple, never negative; zero when either is zero.
    pub fn lcm(&self, other: &ZZ) -> (r: ZZ)
        ensures
            r@ == lcm_spec(self@, other@),
    {
        ZZ::new(big_lcm(&self.to_bigint(), &other.to_bigint()))
    }

    /// Exact `n`th root: fails with `NoResult` when `self` is no `n`th power.
    pub fn nth_root(&self, n: &ZZ) -> (r: Result<ZZ>)
        requires
            self@ >= 0,
        ensures
            n@ < 1 ==> r matches Err(Error::InvalidInput(_)),
            n@ > u32::MAX ==> r matches Err(Error::Unsupported),
            1 <= n@ <= u32::MAX ==> r.is_ok() == exists|k: int|
                k >= 0 && #[trigger] pow(k, n@ as nat) == self@,
            1 <= n@ <= u32::MAX ==> (r matches Ok(v) ==> v@ >= 0 && pow(v@, n@ as nat) == self@),
            1 <= n@ <= u32::MAX ==> (r matches Err(e) ==> e == Error::NoResult),
    {
        let nth = match root_degree(n) {
            Ok(k) => k,
            Err(e) => return Err(e),
        };
        let root = ZZ::new(big_nth_root(&self.to_bigint(), nth));
        if root.pow(nth).equals(self) {
            proof {
                assert(n@ as nat == nth as nat);
                assert(root@ >= 0 && pow(root@, n@ as nat) == self@);
            }
            Ok(root)
        } else {
            proof {
                assert(n@ as nat == nth as nat);
                assert forall|k: int| k >= 0 implies #[trigger] pow(k, n@ as nat) != self@ by {
                    if pow(k, n@ as nat) == self@ {
                        lemma_root_unique(root@, k, nth as nat, self@);
                    }
                }
            }
            Err(Error::NoResult)
        }
    }

    /// Floor of the `n`th root.
    pub fn root_floor(&self, n: &ZZ) -> (r: Result<ZZ>)
        requires
            self@ >= 0,
        ensures
            n@ < 1 ==> r matches Err(Error::InvalidInput(_)),
            n@ > u32::MAX ==> r matches Err(Error::Unsupported),
            1 <= n@ <= u32::MAX ==> (r matches Ok(v) && v@ >= 0 && pow(v@, n@ as nat) <= self@
                < pow(v@ + 1, n@ as nat)),
    {
        let nth = match root_degree(n) {
            Ok(k) => k,
            Err(e) => return Err(e),
        };
        Ok(ZZ::new(big_nth_root(&self.to_bigint(), nth)))
    }

    /// Ceiling of the `n`th root: the least non-negative value whose `n`th
    /// power is at least `self`.
    pub fn root_ceil(&self, n: &ZZ) -> (r: Result<ZZ>)
        requires
            self@ >= 0,
        ensures
            n@ < 1 ==> r matches Err(Error::InvalidInput(_)),
            n@ > u32::MAX ==> r matches Err(Error::Unsupported),
            1 <= n@ <= u32::MAX ==> (r matches Ok(v) && v@ >= 0 && pow(v@, n@ as nat) >= self@
                && (v@ == 0 || pow(v@ - 1, n@ as nat) < self@)),
    {
        let nth = match root_degree(n) {
            Ok(k) => k,
            Err(e) => return Err(e),
        };
        let root = ZZ::new(big_nth_root(&self.to_bigint(), nth));
        if root.pow(nth).less_than(self) {
            Ok(root.add(&ZZ::from_i64(1)))
        } else {
            proof {
                if root@ > 0 {
                    lemma_pow_base_lt(root@ - 1, root@, nth as nat);
                }
            }
            Ok(root)
        }
    }

    /// Whether the value is even.
    pub fn is_even(&self) -> (r: bool)
        ensures
            r == (self@ % 2 == 0),
    {
        big_is_even(&self.to_bigint())
    }

    /// Whether the value is the square of an integer.
    pub fn is_square(&self) -> (r: bool)
        ensures
            r == exists|k: int| #[trigger] (k * k) == self@,
    {
        if self.less_than(&ZZ::from_i64(0)) {
            proof {
                assert forall|k: int| #[trigger] (k * k) != self@ by {
                    assert(k * k >= 0) by (nonlinear_arith);
                }
            }
            return false;
        }
        let root = ZZ::new(big_nth_root(&self.to_bigint(), 2));
        let sq = root.pow(2);
        proof {
            vstd::arithmetic::power::lemma_square_is_pow2(root@);
        }
        if sq.equals(self) {
            true
        } else {
            proof {
                assert forall|k: int| #[trigger] (k * k) != self@ by {
                    if k * k == self@ {
                        let ak = abs_int(k);
                        assert(ak * ak == k * k) by (nonlinear_arith)
                            requires ak == k || ak == -k;
                        vstd::arithmetic::power::lemma_square_is_pow2(ak);
                        vstd::arithmetic::power::lemma_square_is_pow2(root@ + 1);
                        lemma_root_unique(root@, ak, 2, self@);
                    }
                }
            }
            false
        }
    }
}

} // verus!
