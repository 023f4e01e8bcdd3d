use crate::fraction::bezout_certificate;
use crate::general::{bezout_holds, crt_sum, crt_term, lemma_mod_multiple_abs, product};
use crate::zz::bezout_of;
use crate::zz::{abs_int, gcd_spec, tdiv};
use vstd::arithmetic::div_mod::*;
use vstd::prelude::*;

verus! {

/// `a` and `b` are coprime: some integer combination of them is one.
pub open spec fn coprime(a: int, b: int) -> bool {
    exists|u: int, v: int| bezout_certificate(a, b, u, v)
}

/// The entries of `s` are pairwise coprime.
pub open spec fn pairwise_coprime(s: Seq<int>) -> bool {
    forall|i: int, j: int| 0 <= i < s.len() && 0 <= j < s.len() && i != j ==> #[trigger] coprime(s[i], s[j])
}

/// `a == d * k`.
pub open spec fn is_multiple(a: int, d: int, k: int) -> bool {
    a == d * k
}

/// `d` divides `a`.
pub open spec fn divides(d: int, a: int) -> bool {
    exists|k: int| is_multiple(a, d, k)
}

/// A product is the product of one entry and the others.
pub proof fn lemma_product_remove(s: Seq<int>, i: int)
    requires
        0 <= i < s.len(),
    ensures
        product(s) == s[i] * product(s.remove(i)),
    decreases s.len(),
{
    if i == s.len() - 1 {
        assert(s.remove(i) =~= s.drop_last());
        assert(product(s.drop_last()) * s.last() == s.last() * product(s.drop_last()))
            by (nonlinear_arith);
    } else {
        lemma_product_remove(s.drop_last(), i);
        assert(s.remove(i).drop_last() =~= s.drop_last().remove(i));
        assert(s.remove(i).last() == s.last());
        let p = product(s.drop_last().remove(i));
        assert((s[i] * p) * s.last() == s[i] * (p * s.last())) by (nonlinear_arith);
    }
}

/// Division rounded toward zero is exact on multiples.
pub proof fn lemma_tdiv_exact(a: int, b: int)
    requires
        a != 0,
    ensures
        tdiv(a * b, a) == b,
{
    let aa = abs_int(a);
    assert(abs_int(a * b) == aa * abs_int(b)) by (nonlinear_arith)
        requires aa == abs_int(a);
    lemma_div_multiples_vanish(abs_int(b), aa);
    assert((a * b < 0) == ((a < 0) != (b < 0)) || b == 0) by (nonlinear_arith)
        requires a != 0;
    if b == 0 {
        assert(a * b == 0) by (nonlinear_arith) requires b == 0;
    }
}

/// A number coprime to each entry of `t` is coprime to their product.
pub proof fn lemma_coprime_product(a: int, t: Seq<int>)
    requires
        forall|k: int| 0 <= k < t.len() ==> #[trigger] coprime(a, t[k]),
    ensures
        coprime(a, product(t)),
    decreases t.len(),
{
    if t.len() == 0 {
        assert(bezout_certificate(a, 1, 0, 1));
    } else {
        lemma_coprime_product(a, t.drop_last());
        let p = product(t.drop_last());
        let c = t.last();
        assert(coprime(a, t[t.len() - 1]));
        let (u1, v1) = choose|u: int, v: int| bezout_certificate(a, p, u, v);
        let (u2, v2) = choose|u: int, v: int| bezout_certificate(a, c, u, v);
        let w = v1 * p;
        let u = u1 + w * u2;
        let v = v1 * v2;
        let e2 = u2 * a + v2 * c;
        vstd::arithmetic::mul::lemma_mul_is_distributive_add_other_way(a, u1, w * u2);
        vstd::arithmetic::mul::lemma_mul_is_associative(w, u2, a);
        vstd::arithmetic::mul::lemma_mul_is_distributive_add(w, u2 * a, v2 * c);
        assert((v1 * v2) * (p * c) == (v1 * p) * (v2 * c)) by (nonlinear_arith);
        assert(u2 * a == a * u2) by (nonlinear_arith);
        assert(e2 == 1);
        assert(u * a + v * (p * c) == u1 * a + w * e2);
        assert(product(t) == p * c);
        assert(bezout_certificate(a, product(t), u, v));
    }
}

/// The gcd divides both arguments.
pub proof fn lemma_gcd_divides(a: int, b: int)
    ensures
        divides(gcd_spec(a, b), a),
        divides(gcd_spec(a, b), b),
    decreases abs_int(b),
{
    let g = gcd_spec(a, b);
    if b == 0 {
        assert(is_multiple(a, g, if a < 0 { -1int } else { 1int }));
        assert(is_multiple(b, g, 0));
    } else {
        let ab = abs_int(b);
        let r = abs_int(a) % ab;
        lemma_mod_pos_bound(abs_int(a), ab);
        lemma_gcd_divides(b, r);
        let k1 = choose|k: int| is_multiple(b, g, k);
        let k2 = choose|k: int| is_multiple(r, g, k);
        let q = abs_int(a) / ab;
        lemma_fundamental_div_mod(abs_int(a), ab);
        let sb: int = if b < 0 { -1 } else { 1 };
        let sa: int = if a < 0 { -1 } else { 1 };
        assert(sb * sb == 1) by (nonlinear_arith)
            requires sb == 1 || sb == -1;
        if b < 0 {
            assert(ab == -1 * b);
        } else {
            assert(ab == 1 * b);
        }
        if a < 0 {
            assert(a == -1 * abs_int(a));
        } else {
            assert(a == 1 * abs_int(a));
        }
        assert(is_multiple(a, g, sa * (q * sb * k1 + k2))) by (nonlinear_arith)
            requires abs_int(a) == ab * q + r, b == g * k1, r == g * k2, ab == sb * b, a == sa
                * abs_int(a), sb * sb == 1;
        assert(is_multiple(b, g, k1));
    }
}

/// A common divisor of a coprime pair is one, when it is non-negative.
pub proof fn lemma_coprime_gcd_one(a: int, b: int)
    requires
        coprime(a, b),
    ensures
        gcd_spec(a, b) == 1,
{
    crate::general::lemma_gcd_nonneg(a, b);
    lemma_gcd_divides(a, b);
    let g = gcd_spec(a, b);
    let (u, v) = choose|u: int, v: int| bezout_certificate(a, b, u, v);
    let k1 = choose|k: int| is_multiple(a, g, k);
    let k2 = choose|k: int| is_multiple(b, g, k);
    let w = u * k1 + v * k2;
    assert(g * w == 1) by (nonlinear_arith)
        requires u * a + v * b == 1, a == g * k1, b == g * k2, w == u * k1 + v * k2;
    assert(g == 1) by (nonlinear_arith)
        requires g >= 0, g * w == 1;
}

/// A multiple of `d` vanishes modulo `|d|`.
pub proof fn lemma_multiple_mod(d: int, k: int)
    requires
        d != 0,
    ensures
        (d * k) % abs_int(d) == 0,
{
    lemma_mod_multiple_abs(k, d, 0);
    assert(k * d + 0 == d * k) by (nonlinear_arith);
    lemma_small_mod(0, abs_int(d) as nat);
}

/// One term of the CRT sum, modulo `|m[i]|`: the term of `i` leaves `v[i]`,
/// every other term vanishes.
proof fn lemma_crt_term(v: Seq<int>, m: Seq<int>, i: int, j: int)
    requires
        v.len() == m.len(),
        0 <= i < m.len(),
        0 <= j < m.len(),
        forall|k: int| 0 <= k < m.len() ==> m[k] != 0,
        pairwise_coprime(m),
        bezout_holds(m[j], tdiv(product(m), m[j])),
    ensures
        crt_term(v, m, product(m), j) % abs_int(m[i]) == if j == i {
            v[i] % abs_int(m[i])
        } else {
            0
        },
{
    let n = product(m);
    lemma_product_remove(m, j);
    let rest = m.remove(j);
    lemma_tdiv_exact(m[j], product(rest));
    let l = tdiv(n, m[j]);
    assert(l == product(rest));
    let (bx, by) = bezout_of(m[j], l);
    if j == i {
        assert forall|k: int| 0 <= k < rest.len() implies #[trigger] coprime(m[i], rest[k]) by {
            if k < i {
                assert(rest[k] == m[k]);
                assert(coprime(m[i], m[k]));
            } else {
                assert(rest[k] == m[k + 1]);
                assert(coprime(m[i], m[k + 1]));
            }
        }
        lemma_coprime_product(m[i], rest);
        lemma_coprime_gcd_one(m[i], l);
        assert(v[i] * by * l == (-(v[i] * bx)) * m[i] + v[i]) by (nonlinear_arith)
            requires 1 == m[i] * bx + l * by;
        lemma_mod_multiple_abs(-(v[i] * bx), m[i], v[i]);
    } else {
        let i2 = if i < j { i } else { i - 1 };
        assert(rest[i2] == m[i]);
        lemma_product_remove(rest, i2);
        let p2 = product(rest.remove(i2));
        assert(v[j] * by * l == m[i] * (v[j] * by * p2)) by (nonlinear_arith)
            requires l == m[i] * p2;
        lemma_multiple_mod(m[i], v[j] * by * p2);
    }
}

/// The first `k` terms of the CRT sum modulo `|m[i]|`: `v[i]` once the term
/// of `i` is among them, else nothing.
proof fn lemma_crt_sum_mod(v: Seq<int>, m: Seq<int>, i: int, k: int)
    requires
        v.len() == m.len(),
        0 <= i < m.len(),
        0 <= k <= m.len(),
        forall|t: int| 0 <= t < m.len() ==> m[t] != 0,
        pairwise_coprime(m),
        forall|j: int| 0 <= j < m.len() ==> #[trigger] bezout_holds(m[j], tdiv(product(m), m[j])),
    ensures
        crt_sum(v, m, product(m), k) % abs_int(m[i]) == if k > i {
            v[i] % abs_int(m[i])
        } else {
            0
        },
    decreases k,
{
    let am = abs_int(m[i]);
    if k == 0 {
        lemma_small_mod(0, am as nat);
    } else {
        lemma_crt_sum_mod(v, m, i, k - 1);
        assert(bezout_holds(m[k - 1], tdiv(product(m), m[k - 1])));
        lemma_crt_term(v, m, i, k - 1);
        let s0 = crt_sum(v, m, product(m), k - 1);
        let t = crt_term(v, m, product(m), k - 1);
        lemma_add_mod_noop(s0, t, am);
        lemma_mod_bound(v[i], am);
        lemma_small_mod((v[i] % am) as nat, am as nat);
        lemma_small_mod(0, am as nat);
    }
}

/// The CRT sum is congruent to `v[i]` modulo `m[i]` when the moduli are
/// pairwise coprime.
pub proof fn lemma_crt_congruent(v: Seq<int>, m: Seq<int>, i: int)
    requires
        v.len() == m.len(),
        0 <= i < m.len(),
        forall|t: int| 0 <= t < m.len() ==> m[t] != 0,
        pairwise_coprime(m),
        forall|j: int| 0 <= j < m.len() ==> #[trigger] bezout_holds(m[j], tdiv(product(m), m[j])),
    ensures
        crt_sum(v, m, product(m), m.len() as int) % abs_int(m[i]) == v[i] % abs_int(m[i]),
{
    lemma_crt_sum_mod(v, m, i, m.len() as int);
}

} // verus!
