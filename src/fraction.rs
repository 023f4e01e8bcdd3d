use crate::zz::{abs_int, tdiv, trem, ZZ};
use vstd::arithmetic::div_mod::*;
use vstd::prelude::*;

verus! {

/// The remainder of a division rounded toward zero is smaller than the
/// divisor in magnitude.
proof fn lemma_trem_smaller(x: int, y: int)
    requires
        y != 0,
    ensures
        abs_int(trem(x, y)) < abs_int(y),
{
    crate::general::lemma_trem(x, y);
    lemma_mod_pos_bound(abs_int(x), abs_int(y));
}

/// Partial quotients of the continued fraction of `x / y`: those of the
/// Euclidean algorithm on `(x, y)` with divisions rounded toward zero.
pub open spec fn cf_quotients(x: int, y: int) -> Seq<int>
    decreases abs_int(y),
{
    if y == 0 {
        seq![]
    } else if trem(x, y) == 0 {
        seq![tdiv(x, y)]
    } else {
        if abs_int(trem(x, y)) < abs_int(y) {
            seq![tdiv(x, y)] + cf_quotients(y, trem(x, y))
        } else {
            seq![]
        }
    }
}

/// Numerator of the `k`-th convergent of the partial quotients `q`.
pub open spec fn cf_num(q: Seq<int>, k: int) -> int
    decreases k,
{
    if k <= 0 {
        q[0]
    } else if k == 1 {
        q[1] * q[0] + 1
    } else {
        q[k] * cf_num(q, k - 1) + cf_num(q, k - 2)
    }
}

/// Denominator of the `k`-th convergent of the partial quotients `q`.
pub open spec fn cf_den(q: Seq<int>, k: int) -> int
    decreases k,
{
    if k <= 0 {
        1
    } else if k == 1 {
        q[1]
    } else {
        q[k] * cf_den(q, k - 1) + cf_den(q, k - 2)
    }
}

/// A convergent depends on the partial quotients up to its own index only.
proof fn lemma_cf_prefix(s: Seq<int>, t: Seq<int>, k: int)
    requires
        0 <= k < s.len() <= t.len(),
        s == t.subrange(0, s.len() as int),
    ensures
        cf_num(s, k) == cf_num(t, k),
        cf_den(s, k) == cf_den(t, k),
    decreases k,
{
    if k >= 2 {
        lemma_cf_prefix(s, t, k - 1);
        lemma_cf_prefix(s, t, k - 2);
    }
}

/// `u * n + v * d == 1`: a certificate that `n` and `d` are coprime.
pub open spec fn bezout_certificate(n: int, d: int, u: int, v: int) -> bool {
    u * n + v * d == 1
}

/// Convergents `(numerator, denominator)` of the continued fraction of
/// `x / y`, the last of which is `x / y` itself.
pub fn continued_fraction(x: &ZZ, y: &ZZ) -> (r: Vec<(ZZ, ZZ)>)
    requires
        y@ != 0,
    ensures
        r@.len() == cf_quotients(x@, y@).len(),
        r@.len() >= 1,
        forall|k: int|
            0 <= k < r@.len() ==> r@[k].0@ == cf_num(cf_quotients(x@, y@), k) && r@[k].1@
                == cf_den(cf_quotients(x@, y@), k),
        r@.last().0@ * y@ == x@ * r@.last().1@,
        exists|u: int, v: int| bezout_certificate(r@.last().0@, r@.last().1@, u, v),
{
    let ghost q = cf_quotients(x@, y@);
    let ghost x0 = x@;
    let ghost y0 = y@;
    let one = ZZ::from_i64(1);
    let mut x = x.copy();
    let mut y = y.copy();
    let mut a = x.div(&y);
    let mut out: Vec<(ZZ, ZZ)> = Vec::new();
    out.push((a.copy(), ZZ::from_i64(1)));
    let ghost mut qs: Seq<int> = seq![a@];
    let ghost mut prev_n: int = 1;
    let ghost mut prev_d: int = 0;
    loop
        invariant
            x0 == out@.last().0@ * y@ + prev_n * (x@ - a@ * y@),
            y0 == out@.last().1@ * y@ + prev_d * (x@ - a@ * y@),
            out@.len() == 1 ==> prev_n == 1 && prev_d == 0,
            out@.last().0@ * prev_d - prev_n * out@.last().1@ == 1 || out@.last().0@ * prev_d
                - prev_n * out@.last().1@ == -1,
            out@.len() >= 2 ==> prev_n == out@[out@.len() - 2].0@ && prev_d == out@[out@.len()
                - 2].1@,
            y@ != 0,
            one@ == 1,
            a@ == tdiv(x@, y@),
            qs.len() >= 1,
            qs.last() == a@,
            q == qs.drop_last() + cf_quotients(x@, y@),
            out@.len() == qs.len(),
            forall|k: int|
                0 <= k < out@.len() ==> out@[k].0@ == cf_num(qs, k) && out@[k].1@ == cf_den(qs, k),
        ensures
            q == qs,
            x0 == out@.last().0@ * y@,
            y0 == out@.last().1@ * y@,
        decreases abs_int(y@),
    {
        let ay = a.mul(&y);
        proof {
            assert(y@ * a@ == a@ * y@) by (nonlinear_arith);
        }
        if ay.equals(&x) {
            proof {
                assert(trem(x@, y@) == 0);
                assert(cf_quotients(x@, y@) == seq![a@]);
                assert(q =~= qs);
                assert(x@ - a@ * y@ == 0);
            }
            break;
        }
        let rem = x.sub(&ay);
        proof {
            lemma_trem_smaller(x@, y@);
            assert(cf_quotients(x@, y@) == seq![a@] + cf_quotients(y@, rem@));
        }
        let ghost hn = out@.last().0@;
        let ghost hd = out@.last().1@;
        let ghost (oy, orem) = (y@, rem@);
        x = y;
        y = rem;
        a = x.div(&y);
        let len = out.len();
        let (n, d) = if len == 1 {
            (a.mul(&out[0].0).add(&one), a.copy())
        } else if len == 2 {
            (a.mul(&out[1].0).add(&out[0].0), a.mul(&out[1].1).add(&one))
        } else {
            (
                a.mul(&out[len - 1].0).add(&out[len - 2].0),
                a.mul(&out[len - 1].1).add(&out[len - 2].1),
            )
        };
        let ghost old_qs = qs;
        proof {
            qs = qs.push(a@);
            assert(old_qs =~= qs.subrange(0, old_qs.len() as int));
            lemma_trem_smaller(x@, y@);
            assert(y@ * a@ == a@ * y@) by (nonlinear_arith);
            assert(cf_quotients(x@, y@)[0] == a@);
            assert forall|k: int| 0 <= k < len implies cf_num(old_qs, k) == cf_num(qs, k)
                && cf_den(old_qs, k) == cf_den(qs, k) by {
                lemma_cf_prefix(old_qs, qs, k);
            }
            assert(q =~= qs.drop_last() + cf_quotients(x@, y@));
            let kk = len as int;
            assert(qs[kk] == a@);
            assert(out@[kk - 1].0@ == cf_num(qs, kk - 1));
            if len == 1 {
                assert(cf_num(qs, 1) == a@ * cf_num(qs, 0) + 1);
                assert(n@ == cf_num(qs, kk));
                assert(d@ == cf_den(qs, kk));
            } else if len == 2 {
                assert(cf_num(qs, 2) == a@ * cf_num(qs, 1) + cf_num(qs, 0));
                assert(cf_den(qs, 2) == a@ * cf_den(qs, 1) + 1);
                assert(n@ == cf_num(qs, kk));
                assert(d@ == cf_den(qs, kk));
            } else {
                assert(out@[kk - 2].0@ == cf_num(qs, kk - 2));
                assert(n@ == cf_num(qs, kk));
                assert(d@ == cf_den(qs, kk));
            }
        }
        out.push((n, d));
        proof {
            let a1 = a@;
            assert(x0 == (a1 * hn + prev_n) * orem + hn * (oy - a1 * orem)) by (nonlinear_arith)
                requires x0 == hn * oy + prev_n * orem;
            assert(y0 == (a1 * hd + prev_d) * orem + hd * (oy - a1 * orem)) by (nonlinear_arith)
                requires y0 == hd * oy + prev_d * orem;
            assert((a1 * hn + prev_n) * hd - hn * (a1 * hd + prev_d) == -(hn * prev_d - prev_n
                * hd)) by (nonlinear_arith);
            prev_n = hn;
            prev_d = hd;
        }
    }
    proof {
        assert forall|k: int| 0 <= k < out@.len() implies out@[k].0@ == cf_num(q, k)
            && out@[k].1@ == cf_den(q, k) by {
            assert(q == qs);
        }
        let ny = out@.last().0@;
        let dy = out@.last().1@;
        assert(ny * y0 == x0 * dy) by (nonlinear_arith)
            requires x0 == ny * y@, y0 == dy * y@;
        let det = ny * prev_d - prev_n * dy;
        assert(bezout_certificate(ny, dy, prev_d * det, -prev_n * det)) by (nonlinear_arith)
            requires det == ny * prev_d - prev_n * dy, det == 1 || det == -1;
    }
    out
}

} // verus!
