use crate::general::values;
use crate::zz::ZZ;
use vstd::prelude::*;

verus! {

/// `sum_{i < k} a[i] * b[i]`.
pub open spec fn dot_upto(a: Seq<int>, b: Seq<int>, k: int) -> int
    decreases k,
{
    if k <= 0 {
        0
    } else {
        dot_upto(a, b, k - 1) + a[k - 1] * b[k - 1]
    }
}

/// Dot product of two vectors of equal length; `Err(())` when the lengths
/// differ.
pub fn dot(a: &Vec<ZZ>, b: &Vec<ZZ>) -> (r: core::result::Result<ZZ, ()>)
    ensures
        r.is_ok() == (a@.len() == b@.len()),
        r matches Ok(v) ==> v@ == dot_upto(values(a@), values(b@), a@.len() as int),
{
    if a.len() != b.len() {
        return Err(());
    }
    let mut acc = ZZ::from_i64(0);
    let mut i: usize = 0;
    while i < a.len()
        invariant
            i <= a@.len() == b@.len(),
            acc@ == dot_upto(values(a@), values(b@), i as int),
        decreases a@.len() - i,
    {
        proof {
            assert(values(a@)[i as int] == a@[i as int]@);
            assert(values(b@)[i as int] == b@[i as int]@);
        }
        acc = acc.add(&a[i].mul(&b[i]));
        i = i + 1;
    }
    Ok(acc)
}

} // verus!
