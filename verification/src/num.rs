//! Integer arithmetic shared by the geometry rules.

use vstd::prelude::*;

verus! {

/// `a / b` rounded up.
pub open spec fn ceil_div(a: int, b: int) -> int {
    (a + b - 1) / b
}

/// `a / b` rounded up, without leaving `u64` on the way.
pub fn div_ceil_u64(a: u64, b: u64) -> (r: u64)
    requires
        b > 0,
    ensures
        r == ceil_div(a as int, b as int),
{
    let q: u64 = a / b;
    let m: u64 = a % b;
    proof {
        assert(q as int == a as int / b as int);
        vstd::arithmetic::div_mod::lemma_fundamental_div_mod(a as int, b as int);
        vstd::arithmetic::div_mod::lemma_mod_bound(a as int, b as int);
        let (ai, bi, qi, mi) = (a as int, b as int, q as int, m as int);
        assert(qi * bi == bi * qi) by (nonlinear_arith);
        if mi == 0 {
            vstd::arithmetic::div_mod::lemma_fundamental_div_mod_converse(
                ai + bi - 1,
                bi,
                qi,
                bi - 1,
            );
        } else {
            assert(bi * (qi + 1) == bi * qi + bi) by (nonlinear_arith);
            vstd::arithmetic::div_mod::lemma_fundamental_div_mod_converse(
                ai + bi - 1,
                bi,
                qi + 1,
                mi - 1,
            );
            assert(qi < ai || bi == 1) by (nonlinear_arith)
                requires
                    ai == bi * qi + mi,
                    mi > 0,
                    bi > 0,
                    qi >= 0,
            ;
        }
    }
    if m == 0 {
        q
    } else {
        q + 1
    }
}

/// `x`, or the largest 32-bit number where `x` exceeds it.
pub open spec fn saturated32(x: int) -> int {
    if x > u32::MAX {
        u32::MAX as int
    } else {
        x
    }
}

} // verus!
