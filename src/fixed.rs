use vstd::arithmetic::div_mod::{lemma_fundamental_div_mod, lemma_fundamental_div_mod_converse};
use vstd::prelude::*;

use crate::FIXED_ONE;

verus! {

/// `10` raised to the power `e`.
pub open spec fn pow10(e: nat) -> nat
    decreases e,
{
    if e == 0 {
        1
    } else {
        10 * pow10((e - 1) as nat)
    }
}

/// The product of two fixed-point numbers, rounded down.
pub open spec fn fixed_mul(a: int, b: int) -> int {
    a * b / FIXED_ONE as int
}

/// The quotient of two fixed-point numbers, rounded down.
pub open spec fn fixed_div(a: int, b: int) -> int {
    a * FIXED_ONE as int / b
}

/// One fixed-point unit is 10^18.
pub proof fn lemma_pow10_18()
    ensures
        pow10(18) == FIXED_ONE as nat,
{
    reveal_with_fuel(pow10, 19);
}

/// Multiplies two fixed-point numbers, rounding down; `None` when the result
/// does not fit in 128 bits.
pub fn mul_fixed(a: u128, b: u128) -> (r: Option<u128>)
    ensures
        r is None <==> fixed_mul(a as int, b as int) > u128::MAX,
        r matches Some(v) ==> v == fixed_mul(a as int, b as int),
{
    let s = FIXED_ONE;
    let ah = a / s;
    let al = a % s;
    let bh = b / s;
    let bl = b % s;
    assert(al * bl < s * s) by (nonlinear_arith)
        requires
            al < s,
            bl < s,
    ;
    let low = al * bl;
    let t4 = low / s;
    let m = low % s;
    proof {
        let total = ah * bh * s + ah * bl + al * bh + t4;
        assert(a as int * b as int == total * s + m) by (nonlinear_arith)
            requires
                a == ah * s + al,
                b == bh * s + bl,
                low == t4 * s + m,
                low == al * bl,
                total == ah * bh * s + ah * bl + al * bh + t4,
        ;
        lemma_fundamental_div_mod_converse(a as int * b as int, s as int, total, m as int);
        assert(ah * bh <= ah * bh * s) by (nonlinear_arith)
            requires
                s >= 1,
        ;
        assert(0 <= ah * bl && 0 <= al * bh && 0 <= ah * bh * s) by (nonlinear_arith);
    }
    let hh = match ah.checked_mul(bh) {
        Some(v) => v,
        None => return None,
    };
    let t1 = match hh.checked_mul(s) {
        Some(v) => v,
        None => return None,
    };
    let t2 = match ah.checked_mul(bl) {
        Some(v) => v,
        None => return None,
    };
    let t3 = match al.checked_mul(bh) {
        Some(v) => v,
        None => return None,
    };
    let u = match t1.checked_add(t2) {
        Some(v) => v,
        None => return None,
    };
    let w = match u.checked_add(t3) {
        Some(v) => v,
        None => return None,
    };
    match w.checked_add(t4) {
        Some(v) => Some(v),
        None => None,
    }
}

/// Divides two fixed-point numbers, rounding down; `None` when the result
/// does not fit in 128 bits.
pub fn div_fixed(a: u128, b: u128) -> (r: Option<u128>)
    requires
        0 < b <= u128::MAX / 10,
    ensures
        r is None <==> fixed_div(a as int, b as int) > u128::MAX,
        r matches Some(v) ==> v == fixed_div(a as int, b as int),
{
    let q = a / b;
    let rest = a % b;
    let mut fq: u128 = 0;
    let mut rem: u128 = rest;
    let mut k: u32 = 0;
    proof {
        lemma_pow10_mono(0, 18);
        assert(pow10(0) == 1);
        assert(rest * pow10(0) == 0 * b + rest) by (nonlinear_arith)
            requires
                pow10(0) == 1,
        ;
    }
    while k < 18
        invariant
            0 < b <= u128::MAX / 10,
            rest < b,
            k <= 18,
            rem < b,
            fq < pow10(k as nat),
            pow10(k as nat) <= pow10(18),
            rest * pow10(k as nat) == fq * b + rem,
        decreases 18 - k,
    {
        let d = rem * 10 / b;
        let rem2 = rem * 10 % b;
        proof {
            let p = pow10(k as nat);
            assert(pow10((k + 1) as nat) == 10 * p);
            let x: int = rem * 10;
            let dd: int = d as int;
            let bb: int = b as int;
            assert(x == dd * bb + rem2) by (nonlinear_arith)
                requires
                    dd == x / bb,
                    rem2 == x % bb,
                    bb > 0,
            ;
            assert(dd < 10) by (nonlinear_arith)
                requires
                    dd == x / bb,
                    x < 10 * bb,
                    bb > 0,
            ;
            assert(rest * (10 * p) == (fq * 10 + d) * b + rem2) by (nonlinear_arith)
                requires
                    rest * p == fq * b + rem,
                    rem * 10 == d * b + rem2,
            ;
            assert(fq * 10 + d < 10 * p) by (nonlinear_arith)
                requires
                    fq < p,
                    d < 10,
            ;
            if k + 1 < 18 {
                lemma_pow10_mono((k + 1) as nat, 18);
            }
        }
        proof {
            lemma_pow10_18();
        }
        assert(fq * 10 + d < FIXED_ONE);
        fq = fq * 10 + d;
        rem = rem2;
        k = k + 1;
    }
    proof {
        lemma_pow10_18();
        lemma_fundamental_div_mod(a as int, b as int);
        let s = FIXED_ONE as int;
        assert(a * s == (q * s + fq) * b + rem) by (nonlinear_arith)
            requires
                a == q * b + rest,
                rest * s == fq * b + rem,
        ;
        lemma_fundamental_div_mod_converse(a * s, b as int, q * s + fq, rem as int);
        assert(0 <= q * s) by (nonlinear_arith)
            requires
                q >= 0,
                s >= 0,
        ;
    }
    let t = match q.checked_mul(FIXED_ONE) {
        Some(v) => v,
        None => return None,
    };
    match t.checked_add(fq) {
        Some(v) => Some(v),
        None => None,
    }
}

/// Powers of ten grow with the exponent.
pub proof fn lemma_pow10_mono(i: nat, j: nat)
    requires
        i <= j,
    ensures
        pow10(i) <= pow10(j),
    decreases j - i,
{
    if i < j {
        lemma_pow10_mono(i, (j - 1) as nat);
        assert(pow10(j) == 10 * pow10((j - 1) as nat));
    }
}

} // verus!
