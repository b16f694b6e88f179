use vstd::prelude::*;

verus! {

/// The product of two bounded integers is bounded by the product of the bounds.
pub proof fn lemma_mul_bound(a: int, b: int, ba: int, bb: int)
    requires
        -ba <= a <= ba,
        -bb <= b <= bb,
    ensures
        -(ba * bb) <= a * b <= ba * bb,
{
    assert(-(ba * bb) <= a * b <= ba * bb) by (nonlinear_arith)
        requires
            -ba <= a <= ba,
            -bb <= b <= bb,
    ;
}

/// A square is never negative.
pub proof fn lemma_square_nonneg(a: int)
    ensures
        a * a >= 0,
{
    assert(a * a >= 0) by (nonlinear_arith);
}

proof fn lemma_quotient_order(a: int, b: int, c: int, d: int, qa: int, ra: int, qc: int, rc: int)
    by (nonlinear_arith)
    requires
        b > 0,
        d > 0,
        a == qa * b + ra,
        c == qc * d + rc,
        0 <= ra < b,
        0 <= rc < d,
    ensures
        a * d - c * b == (qa - qc) * (b * d) + ra * d - rc * b,
        qa < qc ==> a * d < c * b,
        qa > qc ==> a * d > c * b,
        qa == qc ==> a * d - c * b == ra * d - rc * b,
{
    assert(a * d - c * b == (qa - qc) * (b * d) + ra * d - rc * b);
    assert(ra * d < b * d);
    assert(rc * b < d * b);
}

/// Whether `a / b < c / d`, decided without forming the products `a * d` and
/// `c * b`, which need not fit in 128 bits.
pub fn frac_lt(a: u128, b: u128, c: u128, d: u128) -> (r: bool)
    requires
        b > 0,
        d > 0,
    ensures
        r == (a * d < c * b),
    decreases b + d,
{
    let qa = a / b;
    let ra = a % b;
    let qc = c / d;
    let rc = c % d;
    proof {
        vstd::arithmetic::div_mod::lemma_fundamental_div_mod(a as int, b as int);
        vstd::arithmetic::div_mod::lemma_fundamental_div_mod(c as int, d as int);
        lemma_quotient_order(
            a as int,
            b as int,
            c as int,
            d as int,
            qa as int,
            ra as int,
            qc as int,
            rc as int,
        );
    }
    if qa != qc {
        qa < qc
    } else if ra == 0 {
        proof {
            assert(rc * b >= 0) by (nonlinear_arith)
                requires
                    rc >= 0,
                    b > 0,
            ;
            assert(rc > 0 ==> rc * b > 0) by (nonlinear_arith)
                requires
                    b > 0,
            ;
            assert(ra * d == 0) by (nonlinear_arith)
                requires
                    ra == 0,
            ;
        }
        rc > 0
    } else if rc == 0 {
        proof {
            assert(ra * d > 0) by (nonlinear_arith)
                requires
                    ra > 0,
                    d > 0,
            ;
            assert(rc * b == 0) by (nonlinear_arith)
                requires
                    rc == 0,
            ;
        }
        false
    } else {
        proof {
            assert(d * ra == ra * d && b * rc == rc * b) by (nonlinear_arith);
        }
        frac_lt(d, rc, b, ra)
    }
}

/// The order of fractions with positive denominators is transitive, from a
/// strict step and a non-strict one.
pub proof fn lemma_frac_lt_trans(a0: int, a1: int, b0: int, b1: int, c0: int, c1: int)
    requires
        a1 > 0,
        b1 > 0,
        c1 > 0,
        a0 * b1 < b0 * a1,
        b0 * c1 <= c0 * b1,
    ensures
        a0 * c1 < c0 * a1,
{
    assert(a0 * b1 * c1 < b0 * a1 * c1) by (nonlinear_arith)
        requires
            a0 * b1 < b0 * a1,
            c1 > 0,
    ;
    assert(b0 * c1 * a1 <= c0 * b1 * a1) by (nonlinear_arith)
        requires
            b0 * c1 <= c0 * b1,
            a1 > 0,
    ;
    assert(a0 * c1 < c0 * a1) by (nonlinear_arith)
        requires
            a0 * b1 * c1 < b0 * a1 * c1,
            b0 * c1 * a1 <= c0 * b1 * a1,
            b1 > 0,
    ;
}

} // verus!
