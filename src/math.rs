//! Fixed-point helpers: products of two 128-bit amounts divided by a third, computed without
//! overflowing the intermediate product.
use vstd::prelude::*;

verus! {

/// `floor(a * b / c)` over mathematical integers.
pub open spec fn mul_div_spec(a: int, b: int, c: int) -> int {
    (a * b) / c
}

/// `ceil(a * b / c)` over mathematical integers, for positive `c`.
pub open spec fn mul_div_ceil_spec(a: int, b: int, c: int) -> int {
    (a * b + c - 1) / c
}

/// Quotient and remainder of `a * b` divided by `c`, where `a < c`, so that the quotient is
/// at most `b` and always fits.
pub fn mul_div_rem(a: u128, b: u128, c: u128) -> (r: (u128, u128))
    requires
        a < c,
    ensures
        r.0 * c + r.1 == a * b,
        r.1 < c,
        r.0 <= b,
{
    // a * b == q * c + rem + (xq * c + xr) * bb, with xq * c + xr == a * scale
    let mut q: u128 = 0;
    let mut rem: u128 = 0;
    let mut xq: u128 = 0;
    let mut xr: u128 = a;
    let mut bb: u128 = b;
    let ghost mut scale: int = 1;
    assert(a * (b - bb * scale) == 0) by (nonlinear_arith)
        requires
            bb == b,
            scale == 1,
    ;
    while bb > 0
        invariant
            c > 0,
            a < c,
            scale >= 1,
            xr < c,
            rem < c,
            xq * c + xr == a * scale,
            q * c + rem == a * (b - bb * scale),
            bb * scale <= b,
            xq < scale,
            q <= b - bb * scale,
        decreases bb,
    {
        if bb % 2 == 1 {
            // (q, rem) += (xq, xr)
            let ghost old_q = q;
            let ghost old_rem = rem;
            if rem >= c - xr {
                rem = rem - (c - xr);
                assert(old_q * c + old_rem + xq * c + xr == (old_q + xq + 1) * c + rem)
                    by (nonlinear_arith)
                    requires
                        rem == old_rem - (c - xr),
                ;
                proof {
                    assert(a * (b - bb * scale) + a * scale == a * (b - (bb - 1) * scale))
                        by (nonlinear_arith);
                    assert((old_q + xq + 1) * c <= a * (b - (bb - 1) * scale)) by (nonlinear_arith)
                        requires
                            (old_q + xq + 1) * c + rem == a * (b - (bb - 1) * scale),
                            rem >= 0,
                    ;
                    assert(a * (b - (bb - 1) * scale) <= c * (b - (bb - 1) * scale))
                        by (nonlinear_arith)
                        requires
                            a < c,
                            bb * scale <= b,
                            scale >= 1,
                    ;
                    assert(old_q + xq + 1 <= b - (bb - 1) * scale) by (nonlinear_arith)
                        requires
                            (old_q + xq + 1) * c <= c * (b - (bb - 1) * scale),
                            c > 0,
                    ;
                }
                q = q + xq + 1;
            } else {
                rem = rem + xr;
                assert(old_q * c + old_rem + xq * c + xr == (old_q + xq) * c + rem)
                    by (nonlinear_arith)
                    requires
                        rem == old_rem + xr,
                ;
                proof {
                    assert(a * (b - bb * scale) + a * scale == a * (b - (bb - 1) * scale))
                        by (nonlinear_arith);
                    assert((old_q + xq) * c <= a * (b - (bb - 1) * scale)) by (nonlinear_arith)
                        requires
                            (old_q + xq) * c + rem == a * (b - (bb - 1) * scale),
                            rem >= 0,
                    ;
                    assert(a * (b - (bb - 1) * scale) <= c * (b - (bb - 1) * scale))
                        by (nonlinear_arith)
                        requires
                            a < c,
                            bb * scale <= b,
                            scale >= 1,
                    ;
                    assert(old_q + xq <= b - (bb - 1) * scale) by (nonlinear_arith)
                        requires
                            (old_q + xq) * c <= c * (b - (bb - 1) * scale),
                            c > 0,
                    ;
                }
                q = q + xq;
            }
            bb = bb - 1;
        }
        // bb is even here
        let ghost even_bb = bb;
        bb = bb / 2;
        if bb > 0 {
            // double (xq, xr) modulo c
            let ghost old_xq = xq;
            let ghost old_xr = xr;
            proof {
                assert(bb * 2 * scale <= b) by (nonlinear_arith)
                    requires
                        even_bb * scale <= b,
                        even_bb == bb * 2,
                ;
                assert(scale * 2 <= b) by (nonlinear_arith)
                    requires
                        bb * 2 * scale <= b,
                        bb >= 1,
                        scale >= 1,
                ;
            }
            if xr >= c - xr {
                xr = xr - (c - xr);
                xq = xq * 2 + 1;
            } else {
                xr = xr + xr;
                xq = xq * 2;
            }
            proof {
                scale = scale * 2;
                assert(xq * c + xr == a * scale) by (nonlinear_arith)
                    requires
                        old_xq * c + old_xr == a * (scale / 2),
                        scale % 2 == 0,
                        (xq == old_xq * 2 + 1 && xr == old_xr - (c - old_xr)) || (xq == old_xq * 2
                            && xr == old_xr + old_xr),
                ;
                assert(bb * scale == even_bb * (scale / 2)) by (nonlinear_arith)
                    requires
                        even_bb == bb * 2,
                        scale % 2 == 0,
                ;
            }
        } else {
            assert(bb * scale == 0) by (nonlinear_arith)
                requires
                    bb == 0,
            ;
        }
    }
    (q, rem)
}

/// `floor(a * b / c)` where `b <= c`: the result is at most `a`.
pub fn mul_div_floor(a: u128, b: u128, c: u128) -> (r: u128)
    requires
        b <= c,
        c > 0,
    ensures
        r == mul_div_spec(a as int, b as int, c as int),
        r <= a,
{
    if b == c {
        proof {
            assert((a * b) / (c as int) == a as int) by (nonlinear_arith)
                requires
                    b == c,
                    c > 0,
            ;
        }
        return a;
    }
    let (q, rem) = mul_div_rem(b, a, c);
    proof {
        assert(a * b == q * c + rem) by (nonlinear_arith)
            requires
                q * c + rem == b * a,
        ;
        lemma_div_of_decomposition(a * b, q as int, rem as int, c as int);
    }
    q
}

/// `ceil(a * b / c)` where `b <= c`: the result is at most `a`.
pub fn mul_div_ceil(a: u128, b: u128, c: u128) -> (r: u128)
    requires
        b <= c,
        c > 0,
    ensures
        r == mul_div_ceil_spec(a as int, b as int, c as int),
        r <= a,
{
    if b == c {
        proof {
            assert((a * b + c - 1) / (c as int) == a as int) by (nonlinear_arith)
                requires
                    b == c,
                    c > 0,
            ;
        }
        return a;
    }
    let (q, rem) = mul_div_rem(b, a, c);
    proof {
        assert(a * b == q * c + rem) by (nonlinear_arith)
            requires
                q * c + rem == b * a,
        ;
    }
    if rem == 0 {
        proof {
            lemma_div_of_decomposition(a * b + c - 1, q as int, c - 1, c as int);
        }
        q
    } else {
        proof {
            assert(a * b + c - 1 == (q + 1) * c + (rem - 1)) by (nonlinear_arith)
                requires
                    q * c + rem == a * b,
            ;
            lemma_div_of_decomposition(a * b + c - 1, q + 1, rem - 1, c as int);
            assert(q < a) by (nonlinear_arith)
                requires
                    q * c + rem == a * b,
                    rem > 0,
                    b < c,
                    c > 0,
            ;
        }
        q + 1
    }
}

/// `floor(a * b / c)` for arbitrary amounts, or `None` when the quotient exceeds `u128`.
pub fn checked_mul_div(a: u128, b: u128, c: u128) -> (r: Option<u128>)
    requires
        c > 0,
    ensures
        match r {
            Some(v) => v == mul_div_spec(a as int, b as int, c as int),
            None => mul_div_spec(a as int, b as int, c as int) > u128::MAX,
        },
{
    // a * b / c == (a / c) * b + (a % c) * b / c
    let hi = a / c;
    let lo = a % c;
    proof {
        vstd::arithmetic::div_mod::lemma_fundamental_div_mod(a as int, c as int);
    }
    let (q, rem) = mul_div_rem(lo, b, c);
    proof {
        assert(a * b == (hi * b + q) * c + rem) by (nonlinear_arith)
            requires
                a == hi * c + lo,
                q * c + rem == lo * b,
        ;
        lemma_div_of_decomposition(a * b, hi * b + q, rem as int, c as int);
    }
    match hi.checked_mul(b) {
        Some(hb) => match hb.checked_add(q) {
            Some(v) => Some(v),
            None => None,
        },
        None => {
            proof {
                assert(hi * b + q >= hi * b) by (nonlinear_arith)
                    requires
                        q >= 0,
                ;
            }
            None
        },
    }
}

/// `ceil(a * b / c)` for arbitrary amounts, or `None` when it exceeds `u128`.
pub fn checked_mul_div_ceil(a: u128, b: u128, c: u128) -> (r: Option<u128>)
    requires
        c > 0,
    ensures
        match r {
            Some(v) => v == mul_div_ceil_spec(a as int, b as int, c as int),
            None => mul_div_ceil_spec(a as int, b as int, c as int) > u128::MAX,
        },
{
    let hi = a / c;
    let lo = a % c;
    proof {
        vstd::arithmetic::div_mod::lemma_fundamental_div_mod(a as int, c as int);
    }
    let (q, rem) = mul_div_rem(lo, b, c);
    let ghost fl: int = hi * b + q;
    proof {
        assert(a * b == fl * c + rem) by (nonlinear_arith)
            requires
                a == hi * c + lo,
                q * c + rem == lo * b,
                fl == hi * b + q,
        ;
        if rem == 0 {
            lemma_div_of_decomposition(a * b + c - 1, fl, c - 1, c as int);
        } else {
            assert(a * b + c - 1 == (fl + 1) * c + (rem - 1)) by (nonlinear_arith)
                requires
                    a * b == fl * c + rem,
            ;
            lemma_div_of_decomposition(a * b + c - 1, fl + 1, rem - 1, c as int);
        }
        assert(hi * b + q >= hi * b) by (nonlinear_arith)
            requires
                q >= 0,
        ;
    }
    let hb = match hi.checked_mul(b) {
        Some(hb) => hb,
        None => { return None; },
    };
    let f = match hb.checked_add(q) {
        Some(f) => f,
        None => { return None; },
    };
    if rem == 0 {
        Some(f)
    } else {
        f.checked_add(1)
    }
}

/// Division with a known decomposition: `x == q * c + r` with `0 <= r < c` gives `x / c == q`.
pub proof fn lemma_div_of_decomposition(x: int, q: int, r: int, c: int)
    requires
        c > 0,
        0 <= r < c,
        x == q * c + r,
    ensures
        x / c == q,
{
    vstd::arithmetic::div_mod::lemma_fundamental_div_mod_converse(x, c, q, r);
}

} // verus!
