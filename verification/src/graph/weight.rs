//! Edge weights, held as the bit patterns of `f64` values, and when an editing command
//! takes two of them for the same weight.

use vstd::prelude::*;
use vstd::arithmetic::power2::{
    pow2, lemma_pow2_pos, lemma_pow2_unfold, lemma_pow2_adds, lemma_pow2_strictly_increases,
    lemma2_to64, lemma2_to64_rest,
};
use vstd::arithmetic::div_mod::lemma_fundamental_div_mod_converse;

verus! {

/// A weight with its sign bit cleared.
pub open spec fn magnitude(w: u64) -> u64 {
    if w >= 0x8000_0000_0000_0000 {
        (w - 0x8000_0000_0000_0000) as u64
    } else {
        w
    }
}

/// The weight is a finite number: neither infinite nor NaN.
pub open spec fn is_finite_weight(w: u64) -> bool {
    magnitude(w) < 0x7FF0_0000_0000_0000
}

/// The sign bit of the weight is set.
pub open spec fn is_negative_weight(w: u64) -> bool {
    w >= 0x8000_0000_0000_0000
}

/// The size of the finite number whose bit pattern, sign cleared, is `m`, counted in
/// units of 2^-1074 (the smallest positive `f64`). The exponent field is `m / 2^52` and
/// the fraction field `m % 2^52`: an exponent field `e` above 0 stands for
/// `(2^52 + fraction) * 2^(e - 1075)`, a zero one for `fraction * 2^-1074`.
pub open spec fn size_in_units(m: nat) -> nat {
    let e = m / 0x10_0000_0000_0000;
    let f = m % 0x10_0000_0000_0000;
    if e == 0 {
        f
    } else {
        (0x10_0000_0000_0000 + f) * pow2((e - 1) as nat)
    }
}

/// The exact value of a finite weight, in units of 2^-1074.
pub open spec fn value_in_units(w: u64) -> int {
    let s = size_in_units(magnitude(w) as nat) as int;
    if is_negative_weight(w) {
        -s
    } else {
        s
    }
}

/// `f64::EPSILON` (2^-52) less 2^-106, in units of 2^-1074.
pub open spec fn match_bound() -> int {
    pow2(1022) - pow2(968)
}

/// An editing command takes the weights for the same one when `(a - b).abs()`, computed
/// in `f64`, is below `f64::EPSILON`. That holds exactly when both are finite and the
/// exact difference lies strictly between -(2^-52 - 2^-106) and 2^-52 - 2^-106: below
/// that bound the subtraction rounds to a number under 2^-52, from it on to 2^-52 or more.
/// A NaN or an infinity matches nothing.
pub open spec fn same_weight(a: u64, b: u64) -> bool {
    let d = value_in_units(a) - value_in_units(b);
    &&& is_finite_weight(a)
    &&& is_finite_weight(b)
    &&& -match_bound() < d < match_bound()
}

proof fn lemma_constants()
    ensures
        pow2(52) == 0x10_0000_0000_0000,
        pow2(53) == 0x20_0000_0000_0000,
        pow2(54) == 0x40_0000_0000_0000,
        pow2(64) == 0x1_0000_0000_0000_0000,
        pow2(0) == 1,
        match_bound() == 0x3F_FFFF_FFFF_FFFF * pow2(968),
        pow2(968) > pow2(53),
        match_bound() > 0,
{
    lemma2_to64();
    lemma2_to64_rest();
    lemma_pow2_adds(54, 968);
    lemma_pow2_strictly_increases(53, 968);
}

/// The size of a number of exponent field `e` lies between `2^52 * 2^(e-1)` and
/// `(2^53 - 1) * 2^(e-1)`; a subnormal one is below 2^52.
proof fn lemma_size_bounds(m: nat)
    requires
        m < 0x8000_0000_0000_0000,
    ensures
        m / 0x10_0000_0000_0000 == 0 ==> size_in_units(m) < 0x10_0000_0000_0000,
        m / 0x10_0000_0000_0000 >= 1 ==> 0x10_0000_0000_0000 * pow2((m / 0x10_0000_0000_0000 - 1) as nat)
            <= size_in_units(m) <= 0x1F_FFFF_FFFF_FFFF * pow2((m / 0x10_0000_0000_0000 - 1) as nat),
{
    let e = m / 0x10_0000_0000_0000;
    let f = m % 0x10_0000_0000_0000;
    if e >= 1 {
        let p = pow2((e - 1) as nat);
        lemma_pow2_pos((e - 1) as nat);
        assert(0x10_0000_0000_0000 * p <= (0x10_0000_0000_0000 + f) * p <= 0x1F_FFFF_FFFF_FFFF * p)
            by (nonlinear_arith)
            requires
                0 <= f < 0x10_0000_0000_0000,
                p > 0,
        ;
    }
}

/// A larger bit pattern (sign cleared) is a larger number.
pub proof fn lemma_size_monotone(m1: nat, m2: nat)
    requires
        m2 <= m1 < 0x8000_0000_0000_0000,
    ensures
        size_in_units(m2) <= size_in_units(m1),
{
    let e1 = m1 / 0x10_0000_0000_0000;
    let e2 = m2 / 0x10_0000_0000_0000;
    let f1 = m1 % 0x10_0000_0000_0000;
    let f2 = m2 % 0x10_0000_0000_0000;
    assert(e2 <= e1) by (nonlinear_arith)
        requires
            m2 <= m1,
            e1 == m1 / 0x10_0000_0000_0000,
            e2 == m2 / 0x10_0000_0000_0000,
    ;
    lemma_size_bounds(m1);
    lemma_size_bounds(m2);
    lemma_constants();
    if e1 == e2 {
        assert(f2 <= f1) by (nonlinear_arith)
            requires
                m2 <= m1,
                e1 == m1 / 0x10_0000_0000_0000,
                e1 == m2 / 0x10_0000_0000_0000,
                f1 == m1 % 0x10_0000_0000_0000,
                f2 == m2 % 0x10_0000_0000_0000,
        ;
        if e1 >= 1 {
            let p = pow2((e1 - 1) as nat);
            assert((0x10_0000_0000_0000 + f2) * p <= (0x10_0000_0000_0000 + f1) * p) by (nonlinear_arith)
                requires
                    f2 <= f1,
            ;
        }
    } else if e2 == 0 {
        lemma_pow2_pos((e1 - 1) as nat);
        let p = pow2((e1 - 1) as nat);
        assert(0x10_0000_0000_0000 <= 0x10_0000_0000_0000 * p) by (nonlinear_arith)
            requires
                p >= 1,
        ;
    } else {
        let p1 = pow2((e1 - 1) as nat);
        let p2 = pow2((e2 - 1) as nat);
        if e2 < e1 - 1 {
            lemma_pow2_strictly_increases(e2 as nat, (e1 - 1) as nat);
        }
        lemma_pow2_unfold(e2 as nat);
        lemma_pow2_pos((e2 - 1) as nat);
        assert(0x1F_FFFF_FFFF_FFFF * p2 <= 0x10_0000_0000_0000 * p1) by (nonlinear_arith)
            requires
                p1 >= 2 * p2,
                p2 > 0,
        ;
    }
}

/// Two different numbers whose larger has exponent field `e >= 2` lie at least
/// `2^(e-2)` apart.
proof fn lemma_size_gap(m1: nat, m2: nat)
    requires
        m2 < m1 < 0x8000_0000_0000_0000,
        m1 / 0x10_0000_0000_0000 >= 2,
    ensures
        size_in_units(m1) - size_in_units(m2) >= pow2((m1 / 0x10_0000_0000_0000 - 2) as nat),
{
    let e1 = m1 / 0x10_0000_0000_0000;
    let e2 = m2 / 0x10_0000_0000_0000;
    let f1 = m1 % 0x10_0000_0000_0000;
    let f2 = m2 % 0x10_0000_0000_0000;
    assert(e2 <= e1) by (nonlinear_arith)
        requires
            m2 <= m1,
            e1 == m1 / 0x10_0000_0000_0000,
            e2 == m2 / 0x10_0000_0000_0000,
    ;
    lemma_constants();
    let q = pow2((e1 - 2) as nat);
    lemma_pow2_unfold((e1 - 1) as nat);
    lemma_pow2_pos((e1 - 2) as nat);
    if e2 == e1 {
        assert(f2 < f1) by (nonlinear_arith)
            requires
                m2 < m1,
                e1 == m1 / 0x10_0000_0000_0000,
                e1 == m2 / 0x10_0000_0000_0000,
                f1 == m1 % 0x10_0000_0000_0000,
                f2 == m2 % 0x10_0000_0000_0000,
        ;
        let p = pow2((e1 - 1) as nat);
        assert((0x10_0000_0000_0000 + f1) * p - (0x10_0000_0000_0000 + f2) * p >= p) by (nonlinear_arith)
            requires
                f2 < f1,
                p > 0,
        ;
    } else {
        let top: nat = (e1 * 0x10_0000_0000_0000 - 1) as nat;
        lemma_fundamental_div_mod_converse(
            top as int,
            0x10_0000_0000_0000,
            (e1 - 1) as int,
            0xF_FFFF_FFFF_FFFF,
        );
        assert(m2 <= top) by (nonlinear_arith)
            requires
                e2 < e1,
                e2 == m2 / 0x10_0000_0000_0000,
                top == e1 * 0x10_0000_0000_0000 - 1,
        ;
        lemma_size_monotone(top, m2);
        assert(size_in_units(top) == 0x1F_FFFF_FFFF_FFFF * q);
        lemma_size_bounds(m1);
        assert(0x10_0000_0000_0000 * pow2((e1 - 1) as nat) == 0x20_0000_0000_0000 * q);
    }
}

/// Multiplies `m` by `2^k`.
fn times_pow2(m: u128, k: u64) -> (r: u128)
    requires
        m < 0x20_0000_0000_0000,
        k <= 64,
    ensures
        r == m * pow2(k as nat),
        r <= 0x20_0000_0000_0000 * 0x1_0000_0000_0000_0000,
{
    proof {
        lemma_constants();
    }
    let mut r = m;
    let mut i: u64 = 0;
    while i < k
        invariant
            i <= k <= 64,
            m < 0x20_0000_0000_0000,
            r == m * pow2(i as nat),
            pow2(i as nat) <= 0x1_0000_0000_0000_0000,
            pow2(64) == 0x1_0000_0000_0000_0000,
        decreases k - i,
    {
        proof {
            lemma_pow2_unfold((i + 1) as nat);
            if i + 1 < 64 {
                lemma_pow2_strictly_increases((i + 1) as nat, 64);
            }
            let p = pow2(i as nat);
            let p1 = pow2((i + 1) as nat);
            assert(m * p1 == 2 * (m * p) && m * p1 <= 0x20_0000_0000_0000 * 0x1_0000_0000_0000_0000)
                by (nonlinear_arith)
                requires
                    p1 == 2 * p,
                    p1 <= 0x1_0000_0000_0000_0000,
                    m < 0x20_0000_0000_0000,
            ;
        }
        r = r * 2;
        i = i + 1;
    }
    proof {
        let p = pow2(i as nat);
        assert(m * p <= 0x20_0000_0000_0000 * 0x1_0000_0000_0000_0000) by (nonlinear_arith)
            requires
                p <= 0x1_0000_0000_0000_0000,
                m < 0x20_0000_0000_0000,
        ;
    }
    r
}

/// Divides `m` by `2^k`: the quotient, and whether anything was left over.
fn divide_pow2(m: u64, k: u64) -> (r: (u64, bool))
    requires
        0 < m < 0x20_0000_0000_0000,
        1 <= k <= 968,
    ensures
        r.0 * pow2(k as nat) <= m,
        m - r.0 * pow2(k as nat) < pow2(k as nat),
        r.1 == (m - r.0 * pow2(k as nat) != 0),
{
    proof {
        lemma_constants();
    }
    if k >= 53 {
        proof {
            if k > 53 {
                lemma_pow2_strictly_increases(53, k as nat);
            }
        }
        return (0, true);
    }
    let mut q = m;
    let mut left = false;
    let mut i: u64 = 0;
    while i < k
        invariant
            i <= k < 53,
            0 < m < 0x20_0000_0000_0000,
            q * pow2(i as nat) <= m,
            m - q * pow2(i as nat) < pow2(i as nat),
            left == (m - q * pow2(i as nat) != 0),
            pow2(0) == 1,
        decreases k - i,
    {
        let b = q % 2;
        proof {
            lemma_pow2_unfold((i + 1) as nat);
            lemma_pow2_pos(i as nat);
            let p = pow2(i as nat);
            let rest = m - q * p;
            let h = q / 2;
            assert(q * p == h * pow2((i + 1) as nat) + b * p) by (nonlinear_arith)
                requires
                    q == 2 * h + b,
                    pow2((i + 1) as nat) == 2 * p,
            ;
            assert(b * p + rest < pow2((i + 1) as nat)) by (nonlinear_arith)
                requires
                    b <= 1,
                    rest < p,
                    pow2((i + 1) as nat) == 2 * p,
            ;
            assert((b * p + rest != 0) == (b != 0 || rest != 0)) by (nonlinear_arith)
                requires
                    p > 0,
                    rest >= 0,
                    b >= 0,
            ;
        }
        left = left || b != 0;
        q = q / 2;
        i = i + 1;
    }
    (q, left)
}

/// Sums and differences of `sl = lq * p` and `ss = sq * p + r` against the bound
/// `(2^54 - 1) * p`.
proof fn lemma_window(sl: int, ss: int, lq: int, sq: int, r: int, p: int)
    requires
        p > 0,
        sl == lq * p,
        ss == sq * p + r,
        0 <= r < p,
        0 <= ss <= sl,
        sq >= 0,
        lq >= 0,
    ensures
        lq >= sq,
        (sl + ss < 0x3F_FFFF_FFFF_FFFF * p) == (lq + sq < 0x3F_FFFF_FFFF_FFFF),
        (sl - ss < 0x3F_FFFF_FFFF_FFFF * p) == if r > 0 {
            lq - sq <= 0x3F_FFFF_FFFF_FFFF
        } else {
            lq - sq < 0x3F_FFFF_FFFF_FFFF
        },
{
    let c: int = 0x3F_FFFF_FFFF_FFFF;
    assert(lq >= sq) by (nonlinear_arith)
        requires
            sl == lq * p,
            ss == sq * p + r,
            r >= 0,
            ss <= sl,
            p > 0,
    ;
    assert((lq + sq) * p + r < c * p <==> lq + sq < c) by (nonlinear_arith)
        requires
            0 <= r < p,
    ;
    assert(sl + ss == (lq + sq) * p + r) by (nonlinear_arith)
        requires
            sl == lq * p,
            ss == sq * p + r,
    ;
    assert(sl - ss == (lq - sq) * p - r) by (nonlinear_arith)
        requires
            sl == lq * p,
            ss == sq * p + r,
    ;
    if r > 0 {
        assert((lq - sq) * p - r < c * p <==> lq - sq <= c) by (nonlinear_arith)
            requires
                0 < r < p,
        ;
    } else {
        assert((lq - sq) * p < c * p <==> lq - sq < c) by (nonlinear_arith)
            requires
                p > 0,
        ;
    }
}

/// A finite weight matches itself.
pub proof fn lemma_same_weight_reflexive(w: u64)
    requires
        is_finite_weight(w),
    ensures
        same_weight(w, w),
{
    lemma_constants();
}

/// Whether an editing command takes the two weights for the same one (`same_weight`).
pub fn weights_match(a: u64, b: u64) -> (r: bool)
    ensures
        r == same_weight(a, b),
{
    let ma = if a >= 0x8000_0000_0000_0000 {
        a - 0x8000_0000_0000_0000
    } else {
        a
    };
    let mb = if b >= 0x8000_0000_0000_0000 {
        b - 0x8000_0000_0000_0000
    } else {
        b
    };
    if ma >= 0x7FF0_0000_0000_0000 || mb >= 0x7FF0_0000_0000_0000 {
        return false;
    }
    let opposite = (a >= 0x8000_0000_0000_0000) != (b >= 0x8000_0000_0000_0000);
    let (l, s) = if ma >= mb {
        (ma, mb)
    } else {
        (mb, ma)
    };
    let ghost sl = size_in_units(l as nat) as int;
    let ghost ss = size_in_units(s as nat) as int;
    let ghost dist: int = if opposite {
        sl + ss
    } else {
        sl - ss
    };
    proof {
        lemma_constants();
        lemma_size_monotone(l as nat, s as nat);
        assert(same_weight(a, b) == (dist < match_bound()));
    }
    let el = l / 0x10_0000_0000_0000;
    let fl = l % 0x10_0000_0000_0000;
    let es = s / 0x10_0000_0000_0000;
    let fs = s % 0x10_0000_0000_0000;
    proof {
        lemma_size_bounds(l as nat);
        lemma_size_bounds(s as nat);
    }
    if el <= 969 {
        proof {
            if el >= 1 {
                if el < 969 {
                    lemma_pow2_strictly_increases((el - 1) as nat, 968);
                }
                let p = pow2((el - 1) as nat);
                assert(0x1F_FFFF_FFFF_FFFF * p <= 0x1F_FFFF_FFFF_FFFF * pow2(968)) by (nonlinear_arith)
                    requires
                        p <= pow2(968),
                ;
            }
        }
        return true;
    }
    if el > 1033 {
        proof {
            lemma_pow2_strictly_increases(1022, 1032);
            lemma_pow2_strictly_increases(1032, (el - 1) as nat);
            lemma_pow2_pos(968);
            let p = pow2((el - 1) as nat);
            assert(0x10_0000_0000_0000 * p >= p) by (nonlinear_arith)
                requires
                    p > 0,
            ;
            if l != s {
                lemma_size_gap(l as nat, s as nat);
                if el > 1034 {
                    lemma_pow2_strictly_increases(1032, (el - 2) as nat);
                }
            }
        }
        return !opposite && l == s;
    }
    let lq = times_pow2((0x10_0000_0000_0000 + fl) as u128, el - 969);
    proof {
        lemma_pow2_adds((el - 969) as nat, 968);
        assert(sl == lq * pow2(968)) by (nonlinear_arith)
            requires
                sl == (0x10_0000_0000_0000 + fl) * pow2((el - 1) as nat),
                lq == (0x10_0000_0000_0000 + fl) * pow2((el - 969) as nat),
                pow2((el - 1) as nat) == pow2((el - 969) as nat) * pow2(968),
        ;
    }
    let ghost mut rest: int = 0;
    let mut sq: u128 = 0;
    let mut left = false;
    if es >= 969 {
        proof {
            assert(es <= el) by (nonlinear_arith)
                requires
                    s <= l,
                    el == l / 0x10_0000_0000_0000,
                    es == s / 0x10_0000_0000_0000,
            ;
        }
        sq = times_pow2((0x10_0000_0000_0000 + fs) as u128, es - 969);
        proof {
            lemma_pow2_adds((es - 969) as nat, 968);
            assert(ss == sq * pow2(968)) by (nonlinear_arith)
                requires
                    ss == (0x10_0000_0000_0000 + fs) * pow2((es - 1) as nat),
                    sq == (0x10_0000_0000_0000 + fs) * pow2((es - 969) as nat),
                    pow2((es - 1) as nat) == pow2((es - 969) as nat) * pow2(968),
            ;
        }
    } else if es == 0 {
        left = fs != 0;
        proof {
            rest = fs as int;
        }
    } else {
        let (q, lo) = divide_pow2(0x10_0000_0000_0000 + fs, 969 - es);
        sq = q as u128;
        left = lo;
        proof {
            let m = 0x10_0000_0000_0000 + fs;
            let k = (969 - es) as nat;
            let pe = pow2((es - 1) as nat);
            let rm = m - q * pow2(k);
            lemma_pow2_adds(k, (es - 1) as nat);
            lemma_pow2_pos((es - 1) as nat);
            rest = rm * pe;
            assert(ss == sq * pow2(968) + rest && 0 <= rest < pow2(968) && ((rest != 0) == (rm != 0)))
                by (nonlinear_arith)
                requires
                    ss == m * pe,
                    m == q * pow2(k) + rm,
                    0 <= rm < pow2(k),
                    pow2(968) == pow2(k) * pe,
                    pe > 0,
                    rest == rm * pe,
                    sq == q,
            ;
        }
    }
    proof {
        lemma_window(sl, ss, lq as int, sq as int, rest, pow2(968) as int);
    }
    if opposite {
        lq + sq < 0x3F_FFFF_FFFF_FFFF
    } else if left {
        lq - sq <= 0x3F_FFFF_FFFF_FFFF
    } else {
        lq - sq < 0x3F_FFFF_FFFF_FFFF
    }
}

} // verus!
