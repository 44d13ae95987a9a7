//! Durations in seconds with one decimal, rounded as IEEE 754 double-precision arithmetic rounds
//! them: the milliseconds become a double, that is divided by 1000, and the quotient is written
//! with one digit behind the point. Only whole numbers are used to get there.

use crate::text::{decimal, decimals_read_back, is_numeral, push_decimal, value};
use vstd::prelude::*;

verus! {

/// Two to the power of 52: the significand of a double is at least this.
#[verifier::inline]
pub open spec fn significand_min() -> int {
    0x10_0000_0000_0000
}

/// The whole number nearest to `n / d`; of two equally near ones the even one.
pub open spec fn nearest(n: int, d: int) -> int {
    let q = n / d;
    let r = n % d;
    if 2 * r < d {
        q
    } else if 2 * r > d {
        q + 1
    } else {
        q + q % 2
    }
}

/// The double nearest to `n / d`, as a fraction: `n / d` is scaled by a power of two until its
/// whole part has 53 binary digits, and rounded there.
pub open spec fn double(n: int, d: int) -> (int, int)
    decreases
            if n < significand_min() * d {
                significand_min() * d - n
            } else if n < 2 * significand_min() * d {
                0
            } else {
                n - 2 * significand_min() * d + 1
            },
{
    if n <= 0 || d <= 0 {
        (0, 1)
    } else if n < significand_min() * d {
        let (a, b) = double(2 * n, d);
        (a, 2 * b)
    } else if n >= 2 * significand_min() * d {
        let (a, b) = double(n, 2 * d);
        (2 * a, b)
    } else {
        (nearest(n, d), 1)
    }
}

/// `ms` milliseconds in tenths of a second.
pub open spec fn tenths(ms: int) -> int {
    let (v, w) = double(ms, 1);
    let (x, y) = double(v, 1000 * w);
    nearest(10 * x, y)
}

/// `ms` milliseconds in seconds, with one decimal.
pub open spec fn seconds_text(ms: int) -> Seq<char> {
    decimal((tenths(ms) / 10) as nat) + "."@ + decimal((tenths(ms) % 10) as nat)
}

fn nearest_whole(n: u128, d: u128) -> (r: u128)
    requires
        0 < d <= u128::MAX / 2,
        n < u128::MAX,
    ensures
        r == nearest(n as int, d as int),
        r * d <= n + d,
{
    let q: u128 = n / d;
    let rest: u128 = n % d;
    assert(q * d <= n) by {
        vstd::arithmetic::div_mod::lemma_fundamental_div_mod(n as int, d as int);
        assert(d * q == q * d) by (nonlinear_arith);
    }
    assert((q + 1) * d == q * d + d) by (nonlinear_arith);
    assert(q <= n) by (nonlinear_arith)
        requires
            q * d <= n,
            d >= 1,
    ;
    if 2 * rest < d {
        q
    } else if 2 * rest > d {
        q + 1
    } else {
        q + q % 2
    }
}

fn nearest_double(n: u128, d: u128) -> (r: (u128, u128))
    requires
        n <= 0x4_0000_0000_0000_0000 || n < 0x20_0000_0000_0000 * d,
        0 < d <= 0x1_0000_0000_0000_0000,
    ensures
        (r.0 as int, r.1 as int) == double(n as int, d as int),
        r.1 >= 1,
        r.0 * d <= 2 * n * r.1,
        n >= 1 && n < 0x20_0000_0000_0000 * d ==> n * r.1 <= 0x20_0000_0000_0000 * d,
        n == 0 || n >= 0x20_0000_0000_0000 * d ==> r.1 == 1,
        n == 0 ==> r.0 == 0,
    decreases
            if n < 0x10_0000_0000_0000 * d {
                0x10_0000_0000_0000 * d - n
            } else if n < 0x20_0000_0000_0000 * d {
                0
            } else {
                n - 0x20_0000_0000_0000 * d + 1
            },
{
    if n == 0 {
        assert(0 * d == 0 && 2 * 0 * 1 == 0);
        (0, 1)
    } else if n < 0x10_0000_0000_0000 * d {
        let (a, b) = nearest_double(2 * n, d);
        assert(2 * n * b == n * (2 * b)) by (nonlinear_arith);
        assert((2 * n) * b == n * (2 * b)) by (nonlinear_arith);
        assert(2 * (2 * n) * b == 2 * n * (2 * b)) by (nonlinear_arith);
        assert(b <= 0x20_0000_0000_0000 * d) by (nonlinear_arith)
            requires
                n >= 1,
                (2 * n) * b <= 0x20_0000_0000_0000 * d,
        ;
        (a, 2 * b)
    } else if n >= 0x20_0000_0000_0000 * d {
        let (a, b) = nearest_double(n, 2 * d);
        assert(b == 1);
        assert((2 * a) * d == a * (2 * d)) by (nonlinear_arith);
        assert(a <= 2 * n) by (nonlinear_arith)
            requires
                a * (2 * d) <= 2 * n * 1,
                d >= 1,
        ;
        (2 * a, b)
    } else {
        let m: u128 = nearest_whole(n, d);
        (m, 1)
    }
}

/// Appends `ms` milliseconds in seconds, with one decimal.
pub fn push_seconds(out: &mut String, ms: u64)
    ensures
        final(out)@ == old(out)@ + seconds_text(ms as int),
{
    let ghost before = out@;
    let (v, w) = nearest_double(ms as u128, 1);
    assert(w <= 0x20_0000_0000_0000 && v <= 0x2_0000_0000_0000_0000) by (nonlinear_arith)
        requires
            ms <= 0xffff_ffff_ffff_ffff,
            v * 1 <= 2 * ms * w,
            ms >= 1 && ms < 0x20_0000_0000_0000 ==> ms * w <= 0x20_0000_0000_0000,
            ms == 0 || ms >= 0x20_0000_0000_0000 ==> w == 1,
    ;
    let e: u128 = 1000 * w;
    let (x, y) = nearest_double(v, e);
    assert(y <= 0x20_0000_0000_0000 * e) by (nonlinear_arith)
        requires
            v >= 1 && v < 0x20_0000_0000_0000 * e ==> v * y <= 0x20_0000_0000_0000 * e,
            v == 0 || v >= 0x20_0000_0000_0000 * e ==> y == 1,
            e >= 1,
    ;
    // The seconds are at most four times the quotient.
    assert(250 * x <= ms * y) by (nonlinear_arith)
        requires
            v * 1 <= 2 * ms * w,
            x * e <= 2 * v * y,
            e == 1000 * w,
            w >= 1,
    ;
    assert(x <= 0x2_0000_0000_0000_0000) by (nonlinear_arith)
        requires
            v <= 0x2_0000_0000_0000_0000,
            v >= 1 && v < 0x20_0000_0000_0000 * e ==> v * y <= 0x20_0000_0000_0000 * e,
            v == 0 || v >= 0x20_0000_0000_0000 * e ==> y == 1,
            v == 0 ==> x == 0,
            x * e <= 2 * v * y,
            e >= 1000,
    ;
    let t: u128 = nearest_whole(10 * x, y);
    assert(25 * t <= ms + 25) by (nonlinear_arith)
        requires
            t * y <= 10 * x + y,
            250 * x <= ms * y,
            y >= 1,
    ;
    push_decimal(out, (t / 10) as u64);
    out.append(".");
    push_decimal(out, (t % 10) as u64);
    assert(out@ =~= before + seconds_text(ms as int));
}

// ---- laws ----

/// A double is as near to the fraction as 53 binary digits allow.
proof fn double_is_near(n: int, d: int)
    requires
        0 < n < 2 * significand_min() * d,
    ensures
        ({
            let (a, b) = double(n, d);
            &&& 1 <= b
            &&& -d <= 2 * (a * d - n * b) <= d
            &&& significand_min() * d <= n * b
            &&& d == 1 ==> a == n * b
        }),
    decreases
            if n < significand_min() * d {
                significand_min() * d - n
            } else {
                0
            },
{
    if n < significand_min() * d {
        double_is_near(2 * n, d);
        let (a, b) = double(2 * n, d);
        assert((2 * n) * b == n * (2 * b)) by (nonlinear_arith);
    } else {
        let q = n / d;
        let r = n % d;
        vstd::arithmetic::div_mod::lemma_fundamental_div_mod(n, d);
        assert(d * q == q * d) by (nonlinear_arith);
        assert((q + 1) * d == q * d + d) by (nonlinear_arith);
        assert(n * 1 == n);
        assert(d == 1 ==> r == 0 && q == n);
        assert(q % 2 == 0 || q % 2 == 1);
    }
}

/// Seconds are rounded to the nearest tenth, wherever there is one that is nearer than the other.
#[verifier::spinoff_prover]
pub proof fn seconds_are_rounded(ms: int)
    requires
        0 <= ms < 0x10_0000_0000_0000,
        ms % 100 != 50,
    ensures
        tenths(ms) == (ms + 50) / 100,
{
    let (v, w) = double(ms, 1);
    let (x, y) = double(v, 1000 * w);
    if ms == 0 {
        assert(double(0, 1) == (0int, 1int));
        assert(double(0, 1000) == (0int, 1int));
        assert(nearest(0, 1) == 0);
    } else {
        double_is_near(ms, 1);
        assert(v == ms * w);
        assert(0 < v < 2 * significand_min() * (1000 * w)) by (nonlinear_arith)
            requires
                v == ms * w,
                0 < ms < 0x10_0000_0000_0000,
                w >= 1,
        ;
        double_is_near(v, 1000 * w);
        let e = 1000 * x - ms * y;
        assert(-500 <= e <= 500) by (nonlinear_arith)
            requires
                e == 1000 * x - ms * y,
                v == ms * w,
                w >= 1,
                -(1000 * w) <= 2 * (x * (1000 * w) - v * y) <= 1000 * w,
        ;
        assert(1000 <= y) by (nonlinear_arith)
            requires
                significand_min() * (1000 * w) <= v * y,
                v == ms * w,
                ms < 0x10_0000_0000_0000,
                0 < ms,
                w >= 1,
                y >= 1,
        ;
        let q = (ms + 50) / 100;
        let f = ms - 100 * q;
        assert(-49 <= f <= 49);
        // Ten times the quotient lies less than one half away from `q`.
        let g = 10 * x - q * y;
        assert(100 * g == f * y + e) by (nonlinear_arith)
            requires
                e == 1000 * x - ms * y,
                f == ms - 100 * q,
                g == 10 * x - q * y,
        ;
        assert(-y < 2 * g < y) by (nonlinear_arith)
            requires
                100 * g == f * y + e,
                -49 <= f <= 49,
                -500 <= e <= 500,
                1000 <= y,
        ;
        assert(10 * x == q * y + g);
        if g >= 0 {
            vstd::arithmetic::div_mod::lemma_fundamental_div_mod_converse(10 * x, y, q, g);
        } else {
            assert(10 * x == (q - 1) * y + (g + y)) by (nonlinear_arith)
                requires
                    10 * x == q * y + g,
            ;
            vstd::arithmetic::div_mod::lemma_fundamental_div_mod_converse(
                10 * x,
                y,
                q - 1,
                g + y,
            );
        }
    }
}

/// Half a tenth is rounded to the tenth below or to the one above.
#[verifier::spinoff_prover]
pub proof fn half_tenths_are_rounded(ms: int)
    requires
        0 <= ms < 0x10_0000_0000_0000,
        ms % 100 == 50,
    ensures
        tenths(ms) == ms / 100 || tenths(ms) == ms / 100 + 1,
{
    let (v, w) = double(ms, 1);
    let (x, y) = double(v, 1000 * w);
    if ms > 0 {
        double_is_near(ms, 1);
        assert(v == ms * w);
        assert(0 < v < 2 * significand_min() * (1000 * w)) by (nonlinear_arith)
            requires
                v == ms * w,
                0 < ms < 0x10_0000_0000_0000,
                w >= 1,
        ;
        double_is_near(v, 1000 * w);
        let e = 1000 * x - ms * y;
        assert(-500 <= e <= 500) by (nonlinear_arith)
            requires
                e == 1000 * x - ms * y,
                v == ms * w,
                w >= 1,
                -(1000 * w) <= 2 * (x * (1000 * w) - v * y) <= 1000 * w,
        ;
        assert(1000 <= y) by (nonlinear_arith)
            requires
                significand_min() * (1000 * w) <= v * y,
                v == ms * w,
                ms < 0x10_0000_0000_0000,
                0 < ms,
                w >= 1,
                y >= 1,
        ;
        let q = ms / 100;
        // Ten times the quotient lies near to `q` and one half.
        let g = 10 * x - q * y;
        assert(100 * g == 50 * y + e) by (nonlinear_arith)
            requires
                e == 1000 * x - ms * y,
                ms == 100 * q + 50,
                g == 10 * x - q * y,
        ;
        assert(0 <= g < y);
        vstd::arithmetic::div_mod::lemma_fundamental_div_mod_converse(10 * x, y, q, g);
    }
}

/// A duration reads back from its text: the whole seconds before the point, and one digit for the
/// tenths behind it. Together they are the tenths of a second that are nearest; where two are as
/// near, one of them.
pub proof fn seconds_read_back(ms: int)
    requires
        0 <= ms < 0x10_0000_0000_0000,
    ensures
        ({
            let t = seconds_text(ms);
            let n = t.len() - 2;
            let tenths = 10 * value(t.take(n)) + value(t.skip(n + 1));
            &&& n > 0 && t[n] == '.' && is_numeral(t.take(n)) && is_numeral(t.skip(n + 1))
            &&& ms - 50 <= 100 * tenths <= ms + 50
        }),
{
    reveal_strlit(".");
    if ms % 100 == 50 {
        half_tenths_are_rounded(ms);
    } else {
        seconds_are_rounded(ms);
    }
    let q = tenths(ms);
    assert(q >= 0);
    decimals_read_back((q / 10) as nat);
    decimals_read_back((q % 10) as nat);
    let t = seconds_text(ms);
    let whole = decimal((q / 10) as nat);
    let rest = decimal((q % 10) as nat);
    assert(rest.len() == 1);
    let n = t.len() - 2;
    assert(t.take(n) =~= whole);
    assert(t.skip(n + 1) =~= rest);
}

} // verus!
