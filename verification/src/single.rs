//! Binary floating-point arithmetic, reckoned on integers.
//!
//! A number is a count of equal small units. Rounding keeps a given number of
//! significant binary digits, to the nearest and where two are equally near to the
//! even one, which is how arithmetic in single and double precision rounds.
use vstd::arithmetic::div_mod::*;
use vstd::arithmetic::power2::*;
use vstd::prelude::*;

verus! {

/// How many units make one. Every number here that is not zero is at least
/// `2^-24`, so that none has a digit below the unit in single precision.
pub const ONE: u128 = 0x1_0000_0000_0000;

/// Two to the number of significant digits of single precision.
pub const SINGLE: u128 = 0x100_0000;

/// Two to the number of significant digits of double precision.
pub const DOUBLE: u128 = 0x20_0000_0000_0000;

/// The whole number nearest to a quotient, the even one where two are.
pub open spec fn nearest(p: nat, q: nat) -> nat {
    let k = p / q;
    let twice = 2 * (p % q);
    if twice < q || (twice == q && k % 2 == 0) {
        k
    } else {
        k + 1
    }
}

/// What the last digit kept is worth: the least power of two, at least one, that
/// leaves `p / full` below itself.
pub open spec fn grain(p: nat, full: nat) -> nat
    decreases 2 * p - full,
{
    if full == 0 || p < full {
        1
    } else {
        2 * grain(p, 2 * full)
    }
}

/// A quotient rounded to the digits of a precision.
pub open spec fn rounded(p: nat, q: nat, precision: nat) -> nat {
    let g = grain(p, q * precision);
    nearest(p, q * g) * g
}

/// A quotient in single precision.
pub open spec fn single(p: nat, q: nat) -> nat {
    rounded(p, q, SINGLE as nat)
}

proof fn lemma_grain(p: nat, full: nat)
    requires
        full > 0,
    ensures
        grain(p, full) >= 1,
        grain(p, full) == 1 || grain(p, full) * full <= 2 * p,
    decreases 2 * p - full,
{
    if p >= full {
        lemma_grain(p, 2 * full);
        let g = grain(p, 2 * full);
        assert((2 * g) * full == g * (2 * full)) by (nonlinear_arith);
        if g == 1 {
            assert((2 * g) * full == 2 * full) by (nonlinear_arith)
                requires
                    g == 1,
            ;
        }
    }
}

/// Rounding no more than doubles a number that is at least one unit.
pub proof fn lemma_rounded_bound(p: nat, q: nat, precision: nat)
    requires
        q > 0,
        precision >= 2,
    ensures
        rounded(p, q, precision) * q <= 2 * p + q,
{
    let full = q * precision;
    assert(full > 0) by (nonlinear_arith)
        requires
            full == q * precision,
            q > 0,
            precision >= 2,
    ;
    lemma_grain(p, full);
    let g = grain(p, full);
    let d = q * g;
    assert(d > 0) by (nonlinear_arith)
        requires
            d == q * g,
            q > 0,
            g >= 1,
    ;
    let k = p / d;
    let r = p % d;
    lemma_fundamental_div_mod(p as int, d as int);
    let n = nearest(p, d);
    // One more than the quotient only where the rest is at least half.
    assert(2 * (n * d) <= 2 * p + d) by (nonlinear_arith)
        requires
            p == d * k + r,
            0 <= r < d,
            n == k || (n == k + 1 && 2 * r >= d),
    ;
    assert((n * g) * q == n * d) by (nonlinear_arith)
        requires
            d == q * g,
    ;
    if g == 1 {
        assert(d == q) by (nonlinear_arith)
            requires
                d == q * g,
                g == 1,
        ;
    } else {
        assert(2 * d <= g * full) by (nonlinear_arith)
            requires
                d == q * g,
                full == q * precision,
                precision >= 2,
                q > 0,
                g >= 1,
        ;
    }
}

/// A quotient rounded to the digits of a precision.
pub fn round_to(p: u128, q: u128, precision: u128) -> (r: u128)
    requires
        p <= 0xFF_FFFF_FFFF_FFFF_FFFF_FFFF_FFFF_FFFF,
        0 < q <= 0x100_0000_0000_0000_0000,
        precision == SINGLE || precision == DOUBLE,
    ensures
        r == rounded(p as nat, q as nat, precision as nat),
        r * q <= 2 * p + q,
{
    proof {
        lemma_rounded_bound(p as nat, q as nat, precision as nat);
        assert(q * precision <= 0x100_0000_0000_0000_0000 * DOUBLE) by (nonlinear_arith)
            requires
                0 < q <= 0x100_0000_0000_0000_0000,
                0 < precision <= DOUBLE,
        ;
        assert(q * precision > 0) by (nonlinear_arith)
            requires
                q > 0,
                precision > 0,
        ;
    }
    let mut full: u128 = q * precision;
    let mut step: u128 = q;
    let mut g: u128 = 1;
    assert(step == q * g) by (nonlinear_arith)
        requires
            step == q,
            g == 1,
    ;
    while p >= full
        invariant
            0 < q,
            p <= 0xFF_FFFF_FFFF_FFFF_FFFF_FFFF_FFFF_FFFF,
            precision == SINGLE || precision == DOUBLE,
            full == step * precision,
            full > 0,
            step == q * g,
            g >= 1,
            g * grain(p as nat, full as nat) == grain(p as nat, (q * precision) as nat),
        decreases 2 * p - full,
    {
        proof {
            let rest = grain(p as nat, (2 * full) as nat);
            assert(g * (2 * rest) == (2 * g) * rest) by (nonlinear_arith);
            assert(step <= full && g <= step) by (nonlinear_arith)
                requires
                    full == step * precision,
                    precision >= 1,
                    step == q * g,
                    q >= 1,
                    g >= 1,
            ;
            assert(2 * full == (2 * step) * precision) by (nonlinear_arith)
                requires
                    full == step * precision,
            ;
            assert(2 * step == q * (2 * g)) by (nonlinear_arith)
                requires
                    step == q * g,
            ;
        }
        full = full * 2;
        step = step * 2;
        g = g * 2;
    }
    assert(step > 0) by (nonlinear_arith)
        requires
            full == step * precision,
            full > 0,
            precision >= 1,
    ;
    let k: u128 = p / step;
    let rest: u128 = p % step;
    assert(g == grain(p as nat, (q * precision) as nat)) by (nonlinear_arith)
        requires
            g * grain(p as nat, full as nat) == grain(p as nat, (q * precision) as nat),
            grain(p as nat, full as nat) == 1,
    ;
    let n: u128 = if rest < step - rest || (rest == step - rest && k % 2 == 0) {
        k
    } else {
        k + 1
    };
    assert(n == nearest(p as nat, step as nat));
    assert(n * g <= 2 * p + q) by (nonlinear_arith)
        requires
            (n * g) * q <= 2 * p + q,
            q >= 1,
            n >= 0,
            g >= 0,
    ;
    n * g
}

/// A quotient in single precision.
pub fn to_single(p: u128, q: u128) -> (r: u128)
    requires
        p <= 0xFF_FFFF_FFFF_FFFF_FFFF_FFFF_FFFF_FFFF,
        0 < q <= 0x100_0000_0000_0000_0000,
    ensures
        r == single(p as nat, q as nat),
        r * q <= 2 * p + q,
{
    round_to(p, q, SINGLE)
}

/// A quotient, which may be negative, in single precision.
pub open spec fn signed_single(x: int, q: nat) -> int {
    if x < 0 {
        -(single((-x) as nat, q) as int)
    } else {
        single(x as nat, q) as int
    }
}

/// A quotient, which may be negative, in single precision.
pub fn to_signed_single(x: i128, q: u128) -> (r: i128)
    requires
        -0x3F_FFFF_FFFF_FFFF_FFFF_FFFF_FFFF_FFFF <= x <= 0x3F_FFFF_FFFF_FFFF_FFFF_FFFF_FFFF_FFFF,
        0 < q <= 0x10_0000_0000_0000,
    ensures
        r == signed_single(x as int, q as nat),
        x >= 0 ==> 0 <= r <= 2 * x + q,
        x <= 0 ==> 2 * x - q <= r <= 0,
{
    if x < 0 {
        let r: u128 = to_single((-x) as u128, q);
        proof {
            lemma_bounded(r as nat, q as nat, (-x) as nat);
        }
        -(r as i128)
    } else {
        let r: u128 = to_single(x as u128, q);
        proof {
            lemma_bounded(r as nat, q as nat, x as nat);
            if x == 0 {
                lemma_single_of_zero(q as nat);
            }
        }
        r as i128
    }
}

proof fn lemma_bounded(r: nat, q: nat, p: nat)
    requires
        r * q <= 2 * p + q,
        q > 0,
    ensures
        r <= 2 * p + q,
{
    assert(r <= 2 * p + q) by (nonlinear_arith)
        requires
            r * q <= 2 * p + q,
            q >= 1,
    ;
}

pub proof fn lemma_single_of_zero(q: nat)
    requires
        q > 0,
    ensures
        single(0, q) == 0,
{
    let full = q * SINGLE as nat;
    assert(full > 0) by (nonlinear_arith)
        requires
            full == q * SINGLE as nat,
            q > 0,
    ;
    assert(grain(0, full) == 1);
    assert(q * 1 == q);
    assert(0nat / q == 0 && 0nat % q == 0) by (nonlinear_arith)
        requires
            q > 0,
    ;
}

/// The worth of the last digit kept divides every power of two above the quotient.
proof fn lemma_grain_divides(p: nat, full: nat, j: nat) -> (c: nat)
    requires
        full > 0,
        p < full * pow2(j),
    ensures
        grain(p, full) * c == pow2(j),
    decreases j,
{
    if p < full {
        pow2(j)
    } else {
        if j == 0 {
            lemma2_to64();
            assert(false);
        }
        lemma_pow2_unfold(j);
        assert(full * pow2(j) == (2 * full) * pow2((j - 1) as nat)) by (nonlinear_arith)
            requires
                pow2(j) == 2 * pow2((j - 1) as nat),
        ;
        let c = lemma_grain_divides(p, 2 * full, (j - 1) as nat);
        let g = grain(p, 2 * full);
        assert((2 * g) * c == 2 * (g * c)) by (nonlinear_arith);
        c
    }
}

/// What is at most one is rounded to at most one, and what is at least one to at
/// least one.
pub proof fn lemma_single_about_one(p: nat, q: nat)
    requires
        0 < q,
        p <= 4 * ONE * q,
    ensures
        p <= q * ONE ==> single(p, q) <= ONE,
        p >= q * ONE ==> single(p, q) >= ONE,
{
    let full = q * SINGLE as nat;
    lemma2_to64();
    lemma2_to64_rest();
    assert(pow2(48) == ONE);
    assert(full > 0 && p < full * pow2(48)) by (nonlinear_arith)
        requires
            full == q * SINGLE as nat,
            q > 0,
            p <= 4 * ONE * q,
            pow2(48) == ONE,
    ;
    let c = lemma_grain_divides(p, full, 48);
    lemma_grain(p, full);
    let g = grain(p, full);
    let d = q * g;
    assert(d > 0 && d * c == q * ONE) by (nonlinear_arith)
        requires
            d == q * g,
            g * c == ONE,
            q > 0,
            g >= 1,
    ;
    let k = p / d;
    let r = p % d;
    lemma_fundamental_div_mod(p as int, d as int);
    let n = nearest(p, d);
    if p <= q * ONE {
        assert(n <= c) by (nonlinear_arith)
            requires
                p == d * k + r,
                0 <= r < d,
                p <= d * c,
                n == k || (n == k + 1 && r > 0),
        ;
        assert(n * g <= ONE) by (nonlinear_arith)
            requires
                n <= c,
                g * c == ONE,
        ;
    }
    if p >= q * ONE {
        assert(n >= c) by (nonlinear_arith)
            requires
                p == d * k + r,
                0 <= r < d,
                p >= d * c,
                n >= k,
        ;
        assert(n * g >= ONE) by (nonlinear_arith)
            requires
                n >= c,
                g * c == ONE,
        ;
    }
}

/// A whole number of few digits is what its multiples divide back to.
pub proof fn lemma_single_is_exact(v: nat, q: nat)
    requires
        0 < q,
        v < SINGLE,
    ensures
        single(q * (v * ONE as nat), q) == v * ONE,
{
    let p = q * (v * ONE as nat);
    let full = q * SINGLE as nat;
    lemma2_to64();
    lemma2_to64_rest();
    assert(full > 0 && p < full * pow2(48)) by (nonlinear_arith)
        requires
            full == q * SINGLE as nat,
            p == q * (v * ONE as nat),
            q > 0,
            v < SINGLE,
            pow2(48) == ONE,
    ;
    let c = lemma_grain_divides(p, full, 48);
    lemma_grain(p, full);
    let g = grain(p, full);
    let d = q * g;
    let k = v * c;
    assert(d > 0 && p == d * k && k * g == v * ONE) by (nonlinear_arith)
        requires
            p == q * (v * ONE as nat),
            d == q * g,
            k == v * c,
            g * c == ONE,
            q > 0,
            g >= 1,
    ;
    assert(p == k * d) by (nonlinear_arith)
        requires
            p == d * k,
    ;
    lemma_fundamental_div_mod_converse(p as int, d as int, k as int, 0);
}

proof fn lemma_grain_above(p: nat, full: nat)
    requires
        full > 0,
    ensures
        p < full * grain(p, full),
    decreases 2 * p - full,
{
    let g = grain(p, full);
    if p < full {
        assert(full * g == full) by (nonlinear_arith)
            requires
                g == 1,
        ;
    } else {
        lemma_grain_above(p, 2 * full);
        let h = grain(p, 2 * full);
        assert(full * (2 * h) == (2 * full) * h) by (nonlinear_arith);
    }
}

proof fn lemma_grain_grows(a: nat, b: nat, full: nat)
    requires
        full > 0,
        a <= b,
    ensures
        grain(a, full) == grain(b, full) || 2 * grain(a, full) <= grain(b, full),
    decreases 2 * b - full,
{
    if b >= full {
        lemma_grain(b, 2 * full);
        if a >= full {
            lemma_grain_grows(a, b, 2 * full);
        }
    }
}

proof fn lemma_nearest_grows(a: nat, b: nat, d: nat)
    requires
        d > 0,
        a <= b,
    ensures
        nearest(a, d) <= nearest(b, d),
{
    lemma_fundamental_div_mod(a as int, d as int);
    lemma_fundamental_div_mod(b as int, d as int);
    let (j, k) = (a / d, b / d);
    let (x, y) = (a % d, b % d);
    assert(j <= k && (j == k ==> x <= y)) by (nonlinear_arith)
        requires
            a == d * j + x,
            b == d * k + y,
            0 <= x < d,
            0 <= y < d,
            a <= b,
    ;
}

proof fn lemma_nearest_of_multiple(m: nat, d: nat)
    requires
        d > 0,
    ensures
        nearest(m * d, d) == m,
{
    assert((m * d) / d == m && (m * d) % d == 0) by {
        lemma_div_multiples_vanish(m as int, d as int);
        lemma_mod_multiples_basic(m as int, d as int);
        assert(m * d == d * m) by (nonlinear_arith);
    }
}

/// Rounding keeps the order of numbers.
pub proof fn rounding_keeps_order(a: nat, b: nat, q: nat)
    requires
        q > 0,
        a <= b,
    ensures
        single(a, q) <= single(b, q),
{
    let full = q * SINGLE as nat;
    assert(full > 0) by (nonlinear_arith)
        requires
            full == q * SINGLE as nat,
            q > 0,
    ;
    let (g, h) = (grain(a, full), grain(b, full));
    lemma_grain(a, full);
    lemma_grain(b, full);
    lemma_grain_above(a, full);
    lemma_grain_grows(a, b, full);
    let (c, d) = (q * g, q * h);
    assert(c > 0 && d > 0) by (nonlinear_arith)
        requires
            c == q * g,
            d == q * h,
            q > 0,
            g >= 1,
            h >= 1,
    ;
    let (m, n) = (nearest(a, c), nearest(b, d));
    if g == h {
        lemma_nearest_grows(a, b, c);
        assert(m * g <= n * h) by (nonlinear_arith)
            requires
                m <= n,
                g == h,
        ;
    } else {
        let top = SINGLE as nat;
        let half = 0x80_0000nat;
        lemma_nearest_of_multiple(top, c);
        lemma_nearest_of_multiple(half, d);
        assert(a <= top * c) by (nonlinear_arith)
            requires
                a < full * g,
                full == q * top,
                c == q * g,
        ;
        assert(half * d <= b) by (nonlinear_arith)
            requires
                h * full <= 2 * b,
                full == q * (2 * half),
                d == q * h,
        ;
        lemma_nearest_grows(a, top * c, c);
        lemma_nearest_grows(half * d, b, d);
        assert(m * g <= n * h) by (nonlinear_arith)
            requires
                m <= 2 * half,
                half <= n,
                2 * g <= h,
        ;
    }
}

/// What is at least a unit is not rounded to nothing.
pub proof fn lemma_single_of_a_unit(p: nat, q: nat)
    requires
        0 < q <= p,
    ensures
        single(p, q) > 0,
{
    rounding_keeps_order(q, p, q);
    let full = q * SINGLE as nat;
    assert(q < full) by (nonlinear_arith)
        requires
            full == q * SINGLE as nat,
            q > 0,
    ;
    assert(q * 1 == q && 1 * q == q);
    lemma_nearest_of_multiple(1, q);
}

/// The nearest whole number is nowhere more than half a unit away, and half way between
/// two it is the even one.
pub proof fn nearest_is_at_most_half_away(p: nat, q: nat)
    requires
        q > 0,
    ensures
        -q <= 2 * (nearest(p, q) * q - p) <= q,
        2 * (nearest(p, q) * q - p) == q || 2 * (nearest(p, q) * q - p) == -q ==> nearest(p, q) % 2
            == 0,
{
    lemma_fundamental_div_mod(p as int, q as int);
    let k = p / q;
    let r = p % q;
    let n = nearest(p, q);
    assert(n == k ==> n * q - p == -r) by (nonlinear_arith)
        requires
            p == q * k + r,
    ;
    assert(n == k + 1 ==> n * q - p == q - r) by (nonlinear_arith)
        requires
            p == q * k + r,
    ;
}

/// A rounded quotient differs from the quotient by at most half a unit, or by a share of it
/// that its precision makes small.
pub proof fn rounding_is_accurate(p: nat, q: nat, precision: nat)
    requires
        q > 0,
        precision >= 2,
    ensures
        -q <= 2 * (rounded(p, q, precision) * q - p) <= q || -p <= precision * (rounded(
            p,
            q,
            precision,
        ) * q - p) <= p,
{
    let full = q * precision;
    assert(full > 0) by (nonlinear_arith)
        requires
            full == q * precision,
            q > 0,
            precision >= 2,
    ;
    lemma_grain(p, full);
    let g = grain(p, full);
    let d = q * g;
    assert(d > 0) by (nonlinear_arith)
        requires
            d == q * g,
            q > 0,
            g >= 1,
    ;
    nearest_is_at_most_half_away(p, d);
    let n = nearest(p, d);
    assert((n * g) * q == n * d) by (nonlinear_arith)
        requires
            d == q * g,
    ;
    let e = n * d - p;
    if g == 1 {
        assert(d == q) by (nonlinear_arith)
            requires
                d == q * g,
                g == 1,
        ;
    } else {
        assert(precision * d <= 2 * p) by (nonlinear_arith)
            requires
                g * full <= 2 * p,
                full == q * precision,
                d == q * g,
        ;
        assert(-p <= precision * e <= p) by (nonlinear_arith)
            requires
                -d <= 2 * e <= d,
                precision * d <= 2 * p,
                precision >= 2,
        ;
    }
}

/// Rounding treats numbers below zero as it does their opposites.
pub proof fn signs_do_not_matter_to_rounding(x: int, q: nat)
    requires
        q > 0,
    ensures
        signed_single(-x, q) == -signed_single(x, q),
        x >= 0 ==> signed_single(x, q) == single(x as nat, q),
{
    lemma_single_of_zero(q);
}

} // verus!
