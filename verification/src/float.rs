//! Binary floating point carried out on integers.
//!
//! A [`Float`] is the bit pattern of an IEEE 754 binary64 number. Its finite
//! values are integer multiples of `2^-1074`, so every value is described here
//! by an integer in that unit, and every operation by exact integer arithmetic
//! followed by one rounding: to the nearest representable number, ties to the
//! one with an even pattern.

use vstd::arithmetic::power2::*;
use vstd::prelude::*;

pub mod logarithm;
pub mod rounding;

verus! {

/// Magnitude pattern of an infinity; larger patterns are not-a-number.
pub const INF_MAG: u64 = 0x7ff0_0000_0000_0000;

/// The sign bit.
pub const SIGN_BIT: u64 = 0x8000_0000_0000_0000;

/// One step of the exponent field, also the implicit leading significand bit.
pub const LEAD: u64 = 0x0010_0000_0000_0000;

/// Exponent of the unit in which values are expressed: one is `2^1074` units.
pub const UNIT_EXP: u64 = 1074;

/// A binary64 number, held as its bit pattern.
#[derive(Clone, Copy, Debug)]
pub struct Float {
    /// Sign, exponent and significand fields, most significant bit first.
    pub bits: u64,
}

/// The value of a magnitude pattern, in units of `2^-1074`.
///
/// The pattern of an infinity stands for the first value beyond the largest
/// finite one, which is what rounding compares against.
pub open spec fn magval(k: nat) -> nat {
    if k < LEAD {
        k
    } else {
        ((LEAD + k % (LEAD as nat)) * pow2((k / (LEAD as nat) - 1) as nat)) as nat
    }
}

/// Whether `k` is the magnitude pattern nearest to `num / den` units.
///
/// The midpoints to both neighbours enclose the quotient, and a quotient that
/// falls on a midpoint goes to the even pattern.
pub open spec fn rounds_to(num: nat, den: nat, k: nat) -> bool {
    &&& k <= INF_MAG
    &&& k > 0 ==> {
        let mid = (magval((k - 1) as nat) + magval(k)) * den;
        mid < 2 * num || (mid == 2 * num && k % 2 == 0)
    }
    &&& k < INF_MAG ==> {
        let mid = (magval(k) + magval(k + 1)) * den;
        2 * num < mid || (2 * num == mid && k % 2 == 0)
    }
}

/// The magnitude pattern nearest to `num / den` units.
pub open spec fn nearest(num: nat, den: nat) -> nat {
    choose|k: nat| rounds_to(num, den, k)
}

/// Whether `k` is the magnitude pattern nearest to the square root of `v` units.
pub open spec fn root_rounds_to(v: nat, k: nat) -> bool {
    let n = 4 * (v * pow2(UNIT_EXP as nat));
    &&& k <= INF_MAG
    &&& k > 0 ==> {
        let mid = magval((k - 1) as nat) + magval(k);
        mid * mid < n || (mid * mid == n && k % 2 == 0)
    }
    &&& k < INF_MAG ==> {
        let mid = magval(k) + magval(k + 1);
        n < mid * mid || (n == mid * mid && k % 2 == 0)
    }
}

/// The magnitude pattern nearest to the square root of `v` units.
pub open spec fn nearest_root(v: nat) -> nat {
    choose|k: nat| root_rounds_to(v, k)
}

/// The distance between a pattern's value and the next one.
proof fn lemma_magval_step(k: nat)
    ensures
        magval(k) < magval(k + 1),
        k < LEAD ==> magval(k + 1) == magval(k) + 1,
        k >= LEAD ==> magval(k + 1) == magval(k) + pow2((k / (LEAD as nat) - 1) as nat),
{
    lemma2_to64();
    let l = LEAD as nat;
    let e = k / l;
    let f = k % l;
    assert(k == l * e + f && 0 <= f < l) by (nonlinear_arith)
        requires
            l > 0,
            e == k / l,
            f == k % l,
    ;
    if k < l {
        if k + 1 == l {
            assert(l / l == 1 && l % l == 0) by (nonlinear_arith)
                requires
                    l > 0,
            ;
        }
    } else {
        assert(e >= 1) by (nonlinear_arith)
            requires
                k >= l,
                l > 0,
                e == k / l,
        ;
        let p = pow2((e - 1) as nat);
        lemma_pow2_pos((e - 1) as nat);
        if f + 1 < l {
            assert((k + 1) / l == e && (k + 1) % l == f + 1) by {
                vstd::arithmetic::div_mod::lemma_fundamental_div_mod_converse(
                    (k + 1) as int,
                    l as int,
                    e as int,
                    (f + 1) as int,
                );
            }
            assert((l + f + 1) * p == (l + f) * p + p) by (nonlinear_arith);
        } else {
            assert((k + 1) / l == e + 1 && (k + 1) % l == 0) by {
                assert(l * (e + 1) == l * e + l) by (nonlinear_arith);
                vstd::arithmetic::div_mod::lemma_fundamental_div_mod_converse(
                    (k + 1) as int,
                    l as int,
                    (e + 1) as int,
                    0,
                );
            }
            lemma_pow2_unfold(e);
            assert(l * (2 * p) == (l + f) * p + p) by (nonlinear_arith)
                requires
                    f + 1 == l,
            ;
        }
    }
}

/// Larger magnitude patterns stand for larger values.
pub proof fn lemma_magval_increases(i: nat, j: nat)
    requires
        i < j,
    ensures
        magval(i) < magval(j),
    decreases j - i,
{
    lemma_magval_step((j - 1) as nat);
    if i + 1 < j {
        lemma_magval_increases(i, (j - 1) as nat);
    }
}

/// A quotient has at most one nearest pattern.
pub proof fn lemma_rounding_unique(num: nat, den: nat, i: nat, j: nat)
    requires
        den > 0,
        rounds_to(num, den, i),
        rounds_to(num, den, j),
    ensures
        i == j,
        nearest(num, den) == i,
{
    lemma_rounding_not_less(num, den, i, j);
    lemma_rounding_not_less(num, den, j, i);
    let k = nearest(num, den);
    assert(rounds_to(num, den, k));
    lemma_rounding_not_less(num, den, i, k);
    lemma_rounding_not_less(num, den, k, i);
}

proof fn lemma_rounding_not_less(num: nat, den: nat, i: nat, j: nat)
    requires
        den > 0,
        rounds_to(num, den, i),
        rounds_to(num, den, j),
    ensures
        !(i < j),
{
    if i < j {
        let a = magval(i) + magval(i + 1);
        let b = magval((j - 1) as nat) + magval(j);
        if i + 1 < j {
            lemma_magval_increases(i, (j - 1) as nat);
            lemma_magval_increases(i + 1, j);
            assert(a * den < b * den) by (nonlinear_arith)
                requires
                    a < b,
                    den > 0,
            ;
        }
    }
}

/// The pattern with significand `q` and exponent step `s`.
spec fn pattern(q: nat, s: nat) -> nat {
    (q + s * LEAD) as nat
}

/// The pattern with significand `q` and exponent step `s` has value `q * 2^s`.
proof fn lemma_magval_parts(q: nat, s: nat)
    requires
        q <= 2 * LEAD,
        s == 0 || q >= LEAD,
    ensures
        magval(pattern(q, s)) == q * pow2(s),
{
    let l = LEAD as nat;
    let k = q + s * l;
    lemma2_to64();
    if q < l {
        assert(s * l == 0) by (nonlinear_arith)
            requires
                s == 0,
        ;
    } else if q < 2 * l {
        assert(k == l * (s + 1) + (q - l)) by (nonlinear_arith)
            requires
                k == q + s * l,
        ;
        vstd::arithmetic::div_mod::lemma_fundamental_div_mod_converse(
            k as int,
            l as int,
            (s + 1) as int,
            q - l,
        );
        assert(k >= l) by (nonlinear_arith)
            requires
                k == q + s * l,
                q >= l,
        ;
    } else {
        assert(k == l * (s + 2)) by (nonlinear_arith)
            requires
                k == q + s * l,
                q == 2 * l,
        ;
        vstd::arithmetic::div_mod::lemma_fundamental_div_mod_converse(
            k as int,
            l as int,
            (s + 2) as int,
            0,
        );
        assert(k >= l) by (nonlinear_arith)
            requires
                k == q + s * l,
                q >= l,
        ;
        lemma_pow2_unfold(s + 1);
        assert(l * (2 * pow2(s)) == (2 * l) * pow2(s)) by (nonlinear_arith);
    }
}

/// Rounding a quotient that lies between `q` and `q + 1` steps of `2^s`.
proof fn lemma_round_between(num: nat, den: nat, q: nat, s: nat, up: bool)
    requires
        den > 0,
        q < 2 * LEAD,
        s == 0 || q >= LEAD,
        pattern(q, s) < INF_MAG,
        q * (pow2(s) * den) <= num,
        num < (q + 1) * (pow2(s) * den),
        up <==> (2 * num > (2 * q + 1) * (pow2(s) * den) || (2 * num == (2 * q + 1) * (pow2(s)
            * den) && q % 2 == 1)),
    ensures
        rounds_to(num, den, pattern(q, s) + if up { 1nat } else { 0 }),
{
    let k = pattern(q, s);
    let p = pow2(s);
    lemma_pow2_pos(s);
    lemma_magval_parts(q, s);
    assert(pattern(q + 1, s) == k + 1);
    lemma_magval_parts(q + 1, s);
    assert((q * p + (q + 1) * p) * den == (2 * q + 1) * (p * den)) by (nonlinear_arith);
    assert((q * p) * den == q * (p * den)) by (nonlinear_arith);
    assert(((q + 1) * p) * den == (q + 1) * (p * den)) by (nonlinear_arith);
    assert(k % 2 == q % 2) by {
        let h = LEAD as nat / 2;
        assert(s * LEAD == 2 * (s * h)) by (nonlinear_arith)
            requires
                LEAD == 2 * h,
        ;
    }
    if up {
        if k + 1 < INF_MAG {
            lemma_magval_step(k + 1);
            let mid = magval(k + 1) + magval(k + 2);
            assert(mid * den > 2 * (((q + 1) * p) * den)) by (nonlinear_arith)
                requires
                    mid > 2 * ((q + 1) * p),
                    den > 0,
            ;
        }
    } else {
        if k > 0 {
            lemma_magval_step((k - 1) as nat);
            let mid = magval((k - 1) as nat) + magval(k);
            assert(mid * den < 2 * ((q * p) * den)) by (nonlinear_arith)
                requires
                    mid < 2 * (q * p),
                    den > 0,
            ;
        }
    }
}

/// A quotient at or beyond the first value past the finite range rounds to infinity.
proof fn lemma_round_overflow(num: nat, den: nat)
    requires
        den > 0,
        num >= pow2(2098) * den,
    ensures
        rounds_to(num, den, INF_MAG as nat),
{
    let k = INF_MAG as nat;
    assert(pattern(LEAD as nat, 2046) == k) by (nonlinear_arith)
        requires
            k == 2047 * LEAD,
            pattern(LEAD as nat, 2046) == LEAD + 2046 * LEAD,
    ;
    lemma_magval_parts(LEAD as nat, 2046);
    lemma2_to64_rest();
    lemma_pow2_adds(52, 2046);
    lemma_magval_step((k - 1) as nat);
    let mid = magval((k - 1) as nat) + magval(k);
    assert(mid * den < 2 * (pow2(2098) * den)) by (nonlinear_arith)
        requires
            mid < 2 * pow2(2098),
            den > 0,
    ;
}

proof fn lemma_shl_one(n: u32)
    requires
        n < 128,
    ensures
        (1u128 << n) == pow2(n as nat),
    decreases n,
{
    if n == 0 {
        assert((1u128 << 0u32) == 1u128) by (bit_vector);
        lemma2_to64();
    } else {
        let m = (n - 1) as u32;
        lemma_shl_one(m);
        assert((1u128 << n) == 2 * (1u128 << m)) by (bit_vector)
            requires
                0 < n < 128,
                m == n - 1,
        ;
        lemma_pow2_unfold(n as nat);
    }
}

/// `2^n`.
fn power_of_two(n: u32) -> (r: u128)
    requires
        n < 128,
    ensures
        r == pow2(n as nat),
        r > 0,
{
    proof {
        lemma_shl_one(n);
        lemma_pow2_pos(n as nat);
    }
    1u128 << n
}

proof fn lemma_narrow(w: nat, x: nat, n: nat, c: nat, j: nat)
    requires
        c == pow2(j),
        x * pow2(n) <= w < (x + 1) * pow2(n),
    ensures
        (x / c) * pow2(n + j) <= w < (x / c + 1) * pow2(n + j),
{
    lemma_pow2_adds(n, j);
    lemma_pow2_pos(j);
    let q = x / c;
    let p = pow2(n);
    assert(q * c <= x && x + 1 <= (q + 1) * c) by (nonlinear_arith)
        requires
            c > 0,
            q == x / c,
    ;
    assert(q * (p * c) <= x * p) by (nonlinear_arith)
        requires
            q * c <= x,
    ;
    assert((x + 1) * p <= (q + 1) * (p * c)) by (nonlinear_arith)
        requires
            x + 1 <= (q + 1) * c,
    ;
}

/// Drops `j` low digits from `x` when it is at least `c = 2^j`, counting them in `n`.
fn drop_digits(x: u128, n: u32, c: u128, j: u32, w: Ghost<nat>) -> (r: (u128, u32))
    requires
        0 < x,
        c == pow2(j as nat),
        x < c * c,
        n + j < 1000,
        x * pow2(n as nat) <= w@ < (x + 1) * pow2(n as nat),
    ensures
        0 < r.0 < c,
        n <= r.1 <= n + j,
        r.0 * pow2(r.1 as nat) <= w@ < (r.0 + 1) * pow2(r.1 as nat),
{
    if x >= c {
        proof {
            lemma_narrow(w@, x as nat, n as nat, c as nat, j as nat);
            assert(0 < x / c < c) by (nonlinear_arith)
                requires
                    x >= c,
                    x < c * c,
            ;
        }
        (x / c, n + j)
    } else {
        (x, n)
    }
}

/// Number of binary digits of a positive number.
fn bit_length(w: u128) -> (n: u32)
    requires
        w > 0,
    ensures
        1 <= n <= 128,
        pow2((n - 1) as nat) <= w < pow2(n as nat),
{
    proof {
        lemma2_to64();
        lemma2_to64_rest();
    }
    let g: Ghost<nat> = Ghost(w as nat);
    let a = drop_digits(w, 0, 0x1_0000_0000_0000_0000, 64, g);
    let a = drop_digits(a.0, a.1, 0x1_0000_0000, 32, g);
    let a = drop_digits(a.0, a.1, 0x1_0000, 16, g);
    let a = drop_digits(a.0, a.1, 0x100, 8, g);
    let a = drop_digits(a.0, a.1, 0x10, 4, g);
    let a = drop_digits(a.0, a.1, 4, 2, g);
    let a = drop_digits(a.0, a.1, 2, 1, g);
    proof {
        let p = pow2(a.1 as nat);
        lemma_pow2_unfold((a.1 + 1) as nat);
        assert(a.0 * p == p && (a.0 + 1) * p == 2 * p) by (nonlinear_arith)
            requires
                a.0 == 1,
        ;
    }
    a.1 + 1
}

/// The nonnegative part of an exponent.
spec fn pos(t: int) -> nat {
    if t >= 0 {
        t as nat
    } else {
        0
    }
}

/// Whether `num / den` units lie in `[w, w + 1) * 2^t`, away from the lower end iff `sticky`.
spec fn truncates_to(num: nat, den: nat, w: nat, t: int, sticky: bool) -> bool {
    let unit = pow2(pos(t)) * den;
    let x = num * pow2(pos(-t));
    &&& w * unit <= x < (w + 1) * unit
    &&& sticky <==> w * unit != x
}

proof fn lemma_cancel_le(a: nat, b: nat, c: nat)
    requires
        c > 0,
    ensures
        a * c <= b * c <==> a <= b,
        a * c < b * c <==> a < b,
        a * c == b * c <==> a == b,
{
    assert(a * c <= b * c <==> a <= b) by (nonlinear_arith)
        requires
            c > 0,
    ;
    assert(a * c < b * c <==> a < b) by (nonlinear_arith)
        requires
            c > 0,
    ;
}

/// Rounding from a truncation of which `s - t` low digits are cut off.
proof fn lemma_round_cut(
    num: nat,
    den: nat,
    w: nat,
    t: int,
    sticky: bool,
    s: nat,
    q: nat,
    rem: nat,
    up: bool,
)
    requires
        den > 0,
        truncates_to(num, den, w, t, sticky),
        s > t,
        w == q * pow2((s - t) as nat) + rem,
        rem < pow2((s - t) as nat),
        q < 2 * LEAD,
        s == 0 || q >= LEAD,
        pattern(q, s) < INF_MAG,
        up <==> (2 * rem > pow2((s - t) as nat) || (2 * rem == pow2((s - t) as nat) && (sticky || q
            % 2 == 1))),
    ensures
        rounds_to(num, den, pattern(q, s) + if up { 1nat } else { 0 }),
{
    let sh = (s - t) as nat;
    let p = pow2(sh);
    let tp = pow2(pos(t));
    let tn = pow2(pos(-t));
    let unit = tp * den;
    let x = num * tn;
    let d = pow2(s) * den;
    lemma_pow2_pos(pos(t));
    lemma_pow2_pos(pos(-t));
    lemma_pow2_pos(s);
    lemma_pow2_adds(sh, pos(t));
    lemma_pow2_adds(s, pos(-t));
    assert(sh + pos(t) == s + pos(-t));
    assert(d * tn == p * unit) by (nonlinear_arith)
        requires
            d == pow2(s) * den,
            unit == tp * den,
            pow2(s) * tn == p * tp,
    ;
    assert(unit > 0) by (nonlinear_arith)
        requires
            unit == tp * den,
            tp > 0,
            den > 0,
    ;
    lemma_pow2_unfold(sh);
    let h = pow2((sh - 1) as nat);
    assert(p == 2 * h);
    // Lower end.
    assert((q * d) * tn <= x) by {
        assert((q * d) * tn == (q * p) * unit) by (nonlinear_arith)
            requires
                d * tn == p * unit,
        ;
        assert((q * p) * unit <= w * unit) by (nonlinear_arith)
            requires
                w >= q * p,
        ;
    }
    lemma_cancel_le(q * d, num, tn);
    // Upper end.
    assert(x < ((q + 1) * d) * tn) by {
        assert(((q + 1) * d) * tn == ((q + 1) * p) * unit) by (nonlinear_arith)
            requires
                d * tn == p * unit,
        ;
        assert((q + 1) * p == q * p + p) by (nonlinear_arith);
        assert((w + 1) * unit <= ((q + 1) * p) * unit) by (nonlinear_arith)
            requires
                w + 1 <= (q + 1) * p,
        ;
    }
    lemma_cancel_le(num, (q + 1) * d, tn);
    // Midpoint.
    let delta = x - w * unit;
    assert(((2 * q + 1) * d) * tn == 2 * ((q * p) * unit) + 2 * (h * unit)) by (nonlinear_arith)
        requires
            d * tn == p * unit,
            p == 2 * h,
    ;
    assert((2 * num) * tn == 2 * ((q * p) * unit) + 2 * (rem * unit) + 2 * delta) by (nonlinear_arith)
        requires
            x == num * tn,
            delta == x - w * unit,
            w == q * p + rem,
    ;
    assert(delta < unit) by (nonlinear_arith)
        requires
            delta == x - w * unit,
            x < (w + 1) * unit,
    ;
    if rem > h {
        assert(rem * unit > h * unit) by (nonlinear_arith)
            requires
                rem > h,
                unit > 0,
        ;
    } else if rem < h {
        assert(rem * unit + unit <= h * unit) by (nonlinear_arith)
            requires
                rem + 1 <= h,
                unit > 0,
        ;
    }
    lemma_cancel_le(2 * num, (2 * q + 1) * d, tn);
    lemma_cancel_le((2 * q + 1) * d, 2 * num, tn);
    lemma_round_between(num, den, q, s, up);
}

/// Rounding a truncation that needs no digits cut off.
proof fn lemma_round_exact(num: nat, den: nat, w: nat, t: int, s: nat, q: nat)
    requires
        den > 0,
        truncates_to(num, den, w, t, false),
        t >= s,
        q == w * pow2((t - s) as nat),
        q < 2 * LEAD,
        s == 0 || q >= LEAD,
        pattern(q, s) < INF_MAG,
    ensures
        rounds_to(num, den, pattern(q, s)),
{
    lemma2_to64();
    lemma_pow2_adds((t - s) as nat, s);
    let d = pow2(s) * den;
    lemma_pow2_pos(s);
    assert(q * d == num) by (nonlinear_arith)
        requires
            q == w * pow2((t - s) as nat),
            d == pow2(s) * den,
            pow2((t - s) as nat) * pow2(s) == pow2(pos(t)),
            num * 1 == w * (pow2(pos(t)) * den),
    ;
    assert((q + 1) * d == q * d + d && (2 * q + 1) * d == 2 * (q * d) + d && d > 0)
        by (nonlinear_arith)
        requires
            d == pow2(s) * den,
            pow2(s) > 0,
            den > 0,
    ;
    lemma_round_between(num, den, q, s, false);
}

proof fn lemma_pow2_mono(a: nat, b: nat)
    requires
        a <= b,
    ensures
        pow2(a) <= pow2(b),
{
    if a < b {
        lemma_pow2_strictly_increases(a, b);
    }
}

/// Zero units round to zero.
proof fn lemma_round_zero(den: nat)
    requires
        den > 0,
    ensures
        rounds_to(0, den, 0),
{
    let mid = magval(0) + magval(1);
    assert(mid * den == den) by (nonlinear_arith)
        requires
            mid == 1,
    ;
}

/// A truncation of at least `2^2098` units rounds to infinity.
proof fn lemma_round_large(num: nat, den: nat, w: nat, t: int, sticky: bool, n: nat)
    requires
        den > 0,
        truncates_to(num, den, w, t, sticky),
        t >= 0,
        w >= pow2(n),
        n + t >= 2098,
    ensures
        rounds_to(num, den, INF_MAG as nat),
{
    lemma2_to64();
    lemma_pow2_adds(n, t as nat);
    lemma_pow2_mono(2098, n + t as nat);
    let tp = pow2(t as nat);
    assert(w * (tp * den) >= pow2(2098) * den) by (nonlinear_arith)
        requires
            w >= pow2(n),
            pow2(n) * tp >= pow2(2098),
    ;
    assert(num * pow2(pos(-t)) == num) by (nonlinear_arith)
        requires
            pow2(pos(-t)) == 1,
    ;
    lemma_round_overflow(num, den);
}

/// A truncation far below half a unit rounds to zero.
proof fn lemma_round_tiny(num: nat, den: nat, w: nat, t: int, sticky: bool)
    requires
        den > 0,
        truncates_to(num, den, w, t, sticky),
        t <= -127,
        w < pow2(126),
    ensures
        rounds_to(num, den, 0),
{
    let tn = pow2((-t) as nat);
    lemma2_to64();
    lemma_pow2_mono(127, (-t) as nat);
    lemma_pow2_unfold(127);
    lemma_pow2_pos(126);
    assert((w + 1) * (1 * den) <= pow2(126) * den) by (nonlinear_arith)
        requires
            w + 1 <= pow2(126),
    ;
    assert(2 * num < den) by (nonlinear_arith)
        requires
            num * tn < pow2(126) * den,
            tn >= 2 * pow2(126),
            pow2(126) > 0,
    ;
    assert(magval(0) + magval(1) == 1);
}

/// The magnitude pattern nearest to `num / den` units, from a truncation of the quotient.
fn round_scaled(w: u128, t: i64, sticky: bool, num: Ghost<nat>, den: Ghost<nat>) -> (k: u64)
    requires
        den@ > 0,
        w < 0x4000_0000_0000_0000_0000_0000_0000_0000,
        -100000 <= t <= 100000,
        sticky ==> w >= 0x40_0000_0000_0000,
        truncates_to(num@, den@, w as nat, t as int, sticky),
    ensures
        rounds_to(num@, den@, k as nat),
{
    let ghost num = num@;
    let ghost den = den@;
    let ghost wn = w as nat;
    proof {
        lemma2_to64();
        lemma2_to64_rest();
        lemma_pow2_adds(62, 64);
    }
    if w == 0 {
        proof {
            let tn = pow2(pos(-(t as int)));
            lemma_pow2_pos(pos(-(t as int)));
            assert(0 * (pow2(pos(t as int)) * den) == 0) by (nonlinear_arith);
            assert(num == 0) by (nonlinear_arith)
                requires
                    num * tn == 0,
                    tn > 0,
            ;
            lemma_round_zero(den);
        }
        return 0;
    }
    let n: i64 = bit_length(w) as i64;
    proof {
        if n > 126 {
            lemma_pow2_mono(126, (n - 1) as nat);
        }
        if sticky && n < 55 {
            lemma_pow2_mono(n as nat, 54);
        }
    }
    let e: i64 = n - 53 + t;
    let s: i64 = if e > 0 {
        e
    } else {
        0
    };
    if s > 2045 {
        proof {
            lemma_round_large(num, den, wn, t as int, sticky, (n - 1) as nat);
        }
        return INF_MAG;
    }
    if t >= s {
        let p: u128 = power_of_two((t - s) as u32);
        proof {
            let d = (t - s) as nat;
            lemma_pow2_adds(n as nat, d);
            lemma_pow2_mono((n + d) as nat, 53);
            lemma_pow2_adds((n - 1) as nat, d);
            assert(wn * p < pow2(n as nat) * p) by (nonlinear_arith)
                requires
                    wn < pow2(n as nat),
                    p > 0,
            ;
            assert(wn * p >= pow2((n - 1) as nat) * p) by (nonlinear_arith)
                requires
                    wn >= pow2((n - 1) as nat),
            ;
            lemma_round_exact(num, den, wn, t as int, s as nat, wn * p as nat);
        }
        let q: u64 = (w * p) as u64;
        return q + (s as u64) * LEAD;
    }
    let sh: i64 = s - t;
    if sh >= 127 {
        proof {
            lemma_round_tiny(num, den, wn, t as int, sticky);
        }
        return 0;
    }
    let p: u128 = power_of_two(sh as u32);
    let q: u128 = w / p;
    let rem: u128 = w % p;
    let up: bool = rem > p / 2 || (rem == p / 2 && (sticky || q % 2 == 1));
    proof {
        lemma_pow2_unfold(sh as nat);
        assert(wn == q * p + rem) by (nonlinear_arith)
            requires
                p > 0,
                q == wn / (p as nat),
                rem == wn % (p as nat),
        ;
        lemma_pow2_adds(53, sh as nat);
        lemma_pow2_mono(n as nat, (53 + sh) as nat);
        assert(q < pow2(53)) by (nonlinear_arith)
            requires
                wn == q * p + rem,
                wn < pow2(53) * p,
                rem >= 0,
                p > 0,
        ;
        if s > 0 {
            lemma_pow2_adds(52, sh as nat);
            assert(q >= pow2(52)) by (nonlinear_arith)
                requires
                    wn == q * p + rem,
                    wn >= pow2(52) * p,
                    rem < p,
            ;
        }
        lemma_round_cut(num, den, wn, t as int, sticky, s as nat, q as nat, rem as nat, up);
    }
    let base: u64 = (q as u64) + (s as u64) * LEAD;
    if up {
        base + 1
    } else {
        base
    }
}

/// Significand and exponent step of a finite magnitude pattern.
fn decode(mag: u64) -> (r: (u64, u32))
    requires
        mag < INF_MAG,
    ensures
        r.0 < 2 * LEAD,
        r.1 <= 2045,
        r.1 > 0 ==> r.0 >= LEAD,
        mag == pattern(r.0 as nat, r.1 as nat),
        magval(mag as nat) == r.0 * pow2(r.1 as nat),
{
    let e: u64 = mag / LEAD;
    let f: u64 = mag % LEAD;
    let r: (u64, u32) = if e == 0 {
        (f, 0)
    } else {
        (LEAD + f, (e - 1) as u32)
    };
    proof {
        lemma_magval_parts(r.0 as nat, r.1 as nat);
    }
    r
}

impl Float {
    /// Whether the sign bit is set.
    pub open spec fn negative(self) -> bool {
        self.bits >= SIGN_BIT
    }

    /// The pattern without its sign bit.
    pub open spec fn mag(self) -> nat {
        if self.negative() {
            (self.bits - SIGN_BIT) as nat
        } else {
            self.bits as nat
        }
    }

    /// Whether the pattern is not a number.
    pub open spec fn nan(self) -> bool {
        self.mag() > INF_MAG
    }

    /// Whether the pattern is an infinity.
    pub open spec fn infinite(self) -> bool {
        self.mag() == INF_MAG
    }

    /// Whether the pattern is an ordinary number.
    pub open spec fn finite(self) -> bool {
        self.mag() < INF_MAG
    }

    /// The number a finite pattern stands for, in units of `2^-1074`.
    pub open spec fn value(self) -> int {
        if self.negative() {
            -(magval(self.mag()) as int)
        } else {
            magval(self.mag()) as int
        }
    }

    /// The pattern with the given sign and magnitude.
    pub open spec fn make(negative: bool, mag: nat) -> Float {
        Float {
            bits: if negative {
                (mag + SIGN_BIT) as u64
            } else {
                mag as u64
            },
        }
    }

    /// The pattern used for every not-a-number result.
    pub open spec fn quiet_nan() -> Float {
        Float { bits: 0x7ff8_0000_0000_0000 }
    }

    /// The number nearest to `v` units, with `zero_sign` for a zero.
    pub open spec fn round_units(v: int, zero_sign: bool) -> Float {
        if v == 0 {
            Float::make(zero_sign, 0)
        } else if v > 0 {
            Float::make(false, nearest(v as nat, 1))
        } else {
            Float::make(true, nearest((-v) as nat, 1))
        }
    }

    /// The same pattern with the opposite sign.
    pub open spec fn negated(self) -> Float {
        Float::make(!self.negative(), self.mag())
    }

    /// `a + b`.
    pub open spec fn sum_of(a: Float, b: Float) -> Float {
        if a.nan() || b.nan() || (a.infinite() && b.infinite() && a.negative() != b.negative()) {
            Float::quiet_nan()
        } else if a.infinite() {
            a
        } else if b.infinite() {
            b
        } else {
            Float::round_units(a.value() + b.value(), a.negative() && b.negative())
        }
    }

    /// `a - b`.
    pub open spec fn difference_of(a: Float, b: Float) -> Float {
        Float::sum_of(a, b.negated())
    }

    /// `a * b`.
    pub open spec fn product_of(a: Float, b: Float) -> Float {
        let negative = a.negative() != b.negative();
        if a.nan() || b.nan() || (a.infinite() && b.mag() == 0) || (a.mag() == 0 && b.infinite()) {
            Float::quiet_nan()
        } else if a.infinite() || b.infinite() {
            Float::make(negative, INF_MAG as nat)
        } else {
            Float::make(
                negative,
                nearest(magval(a.mag()) * magval(b.mag()), pow2(UNIT_EXP as nat)),
            )
        }
    }

    /// `a / b`.
    pub open spec fn quotient_of(a: Float, b: Float) -> Float {
        let negative = a.negative() != b.negative();
        if a.nan() || b.nan() || (a.infinite() && b.infinite()) || (a.mag() == 0 && b.mag() == 0) {
            Float::quiet_nan()
        } else if a.infinite() || b.mag() == 0 {
            Float::make(negative, INF_MAG as nat)
        } else if b.infinite() {
            Float::make(negative, 0)
        } else {
            Float::make(
                negative,
                nearest(magval(a.mag()) * pow2(UNIT_EXP as nat), magval(b.mag())),
            )
        }
    }

    /// The square root of `a`.
    pub open spec fn root_of(a: Float) -> Float {
        if a.mag() == 0 {
            a
        } else if a.nan() || a.negative() {
            Float::quiet_nan()
        } else if a.infinite() {
            a
        } else {
            Float::make(false, nearest_root(magval(a.mag())))
        }
    }

    /// Position on the number line: both zeros are at the origin.
    pub open spec fn place(self) -> int {
        if self.negative() {
            -(self.mag() as int)
        } else {
            self.mag() as int
        }
    }

    /// `a < b`; never holds of a not-a-number.
    pub open spec fn below(a: Float, b: Float) -> bool {
        !a.nan() && !b.nan() && a.place() < b.place()
    }

    /// `a <= b`; never holds of a not-a-number.
    pub open spec fn at_most(a: Float, b: Float) -> bool {
        !a.nan() && !b.nan() && a.place() <= b.place()
    }

    /// Position in the total order of all patterns: negative ones reversed, before positive ones.
    pub open spec fn rank(self) -> int {
        if self.negative() {
            -1 - self.mag()
        } else {
            self.mag() as int
        }
    }

    /// `max(a, b)`, which ignores a not-a-number.
    pub open spec fn larger_of(a: Float, b: Float) -> Float {
        if a.nan() || Float::below(a, b) {
            b
        } else {
            a
        }
    }

    /// The largest whole number not above this one, between zero and `top`.
    pub open spec fn floor_within(self, top: nat) -> nat {
        if self.nan() || self.negative() {
            0
        } else if self.infinite() || magval(self.mag()) / pow2(UNIT_EXP as nat) > top {
            top
        } else {
            magval(self.mag()) / pow2(UNIT_EXP as nat)
        }
    }

    /// The nearest whole number, halves upward, between zero and `top`.
    pub open spec fn round_within(self, top: nat) -> nat {
        let one = pow2(UNIT_EXP as nat);
        if self.nan() || self.negative() {
            0
        } else if self.infinite() || (2 * magval(self.mag()) + one) / (2 * one) > top {
            top
        } else {
            (2 * magval(self.mag()) + one) / (2 * one)
        }
    }

    /// The number nearest to the natural number `n`.
    pub open spec fn of_nat(n: nat) -> Float {
        Float::make(false, nearest(n * pow2(UNIT_EXP as nat), 1))
    }

    /// The number with the given bit pattern.
    pub fn from_bits(bits: u64) -> (r: Float)
        ensures
            r.bits == bits,
    {
        Float { bits }
    }

    /// The bit pattern of this number.
    pub fn to_bits(self) -> (r: u64)
        ensures
            r == self.bits,
    {
        self.bits
    }

    fn sign_mag(self) -> (r: (bool, u64))
        ensures
            r.0 == self.negative(),
            r.1 == self.mag(),
            r.1 < SIGN_BIT,
    {
        if self.bits >= SIGN_BIT {
            (true, self.bits - SIGN_BIT)
        } else {
            (false, self.bits)
        }
    }

    fn assemble(negative: bool, mag: u64) -> (r: Float)
        requires
            mag < SIGN_BIT,
        ensures
            r == Float::make(negative, mag as nat),
    {
        if negative {
            Float { bits: mag + SIGN_BIT }
        } else {
            Float { bits: mag }
        }
    }

    /// Whether this is an ordinary number: neither infinite nor not-a-number.
    pub fn is_finite(self) -> (r: bool)
        ensures
            r == self.finite(),
    {
        let (_, m) = self.sign_mag();
        m < INF_MAG
    }

    /// The same number with the opposite sign.
    pub fn neg(self) -> (r: Float)
        ensures
            r == self.negated(),
    {
        let (n, m) = self.sign_mag();
        Float::assemble(!n, m)
    }
}

proof fn lemma_nearest(num: nat, den: nat, k: u64)
    requires
        den > 0,
        rounds_to(num, den, k as nat),
    ensures
        nearest(num, den) == k,
        k <= INF_MAG,
{
    lemma_rounding_unique(num, den, k as nat, k as nat);
}

/// A number absorbs an addend smaller than a quarter of its own step.
proof fn lemma_absorb(m: nat, s: nat, v: nat)
    requires
        LEAD <= m < 2 * LEAD,
        1 <= s <= 2045,
        4 * v < 4 * (m * pow2(s)) + pow2(s),
        4 * v + pow2(s) > 4 * (m * pow2(s)),
    ensures
        rounds_to(v, 1, pattern(m, s)),
{
    let k = pattern(m, s);
    let p = pow2(s);
    lemma_magval_parts(m, s);
    assert(pattern(m + 1, s) == k + 1);
    lemma_magval_parts(m + 1, s);
    assert((m + 1) * p == m * p + p) by (nonlinear_arith);
    lemma_pow2_unfold(s);
    lemma_pow2_pos((s - 1) as nat);
    let h = pow2((s - 1) as nat);
    assert(p == 2 * h);
    if m > LEAD {
        assert(pattern((m - 1) as nat, s) == k - 1);
        lemma_magval_parts((m - 1) as nat, s);
        assert((m - 1) * p == m * p - p) by (nonlinear_arith);
    } else {
        let q = (2 * LEAD - 1) as nat;
        assert(pattern(q, (s - 1) as nat) == k - 1) by (nonlinear_arith)
            requires
                k == LEAD + s * LEAD,
                pattern(q, (s - 1) as nat) == q + (s - 1) * LEAD,
                q == 2 * LEAD - 1,
        ;
        lemma_magval_parts(q, (s - 1) as nat);
        assert(q * h == m * p - h) by (nonlinear_arith)
            requires
                q == 2 * m - 1,
                p == 2 * h,
        ;
    }
    assert(magval((k - 1) as nat) + h <= m * p);
}

/// A scaled significand in full width: `LEAD <= m' < 2 * LEAD`.
fn normalize(m: u64, s: u32) -> (r: (u64, i64))
    requires
        0 < m < 2 * LEAD,
        s > 0 ==> m >= LEAD,
        s <= 2045,
    ensures
        LEAD <= r.0 < 2 * LEAD,
        -52 <= r.1 <= s,
        r.0 == m * pow2((s - r.1) as nat),
{
    let n: u32 = bit_length(m as u128);
    proof {
        lemma2_to64();
        lemma2_to64_rest();
        if n > 53 {
            lemma_pow2_mono(53, (n - 1) as nat);
        }
        if m >= LEAD && n < 53 {
            lemma_pow2_mono(n as nat, 52);
        }
    }
    if n >= 53 {
        assert(m * pow2(0) == m) by (nonlinear_arith)
            requires
                pow2(0) == 1,
        ;
        return (m, s as i64);
    }
    let j: u32 = 53 - n;
    let p: u128 = power_of_two(j);
    proof {
        lemma_pow2_adds(n as nat, j as nat);
        lemma_pow2_adds((n - 1) as nat, j as nat);
        lemma_pow2_mono(j as nat, 52);
        assert(m * p < pow2(n as nat) * p) by (nonlinear_arith)
            requires
                m < pow2(n as nat),
                p > 0,
        ;
        assert(m * p >= pow2((n - 1) as nat) * p) by (nonlinear_arith)
            requires
                m >= pow2((n - 1) as nat),
        ;
    }
    (m * (p as u64), s as i64 - j as i64)
}

impl Float {
    /// The sum of two finite numbers of which the first has the larger exponent.
    fn plus_aligned(
        na: bool,
        ka: u64,
        da: (u64, u32),
        nb: bool,
        db: (u64, u32),
        v: Ghost<int>,
    ) -> (r: Float)
        requires
            da.0 < 2 * LEAD,
            db.0 < 2 * LEAD,
            db.1 <= da.1 <= 2045,
            da.1 > 0 ==> da.0 >= LEAD,
            ka == pattern(da.0 as nat, da.1 as nat),
            v@ == (if na {
                -(da.0 * pow2(da.1 as nat))
            } else {
                da.0 * pow2(da.1 as nat)
            }) + (if nb {
                -(db.0 * pow2(db.1 as nat))
            } else {
                db.0 * pow2(db.1 as nat)
            }),
        ensures
            r == Float::round_units(v@, na && nb),
    {
        let ghost v = v@;
        let d: u32 = da.1 - db.1;
        let ghost pa = pow2(da.1 as nat);
        let ghost pb = pow2(db.1 as nat);
        proof {
            lemma2_to64();
            lemma2_to64_rest();
            lemma_pow2_pos(da.1 as nat);
            lemma_pow2_pos(db.1 as nat);
        }
        if d > 64 {
            proof {
                let m = da.0 as nat;
                let x = m * pa;
                let y = db.0 * pb;
                lemma_pow2_adds(55, db.1 as nat);
                lemma_pow2_mono((55 + db.1) as nat, da.1 as nat);
                assert(4 * y < pa) by (nonlinear_arith)
                    requires
                        y == db.0 * pb,
                        db.0 < 2 * LEAD,
                        pow2(55) * pb <= pa,
                        pow2(55) == 8 * LEAD,
                        pb > 0,
                ;
                assert(x >= pa) by (nonlinear_arith)
                    requires
                        x == m * pa,
                        m >= 1,
                        pa > 0,
                ;
                let u = if v >= 0 {
                    v as nat
                } else {
                    (-v) as nat
                };
                lemma_absorb(m, da.1 as nat, u);
                lemma_nearest(u, 1, ka);
                assert(v != 0);
                assert(v < 0 <==> na);
            }
            return Float::assemble(na, ka);
        }
        let p: u128 = power_of_two(d);
        proof {
            lemma_pow2_adds(d as nat, db.1 as nat);
            lemma_pow2_mono(d as nat, 64);
            assert(da.0 * p < 2 * LEAD * 0x1_0000_0000_0000_0001) by (nonlinear_arith)
                requires
                    da.0 < 2 * LEAD,
                    p <= 0x1_0000_0000_0000_0000,
            ;
            assert(da.0 * pa == (da.0 * p) * pb) by (nonlinear_arith)
                requires
                    pa == p * pb,
            ;
        }
        let wa: u128 = (da.0 as u128) * p;
        let wb: u128 = db.0 as u128;
        let (n, w): (bool, u128) = if na == nb {
            (na, wa + wb)
        } else if wa >= wb {
            (na, wa - wb)
        } else {
            (nb, wb - wa)
        };
        let ghost u = (if v >= 0 {
            v
        } else {
            -v
        }) as nat;
        proof {
            assert((wa + wb) * pb == wa * pb + wb * pb) by (nonlinear_arith);
            assert((wa - wb) * pb == wa * pb - wb * pb) by (nonlinear_arith);
            assert((wb - wa) * pb == wb * pb - wa * pb) by (nonlinear_arith);
            assert(w * pb >= 0) by (nonlinear_arith)
                requires
                    w >= 0,
                    pb > 0,
            ;
            assert(u == w * pb);
            assert(w == 0 <==> u == 0) by (nonlinear_arith)
                requires
                    u == w * pb,
                    pb > 0,
            ;
            assert(truncates_to(u, 1, w as nat, db.1 as int, false)) by {
                assert((w + 1) * (pb * 1) == w * pb + pb) by (nonlinear_arith);
                assert(w * (pb * 1) == w * pb);
                assert(u * pow2(pos(-(db.1 as int))) == u) by {
                    assert(pos(-(db.1 as int)) == 0);
                    assert(u * 1 == u);
                }
            }
        }
        if w == 0 {
            return Float::assemble(na && nb, 0);
        }
        let k: u64 = round_scaled(w, db.1 as i64, false, Ghost(u), Ghost(1nat));
        proof {
            lemma_nearest(u, 1, k);
        }
        Float::assemble(n, k)
    }

    /// `self + other`.
    pub fn plus(self, other: Float) -> (r: Float)
        ensures
            r == Float::sum_of(self, other),
    {
        let (na, ka) = self.sign_mag();
        let (nb, kb) = other.sign_mag();
        if ka > INF_MAG || kb > INF_MAG || (ka == INF_MAG && kb == INF_MAG && na != nb) {
            return Float { bits: 0x7ff8_0000_0000_0000 };
        }
        if ka == INF_MAG {
            return self;
        }
        if kb == INF_MAG {
            return other;
        }
        let da = decode(ka);
        let db = decode(kb);
        if da.1 >= db.1 {
            Float::plus_aligned(na, ka, da, nb, db, Ghost(self.value() + other.value()))
        } else {
            Float::plus_aligned(nb, kb, db, na, da, Ghost(self.value() + other.value()))
        }
    }

    /// `self - other`.
    pub fn minus(self, other: Float) -> (r: Float)
        ensures
            r == Float::difference_of(self, other),
    {
        self.plus(other.neg())
    }
}

proof fn lemma_regroup(a: nat, b: nat, c: nat, d: nat)
    by (nonlinear_arith)
    ensures
        (a * b) * (c * d) == (a * c) * (b * d),
{
}

/// The product of two scaled significands, as a truncation of their product in units.
proof fn lemma_product_truncates(ma: nat, sa: nat, mb: nat, sb: nat)
    ensures
        truncates_to(
            (ma * pow2(sa)) * (mb * pow2(sb)),
            pow2(UNIT_EXP as nat),
            ma * mb,
            sa + sb - UNIT_EXP,
            false,
        ),
{
    let t = sa + sb - UNIT_EXP;
    let one = pow2(UNIT_EXP as nat);
    let tp = pow2(pos(t));
    let tn = pow2(pos(-t));
    let g = tp * one;
    lemma_pow2_adds(pos(t), UNIT_EXP as nat);
    lemma_pow2_adds(sa, sb);
    lemma_pow2_adds(sa + sb, pos(-t));
    assert(pos(t) + UNIT_EXP as nat == sa + sb + pos(-t));
    lemma_pow2_pos(pos(t) + UNIT_EXP as nat);
    assert(((ma * pow2(sa)) * (mb * pow2(sb))) * tn == (ma * mb) * g) by (nonlinear_arith)
        requires
            (pow2(sa) * pow2(sb)) * tn == g,
    ;
    assert((ma * mb + 1) * g == (ma * mb) * g + g) by (nonlinear_arith);
}

/// The quotient of two full-width significands, as a truncation of the quotient in units.
proof fn lemma_quotient_truncates(
    ma: nat,
    sa: nat,
    fa: nat,
    ea: int,
    mb: nat,
    sb: nat,
    fb: nat,
    eb: int,
    w: nat,
    rem: nat,
)
    requires
        ea <= sa,
        eb <= sb,
        fa == ma * pow2((sa - ea) as nat),
        fb == mb * pow2((sb - eb) as nat),
        fa * pow2(70) == w * fb + rem,
        rem < fb,
    ensures
        truncates_to(
            (ma * pow2(sa)) * pow2(UNIT_EXP as nat),
            mb * pow2(sb),
            w,
            ea - eb + UNIT_EXP - 70,
            rem != 0,
        ),
{
    let t = ea - eb + UNIT_EXP - 70;
    let ja = (sa - ea) as nat;
    let jb = (sb - eb) as nat;
    let one = pow2(UNIT_EXP as nat);
    let tp = pow2(pos(t));
    let tn = pow2(pos(-t));
    let unit = tp * (mb * pow2(sb));
    let x = ((ma * pow2(sa)) * one) * tn;
    let c = pow2(ja + jb);
    lemma_pow2_pos(ja + jb);
    lemma_pow2_adds(ja, jb);
    // g = 2^(sb + ja + pos(t))
    let g = (pow2(sb) * pow2(ja)) * tp;
    lemma_pow2_adds(sb, ja);
    lemma_pow2_adds(sb + ja, pos(t));
    lemma_pow2_pos(sb + ja + pos(t));
    lemma_pow2_adds(sa, UNIT_EXP as nat);
    lemma_pow2_adds(sa + UNIT_EXP as nat, pos(-t));
    lemma_pow2_adds(sa + UNIT_EXP as nat + pos(-t), jb);
    lemma_pow2_adds(70, sb + ja + pos(t));
    assert(sa + UNIT_EXP as nat + pos(-t) + jb == 70 + (sb + ja + pos(t)));
    assert(((pow2(sa) * one) * tn) * pow2(jb) == pow2(70) * g);
    let y = (pow2(sa) * one) * tn;
    assert(x == ma * y) by (nonlinear_arith)
        requires
            x == ((ma * pow2(sa)) * one) * tn,
            y == (pow2(sa) * one) * tn,
    ;
    lemma_regroup(ma, y, pow2(ja), pow2(jb));
    assert(fa * (pow2(70) * g) == (fa * pow2(70)) * g) by (nonlinear_arith);
    assert(unit * c == fb * g) by (nonlinear_arith)
        requires
            unit == tp * (mb * pow2(sb)),
            c == pow2(ja) * pow2(jb),
            fb == mb * pow2(jb),
            g == (pow2(sb) * pow2(ja)) * tp,
    ;
    assert((w * unit) * c == (w * fb) * g) by (nonlinear_arith)
        requires
            unit * c == fb * g,
    ;
    assert(((w + 1) * unit) * c == (w * fb + fb) * g) by (nonlinear_arith)
        requires
            unit * c == fb * g,
    ;
    lemma_cancel_le(w * fb, fa * pow2(70), g);
    lemma_cancel_le(fa * pow2(70), w * fb + fb, g);
    lemma_cancel_le(w * unit, x, c);
    lemma_cancel_le(x, (w + 1) * unit, c);
}

impl Float {
    /// `self * other`.
    pub fn times(self, other: Float) -> (r: Float)
        ensures
            r == Float::product_of(self, other),
    {
        let (na, ka) = self.sign_mag();
        let (nb, kb) = other.sign_mag();
        let n: bool = na != nb;
        if ka > INF_MAG || kb > INF_MAG || (ka == INF_MAG && kb == 0) || (ka == 0 && kb == INF_MAG) {
            return Float { bits: 0x7ff8_0000_0000_0000 };
        }
        if ka == INF_MAG || kb == INF_MAG {
            return Float::assemble(n, INF_MAG);
        }
        let da = decode(ka);
        let db = decode(kb);
        let ghost num = magval(ka as nat) * magval(kb as nat);
        let ghost den = pow2(UNIT_EXP as nat);
        proof {
            lemma_pow2_pos(UNIT_EXP as nat);
            lemma_product_truncates(da.0 as nat, da.1 as nat, db.0 as nat, db.1 as nat);
            assert(da.0 * db.0 < 0x400_0000_0000_0000_0000_0000_0000) by (nonlinear_arith)
                requires
                    da.0 < 0x20_0000_0000_0000,
                    db.0 < 0x20_0000_0000_0000,
            ;
        }
        let w: u128 = (da.0 as u128) * (db.0 as u128);
        let t: i64 = da.1 as i64 + db.1 as i64 - UNIT_EXP as i64;
        let k: u64 = round_scaled(w, t, false, Ghost(num), Ghost(den));
        proof {
            lemma_nearest(num, den, k);
        }
        Float::assemble(n, k)
    }

    /// `self / other`.
    pub fn over(self, other: Float) -> (r: Float)
        ensures
            r == Float::quotient_of(self, other),
    {
        let (na, ka) = self.sign_mag();
        let (nb, kb) = other.sign_mag();
        let n: bool = na != nb;
        if ka > INF_MAG || kb > INF_MAG || (ka == INF_MAG && kb == INF_MAG) || (ka == 0 && kb == 0) {
            return Float { bits: 0x7ff8_0000_0000_0000 };
        }
        if ka == INF_MAG || kb == 0 {
            return Float::assemble(n, INF_MAG);
        }
        if kb == INF_MAG {
            return Float::assemble(n, 0);
        }
        let da = decode(ka);
        let db = decode(kb);
        let ghost num = magval(ka as nat) * pow2(UNIT_EXP as nat);
        let ghost den = magval(kb as nat);
        proof {
            lemma_magval_increases(0, kb as nat);
        }
        if ka == 0 {
            proof {
                assert(num == 0) by (nonlinear_arith)
                    requires
                        num == magval(ka as nat) * pow2(UNIT_EXP as nat),
                        magval(ka as nat) == 0,
                ;
                lemma_round_zero(den);
                lemma_nearest(num, den, 0);
            }
            return Float::assemble(n, 0);
        }
        proof {
            lemma_magval_increases(0, ka as nat);
            assert(da.0 > 0) by (nonlinear_arith)
                requires
                    0 < da.0 * pow2(da.1 as nat),
            ;
            assert(db.0 > 0) by (nonlinear_arith)
                requires
                    0 < db.0 * pow2(db.1 as nat),
            ;
        }
        let fa = normalize(da.0, da.1);
        let fb = normalize(db.0, db.1);
        proof {
            lemma2_to64();
            lemma_pow2_adds(6, 64);
            assert(fa.0 * 0x40_0000_0000_0000_0000 < 2 * LEAD * 0x40_0000_0000_0000_0000)
                by (nonlinear_arith)
                requires
                    fa.0 < 2 * LEAD,
            ;
        }
        let top: u128 = (fa.0 as u128) * 0x40_0000_0000_0000_0000;
        let w: u128 = top / (fb.0 as u128);
        let rem: u128 = top % (fb.0 as u128);
        proof {
            assert(top == w * fb.0 + rem) by (nonlinear_arith)
                requires
                    fb.0 > 0,
                    w == top / (fb.0 as u128),
                    rem == top % (fb.0 as u128),
            ;
            assert(w < 0x80_0000_0000_0000_0000) by (nonlinear_arith)
                requires
                    top == w * fb.0 + rem,
                    top < 2 * LEAD * 0x40_0000_0000_0000_0000,
                    fb.0 >= LEAD,
                    rem >= 0,
            ;
            assert(w >= 0x40_0000_0000_0000) by (nonlinear_arith)
                requires
                    top == w * fb.0 + rem,
                    top >= LEAD * 0x40_0000_0000_0000_0000,
                    fb.0 < 2 * LEAD,
                    rem < fb.0,
            ;
            lemma_quotient_truncates(
                da.0 as nat,
                da.1 as nat,
                fa.0 as nat,
                fa.1 as int,
                db.0 as nat,
                db.1 as nat,
                fb.0 as nat,
                fb.1 as int,
                w as nat,
                rem as nat,
            );
        }
        let t: i64 = fa.1 - fb.1 + UNIT_EXP as i64 - 70;
        let k: u64 = round_scaled(w, t, rem != 0, Ghost(num), Ghost(den));
        proof {
            lemma_nearest(num, den, k);
        }
        Float::assemble(n, k)
    }

    /// The number nearest to a count.
    pub fn from_u64(n: u64) -> (r: Float)
        ensures
            r == Float::of_nat(n as nat),
    {
        let ghost num = n as nat * pow2(UNIT_EXP as nat);
        proof {
            lemma2_to64();
            lemma_pow2_pos(UNIT_EXP as nat);
            assert((n + 1) * (pow2(UNIT_EXP as nat) * 1) == num + pow2(UNIT_EXP as nat))
                by (nonlinear_arith)
                requires
                    num == n as nat * pow2(UNIT_EXP as nat),
            ;
            assert(truncates_to(num, 1, n as nat, UNIT_EXP as int, false)) by {
                assert(pos(-(UNIT_EXP as int)) == 0);
                assert(num * 1 == num);
            }
        }
        let k: u64 = round_scaled(n as u128, UNIT_EXP as i64, false, Ghost(num), Ghost(1nat));
        proof {
            lemma_nearest(num, 1, k);
        }
        Float::assemble(false, k)
    }
}

proof fn lemma_square_le(a: nat, b: nat)
    ensures
        a <= b ==> a * a <= b * b,
        a < b ==> a * a < b * b,
{
    if a < b {
        assert(a * a < b * b) by (nonlinear_arith)
            requires
                a < b,
        ;
    }
}

/// A number of units has at most one nearest root.
pub proof fn lemma_root_unique(v: nat, i: nat, j: nat)
    requires
        root_rounds_to(v, i),
        root_rounds_to(v, j),
    ensures
        i == j,
        nearest_root(v) == i,
{
    lemma_root_not_less(v, i, j);
    lemma_root_not_less(v, j, i);
    let k = nearest_root(v);
    assert(root_rounds_to(v, k));
    lemma_root_not_less(v, i, k);
    lemma_root_not_less(v, k, i);
}

proof fn lemma_root_not_less(v: nat, i: nat, j: nat)
    requires
        root_rounds_to(v, i),
        root_rounds_to(v, j),
    ensures
        !(i < j),
{
    if i < j {
        let a = magval(i) + magval(i + 1);
        let b = magval((j - 1) as nat) + magval(j);
        if i + 1 < j {
            lemma_magval_increases(i, (j - 1) as nat);
            lemma_magval_increases(i + 1, j);
            lemma_square_le(a, b);
        }
    }
}

/// Rounding a root from its whole part `w` in steps of `2^t`, ten digits of which are cut off.
proof fn lemma_root_cut(v: nat, n: nat, w: nat, t: nat, q: nat, rem: nat, up: bool)
    requires
        v * pow2(UNIT_EXP as nat) == n * (pow2(t) * pow2(t)),
        w * w <= n < (w + 1) * (w + 1),
        w == q * 1024 + rem,
        rem < 1024,
        LEAD <= q < 2 * LEAD,
        t + 10 <= 2045,
        up <==> (rem > 512 || (rem == 512 && (w * w != n || q % 2 == 1))),
    ensures
        root_rounds_to(v, pattern(q, t + 10) + if up { 1nat } else { 0 }),
{
    let s = t + 10;
    let k = pattern(q, s);
    let p = pow2(t);
    let a = pow2(s);
    lemma2_to64();
    lemma_pow2_adds(10, t);
    lemma_pow2_pos(t);
    lemma_magval_parts(q, s);
    assert(pattern(q + 1, s) == k + 1);
    lemma_magval_parts(q + 1, s);
    let mid = magval(k) + magval(k + 1);
    assert(mid == (q * 1024 + 512) * 2 * p) by (nonlinear_arith)
        requires
            mid == q * a + (q + 1) * a,
            a == 1024 * p,
    ;
    assert(k % 2 == q % 2) by {
        let h = LEAD as nat / 2;
        assert(s * LEAD == 2 * (s * h)) by (nonlinear_arith)
            requires
                LEAD == 2 * h,
        ;
    }
    let nn = 4 * (v * pow2(UNIT_EXP as nat));
    let lo = 2 * (w * p);
    let hi = 2 * ((w + 1) * p);
    assert(lo * lo == 4 * ((w * w) * (p * p))) by (nonlinear_arith)
        requires
            lo == 2 * (w * p),
    ;
    assert(hi * hi == 4 * (((w + 1) * (w + 1)) * (p * p))) by (nonlinear_arith)
        requires
            hi == 2 * ((w + 1) * p),
    ;
    assert(p * p > 0) by (nonlinear_arith)
        requires
            p > 0,
    ;
    lemma_cancel_le(w * w, n, p * p);
    lemma_cancel_le(n, (w + 1) * (w + 1), p * p);
    assert(lo * lo <= nn < hi * hi);
    assert(lo * lo == nn <==> w * w == n);
    if up {
        if rem > 512 {
            assert(mid < lo) by (nonlinear_arith)
                requires
                    mid == (q * 1024 + 512) * 2 * p,
                    lo == 2 * (w * p),
                    w > q * 1024 + 512,
                    p > 0,
            ;
            lemma_square_le(mid, lo);
        } else {
            assert(mid == lo) by (nonlinear_arith)
                requires
                    mid == (q * 1024 + 512) * 2 * p,
                    lo == 2 * (w * p),
                    w == q * 1024 + 512,
            ;
        }
        if k + 1 < INF_MAG {
            lemma_magval_step(k + 1);
            let next = magval(k + 1) + magval(k + 2);
            assert(next >= hi) by (nonlinear_arith)
                requires
                    next >= 2 * ((q + 1) * a),
                    a == 1024 * p,
                    hi == 2 * ((w + 1) * p),
                    w + 1 <= (q + 1) * 1024,
            ;
            lemma_square_le(hi, next);
        }
    } else {
        if rem < 512 {
            assert(hi <= mid) by (nonlinear_arith)
                requires
                    mid == (q * 1024 + 512) * 2 * p,
                    hi == 2 * ((w + 1) * p),
                    w + 1 <= q * 1024 + 512,
            ;
            lemma_square_le(hi, mid);
        } else {
            assert(mid == lo) by (nonlinear_arith)
                requires
                    mid == (q * 1024 + 512) * 2 * p,
                    lo == 2 * (w * p),
                    w == q * 1024 + 512,
            ;
        }
        lemma_magval_step((k - 1) as nat);
        let prev = magval((k - 1) as nat) + magval(k);
        assert(prev < lo) by (nonlinear_arith)
            requires
                prev < 2 * (q * a),
                a == 1024 * p,
                lo == 2 * (w * p),
                w >= q * 1024,
        ;
        lemma_square_le(prev, lo);
    }
}

/// The whole part of a square root.
fn integer_root(n: u128) -> (w: u64)
    requires
        n < 0x4000_0000_0000_0000_0000_0000_0000_0000,
    ensures
        w * w <= n < (w + 1) * (w + 1),
        w < SIGN_BIT,
{
    let mut w: u64 = 0;
    let mut bit: u64 = 0x4000_0000_0000_0000;
    let ghost mut i: nat = 62;
    proof {
        lemma2_to64();
        lemma2_to64_rest();
        assert(0x8000_0000_0000_0000 * 0x8000_0000_0000_0000
            == 0x4000_0000_0000_0000_0000_0000_0000_0000) by (nonlinear_arith);
    }
    while bit > 0
        invariant
            w * w <= n,
            bit > 0 ==> bit == pow2(i) && n < (w + 2 * bit) * (w + 2 * bit) && w + 2 * bit
                <= 0x8000_0000_0000_0000,
            bit == 0 ==> n < (w + 1) * (w + 1) && w + 1 <= 0x8000_0000_0000_0000,
        decreases bit,
    {
        let c: u64 = w + bit;
        proof {
            assert(c * c < 0x8000_0000_0000_0000 * 0x8000_0000_0000_0000) by (nonlinear_arith)
                requires
                    c < 0x8000_0000_0000_0000,
            ;
            lemma2_to64();
            if i > 0 {
                lemma_pow2_unfold(i);
                lemma_pow2_pos((i - 1) as nat);
                i = (i - 1) as nat;
            }
        }
        if (c as u128) * (c as u128) <= n {
            w = c;
        }
        bit = bit / 2;
    }
    w
}

impl Float {
    /// The square root of this number.
    pub fn sqrt(self) -> (r: Float)
        ensures
            r == Float::root_of(self),
    {
        let (na, ka) = self.sign_mag();
        if ka == 0 {
            return self;
        }
        if ka > INF_MAG || na {
            return Float { bits: 0x7ff8_0000_0000_0000 };
        }
        if ka == INF_MAG {
            return self;
        }
        let da = decode(ka);
        proof {
            lemma_magval_increases(0, ka as nat);
            assert(da.0 > 0) by (nonlinear_arith)
                requires
                    0 < da.0 * pow2(da.1 as nat),
            ;
            lemma2_to64();
            lemma2_to64_rest();
            lemma_pow2_adds(8, 64);
            lemma_pow2_adds(9, 64);
        }
        let f = normalize(da.0, da.1);
        // f.0 * 2^h units, with the parity of h moved into the scaling of f.0.
        let h: i64 = f.1 + UNIT_EXP as i64;
        let j: i64 = if h % 2 == 0 {
            72
        } else {
            73
        };
        let c: u128 = if h % 2 == 0 {
            0x100_0000_0000_0000_0000
        } else {
            0x200_0000_0000_0000_0000
        };
        proof {
            assert(f.0 * c < 0x4000_0000_0000_0000_0000_0000_0000_0000) by (nonlinear_arith)
                requires
                    f.0 < 2 * LEAD,
                    c <= 0x200_0000_0000_0000_0000,
            ;
            assert(f.0 * c >= LEAD * 0x100_0000_0000_0000_0000) by (nonlinear_arith)
                requires
                    f.0 >= LEAD,
                    c >= 0x100_0000_0000_0000_0000,
            ;
        }
        let n: u128 = (f.0 as u128) * c;
        let w: u64 = integer_root(n);
        let t: i64 = (h - j) / 2;
        let q: u64 = w / 1024;
        let rem: u64 = w % 1024;
        let exact: bool = (w as u128) * (w as u128) == n;
        let up: bool = rem > 512 || (rem == 512 && (!exact || q % 2 == 1));
        let ghost v = magval(ka as nat);
        proof {
            assert(w >= 0x4000_0000_0000_0000) by (nonlinear_arith)
                requires
                    n < (w + 1) * (w + 1),
                    n >= LEAD * 0x100_0000_0000_0000_0000,
                    LEAD == 0x10_0000_0000_0000,
            ;
            // v * 2^1074 == n * 4^t
            let one = pow2(UNIT_EXP as nat);
            let g = (da.1 - f.1) as nat;
            lemma_pow2_adds(t as nat, t as nat);
            lemma_pow2_adds(j as nat, (2 * t) as nat);
            lemma_pow2_adds(da.1 as nat, UNIT_EXP as nat);
            lemma_pow2_adds(g, h as nat);
            assert(g + h as nat == da.1 as nat + UNIT_EXP as nat);
            assert(j as nat + (2 * t) as nat == h as nat);
            assert(v * one == da.0 * (pow2(da.1 as nat) * one)) by (nonlinear_arith)
                requires
                    v == da.0 * pow2(da.1 as nat),
            ;
            assert(n * (pow2(t as nat) * pow2(t as nat)) == da.0 * (pow2(g) * pow2(h as nat)))
                by (nonlinear_arith)
                requires
                    n == f.0 * c,
                    f.0 == da.0 * pow2(g),
                    c * (pow2(t as nat) * pow2(t as nat)) == pow2(h as nat),
            ;
            lemma_root_cut(v, n as nat, w as nat, t as nat, q as nat, rem as nat, up);
        }
        let base: u64 = q + ((t + 10) as u64) * LEAD;
        let k: u64 = if up {
            base + 1
        } else {
            base
        };
        proof {
            lemma_root_unique(v, k as nat, k as nat);
        }
        Float::assemble(false, k)
    }
}

impl Float {
    /// Positive zero.
    #[verifier::allow_in_spec]
    pub fn zero() -> Float
        returns
            (Float { bits: 0 }),
    {
        Float { bits: 0 }
    }

    /// The number one.
    #[verifier::allow_in_spec]
    pub fn one() -> Float
        returns
            (Float { bits: 0x3ff0_0000_0000_0000 }),
    {
        Float { bits: 0x3ff0_0000_0000_0000 }
    }

    /// The number two.
    #[verifier::allow_in_spec]
    pub fn two() -> Float
        returns
            (Float { bits: 0x4000_0000_0000_0000 }),
    {
        Float { bits: 0x4000_0000_0000_0000 }
    }

    /// Positive infinity.
    #[verifier::allow_in_spec]
    pub fn infinity() -> Float
        returns
            (Float { bits: 0x7ff0_0000_0000_0000 }),
    {
        Float { bits: 0x7ff0_0000_0000_0000 }
    }

    /// Negative infinity.
    #[verifier::allow_in_spec]
    pub fn neg_infinity() -> Float
        returns
            (Float { bits: 0xfff0_0000_0000_0000 }),
    {
        Float { bits: 0xfff0_0000_0000_0000 }
    }

    /// The canonical not-a-number.
    #[verifier::allow_in_spec]
    pub fn not_a_number() -> Float
        returns
            (Float { bits: 0x7ff8_0000_0000_0000 }),
    {
        Float { bits: 0x7ff8_0000_0000_0000 }
    }

    /// Whether this is not a number.
    pub fn is_nan(self) -> (r: bool)
        ensures
            r == self.nan(),
    {
        let (_, m) = self.sign_mag();
        m > INF_MAG
    }

    /// Whether `self < other`.
    pub fn lt(self, other: Float) -> (r: bool)
        ensures
            r == Float::below(self, other),
    {
        let (na, ka) = self.sign_mag();
        let (nb, kb) = other.sign_mag();
        if ka > INF_MAG || kb > INF_MAG {
            false
        } else if na {
            if nb {
                ka > kb
            } else {
                ka > 0 || kb > 0
            }
        } else {
            !nb && ka < kb
        }
    }

    /// Whether `self <= other`.
    pub fn le(self, other: Float) -> (r: bool)
        ensures
            r == Float::at_most(self, other),
    {
        let (_, ka) = self.sign_mag();
        let (_, kb) = other.sign_mag();
        if ka > INF_MAG || kb > INF_MAG {
            false
        } else {
            !other.lt(self)
        }
    }

    /// Whether `self` comes before `other`, or is the same pattern, in the total order.
    pub fn ranks_before(self, other: Float) -> (r: bool)
        ensures
            r == (self.rank() <= other.rank()),
    {
        let (na, ka) = self.sign_mag();
        let (nb, kb) = other.sign_mag();
        if na {
            if nb {
                ka >= kb
            } else {
                true
            }
        } else {
            !nb && ka <= kb
        }
    }

    /// The larger of two numbers, ignoring a not-a-number.
    pub fn max(self, other: Float) -> (r: Float)
        ensures
            r == Float::larger_of(self, other),
    {
        if self.is_nan() || self.lt(other) {
            other
        } else {
            self
        }
    }

    /// The number without its sign.
    pub fn abs(self) -> (r: Float)
        ensures
            r == Float::make(false, self.mag()),
    {
        let (_, m) = self.sign_mag();
        Float::assemble(false, m)
    }

    /// Doubled magnitude of a finite number in whole units of one: the whole part of twice the
    /// number, and nothing above `2 * bound` told apart.
    fn doubled(mag: u64, bound: u64) -> (r: u128)
        requires
            mag < INF_MAG,
        ensures
            ({
                let exact = 2 * magval(mag as nat) / pow2(UNIT_EXP as nat);
                r == exact || (r > 2 * bound && exact > 2 * bound)
            }),
            r <= 0x2000_0000_0000_0000_0000_0000_0000_0000,
    {
        let (m, s) = decode(mag);
        let unit: u32 = UNIT_EXP as u32;
        let ghost one = pow2(UNIT_EXP as nat);
        let ghost v = magval(mag as nat);
        proof {
            lemma_pow2_pos(UNIT_EXP as nat);
            lemma2_to64();
            lemma2_to64_rest();
        }
        if s >= unit {
            let d: u32 = s - unit;
            proof {
                lemma_pow2_adds(d as nat, UNIT_EXP as nat);
                lemma_pow2_pos(d as nat);
                let p = pow2(d as nat);
                assert(2 * v == (2 * m * p) * one) by (nonlinear_arith)
                    requires
                        v == m * pow2(s as nat),
                        pow2(s as nat) == p * one,
                ;
                assert((2 * m * p) * one / one as int == 2 * m * p) by {
                    vstd::arithmetic::div_mod::lemma_div_by_multiple(2 * m * p, one as int);
                }
                if d > 12 {
                    lemma_pow2_mono(13, d as nat);
                    assert(2 * m * p > 2 * bound) by (nonlinear_arith)
                        requires
                            m >= LEAD,
                            LEAD == 0x10_0000_0000_0000,
                            p >= 0x2000,
                            bound <= 0xffff_ffff_ffff_ffff,
                    ;
                } else {
                    lemma_pow2_mono(d as nat, 12);
                    assert(2 * m * p <= 0x2000_0000_0000_0000_0000_0000_0000_0000) by (nonlinear_arith)
                        requires
                            m < 0x20_0000_0000_0000,
                            p <= 0x1000,
                    ;
                }
            }
            if d > 12 {
                return 0x2000_0000_0000_0000_0000_0000_0000_0000;
            }
            let p: u128 = power_of_two(d);
            proof {
                assert((2 * m as u128) * p == 2 * m * p) by (nonlinear_arith);
            }
            (2 * m as u128) * p
        } else {
            let d: u32 = unit - s;
            proof {
                let p = pow2(s as nat);
                let q = pow2(d as nat);
                lemma_pow2_adds(s as nat, d as nat);
                lemma_pow2_pos(s as nat);
                lemma_pow2_pos(d as nat);
                assert(2 * v == (2 * m) * p) by (nonlinear_arith)
                    requires
                        v == m * p,
                ;
                vstd::arithmetic::div_mod::lemma_div_denominator((2 * m) * p, p as int, q as int);
                vstd::arithmetic::div_mod::lemma_div_by_multiple(2 * m as int, p as int);
                assert(2 * v / one == (2 * m) as int / q as int);
                if d > 60 {
                    lemma_pow2_mono(60, d as nat);
                    vstd::arithmetic::div_mod::lemma_basic_div(2 * m as int, q as int);
                }
            }
            if d > 60 {
                return 0;
            }
            let q: u128 = power_of_two(d);
            let x: u128 = 2 * m as u128;
            proof {
                vstd::arithmetic::div_mod::lemma_div_is_ordered_by_denominator(x as int, 1, q as int);
            }
            x / q
        }
    }

    /// The largest whole number not above this one, clamped to what an index can hold.
    pub fn to_index(self) -> (r: usize)
        ensures
            r == self.floor_within(usize::MAX as nat),
    {
        let (n, k) = self.sign_mag();
        if k > INF_MAG || n {
            return 0;
        }
        if k == INF_MAG {
            return usize::MAX;
        }
        let d: u128 = Float::doubled(k, usize::MAX as u64);
        proof {
            lemma_pow2_pos(UNIT_EXP as nat);
            lemma_halve(magval(k as nat), pow2(UNIT_EXP as nat));
        }
        if d / 2 > usize::MAX as u128 {
            usize::MAX
        } else {
            (d / 2) as usize
        }
    }

    /// The nearest whole number, halves upward, clamped to 32 binary digits.
    pub fn round_to_u32(self) -> (r: u32)
        ensures
            r == self.round_within(u32::MAX as nat),
    {
        let (n, k) = self.sign_mag();
        if k > INF_MAG || n {
            return 0;
        }
        if k == INF_MAG {
            return u32::MAX;
        }
        let d: u128 = Float::doubled(k, u32::MAX as u64);
        proof {
            lemma_pow2_pos(UNIT_EXP as nat);
            lemma_half_up(magval(k as nat), pow2(UNIT_EXP as nat));
        }
        if (d + 1) / 2 > u32::MAX as u128 {
            u32::MAX
        } else {
            ((d + 1) / 2) as u32
        }
    }
}

proof fn lemma_halve(v: nat, one: nat)
    requires
        one > 0,
    ensures
        (2 * v / one) / 2 == v / one,
{
    vstd::arithmetic::div_mod::lemma_div_denominator(2 * v as int, one as int, 2);
    vstd::arithmetic::div_mod::lemma_div_denominator(2 * v as int, 2, one as int);
    assert(one * 2 == 2 * one);
}

proof fn lemma_half_up(v: nat, one: nat)
    requires
        one > 0,
    ensures
        (2 * v / one + 1) / 2 == (2 * v + one) / (2 * one),
{
    vstd::arithmetic::div_mod::lemma_div_denominator((2 * v + one) as int, one as int, 2);
    assert((2 * v + one) / one == 2 * v / one + 1) by {
        vstd::arithmetic::div_mod::lemma_div_plus_one(2 * v as int, one as int);
    }
    assert(one * 2 == 2 * one);
}

/// Numbers compare with `==` by value: both zeros are equal, a not-a-number equals nothing.
impl PartialEq for Float {
    fn eq(&self, other: &Float) -> (r: bool) {
        self.le(*other) && other.le(*self)
    }
}

impl vstd::std_specs::cmp::PartialEqSpecImpl for Float {
    open spec fn obeys_eq_spec() -> bool {
        true
    }

    open spec fn eq_spec(&self, other: &Float) -> bool {
        Float::at_most(*self, *other) && Float::at_most(*other, *self)
    }
}

/// The order of finite numbers is the order of their values.
pub proof fn law_order_is_by_value(a: Float, b: Float)
    requires
        a.finite(),
        b.finite(),
    ensures
        Float::below(a, b) == (a.value() < b.value()),
        Float::at_most(a, b) == (a.value() <= b.value()),
{
    if a.mag() < b.mag() {
        lemma_magval_increases(a.mag(), b.mag());
    } else if b.mag() < a.mag() {
        lemma_magval_increases(b.mag(), a.mag());
    }
    if a.mag() > 0 {
        lemma_magval_increases(0, a.mag());
    }
    if b.mag() > 0 {
        lemma_magval_increases(0, b.mag());
    }
}

/// No two bit patterns share a place in the total order.
pub proof fn law_rank_is_injective(a: Float, b: Float)
    requires
        a.rank() == b.rank(),
    ensures
        a == b,
{
}

} // verus!
