//! Binary logarithm, digit by digit.
//!
//! A positive number is a power of two times a mantissa between one and two. Squaring the
//! mantissa doubles its logarithm, so whether the square reaches two tells the next binary digit
//! of the logarithm. The mantissa is kept with 126 binary places and 64 digits are drawn.

use super::Float;
use vstd::arithmetic::power::*;
use vstd::arithmetic::power2::*;
use vstd::prelude::*;

verus! {

/// Position of the leading binary digit of a positive number.
pub open spec fn leading(v: nat) -> nat
    decreases v,
{
    if v < 2 {
        0
    } else {
        1 + leading(v / 2)
    }
}

/// The mantissa of `v` with 126 binary places.
pub open spec fn mantissa(v: nat) -> nat {
    v * pow2(126) / pow2(leading(v))
}

/// The first `n` binary places of the logarithm of a mantissa.
pub open spec fn digits(y: nat, n: nat) -> nat
    decreases n,
{
    if n == 0 {
        0
    } else {
        let z = y * y / pow2(126);
        if z >= pow2(127) {
            pow2((n - 1) as nat) + digits(z / 2, (n - 1) as nat)
        } else {
            digits(z, (n - 1) as nat)
        }
    }
}

/// The logarithm of `v` units, with 64 binary places.
pub open spec fn scaled_log(v: nat) -> int {
    (leading(v) - super::UNIT_EXP) * pow2(64) + digits(mantissa(v), 64)
}

impl Float {
    /// The binary logarithm of `a`.
    pub open spec fn log2_of(a: Float) -> Float {
        if a.mag() == 0 {
            Float::neg_infinity()
        } else if a.nan() || a.negative() {
            Float::quiet_nan()
        } else if a.infinite() {
            a
        } else {
            let w = scaled_log(super::magval(a.mag()));
            if w < 0 {
                Float::make(
                    true,
                    super::nearest((-w) as nat * pow2(super::UNIT_EXP as nat), pow2(64)),
                )
            } else {
                Float::make(
                    false,
                    super::nearest(w as nat * pow2(super::UNIT_EXP as nat), pow2(64)),
                )
            }
        }
    }
}

proof fn lemma_leading(v: nat, n: nat)
    requires
        pow2(n) <= v < pow2(n + 1),
    ensures
        leading(v) == n,
    decreases n,
{
    lemma2_to64();
    if n > 0 {
        lemma_pow2_unfold(n);
        lemma_pow2_unfold(n + 1);
        lemma_pow2_pos((n - 1) as nat);
        lemma_leading(v / 2, (n - 1) as nat);
    }
}

/// The square of a mantissa, cut to 126 binary places.
fn squared(y: u128) -> (z: u128)
    requires
        y < 0x8000_0000_0000_0000_0000_0000_0000_0000,
    ensures
        z == y * y / 0x4000_0000_0000_0000_0000_0000_0000_0000,
{
    let a: u128 = y / 0x1_0000_0000_0000_0000;
    let b: u128 = y % 0x1_0000_0000_0000_0000;
    proof {
        assert(a * a < 0x4000_0000_0000_0000_0000_0000_0000_0000) by (nonlinear_arith)
            requires
                0 <= a < 0x8000_0000_0000_0000,
        ;
        assert(0 <= a * b < 0x8000_0000_0000_0000_0000_0000_0000_0000) by (nonlinear_arith)
            requires
                0 <= a < 0x8000_0000_0000_0000,
                0 <= b < 0x1_0000_0000_0000_0000,
        ;
        assert(0 <= b * b <= 0xffff_ffff_ffff_ffff_ffff_ffff_ffff_ffff) by (nonlinear_arith)
            requires
                0 <= b < 0x1_0000_0000_0000_0000,
        ;
        lemma_square_parts(y as nat, a as nat, b as nat);
    }
    let low: u128 = (a * b + b * b / 0x2_0000_0000_0000_0000) / 0x2000_0000_0000_0000;
    4 * (a * a) + low
}

proof fn lemma_square_parts(y: nat, a: nat, b: nat)
    requires
        y == a * 0x1_0000_0000_0000_0000 + b,
        y < 0x8000_0000_0000_0000_0000_0000_0000_0000,
    ensures
        y * y / 0x4000_0000_0000_0000_0000_0000_0000_0000 == 4 * (a * a) + (a * b + b * b
            / 0x2_0000_0000_0000_0000) / 0x2000_0000_0000_0000,
        y * y / 0x4000_0000_0000_0000_0000_0000_0000_0000 < 0x1_0000_0000_0000_0000_0000_0000_0000_0000,
{
    let aa = a * a;
    let ab = a * b;
    let bb = b * b;
    assert(y * y == aa * 0x1_0000_0000_0000_0000_0000_0000_0000_0000 + ab * 0x2_0000_0000_0000_0000
        + bb) by (nonlinear_arith)
        requires
            y == a * 0x1_0000_0000_0000_0000 + b,
            aa == a * a,
            ab == a * b,
            bb == b * b,
    ;
    assert(y * y < 0x4000_0000_0000_0000_0000_0000_0000_0000_0000_0000_0000_0000_0000_0000_0000_0000)
        by (nonlinear_arith)
        requires
            y < 0x8000_0000_0000_0000_0000_0000_0000_0000,
    ;
}

/// One digit: the mantissa after squaring, and whether the digit is set.
fn draw(y: u128) -> (r: (u128, bool))
    requires
        0x4000_0000_0000_0000_0000_0000_0000_0000 <= y
            < 0x8000_0000_0000_0000_0000_0000_0000_0000,
    ensures
        0x4000_0000_0000_0000_0000_0000_0000_0000 <= r.0
            < 0x8000_0000_0000_0000_0000_0000_0000_0000,
        ({
            let z = y * y / 0x4000_0000_0000_0000_0000_0000_0000_0000;
            &&& r.1 == (z >= 0x8000_0000_0000_0000_0000_0000_0000_0000)
            &&& r.0 == if r.1 {
                z / 2
            } else {
                z
            }
        }),
{
    let z: u128 = squared(y);
    proof {
        assert(y * y >= 0x4000_0000_0000_0000_0000_0000_0000_0000 * 0x4000_0000_0000_0000_0000_0000_0000_0000)
            by (nonlinear_arith)
            requires
                y >= 0x4000_0000_0000_0000_0000_0000_0000_0000,
        ;
    }
    if z >= 0x8000_0000_0000_0000_0000_0000_0000_0000 {
        (z / 2, true)
    } else {
        (z, false)
    }
}

proof fn lemma_wide_powers()
    ensures
        pow2(126) == 0x4000_0000_0000_0000_0000_0000_0000_0000,
        pow2(127) == 0x8000_0000_0000_0000_0000_0000_0000_0000,
        pow2(64) == 0x1_0000_0000_0000_0000,
        pow2(74) == 0x400_0000_0000_0000_0000,
        pow2(52) == super::LEAD,
        pow2(53) == 2 * super::LEAD,
{
    lemma2_to64();
    lemma2_to64_rest();
    lemma_pow2_adds(62, 64);
    lemma_pow2_adds(63, 64);
    lemma_pow2_adds(10, 64);
    assert(0x4000_0000_0000_0000 * 0x1_0000_0000_0000_0000
        == 0x4000_0000_0000_0000_0000_0000_0000_0000) by (nonlinear_arith);
    assert(0x8000_0000_0000_0000 * 0x1_0000_0000_0000_0000
        == 0x8000_0000_0000_0000_0000_0000_0000_0000) by (nonlinear_arith);
    assert(0x400 * 0x1_0000_0000_0000_0000 == 0x400_0000_0000_0000_0000) by (nonlinear_arith);
}

/// The first 64 binary places of the logarithm of a mantissa.
fn draw_digits(y0: u128) -> (d: u64)
    requires
        0x4000_0000_0000_0000_0000_0000_0000_0000 <= y0
            < 0x8000_0000_0000_0000_0000_0000_0000_0000,
    ensures
        d == digits(y0 as nat, 64),
{
    let mut y: u128 = y0;
    let mut d: u64 = 0;
    let mut bit: u64 = 0x8000_0000_0000_0000;
    let mut left: u32 = 64;
    proof {
        lemma_wide_powers();
        lemma2_to64();
        lemma2_to64_rest();
    }
    while left > 0
        invariant
            left <= 64,
            left > 0 ==> bit == pow2((left - 1) as nat),
            0x4000_0000_0000_0000_0000_0000_0000_0000 <= y
                < 0x8000_0000_0000_0000_0000_0000_0000_0000,
            d + digits(y as nat, left as nat) == digits(y0 as nat, 64),
            d + pow2(left as nat) <= 0x1_0000_0000_0000_0000,
        decreases left,
    {
        proof {
            lemma_wide_powers();
            lemma_pow2_unfold(left as nat);
            lemma2_to64();
            if left > 1 {
                lemma_pow2_unfold((left - 1) as nat);
            }
            lemma_pow2_pos((left - 1) as nat);
        }
        let (next, set) = draw(y);
        assert(digits(y as nat, left as nat) == if set {
            bit + digits(next as nat, (left - 1) as nat)
        } else {
            digits(next as nat, (left - 1) as nat) as int
        });
        if set {
            d = d + bit;
        }
        y = next;
        bit = bit / 2;
        left = left - 1;
    }
    d
}

/// The parts of a positive finite number that its logarithm is drawn from.
proof fn lemma_mantissa(v: nat, m: nat, s: nat, f: nat, t: int)
    requires
        v == m * pow2(s),
        super::LEAD <= f < 2 * super::LEAD,
        -52 <= t <= s,
        f == m * pow2((s - t) as nat),
    ensures
        leading(v) == t + 52,
        mantissa(v) == f * 0x400_0000_0000_0000_0000,
{
    lemma_wide_powers();
    let g = (s - t) as nat;
    let n = (t + 52) as nat;
    // v * 2^g == f * 2^s
    lemma_pow2_pos(g);
    lemma_pow2_pos(s);
    lemma_pow2_pos(n);
    assert(v * pow2(g) == f * pow2(s)) by (nonlinear_arith)
        requires
            v == m * pow2(s),
            f == m * pow2(g),
    ;
    lemma_pow2_adds(n, g);
    lemma_pow2_adds(n + 1, g);
    lemma_pow2_adds(52, s);
    lemma_pow2_adds(53, s);
    assert(n + g == 52 + s);
    assert(pow2(n) * pow2(g) <= v * pow2(g) < pow2(n + 1) * pow2(g)) by {
        assert(super::LEAD * pow2(s) <= f * pow2(s) < (2 * super::LEAD) * pow2(s))
            by (nonlinear_arith)
            requires
                super::LEAD <= f < 2 * super::LEAD,
                pow2(s) > 0,
        ;
    }
    assert(pow2(n) <= v < pow2(n + 1)) by (nonlinear_arith)
        requires
            pow2(n) * pow2(g) <= v * pow2(g) < pow2(n + 1) * pow2(g),
            pow2(g) > 0,
    ;
    lemma_leading(v, n);
    // v * 2^126 == (f * 2^74) * 2^n
    lemma_pow2_adds(74, 52);
    lemma_pow2_adds(n, g);
    let q = f * pow2(74);
    assert((v * pow2(126)) * pow2(g) == (q * pow2(n)) * pow2(g)) by {
        assert((v * pow2(126)) * pow2(g) == (v * pow2(g)) * pow2(126)) by (nonlinear_arith);
        assert((f * pow2(s)) * pow2(126) == (f * pow2(74)) * (pow2(52) * pow2(s)))
            by (nonlinear_arith)
            requires
                pow2(126) == pow2(74) * pow2(52),
        ;
        assert((q * pow2(n)) * pow2(g) == q * (pow2(n) * pow2(g))) by (nonlinear_arith);
    }
    assert(v * pow2(126) == q * pow2(n)) by (nonlinear_arith)
        requires
            (v * pow2(126)) * pow2(g) == (q * pow2(n)) * pow2(g),
            pow2(g) > 0,
    ;
    vstd::arithmetic::div_mod::lemma_div_by_multiple(q as int, pow2(n) as int);
}

impl Float {
    /// The binary logarithm of this number.
    pub fn log2(self) -> (r: Float)
        ensures
            r == Float::log2_of(self),
    {
        let (na, ka) = self.sign_mag();
        if ka == 0 {
            return Float::neg_infinity();
        }
        if ka > super::INF_MAG || na {
            return Float::not_a_number();
        }
        if ka == super::INF_MAG {
            return self;
        }
        let da = super::decode(ka);
        let ghost v = super::magval(ka as nat);
        proof {
            super::lemma_magval_increases(0, ka as nat);
            assert(da.0 > 0) by (nonlinear_arith)
                requires
                    0 < da.0 * pow2(da.1 as nat),
            ;
        }
        let f = super::normalize(da.0, da.1);
        proof {
            lemma_wide_powers();
            lemma_mantissa(v, da.0 as nat, da.1 as nat, f.0 as nat, f.1 as int);
            assert(0x4000_0000_0000_0000_0000_0000_0000_0000 <= f.0 * 0x400_0000_0000_0000_0000
                < 0x8000_0000_0000_0000_0000_0000_0000_0000);
        }
        let d: u64 = draw_digits((f.0 as u128) * 0x400_0000_0000_0000_0000);
        let e: i128 = (f.1 as i128) + 52 - (super::UNIT_EXP as i128);
        let w: i128 = e * 0x1_0000_0000_0000_0000 + (d as i128);
        let size: u128 = if w < 0 {
            (-w) as u128
        } else {
            w as u128
        };
        let ghost num = size as nat * pow2(super::UNIT_EXP as nat);
        let ghost den = pow2(64);
        let t: i64 = super::UNIT_EXP as i64 - 64;
        proof {
            lemma_pow2_pos(64);
            lemma2_to64();
            lemma_pow2_adds(t as nat, 64);
            assert(w == scaled_log(v));
            assert(num * pow2(0) == num) by (nonlinear_arith)
                requires
                    pow2(0) == 1,
            ;
            let p = pow2(t as nat);
            assert(size * (p * den) == num && (size + 1) * (p * den) == num + p * den)
                by (nonlinear_arith)
                requires
                    num == size as nat * pow2(super::UNIT_EXP as nat),
                    pow2(super::UNIT_EXP as nat) == p * den,
            ;
            lemma_pow2_pos(t as nat);
            assert(p * den > 0) by (nonlinear_arith)
                requires
                    p > 0,
                    den > 0,
            ;
        }
        let k: u64 = super::round_scaled(size, t, false, Ghost(num), Ghost(den));
        proof {
            super::lemma_nearest(num, den, k);
        }
        Float::assemble(w < 0, k)
    }
}

/// Powers keep the order of their bases.
proof fn lemma_pow_base_order(a: int, b: int, e: nat)
    requires
        0 <= a <= b,
    ensures
        0 <= pow(a, e) <= pow(b, e),
    decreases e,
{
    if e == 0 {
        lemma_pow0(a);
        lemma_pow0(b);
    } else {
        let d = (e - 1) as nat;
        lemma_pow_base_order(a, b, d);
        lemma_pow1(a);
        lemma_pow1(b);
        lemma_pow_adds(a, 1, d);
        lemma_pow_adds(b, 1, d);
        assert(0 <= a * pow(a, d) <= b * pow(b, d)) by (nonlinear_arith)
            requires
                0 <= a <= b,
                0 <= pow(a, d) <= pow(b, d),
        ;
    }
}

/// `(m + 1)^j` is at most `m^j * (1 + 2j / m)` while `2j <= m`.
proof fn lemma_small_growth(m: int, j: nat)
    requires
        m > 0,
        2 * j <= m,
    ensures
        pow(m + 1, j) * m <= pow(m, j) * (m + 2 * j),
    decreases j,
{
    if j == 0 {
        lemma_pow0(m + 1);
        lemma_pow0(m);
    } else {
        let i = (j - 1) as nat;
        lemma_small_growth(m, i);
        lemma_pow1(m + 1);
        lemma_pow1(m);
        lemma_pow_adds(m + 1, 1, i);
        lemma_pow_adds(m, 1, i);
        lemma_pow_positive(m, i);
        let a = pow(m + 1, i);
        let b = pow(m, i);
        assert((m + 1) * a * m <= (m + 1) * (b * (m + 2 * i))) by (nonlinear_arith)
            requires
                a * m <= b * (m + 2 * i),
                m > 0,
        ;
        assert((m + 1) * (m + 2 * i) <= m * (m + 2 * j)) by (nonlinear_arith)
            requires
                2 * i <= m,
                j == i + 1,
        ;
        assert((m + 1) * (b * (m + 2 * i)) == b * ((m + 1) * (m + 2 * i))) by (nonlinear_arith);
        assert(b * ((m + 1) * (m + 2 * i)) <= b * (m * (m + 2 * j))) by (nonlinear_arith)
            requires
                (m + 1) * (m + 2 * i) <= m * (m + 2 * j),
                b > 0,
        ;
        assert(b * (m * (m + 2 * j)) == m * b * (m + 2 * j)) by (nonlinear_arith);
    }
}

/// One squaring step: how the square of a mantissa relates to the next mantissa.
proof fn lemma_step(y: nat)
    requires
        pow2(126) <= y < pow2(127),
    ensures
        ({
            let p = pow2(126) as int;
            let z = y * y / pow2(126);
            let set = z >= pow2(127);
            let next = if set {
                z / 2
            } else {
                z
            };
            let c: int = if set {
                2
            } else {
                1
            };
            &&& pow2(126) <= next < pow2(127)
            &&& p * c * next <= y * y
            &&& y * y * p <= p * c * next * (p + 1)
        }),
{
    lemma_wide_powers();
    let p = pow2(126) as int;
    let yy = y * y;
    let z = yy / pow2(126);
    assert(p * p <= yy < (2 * p) * (2 * p)) by (nonlinear_arith)
        requires
            p <= y < 2 * p,
            yy == y * y,
    ;
    assert(p * z <= yy < p * (z + 1)) by (nonlinear_arith)
        requires
            z == yy as int / p,
            p > 0,
    ;
    assert(p <= z < 4 * p) by (nonlinear_arith)
        requires
            p * z <= yy < p * (z + 1),
            p * p <= yy < (2 * p) * (2 * p),
            p > 0,
    ;
    let set = z >= 2 * p;
    let next: int = if set {
        z as int / 2
    } else {
        z as int
    };
    let c: int = if set {
        2
    } else {
        1
    };
    assert(c * next <= z && z + 1 <= c * (next + 1));
    assert(p * c * next <= p * z) by (nonlinear_arith)
        requires
            c * next <= z,
            p > 0,
    ;
    assert(yy * p <= p * c * next * (p + 1)) by (nonlinear_arith)
        requires
            yy < p * (z + 1),
            z + 1 <= c * (next + 1),
            next >= p,
            p > 0,
            c > 0,
    {
        assert(yy * p <= p * (c * (next + 1)) * p);
        assert((next + 1) * p <= next * (p + 1));
        assert(p * (c * (next + 1)) * p == p * c * ((next + 1) * p));
        assert(p * c * ((next + 1) * p) <= p * c * (next * (p + 1)));
    }
}

/// What the drawn digits say of a power of the mantissa.
proof fn lemma_digits(y: nat, n: nat)
    requires
        pow2(126) <= y < pow2(127),
    ensures
        ({
            let p = pow2(126) as int;
            let k = pow2(n);
            let d = digits(y, n);
            &&& pow2(d) * pow(p, k) <= pow(y as int, k)
            &&& pow(y as int, k) * pow(p, k) < pow2(d + 1) * pow(p, k) * pow(p + 1, k)
        }),
    decreases n,
{
    lemma_wide_powers();
    lemma2_to64();
    let p = pow2(126) as int;
    if n == 0 {
        lemma_pow1(p);
        lemma_pow1(p + 1);
        lemma_pow1(y as int);
        assert(y * p < 2 * p * (p + 1)) by (nonlinear_arith)
            requires
                y < 2 * p,
                p > 0,
        ;
    } else {
        let e = pow2((n - 1) as nat);
        let k = pow2(n);
        lemma_pow2_unfold(n);
        lemma_step(y);
        let z = y * y / pow2(126);
        let set = z >= pow2(127);
        let next: nat = if set {
            z / 2
        } else {
            z
        };
        let c: int = if set {
            2
        } else {
            1
        };
        let bit: nat = if set {
            e
        } else {
            0
        };
        let d = digits(next, (n - 1) as nat);
        assert(digits(y, n) == bit + d);
        lemma_digits(next, (n - 1) as nat);
        let yy = (y * y) as int;
        // The power of c is the contribution of the digit.
        assert(pow(c, e) == pow2(bit)) by {
            if set {
                lemma_pow2(e);
            } else {
                lemma1_pow(e);
            }
        }
        lemma_pow_adds(y as int, e, e);
        lemma_pow_distributes(y as int, y as int, e);
        lemma_pow_adds(p, e, e);
        lemma_pow_adds(p + 1, e, e);
        lemma_pow_positive(p, e);
        lemma_pow_positive(p + 1, e);
        lemma_pow2_adds(bit, d);
        lemma_pow2_adds(bit, d + 1);
        lemma_pow2_pos(bit);
        let py = pow(yy, e);
        let pp = pow(p, e);
        let pq = pow(p + 1, e);
        let pn = pow(next as int, e);
        let tb = pow2(bit) as int;
        let td = pow2(d) as int;
        let te = pow2(d + 1) as int;
        assert(py == pow(y as int, k));
        // Below.
        assert(0 <= p * c * next) by (nonlinear_arith)
            requires
                p > 0,
                c > 0,
        ;
        lemma_pow_base_order(p * c * next, yy, e);
        lemma_pow_distributes(p * c, next as int, e);
        lemma_pow_distributes(p, c, e);
        assert(pow(p * c * next, e) == pp * tb * pn);
        assert(td * pp <= pn);
        assert((tb * td) * (pp * pp) <= py) by (nonlinear_arith)
            requires
                pp * tb * pn <= py,
                td * pp <= pn,
                pp > 0,
                tb > 0,
        {
            assert(pp * tb * (td * pp) <= pp * tb * pn);
            assert(pp * tb * (td * pp) == (tb * td) * (pp * pp));
        }
        // Above.
        assert(0 <= yy * p) by (nonlinear_arith)
            requires
                yy >= 0,
                p > 0,
        ;
        lemma_pow_base_order(yy * p, p * c * next * (p + 1), e);
        lemma_pow_distributes(yy, p, e);
        lemma_pow_distributes(p * c * next, p + 1, e);
        assert(py * pp <= pp * tb * pn * pq);
        assert(pn * pp < te * pp * pq);
        assert(py * (pp * pp) < (tb * te) * (pp * pp) * (pq * pq)) by (nonlinear_arith)
            requires
                py * pp <= pp * tb * pn * pq,
                pn * pp < te * pp * pq,
                pp > 0,
                tb > 0,
                pq > 0,
        {
            assert(py * (pp * pp) == (py * pp) * pp);
            assert((py * pp) * pp <= (pp * tb * pn * pq) * pp);
            assert((pp * tb * pn * pq) * pp == (pp * tb * pq) * (pn * pp));
            assert(pp * tb * pq > 0);
            assert((pp * tb * pq) * (pn * pp) < (pp * tb * pq) * (te * pp * pq));
            assert((pp * tb * pq) * (te * pp * pq) == (tb * te) * (pp * pp) * (pq * pq));
        }
    }
}

/// A mantissa loses nothing of a number of at most 53 binary digits.
proof fn lemma_mantissa_exact(m: nat, s: nat)
    requires
        0 < m < pow2(53),
    ensures
        mantissa(m * pow2(s)) * pow2(leading(m * pow2(s))) == m * pow2(s) * pow2(126),
        pow2(126) <= mantissa(m * pow2(s)) < pow2(127),
{
    let v = m * pow2(s);
    let l = lemma_has_leading(m);
    lemma_pow2_pos(s);
    lemma_pow2_adds(l, s);
    lemma_pow2_adds(l + 1, s);
    lemma_pow2_unfold(l + 1);
    assert(pow2(l + s) <= v < pow2(l + s + 1)) by {
        assert(pow2(l) * pow2(s) <= m * pow2(s) < pow2(l + 1) * pow2(s)) by (nonlinear_arith)
            requires
                pow2(l) <= m < pow2(l + 1),
                pow2(s) > 0,
        ;
    }
    lemma_leading(v, l + s);
    if l > 52 {
        lemma_pow2_strictly_increases(52, l);
        super::lemma_pow2_mono(53, l);
    }
    let r = (126 - l) as nat;
    lemma_pow2_adds(r, l);
    lemma_pow2_adds(r, l + 1);
    lemma_pow2_pos(r);
    lemma_pow2_pos(l + s);
    let y = m * pow2(r);
    assert(v * pow2(126) == y * pow2(l + s)) by (nonlinear_arith)
        requires
            v == m * pow2(s),
            pow2(126) == pow2(r) * pow2(l),
            pow2(l + s) == pow2(l) * pow2(s),
            y == m * pow2(r),
    ;
    vstd::arithmetic::div_mod::lemma_div_by_multiple(y as int, pow2(l + s) as int);
    assert(pow2(r) * pow2(l) <= y < pow2(r) * pow2(l + 1)) by (nonlinear_arith)
        requires
            pow2(l) <= m < pow2(l + 1),
            pow2(r) > 0,
            y == m * pow2(r),
    ;
}

proof fn lemma_has_leading(m: nat) -> (l: nat)
    requires
        m > 0,
    ensures
        pow2(l) <= m < pow2(l + 1),
    decreases m,
{
    lemma2_to64();
    if m < 2 {
        0
    } else {
        let k = lemma_has_leading(m / 2);
        lemma_pow2_unfold(k + 1);
        lemma_pow2_unfold(k + 2);
        k + 1
    }
}

/// The 64 binary places that are drawn are right: for a positive finite number `x` and
/// `w = scaled_log(x)`, the power `x^(2^64)` is at least `2^w` and below `2^(w + 2)`, so
/// `w / 2^64` is below the logarithm of `x` by less than `2 / 2^64`. Both sides are stated here in
/// units, that is multiplied by `2^(1074 * 2^64)`.
pub proof fn law_logarithm_is_enclosed(a: Float)
    requires
        a.finite(),
        a.mag() > 0,
    ensures
        ({
            let v = super::magval(a.mag());
            let k = pow2(64);
            let w = scaled_log(v) + super::UNIT_EXP * k;
            &&& w >= 0
            &&& pow2(w as nat) <= pow(v as int, k) < pow2((w + 2) as nat)
        }),
{
    lemma_wide_powers();
    let q = a.mag();
    let v = super::magval(q);
    let k = pow2(64);
    let (m, s): (nat, nat) = if q < super::LEAD {
        (q, 0)
    } else {
        (
            (super::LEAD + q % (super::LEAD as nat)) as nat,
            (q / (super::LEAD as nat) - 1) as nat,
        )
    };
    lemma2_to64();
    assert(v == m * pow2(s)) by {
        if q < super::LEAD {
            assert(m * pow2(0) == m) by (nonlinear_arith)
                requires
                    pow2(0) == 1,
            ;
        }
    }
    lemma_mantissa_exact(m, s);
    let y = mantissa(v);
    let l = leading(v);
    let d = digits(y, 64);
    lemma_digits(y, 64);
    let p = pow2(126) as int;
    lemma_small_growth(p, k);
    let pp = pow(p, k);
    let pq = pow(p + 1, k);
    let py = pow(y as int, k);
    let pv = pow(v as int, k);
    lemma_pow_positive(p, k);
    assert(pq <= 2 * pp) by (nonlinear_arith)
        requires
            pq * p <= pp * (p + 2 * k),
            2 * k <= p,
            p > 0,
            pp > 0,
    ;
    let d1 = pow2(d + 1) as int;
    lemma_pow2_unfold(d + 2);
    lemma_pow2_pos(d + 1);
    assert(py < (2 * d1) * pp) by (nonlinear_arith)
        requires
            py * pp < d1 * pp * pq,
            pq <= 2 * pp,
            pp > 0,
            d1 > 0,
    {
        assert(d1 * pp * pq <= (d1 * pp) * (2 * pp));
        assert((d1 * pp) * (2 * pp) == ((2 * d1) * pp) * pp);
    }
    // v * p == y * 2^l, so the powers of both sides agree.
    let t = pow2(l) as int;
    lemma_pow_distributes(v as int, p, k);
    lemma_pow_distributes(y as int, t, k);
    lemma_pow2(l);
    lemma_pow_multiplies(2, l, k);
    lemma_pow2(l * k);
    let tk = pow2(l * k) as int;
    assert(pow(t, k) == tk);
    assert(pv * pp == py * tk);
    lemma_pow2_pos(l * k);
    lemma_pow2_adds(d, l * k);
    lemma_pow2_adds(d + 2, l * k);
    let dd = pow2(d) as int;
    assert(dd * tk <= pv && pv < (2 * d1) * tk) by (nonlinear_arith)
        requires
            pv * pp == py * tk,
            dd * pp <= py,
            py < (2 * d1) * pp,
            pp > 0,
            tk > 0,
    {
        assert((dd * tk) * pp == (dd * pp) * tk);
        assert((dd * pp) * tk <= py * tk);
        assert(((2 * d1) * tk) * pp == ((2 * d1) * pp) * tk);
        assert(py * tk < ((2 * d1) * pp) * tk);
    }
    assert((l - super::UNIT_EXP) * k + super::UNIT_EXP * k == l * k) by (nonlinear_arith);
}

} // verus!
