//! Laws of rounding.

use crate::float;
use crate::float::logarithm;
use crate::float::{Float, INF_MAG, LEAD, UNIT_EXP};
use vstd::arithmetic::power2::*;
use vstd::prelude::*;

verus! {

/// Whether a quotient is not nearer to the pattern before `k`.
spec fn reaches(num: nat, den: nat, k: nat) -> bool {
    k > 0 ==> {
        let mid = (float::magval((k - 1) as nat) + float::magval(k)) * den;
        mid < 2 * num || (mid == 2 * num && k % 2 == 0)
    }
}

proof fn lemma_rounding_found(num: nat, den: nat, k: nat)
    requires
        k <= INF_MAG,
        k == INF_MAG || !reaches(num, den, k + 1),
    ensures
        exists|j: nat| float::rounds_to(num, den, j),
    decreases k,
{
    if reaches(num, den, k) {
        assert(float::rounds_to(num, den, k));
    } else {
        lemma_rounding_found(num, den, (k - 1) as nat);
    }
}

/// Every quotient has a nearest pattern.
pub proof fn law_rounding_exists(num: nat, den: nat)
    ensures
        float::rounds_to(num, den, float::nearest(num, den)),
{
    lemma_rounding_found(num, den, INF_MAG as nat);
}

/// A representable number rounds to itself.
pub proof fn law_rounding_is_exact(k: nat, den: nat)
    requires
        k <= INF_MAG,
        den > 0,
    ensures
        float::nearest(float::magval(k) * den, den) == k,
{
    let num = float::magval(k) * den;
    let v = float::magval(k);
    assert(2 * num == (v + v) * den) by (nonlinear_arith)
        requires
            num == v * den,
    ;
    if k > 0 {
        let u = float::magval((k - 1) as nat);
        float::lemma_magval_increases((k - 1) as nat, k);
        assert((u + v) * den < (v + v) * den) by (nonlinear_arith)
            requires
                u < v,
                den > 0,
        ;
    }
    if k < INF_MAG {
        let w = float::magval(k + 1);
        float::lemma_magval_increases(k, k + 1);
        assert((v + v) * den < (v + w) * den) by (nonlinear_arith)
            requires
                v < w,
                den > 0,
        ;
    }
    assert(float::rounds_to(num, den, k));
    law_rounding_exists(num, den);
    float::lemma_rounding_unique(num, den, k, float::nearest(num, den));
}

/// Rounding keeps the order of numbers.
pub proof fn law_rounding_is_monotone(a: nat, b: nat, den: nat)
    requires
        a <= b,
        den > 0,
    ensures
        float::nearest(a, den) <= float::nearest(b, den),
{
    law_rounding_exists(a, den);
    law_rounding_exists(b, den);
    let i = float::nearest(a, den);
    let j = float::nearest(b, den);
    if j < i {
        // The midpoint above `j` is not above the midpoint below `i`.
        let p = float::magval(j) + float::magval(j + 1);
        let q = float::magval((i - 1) as nat) + float::magval(i);
        if j + 1 < i {
            float::lemma_magval_increases(j, (i - 1) as nat);
            float::lemma_magval_increases(j + 1, i);
            assert(p * den < q * den) by (nonlinear_arith)
                requires
                    p < q,
                    den > 0,
            ;
        }
    }
}

/// One is `2^1074` units.
pub proof fn lemma_one()
    ensures
        float::magval(Float::one().mag()) == pow2(UNIT_EXP as nat),
        !Float::one().negative(),
        Float::one().finite(),
{
    lemma2_to64();
    lemma_pow2_adds(52, 1022);
    assert(0x3ff0_0000_0000_0000nat / 0x0010_0000_0000_0000nat == 1023);
    assert(0x3ff0_0000_0000_0000nat % 0x0010_0000_0000_0000nat == 0);
    assert(pow2(52) == 0x0010_0000_0000_0000nat) by {
        lemma2_to64_rest();
    }
}

/// A number divided by itself is one.
pub proof fn law_self_quotient(x: Float)
    requires
        x.finite(),
        x.mag() > 0,
    ensures
        Float::quotient_of(x, x) == Float::one(),
{
    let v = float::magval(x.mag());
    let u = pow2(UNIT_EXP as nat);
    lemma_one();
    float::lemma_magval_increases(0, x.mag());
    assert(v * u == u * v) by (nonlinear_arith);
    law_rounding_is_exact(Float::one().mag(), v);
}

/// A number times one is the number.
pub proof fn law_times_one(x: Float)
    requires
        x.finite(),
    ensures
        Float::product_of(x, Float::one()) == x,
        Float::product_of(Float::one(), x) == x,
{
    let v = float::magval(x.mag());
    let u = pow2(UNIT_EXP as nat);
    lemma_one();
    lemma_pow2_pos(UNIT_EXP as nat);
    assert(v * u == u * v) by (nonlinear_arith);
    law_rounding_is_exact(x.mag(), u);
}

/// Adding zero keeps a number; of the zeros, the positive one.
pub proof fn law_plus_zero(x: Float)
    requires
        x.finite(),
        x.mag() == 0 ==> !x.negative(),
    ensures
        Float::sum_of(x, Float::zero()) == x,
        Float::sum_of(Float::zero(), x) == x,
{
    let v = float::magval(x.mag());
    if x.mag() > 0 {
        float::lemma_magval_increases(0, x.mag());
    }
    assert(v * 1 == v);
    law_rounding_is_exact(x.mag(), 1);
}

/// A number less itself is positive zero.
pub proof fn law_self_difference(x: Float)
    requires
        x.finite(),
    ensures
        Float::difference_of(x, x) == Float::zero(),
{
}

/// Zero divided by a number that is not zero is zero.
pub proof fn law_zero_quotient(x: Float)
    requires
        x.finite(),
        x.mag() > 0,
        !x.negative(),
    ensures
        Float::quotient_of(Float::zero(), x) == Float::zero(),
{
    let v = float::magval(x.mag());
    let u = pow2(UNIT_EXP as nat);
    float::lemma_magval_increases(0, x.mag());
    assert(0 * v == 0 && 0 * u == 0) by (nonlinear_arith);
    law_rounding_is_exact(0, v);
}

/// A natural number that a machine word holds is finite, and zero only if it is zero.
pub proof fn law_natural_is_finite(n: nat)
    requires
        n <= u64::MAX,
    ensures
        Float::of_nat(n).finite(),
        !Float::of_nat(n).negative(),
        n == 0 ==> Float::of_nat(n) == Float::zero(),
        n > 0 ==> Float::of_nat(n).mag() > 0,
        n > 0 ==> Float::at_most(Float::one(), Float::of_nat(n)),
{
    let u = pow2(UNIT_EXP as nat);
    lemma_one();
    lemma_pow2_pos(UNIT_EXP as nat);
    assert(0 <= n * u) by (nonlinear_arith);
    assert(0 * u == 0);
    law_rounding_is_exact(0, 1);
    law_rounding_is_exact(Float::one().mag(), 1);
    if n > 0 {
        assert(u <= n * u) by (nonlinear_arith)
            requires
                n > 0,
        ;
        law_rounding_is_monotone(u, n * u, 1);
    }
    // Two to the power 64 is representable.
    let top = 0x43f0_0000_0000_0000nat;
    lemma2_to64();
    lemma2_to64_rest();
    lemma_pow2_adds(52, 1086);
    lemma_pow2_adds(64, 1074);
    assert(top / (LEAD as nat) == 1087);
    assert(top % (LEAD as nat) == 0);
    assert(float::magval(top) == pow2(64) * u);
    law_rounding_is_exact(top, 1);
    assert(n * u <= pow2(64) * u) by (nonlinear_arith)
        requires
            n <= pow2(64),
    ;
    law_rounding_is_monotone(n * u, pow2(64) * u, 1);
}

/// Zero times a number that is not negative is zero.
pub proof fn law_zero_product(x: Float)
    requires
        x.finite(),
        !x.negative(),
    ensures
        Float::product_of(Float::zero(), x) == Float::zero(),
        Float::product_of(x, Float::zero()) == Float::zero(),
{
    let v = float::magval(x.mag());
    let u = pow2(UNIT_EXP as nat);
    lemma_pow2_pos(UNIT_EXP as nat);
    assert(0 * v == 0 && v * 0 == 0 && 0 * u == 0) by (nonlinear_arith);
    law_rounding_is_exact(0, u);
}

proof fn lemma_leading_of_power(k: nat)
    ensures
        logarithm::leading(pow2(k)) == k,
    decreases k,
{
    lemma2_to64();
    if k > 0 {
        lemma_leading_of_power((k - 1) as nat);
        lemma_pow2_unfold(k);
        lemma_pow2_pos((k - 1) as nat);
    }
}

proof fn lemma_no_digits(n: nat)
    ensures
        logarithm::digits(pow2(126), n) == 0,
    decreases n,
{
    if n > 0 {
        lemma_no_digits((n - 1) as nat);
        lemma_pow2_pos(126);
        lemma_pow2_unfold(127);
        let p = pow2(126);
        assert(p * p / p == p) by (nonlinear_arith)
            requires
                p > 0,
        ;
    }
}

/// The logarithm of one is zero.
pub proof fn law_logarithm_of_one()
    ensures
        Float::log2_of(Float::one()) == Float::zero(),
{
    let u = pow2(UNIT_EXP as nat);
    let p = pow2(126);
    lemma_one();
    lemma_leading_of_power(UNIT_EXP as nat);
    lemma_no_digits(64);
    lemma_pow2_pos(UNIT_EXP as nat);
    lemma_pow2_pos(64);
    assert(u * p / u == p) by (nonlinear_arith)
        requires
            u > 0,
    ;
    assert(0 * u == 0 && 0 * pow2(64) == 0) by (nonlinear_arith);
    law_rounding_is_exact(0, pow2(64));
}

/// The largest natural number up to which all natural numbers are representable.
pub const EXACT_TOP: u64 = 0x0020_0000_0000_0000;

/// The pattern of a small natural number, whose significand is `m = n * 2^j`.
proof fn lemma_pattern(n: nat, m: nat, j: nat) -> (k: nat)
    requires
        n > 0,
        m == n * pow2(j),
        m < EXACT_TOP,
        j <= 52,
    ensures
        k < INF_MAG,
        float::magval(k) == n * pow2(UNIT_EXP as nat),
    decreases 52 - j,
{
    let l = LEAD as nat;
    lemma2_to64();
    lemma2_to64_rest();
    if m >= l {
        let e = (1075 - j) as nat;
        let k = e * l + (m - l) as nat;
        assert(k / l == e && k % l == (m - l)) by (nonlinear_arith)
            requires
                k == e * l + (m - l),
                0 <= m - l < l,
        ;
        assert(k < 1076 * l) by (nonlinear_arith)
            requires
                k == e * l + (m - l),
                e <= 1075,
                m - l < l,
        ;
        assert(l <= k) by (nonlinear_arith)
            requires
                k == e * l + (m - l),
                e >= 1,
                m >= l,
        ;
        let p = pow2(j);
        let q = pow2((1074 - j) as nat);
        lemma_pow2_adds(j, (1074 - j) as nat);
        assert((n * p) * q == n * (p * q)) by (nonlinear_arith);
        k
    } else {
        lemma_pow2_unfold(j + 1);
        let p = pow2(j);
        assert(n * (2 * p) == 2 * (n * p)) by (nonlinear_arith);
        if j == 52 {
            assert(n * p >= p) by (nonlinear_arith)
                requires
                    n > 0,
            ;
        }
        lemma_pattern(n, 2 * m, j + 1)
    }
}

/// Natural numbers up to `2^53` are representable.
pub proof fn law_small_natural_is_exact(n: nat)
    requires
        n <= EXACT_TOP,
    ensures
        Float::of_nat(n).finite(),
        !Float::of_nat(n).negative(),
        float::magval(Float::of_nat(n).mag()) == n * pow2(UNIT_EXP as nat),
{
    let u = pow2(UNIT_EXP as nat);
    lemma2_to64();
    lemma2_to64_rest();
    if n == 0 {
        assert(0 * u == 0);
        law_rounding_is_exact(0, 1);
    } else if n == EXACT_TOP {
        let k = 0x4340_0000_0000_0000nat;
        assert(k / (LEAD as nat) == 1076);
        assert(k % (LEAD as nat) == 0);
        lemma_pow2_adds(52, 1075);
        lemma_pow2_adds(53, 1074);
        law_rounding_is_exact(k, 1);
    } else {
        assert(n * pow2(0) == n);
        let k = lemma_pattern(n, n, 0);
        law_rounding_is_exact(k, 1);
    }
}

/// Sums of natural numbers are exact up to `2^53`.
pub proof fn law_natural_sum(a: nat, b: nat)
    requires
        a + b <= EXACT_TOP,
    ensures
        Float::sum_of(Float::of_nat(a), Float::of_nat(b)) == Float::of_nat(a + b),
{
    let u = pow2(UNIT_EXP as nat);
    law_small_natural_is_exact(a);
    law_small_natural_is_exact(b);
    law_small_natural_is_exact(a + b);
    lemma_pow2_pos(UNIT_EXP as nat);
    assert(a * u + b * u == (a + b) * u) by (nonlinear_arith);
    assert((a + b) * u == 0 <==> a + b == 0) by (nonlinear_arith)
        requires
            u > 0,
    ;
    assert(0 <= a * u && 0 <= b * u) by (nonlinear_arith);
    if a + b == 0 {
        assert(0 * u == 0);
        law_rounding_is_exact(0, 1);
    }
}

/// Products of natural numbers are exact up to `2^53`.
pub proof fn law_natural_product(a: nat, b: nat)
    requires
        a <= EXACT_TOP,
        b <= EXACT_TOP,
        a * b <= EXACT_TOP,
    ensures
        Float::product_of(Float::of_nat(a), Float::of_nat(b)) == Float::of_nat(a * b),
{
    let u = pow2(UNIT_EXP as nat);
    law_small_natural_is_exact(a);
    law_small_natural_is_exact(b);
    law_small_natural_is_exact(a * b);
    lemma_pow2_pos(UNIT_EXP as nat);
    assert((a * u) * (b * u) == ((a * b) * u) * u) by (nonlinear_arith);
    law_rounding_is_exact(Float::of_nat(a * b).mag(), u);
}

/// One and two are the natural numbers of that name.
pub proof fn law_one_and_two()
    ensures
        Float::of_nat(1) == Float::one(),
        Float::of_nat(2) == Float::two(),
{
    let u = pow2(UNIT_EXP as nat);
    lemma_one();
    assert(1 * u == u);
    law_rounding_is_exact(Float::one().mag(), 1);
    let k = 0x4000_0000_0000_0000nat;
    lemma2_to64();
    lemma2_to64_rest();
    assert(k / (LEAD as nat) == 1024);
    assert(k % (LEAD as nat) == 0);
    lemma_pow2_adds(52, 1023);
    lemma_pow2_adds(1, 1074);
    law_rounding_is_exact(k, 1);
}

} // verus!
