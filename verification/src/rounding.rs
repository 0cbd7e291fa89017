//! Rounding to the precision of a double, in integers.
//!
//! Sizes and shares are reckoned at double precision: of an integer or a quotient its 53 leading
//! bits are kept, and halves go to the even neighbour.
use vstd::arithmetic::power2::{
    lemma2_to64, lemma2_to64_rest, lemma_pow2_pos, lemma_pow2_strictly_increases, lemma_pow2_unfold, pow2,
};
use vstd::prelude::*;

verus! {

/// The integers below this one are doubles.
pub const DOUBLE_RANGE: u128 = 0x20_0000_0000_0000;

/// The integer nearest to `n / d`; a half goes to the even one.
pub open spec fn round_half_even(n: nat, d: nat) -> nat {
    let q = n / d;
    let r = n % d;
    if 2 * r < d || (2 * r == d && q % 2 == 0) {
        q
    } else {
        q + 1
    }
}

/// The distance between doubles at `n`.
pub open spec fn double_unit(n: nat) -> nat
    decreases n,
{
    if n < DOUBLE_RANGE {
        1
    } else {
        2 * double_unit(n / 2)
    }
}

/// The double nearest to `n`; a half goes to the one with the even last bit.
pub open spec fn nearest_double(n: nat) -> nat {
    round_half_even(n, double_unit(n)) * double_unit(n)
}

/// The power of two that gives `a / b` an integer part of 53 bits.
pub open spec fn double_scale(a: nat, b: nat) -> nat
    decreases DOUBLE_RANGE * b - a,
{
    if a == 0 || 2 * a >= DOUBLE_RANGE * b {
        1
    } else {
        2 * double_scale(2 * a, b)
    }
}

/// The percentage that `a` is of `b`: the quotient as a double, times a hundred as a double,
/// without its fraction.
pub open spec fn percent(a: nat, b: nat) -> nat {
    let scale = double_scale(a, b);
    nearest_double(100 * round_half_even(a * scale, b)) / scale
}

proof fn lemma_unit(n: nat)
    ensures
        1 <= double_unit(n),
        double_unit(n) <= n || double_unit(n) == 1,
    decreases n,
{
    if n >= DOUBLE_RANGE {
        lemma_unit(n / 2);
    }
}

/// Integers of up to 53 bits are doubles.
pub proof fn lemma_small_is_double(n: nat)
    requires
        n <= DOUBLE_RANGE,
    ensures
        nearest_double(n) == n,
{
    let unit = double_unit(n);
    if n == DOUBLE_RANGE {
        assert(double_unit(n / 2) == 1);
        assert(unit == 2);
    }
    assert(n % unit == 0);
    assert((n / unit) * unit == n) by (nonlinear_arith)
        requires
            n % unit == 0,
            unit > 0,
    ;
}

/// The integer nearest to `n / d`.
pub fn round_to_even(n: u128, d: u128) -> (r: u128)
    requires
        0 < d,
        n < u128::MAX,
    ensures
        r == round_half_even(n as nat, d as nat),
        r <= n / d + 1,
{
    let q: u128 = n / d;
    let rem: u128 = n % d;
    assert(q <= n) by (nonlinear_arith)
        requires
            q == n / d,
            0 < d,
    ;
    let low: bool = rem < d - rem;
    let half: bool = rem == d - rem;
    if low || (half && q % 2 == 0) {
        q
    } else {
        q + 1
    }
}

/// The double nearest to `n`.
pub fn double_of(n: u128) -> (r: u128)
    requires
        n < 0x8000_0000_0000_0000_0000_0000_0000_0000,
    ensures
        r == nearest_double(n as nat),
        r <= 2 * n,
{
    let mut unit: u128 = 1;
    let mut m: u128 = n;
    while m >= DOUBLE_RANGE
        invariant
            n < 0x8000_0000_0000_0000_0000_0000_0000_0000,
            double_unit(n as nat) == unit * double_unit(m as nat),
            unit * m <= n,
            1 <= unit,
        decreases m,
    {
        assert(2 * unit <= 0x8000_0000_0000_0000_0000_0000_0000_0000 && (2 * unit) * (m / 2) <= n)
            by (nonlinear_arith)
            requires
                unit * m <= n,
                m >= 2,
                n < 0x8000_0000_0000_0000_0000_0000_0000_0000,
        ;
        assert(unit * (2 * double_unit((m / 2) as nat)) == (2 * unit) * double_unit((m / 2) as nat))
            by (nonlinear_arith);
        unit = unit * 2;
        m = m / 2;
    }
    assert(unit * double_unit(m as nat) == unit) by (nonlinear_arith)
        requires
            double_unit(m as nat) == 1,
    ;
    proof {
        lemma_unit(n as nat);
    }
    let q: u128 = round_to_even(n, unit);
    assert(q * unit <= 2 * n || (n == 0 && q * unit == 0)) by (nonlinear_arith)
        requires
            q <= n / unit + 1,
            1 <= unit,
            unit <= n || unit == 1,
            n == 0 ==> q == 0,
    ;
    q * unit
}

/// The percentage that `a` is of `b`.
pub fn percent_of(a: u32, b: u32) -> (r: i32)
    requires
        0 < a <= b,
    ensures
        r == percent(a as nat, b as nat),
        0 <= r <= 400,
{
    let mut scale: u128 = 1;
    let mut scaled: u128 = a as u128;
    let whole: u128 = DOUBLE_RANGE * b as u128;
    while 2 * scaled < whole
        invariant
            0 < a <= b,
            whole == DOUBLE_RANGE * b,
            whole <= 0x20_0000_0000_0000 * 0x1_0000_0000,
            scaled == a * scale,
            scaled > 0,
            scaled <= whole,
            double_scale(a as nat, b as nat) == scale * double_scale(scaled as nat, b as nat),
        decreases whole - scaled,
    {
        assert(scale * (2 * double_scale((2 * scaled) as nat, b as nat)) == (2 * scale)
            * double_scale((2 * scaled) as nat, b as nat)) by (nonlinear_arith);
        assert(2 * scale <= 2 * scaled && a * (2 * scale) == 2 * scaled) by (nonlinear_arith)
            requires
                scaled == a * scale,
                0 < a,
        ;
        scale = scale * 2;
        scaled = scaled * 2;
    }
    assert(scale * double_scale(scaled as nat, b as nat) == scale) by (nonlinear_arith)
        requires
            double_scale(scaled as nat, b as nat) == 1,
    ;
    assert(scaled / (b as u128) <= scale) by (nonlinear_arith)
        requires
            scaled == a * scale,
            a <= b,
            0 < b,
    ;
    let m: u128 = round_to_even(scaled, b as u128);
    let hundred: u128 = double_of(100 * m);
    proof {
        assert(1 <= scale) by (nonlinear_arith)
            requires
                scaled == a * scale,
                scaled > 0,
        ;
    }
    let r: u128 = hundred / scale;
    assert(r <= 400) by (nonlinear_arith)
        requires
            hundred <= 200 * m,
            m <= scale + 1,
            r == hundred / scale,
            1 <= scale,
    ;
    r as i32
}

proof fn lemma_scale_of_equals(b: nat, j: nat)
    requires
        0 < b,
        j <= 52,
    ensures
        double_scale(b * pow2(j), b) == pow2((52 - j) as nat),
    decreases 52 - j,
{
    lemma2_to64();
    lemma2_to64_rest();
    let a = b * pow2(j);
    if j == 52 {
        assert(2 * a >= DOUBLE_RANGE * b) by (nonlinear_arith)
            requires
                a == b * pow2(j),
                pow2(j) == 0x10_0000_0000_0000,
        ;
    } else {
        lemma_pow2_unfold(j + 1);
        lemma_pow2_unfold((52 - j) as nat);
        lemma_pow2_pos(j);
        if j + 1 < 52 {
            lemma_pow2_strictly_increases(j + 1, 52);
        }
        assert(2 * a == b * pow2(j + 1)) by (nonlinear_arith)
            requires
                a == b * pow2(j),
                pow2(j + 1) == 2 * pow2(j),
        ;
        assert(0 < a && 2 * a < DOUBLE_RANGE * b) by (nonlinear_arith)
            requires
                0 < b,
                0 < pow2(j),
                a == b * pow2(j),
                2 * a == b * pow2(j + 1),
                pow2(j + 1) <= 0x10_0000_0000_0000,
        ;
        lemma_scale_of_equals(b, j + 1);
    }
}

/// All of something is a hundred percent of it.
pub proof fn law_all_is_hundred_percent(n: nat)
    requires
        0 < n,
    ensures
        percent(n, n) == 100,
{
    let s: nat = 0x10_0000_0000_0000;
    lemma2_to64();
    lemma2_to64_rest();
    lemma_scale_of_equals(n, 0);
    assert(n * pow2(0) == n) by (nonlinear_arith)
        requires
            pow2(0) == 1,
    ;
    assert(double_scale(n, n) == s);
    assert((n * s) / n == s && (n * s) % n == 0) by (nonlinear_arith)
        requires
            0 < n,
    ;
    assert(round_half_even(n * s, n) == s);
    assert(double_unit(100 * s) == 64) by {
        reveal_with_fuel(double_unit, 8);
    }
}

/// The rounded quotient is an integer than which none is nearer, and of two that are equally near the
/// even one.
pub proof fn law_nearest_integer(n: nat, d: nat)
    requires
        0 < d,
    ensures
        2 * (round_half_even(n, d) * d) <= 2 * n + d,
        2 * n <= 2 * (round_half_even(n, d) * d) + d,
        2 * (round_half_even(n, d) * d) == 2 * n + d || 2 * n == 2 * (round_half_even(n, d) * d) + d
            ==> round_half_even(n, d) % 2 == 0,
{
    let q = n / d;
    let r = n % d;
    vstd::arithmetic::div_mod::lemma_fundamental_div_mod(n as int, d as int);
    assert(n == q * d + r && r < d) by (nonlinear_arith)
        requires
            n == d * (n as int / d as int) + (n as int % d as int),
            q == n / d,
            r == n % d,
            0 < d,
    ;
    assert((q + 1) * d == q * d + d) by (nonlinear_arith);
}

proof fn lemma_unit_is(n: nat, k: nat)
    requires
        pow2(52 + k) <= n < pow2(53 + k),
    ensures
        double_unit(n) == pow2(k),
    decreases k,
{
    lemma2_to64();
    lemma2_to64_rest();
    if k == 0 {
        assert(pow2(53) == 0x20_0000_0000_0000);
    } else {
        lemma_pow2_unfold(52 + k);
        lemma_pow2_unfold(53 + k);
        lemma_pow2_unfold(k);
        if k > 1 {
            lemma_pow2_strictly_increases(53, 52 + k);
        }
        lemma_unit_is(n / 2, (k - 1) as nat);
    }
}

/// Up to 53 bits an integer is a double. A larger one is rounded to the nearest multiple of the power of
/// two that leaves it 53 bits, and a half to the even multiple.
pub proof fn law_nearest_double(n: nat, k: nat)
    requires
        n <= 0x20_0000_0000_0000 || pow2(52 + k) <= n < pow2(53 + k),
    ensures
        n <= 0x20_0000_0000_0000 ==> nearest_double(n) == n,
        n > 0x20_0000_0000_0000 ==> {
            let r = nearest_double(n);
            &&& exists|m: nat| #[trigger] (m * pow2(k)) == r && (2 * r == 2 * n + pow2(k) || 2 * n
                == 2 * r + pow2(k) ==> m % 2 == 0)
            &&& 2 * r <= 2 * n + pow2(k)
            &&& 2 * n <= 2 * r + pow2(k)
        },
{
    if n <= 0x20_0000_0000_0000 {
        lemma_small_is_double(n);
    } else {
        lemma_unit_is(n, k);
        lemma_pow2_pos(k);
        law_nearest_integer(n, pow2(k));
        assert(round_half_even(n, pow2(k)) * pow2(k) == nearest_double(n));
    }
}

proof fn lemma_unit_below(n: nat)
    requires
        n >= DOUBLE_RANGE,
    ensures
        double_unit(n) * 0x10_0000_0000_0000 <= n,
    decreases n,
{
    if n / 2 >= DOUBLE_RANGE {
        lemma_unit_below(n / 2);
    } else {
        assert(double_unit(n / 2) == 1);
    }
}

proof fn lemma_scale(a: nat, b: nat)
    requires
        0 < a < DOUBLE_RANGE * b,
    ensures
        0 < double_scale(a, b),
        2 * (a * double_scale(a, b)) >= DOUBLE_RANGE * b,
        a * double_scale(a, b) < DOUBLE_RANGE * b,
    decreases DOUBLE_RANGE * b - a,
{
    if 2 * a < DOUBLE_RANGE * b {
        lemma_scale(2 * a, b);
        let s = double_scale(2 * a, b);
        assert((2 * a) * s == a * (2 * s)) by (nonlinear_arith);
    }
}

/// The percentage is the share in hundredths without its fraction; only where the share is a whole number
/// of hundredths can it be one less.
pub proof fn law_percentage(a: nat, b: nat)
    requires
        0 < a <= b <= u32::MAX,
    ensures
        percent(a, b) * b <= 100 * a,
        100 * a <= (percent(a, b) + 1) * b,
{
    assert(a < DOUBLE_RANGE * b) by (nonlinear_arith)
        requires
            0 < a <= b,
            DOUBLE_RANGE == 0x20_0000_0000_0000,
    ;
    lemma_scale(a, b);
    let s = double_scale(a, b);
    let q = round_half_even(a * s, b);
    let d = nearest_double(100 * q);
    let p = d / s;
    law_nearest_integer(a * s, b);
    assert(q <= 0x20_0000_0000_0000) by (nonlinear_arith)
        requires
            2 * (q * b) <= 2 * (a * s) + b,
            a * s < 0x20_0000_0000_0000 * b,
            0 < b,
    ;
    assert(0x10_0000_0000_0000 <= s) by (nonlinear_arith)
        requires
            2 * (a * s) >= 0x20_0000_0000_0000 * b,
            a <= b,
            0 < b,
            0 < a,
            0 < s,
    ;
    if 100 * q >= DOUBLE_RANGE {
        lemma_unit_below(100 * q);
    }
    let u = double_unit(100 * q);
    lemma_unit(100 * q);
    assert(u <= 200);
    law_nearest_integer(100 * q, u);
    assert(d <= 100 * q + 100 && 100 * q <= d + 100);
    let top = 100 * (a * s);
    assert(d * b <= top + 150 * b && top <= d * b + 150 * b) by (nonlinear_arith)
        requires
            d <= 100 * q + 100,
            100 * q <= d + 100,
            2 * (q * b) <= 2 * (a * s) + b,
            2 * (a * s) <= 2 * (q * b) + b,
            top == 100 * (a * s),
    ;
    assert(150 * b < s);
    vstd::arithmetic::div_mod::lemma_fundamental_div_mod(d as int, s as int);
    assert(p * s <= d && d < (p + 1) * s) by (nonlinear_arith)
        requires
            d == s * (d as int / s as int) + (d as int % s as int),
            p == d / s,
            0 < s,
    ;
    assert(p * b <= 100 * a) by (nonlinear_arith)
        requires
            p * s <= d,
            d * b <= 100 * (a * s) + 150 * b,
            150 * b < s,
            0 < s,
    {
        assert((p * b) * s == (p * s) * b);
        assert((p * s) * b <= d * b);
        assert((p * b) * s < (100 * a + 1) * s);
    }
    assert(100 * a <= (p + 1) * b) by (nonlinear_arith)
        requires
            d < (p + 1) * s,
            100 * (a * s) <= d * b + 150 * b,
            150 * b < s,
            0 < s,
    {
        assert(d * b <= ((p + 1) * s) * b);
        assert(((p + 1) * s) * b == ((p + 1) * b) * s);
        assert((100 * a) * s < ((p + 1) * b + 1) * s);
    }
}

proof fn lemma_scale_is(a: nat, b: nat, j: nat)
    requires
        0 < a,
        pow2(52) * b <= a * pow2(j) < pow2(53) * b,
    ensures
        double_scale(a, b) == pow2(j),
    decreases j,
{
    lemma2_to64();
    lemma2_to64_rest();
    assert(pow2(52) * b == 0x10_0000_0000_0000 * b && pow2(53) * b == 0x20_0000_0000_0000 * b);
    if j == 0 {
        assert(a * pow2(j) == a) by (nonlinear_arith)
            requires
                pow2(j) == 1,
        ;
    } else {
        let i = (j - 1) as nat;
        lemma_pow2_unfold(j);
        lemma_pow2_pos(i);
        assert(a * pow2(j) == (2 * a) * pow2(i)) by (nonlinear_arith)
            requires
                pow2(j) == 2 * pow2(i),
        ;
        assert(2 * a <= (2 * a) * pow2(i)) by (nonlinear_arith)
            requires
                pow2(i) >= 1,
        ;
        lemma_scale_is(2 * a, b, i);
    }
}

/// The percentage is reckoned as doubles are: the quotient is brought to 53 bits, then a hundred times
/// that, and then the fraction is dropped.
pub proof fn law_percentage_as_a_double(a: nat, b: nat, j: nat)
    requires
        0 < a,
        pow2(52) * b <= a * pow2(j) < pow2(53) * b,
    ensures
        percent(a, b) == nearest_double(100 * round_half_even(a * pow2(j), b)) / pow2(j),
{
    lemma_scale_is(a, b, j);
}

} // verus!
