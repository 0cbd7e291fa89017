//! Sizes in words.
use vstd::arithmetic::power::{
    lemma_pow0, lemma_pow1, lemma_pow_adds, lemma_pow_increases, lemma_pow_positive, pow,
};
use vstd::prelude::*;
use crate::rounding::{double_of, round_to_even};
use crate::text::{decimal_of, joined, signed_decimal_of};

verus! {

/// The step from one unit of size to the next.
pub const UNIT: i64 = 1024;

/// The largest power of 1024 that is not above `n`.
pub open spec fn unit_size(n: nat) -> nat
    decreases n,
{
    if n < UNIT {
        1
    } else {
        1024 * unit_size(n / 1024)
    }
}

/// Which power of 1024 is the largest that is not above `n`.
pub open spec fn unit_index(n: nat) -> nat
    decreases n,
{
    if n < UNIT {
        0
    } else {
        1 + unit_index(n / 1024)
    }
}

/// The name of the unit of 1024 to the power of `k`.
pub open spec fn unit_name(k: nat) -> Seq<char> {
    if k == 1 {
        "KiB"@
    } else if k == 2 {
        "MiB"@
    } else if k == 3 {
        "GiB"@
    } else if k == 4 {
        "TiB"@
    } else if k == 5 {
        "PiB"@
    } else {
        "EiB"@
    }
}

/// A size in words: bytes below 1024, then the unit that leaves the smallest number above one,
/// with one decimal.
///
/// The size is taken as a double, which is exact below 2^53; the decimal is rounded to the nearest,
/// halves to even.
pub open spec fn size_text(bytes: int) -> Seq<char> {
    if bytes < UNIT {
        crate::text::signed_decimal(bytes) + " B"@
    } else {
        let n = bytes as nat;
        let tenths = crate::rounding::round_half_even(
            10 * crate::rounding::nearest_double(n),
            unit_size(n),
        );
        crate::text::decimal(tenths / 10) + "."@ + crate::text::decimal(tenths % 10) + " "@
            + unit_name(unit_index(n))
    }
}

/// The number that the bits of `n` stand for when the first one is the sign.
pub open spec fn signed(n: u64) -> int {
    if n <= i64::MAX {
        n as int
    } else {
        n - 0x1_0000_0000_0000_0000
    }
}

/// The number that the bits of `n` stand for when the first one is the sign.
pub fn as_signed(n: u64) -> (r: i64)
    ensures
        r == signed(n),
{
    if n <= i64::MAX as u64 {
        n as i64
    } else {
        -((u64::MAX - n) as i64) - 1
    }
}

/// The name of a unit.
fn unit_name_of(k: u64) -> (name: &'static str)
    ensures
        name@ == unit_name(k as nat),
{
    match k {
        1 => "KiB",
        2 => "MiB",
        3 => "GiB",
        4 => "TiB",
        5 => "PiB",
        _ => "EiB",
    }
}

/// A size in words.
pub fn format_bytes(bytes: i64) -> (s: String)
    ensures
        s@ == size_text(bytes as int),
{
    if bytes < UNIT {
        return joined(&signed_decimal_of(bytes), " B");
    }
    let whole: u64 = bytes as u64;
    let mut div: u64 = 1024;
    let mut k: u64 = 1;
    let mut n: u64 = whole / 1024;
    while n >= 1024
        invariant
            bytes == whole,
            whole < 0x8000_0000_0000_0000,
            1 <= n,
            n * div <= whole,
            1 <= div,
            unit_size(whole as nat) == div * unit_size(n as nat),
            unit_index(whole as nat) == k + unit_index(n as nat),
            k < div,
        decreases n,
    {
        assert(div * 1024 <= 0x8000_0000_0000_0000 && (n / 1024) * (div * 1024) <= whole)
            by (nonlinear_arith)
            requires
                n * div <= whole,
                n >= 1024,
                1 <= div,
                whole < 0x8000_0000_0000_0000,
        ;
        assert(div * (1024 * unit_size((n / 1024) as nat)) == (div * 1024) * unit_size(
            (n / 1024) as nat,
        )) by (nonlinear_arith);
        div = div * 1024;
        k = k + 1;
        n = n / 1024;
    }
    assert(unit_size(whole as nat) == div) by (nonlinear_arith)
        requires
            unit_size(whole as nat) == div * unit_size(n as nat),
            unit_size(n as nat) == 1,
    ;
    let tenths: u128 = round_to_even(10 * double_of(whole as u128), div as u128);
    assert(tenths <= 20 * 0x8000_0000_0000_0000 + 1);
    let mut s: String = decimal_of((tenths / 10) as u64);
    s.push_str(".");
    s.push_str(&decimal_of((tenths % 10) as u64));
    s.push_str(" ");
    s.push_str(unit_name_of(k));
    s
}

/// A size is told in the largest unit that is not above it.
pub proof fn law_units(n: nat, k: nat)
    requires
        pow(1024, k) <= n < pow(1024, k + 1),
    ensures
        unit_index(n) == k,
        unit_size(n) == pow(1024, k),
    decreases k,
{
    lemma_pow0(1024);
    lemma_pow1(1024);
    if k > 0 {
        let j = (k - 1) as nat;
        lemma_pow_adds(1024, 1, j);
        lemma_pow_adds(1024, 1, k);
        lemma_pow_positive(1024, j);
        assert(pow(1024, j) <= n / 1024 < pow(1024, k)) by {
            assert(pow(1024, k) == 1024 * pow(1024, j));
            assert(pow(1024, k + 1) == 1024 * pow(1024, k));
        }
        law_units(n / 1024, j);
    }
}

/// The units are named by the letters K, M, G, T, P and E.
pub proof fn law_unit_names(k: nat)
    requires
        1 <= k <= 6,
    ensures
        unit_name(k) == seq!["KMGTPE"@[k - 1]] + "iB"@,
{
    reveal_strlit("KMGTPE");
    reveal_strlit("iB");
    reveal_strlit("KiB");
    reveal_strlit("MiB");
    reveal_strlit("GiB");
    reveal_strlit("TiB");
    reveal_strlit("PiB");
    reveal_strlit("EiB");
    assert(unit_name(k) =~= seq!["KMGTPE"@[k - 1]] + "iB"@);
}

/// A number of tenths as a numeral with a point.
pub open spec fn tenths_text(tenths: nat) -> Seq<char> {
    crate::text::decimal(tenths / 10) + "."@ + crate::text::decimal(tenths % 10)
}

/// Below 1024 bytes are counted. From there on a size is told in tenths of its unit, to the nearest, and
/// where two are equally near to the even one. What is told is the size as a double, which up to 2^53 is
/// the size itself.
pub proof fn law_sizes_in_words(bytes: int, n: nat, k: nat)
    requires
        1 <= k <= 6,
        pow(1024, k) <= n < pow(1024, k + 1),
    ensures
        bytes < 1024 ==> size_text(bytes) == crate::text::signed_decimal(bytes) + " B"@,
        n <= 0x20_0000_0000_0000 ==> crate::rounding::nearest_double(n) == n,
        exists|tenths: nat|
            {
                let r = crate::rounding::nearest_double(n);
                let unit = pow(1024, k);
                &&& size_text(n as int) == #[trigger] tenths_text(tenths) + " "@ + seq![
                    "KMGTPE"@[k - 1],
                ] + "iB"@
                &&& 2 * (tenths * unit) <= 20 * r + unit
                &&& 20 * r <= 2 * (tenths * unit) + unit
                &&& 2 * (tenths * unit) == 20 * r + unit || 20 * r == 2 * (tenths * unit) + unit
                    ==> tenths % 2 == 0
            },
{
    law_units(n, k);
    law_unit_names(k);
    if n <= 0x20_0000_0000_0000 {
        crate::rounding::lemma_small_is_double(n);
    }
    lemma_pow_positive(1024, k);
    lemma_pow_increases(1024, 1, k);
    lemma_pow1(1024);
    let d = unit_size(n);
    let r = crate::rounding::nearest_double(n);
    let tenths = crate::rounding::round_half_even(10 * r, d);
    crate::rounding::law_nearest_integer(10 * r, d);
    assert(size_text(n as int) =~= tenths_text(tenths) + " "@ + seq!["KMGTPE"@[k - 1]] + "iB"@);
    assert(tenths * pow(1024, k) == tenths * d);
}

/// The bits stand for the number that is the same but for a multiple of 2^64 and lies in the range of the
/// numbers with a sign.
pub proof fn law_signed_numbers(n: u64)
    ensures
        i64::MIN <= signed(n) <= i64::MAX,
        signed(n) == n || signed(n) + 0x1_0000_0000_0000_0000 == n,
{
}

} // verus!
