//! Integers as byte strings, in both byte orders.
use vstd::arithmetic::div_mod::{lemma_div_denominator, lemma_mod_breakdown};
use vstd::arithmetic::power::{lemma_pow0, lemma_pow1, lemma_pow_adds, lemma_pow_positive, pow};
use vstd::prelude::*;

verus! {

/// The `n` low-order bytes of `v`, least significant first.
pub open spec fn le_bytes(v: nat, n: nat) -> Seq<u8>
    decreases n,
{
    if n == 0 {
        seq![]
    } else {
        seq![(v % 256) as u8] + le_bytes(v / 256, (n - 1) as nat)
    }
}

/// The `n` low-order bytes of `v`, most significant first.
pub open spec fn be_bytes(v: nat, n: nat) -> Seq<u8>
    decreases n,
{
    if n == 0 {
        seq![]
    } else {
        be_bytes(v / 256, (n - 1) as nat).push((v % 256) as u8)
    }
}

/// The integer that bytes spell, least significant first.
pub open spec fn le_value(bytes: Seq<u8>) -> nat
    decreases bytes.len(),
{
    if bytes.len() == 0 {
        0
    } else {
        bytes[0] as nat + 256 * le_value(bytes.drop_first())
    }
}

/// The integer that bytes spell, most significant first.
pub open spec fn be_value(bytes: Seq<u8>) -> nat
    decreases bytes.len(),
{
    if bytes.len() == 0 {
        0
    } else {
        256 * be_value(bytes.drop_last()) + bytes.last() as nat
    }
}

/// The number of values that `n` bytes can spell.
pub open spec fn byte_range(n: nat) -> nat
    decreases n,
{
    if n == 0 {
        1
    } else {
        256 * byte_range((n - 1) as nat)
    }
}

/// A number that `n` bytes can spell is spelled by them.
pub proof fn lemma_be_round_trip(v: nat, n: nat)
    requires
        v < byte_range(n),
    ensures
        be_value(be_bytes(v, n)) == v,
    decreases n,
{
    if n > 0 {
        lemma_be_round_trip(v / 256, (n - 1) as nat);
        assert(be_bytes(v, n).drop_last() =~= be_bytes(v / 256, (n - 1) as nat));
    }
}

/// `n` bytes are produced.
pub proof fn lemma_le_bytes_len(v: nat, n: nat)
    ensures
        le_bytes(v, n).len() == n,
    decreases n,
{
    if n > 0 {
        lemma_le_bytes_len(v / 256, (n - 1) as nat);
    }
}

/// `n` bytes are produced.
pub proof fn lemma_be_bytes_len(v: nat, n: nat)
    ensures
        be_bytes(v, n).len() == n,
    decreases n,
{
    if n > 0 {
        lemma_be_bytes_len(v / 256, (n - 1) as nat);
    }
}

/// An integer that fits in `n` bytes is read back from them.
pub proof fn lemma_le_round_trip(v: nat, n: nat)
    requires
        v < byte_range(n),
    ensures
        le_value(le_bytes(v, n)) == v,
    decreases n,
{
    if n > 0 {
        lemma_le_round_trip(v / 256, (n - 1) as nat);
        assert(le_bytes(v, n).drop_first() =~= le_bytes(v / 256, (n - 1) as nat));
    }
}

/// Bytes are given back by the integer that they spell.
pub proof fn lemma_le_value_bytes(bytes: Seq<u8>)
    ensures
        le_value(bytes) < byte_range(bytes.len()),
        le_bytes(le_value(bytes), bytes.len()) == bytes,
    decreases bytes.len(),
{
    if bytes.len() > 0 {
        lemma_le_value_bytes(bytes.drop_first());
        assert(le_value(bytes) / 256 == le_value(bytes.drop_first()));
        assert(le_value(bytes) % 256 == bytes[0]);
        assert(seq![bytes[0]] + bytes.drop_first() =~= bytes);
    } else {
        assert(le_bytes(le_value(bytes), bytes.len()) =~= bytes);
    }
}

/// The ranges of the widths in use.
pub proof fn lemma_byte_ranges()
    ensures
        byte_range(4) == 0x1_0000_0000,
        byte_range(8) == 0x1_0000_0000_0000_0000,
{
    reveal_with_fuel(byte_range, 9);
}

/// Appends the `n` low-order bytes of `value`, least significant first.
fn push_le(buf: &mut Vec<u8>, value: u64, n: u8)
    ensures
        final(buf)@ == old(buf)@ + le_bytes(value as nat, n as nat),
    decreases n,
{
    if n > 0 {
        buf.push((value % 256) as u8);
        push_le(buf, value / 256, n - 1);
    }
    assert(buf@ =~= old(buf)@ + le_bytes(value as nat, n as nat));
}

/// Appends the `n` low-order bytes of `value`, most significant first.
fn push_be(buf: &mut Vec<u8>, value: u64, n: u8)
    ensures
        final(buf)@ == old(buf)@ + be_bytes(value as nat, n as nat),
    decreases n,
{
    if n > 0 {
        push_be(buf, value / 256, n - 1);
        buf.push((value % 256) as u8);
    }
    assert(buf@ =~= old(buf)@ + be_bytes(value as nat, n as nat));
}

/// Appends the four bytes of `value`, least significant first.
pub fn write_u32(buf: &mut Vec<u8>, value: u32)
    ensures
        final(buf)@ == old(buf)@ + le_bytes(value as nat, 4),
{
    push_le(buf, value as u64, 4);
}

/// Appends the eight bytes of `value`, least significant first.
pub fn write_u64(buf: &mut Vec<u8>, value: u64)
    ensures
        final(buf)@ == old(buf)@ + le_bytes(value as nat, 8),
{
    push_le(buf, value, 8);
}

/// Appends the four low-order bytes of a length, least significant first.
pub fn write_len(buf: &mut Vec<u8>, len: usize)
    ensures
        final(buf)@ == old(buf)@ + le_bytes(len as nat, 4),
{
    push_le(buf, len as u64, 4);
}

/// Appends the two low-order bytes of `value`, most significant first.
pub fn write_be_u16(buf: &mut Vec<u8>, value: usize)
    ensures
        final(buf)@ == old(buf)@ + be_bytes(value as nat, 2),
{
    push_be(buf, value as u64, 2);
}

/// Appends the four low-order bytes of `value`, most significant first.
pub fn write_be_u32(buf: &mut Vec<u8>, value: usize)
    ensures
        final(buf)@ == old(buf)@ + be_bytes(value as nat, 4),
{
    push_be(buf, value as u64, 4);
}

/// Appends the eight bytes of `value`, most significant first.
pub fn write_be_u64(buf: &mut Vec<u8>, value: u64)
    ensures
        final(buf)@ == old(buf)@ + be_bytes(value as nat, 8),
{
    push_be(buf, value, 8);
}

/// The integer that `n` bytes of `data` spell from `at` on, least significant first.
fn value_le(data: &[u8], at: usize, n: u8) -> (value: u64)
    requires
        at + n <= data@.len(),
        byte_range(n as nat) <= 0x1_0000_0000_0000_0000,
    ensures
        value == le_value(data@.subrange(at as int, at + n)),
        value < byte_range(n as nat),
    decreases n,
{
    if n == 0 {
        0
    } else {
        assert(at < data.len());
        let rest: u64 = value_le(data, at + 1, n - 1);
        assert(data@.subrange(at as int, at + n).drop_first() =~= data@.subrange(
            at + 1,
            at + 1 + (n - 1),
        ));
        data[at] as u64 + 256 * rest
    }
}

/// The integer that the four bytes of `data` from `at` on spell, least significant first.
pub fn value_u32(data: &[u8], at: usize) -> (value: u32)
    requires
        at + 4 <= data@.len(),
    ensures
        value == le_value(data@.subrange(at as int, at + 4)),
{
    proof {
        lemma_byte_ranges();
    }
    value_le(data, at, 4) as u32
}

/// The integer that the four bytes of `data` from `at` on spell, most significant first.
pub fn value_be_u32(data: &[u8], at: usize) -> (value: u32)
    requires
        at + 4 <= data@.len(),
    ensures
        value == be_value(data@.subrange(at as int, at + 4)),
{
    proof {
        let bytes = data@.subrange(at as int, at + 4);
        reveal_with_fuel(be_value, 5);
        assert(bytes.drop_last().drop_last().drop_last().drop_last() =~= Seq::empty());
    }
    ((data[at] as u32 * 256 + data[at + 1] as u32) * 256 + data[at + 2] as u32) * 256 + data[at
        + 3] as u32
}

/// The integer that the eight bytes of `data` from `at` on spell, least significant first.
pub fn value_u64(data: &[u8], at: usize) -> (value: u64)
    requires
        at + 8 <= data@.len(),
    ensures
        value == le_value(data@.subrange(at as int, at + 8)),
{
    proof {
        lemma_byte_ranges();
    }
    value_le(data, at, 8)
}

/// The place of a byte is its weight: counted from the low-order end, the byte at `i` is the digit of the
/// number to the base 256 there, and both byte orders have these bytes, one from each end.
pub proof fn law_bytes_of_a_number(v: nat, n: nat, i: nat)
    requires
        i < n,
    ensures
        le_bytes(v, n).len() == n,
        be_bytes(v, n).len() == n,
        le_bytes(v, n)[i as int] == (v as int / pow(256, i)) % 256,
        be_bytes(v, n)[n - 1 - i] == (v as int / pow(256, i)) % 256,
    decreases n,
{
    lemma_le_bytes_len(v, n);
    lemma_be_bytes_len(v, n);
    if i == 0 {
        lemma_pow0(256);
        assert(v as int / 1 == v);
    } else {
        let (m, k) = ((n - 1) as nat, (i - 1) as nat);
        law_bytes_of_a_number(v / 256, m, k);
        lemma_pow_adds(256, 1, k);
        lemma_pow1(256);
        lemma_pow_positive(256, k);
        lemma_div_denominator(v as int, 256, pow(256, k));
        assert(le_bytes(v, n)[i as int] == le_bytes(v / 256, m)[k as int]);
        assert(be_bytes(v, n)[n - 1 - i] == be_bytes(v / 256, m)[m - 1 - k]);
    }
}

/// A byte at the high-order end adds its multiple of the power of 256 that the others are below.
pub proof fn law_number_of_bytes(bytes: Seq<u8>, b: u8)
    ensures
        le_value(bytes.push(b)) == le_value(bytes) + b * pow(256, bytes.len()),
        be_value(seq![b] + bytes) == be_value(bytes) + b * pow(256, bytes.len()),
        le_value(Seq::empty()) == 0,
        be_value(Seq::empty()) == 0,
    decreases bytes.len(),
{
    reveal_with_fuel(le_value, 2);
    reveal_with_fuel(be_value, 2);
    if bytes.len() == 0 {
        lemma_pow0(256);
        assert(bytes.push(b).drop_first() =~= Seq::empty());
        assert((seq![b] + bytes).drop_last() =~= Seq::empty());
        assert(b * pow(256, bytes.len()) == b);
    } else {
        let k = (bytes.len() - 1) as nat;
        lemma_pow_adds(256, 1, k);
        lemma_pow1(256);
        law_number_of_bytes(bytes.drop_first(), b);
        law_number_of_bytes(bytes.drop_last(), b);
        assert(bytes.push(b).drop_first() =~= bytes.drop_first().push(b));
        assert((seq![b] + bytes).drop_last() =~= seq![b] + bytes.drop_last());
        assert(256 * (b * pow(256, k)) == b * (256 * pow(256, k))) by (nonlinear_arith);
    }
}

/// A number that does not fit keeps its low-order bytes: it is read back but for a multiple of what fits.
pub proof fn law_low_order_bytes(v: nat, n: nat)
    ensures
        be_value(be_bytes(v, n)) == v as int % pow(256, n),
        le_value(le_bytes(v, n)) == v as int % pow(256, n),
    decreases n,
{
    if n == 0 {
        lemma_pow0(256);
        assert(v as int % 1 == 0);
    } else {
        let m = (n - 1) as nat;
        law_low_order_bytes(v / 256, m);
        lemma_pow_adds(256, 1, m);
        lemma_pow1(256);
        lemma_pow_positive(256, m);
        lemma_mod_breakdown(v as int, 256, pow(256, m));
        assert(be_bytes(v, n).drop_last() =~= be_bytes(v / 256, m));
        assert(le_bytes(v, n).drop_first() =~= le_bytes(v / 256, m));
    }
}

} // verus!
