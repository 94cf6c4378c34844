//! Little-endian integers inside byte sequences.
//!
//! Every record that the converter reads or writes is a concatenation of
//! fixed-width little-endian fields. Floating-point fields travel as their
//! IEEE 754 bit patterns (`u64`).

use vstd::arithmetic::div_mod::lemma_div_denominator;
use vstd::arithmetic::power::{lemma_pow0, lemma_pow_positive, pow};
use vstd::prelude::*;

verus! {

/// The `n` low-order bytes of `v`, least significant first.
pub open spec fn le_bytes(v: nat, n: nat) -> Seq<u8>
    decreases n,
{
    if n == 0 {
        Seq::empty()
    } else {
        seq![(v % 256) as u8] + le_bytes(v / 256, (n - 1) as nat)
    }
}

/// The number whose little-endian digits (base 256) are `s`.
pub open spec fn le_value(s: Seq<u8>) -> nat
    decreases s.len(),
{
    if s.len() == 0 {
        0
    } else {
        s[0] as nat + 256 * le_value(s.drop_first())
    }
}

/// 256 to the power `n`.
pub open spec fn pow256(n: nat) -> nat
    decreases n,
{
    if n == 0 {
        1
    } else {
        256 * pow256((n - 1) as nat)
    }
}

/// `le_bytes` yields exactly `n` bytes.
pub broadcast proof fn lemma_le_bytes_len(v: nat, n: nat)
    ensures
        #[trigger] le_bytes(v, n).len() == n,
    decreases n,
{
    if n > 0 {
        lemma_le_bytes_len(v / 256, (n - 1) as nat);
    }
}

/// Reading back what was written yields the number, as long as it fits.
pub proof fn lemma_le_value_of_bytes(v: nat, n: nat)
    requires
        v < pow256(n),
    ensures
        le_value(le_bytes(v, n)) == v,
    decreases n,
{
    if n > 0 {
        lemma_le_value_of_bytes(v / 256, (n - 1) as nat);
        assert(le_bytes(v, n).drop_first() =~= le_bytes(v / 256, (n - 1) as nat));
    }
}

/// Writing what was read yields the same bytes.
pub proof fn lemma_le_bytes_of_value(s: Seq<u8>)
    ensures
        le_bytes(le_value(s), s.len()) == s,
    decreases s.len(),
{
    if s.len() > 0 {
        let rest = s.drop_first();
        lemma_le_bytes_of_value(rest);
        let v = le_value(s);
        assert(v == s[0] as nat + 256 * le_value(rest));
        assert(v % 256 == s[0] as nat);
        assert(v / 256 == le_value(rest));
        assert(le_bytes(v, s.len()) =~= s);
    } else {
        assert(le_bytes(le_value(s), s.len()) =~= s);
    }
}

/// A sequence of `n` digits is below `256^n`.
pub proof fn lemma_le_value_bound(s: Seq<u8>)
    ensures
        le_value(s) < pow256(s.len()),
    decreases s.len(),
{
    if s.len() > 0 {
        lemma_le_value_bound(s.drop_first());
    }
}

/// The widths used by the record formats, as numbers.
pub proof fn lemma_pow256_values()
    ensures
        pow256(0) == 1,
        pow256(1) == 0x100,
        pow256(2) == 0x1_0000,
        pow256(3) == 0x100_0000,
        pow256(4) == 0x1_0000_0000,
        pow256(5) == 0x100_0000_0000,
        pow256(6) == 0x1_0000_0000_0000,
        pow256(7) == 0x100_0000_0000_0000,
        pow256(8) == 0x1_0000_0000_0000_0000,
{
    reveal_with_fuel(pow256, 9);
}

/// The least significant byte comes first: byte `i` is the digit of `v` with the
/// place value `256^i`, and reading gives the digits their places back.
pub proof fn law_least_significant_first(v: nat, n: nat, i: nat, s: Seq<u8>)
    requires
        i < n,
    ensures
        le_bytes(v, n)[i as int] == (v / (pow(256, i) as nat)) % 256,
        i < s.len() ==> s[i as int] == (le_value(s) / (pow(256, i) as nat)) % 256,
    decreases n,
{
    broadcast use lemma_le_bytes_len;

    lemma_pow0(256);
    let p = (i as int - 1) as nat;
    if i > 0 {
        assert(le_bytes(v, n)[i as int] == le_bytes(v / 256, (n - 1) as nat)[p as int]);
        law_least_significant_first(v / 256, (n - 1) as nat, p, if s.len() > 0 {
            s.drop_first()
        } else {
            s
        });
        lemma_pow_positive(256, p);
        reveal_with_fuel(pow, 2);
        assert(pow(256, i) == 256 * pow(256, p));
        lemma_div_denominator(v as int, 256, pow(256, p));
        assert(v / (pow(256, i) as nat) == (v / 256) / (pow(256, p) as nat));
        if i < s.len() {
            let w = le_value(s);
            let r = le_value(s.drop_first());
            assert(w == s[0] as nat + 256 * r);
            assert(w / 256 == r);
            lemma_div_denominator(w as int, 256, pow(256, p));
            assert(w / (pow(256, i) as nat) == r / (pow(256, p) as nat));
        }
    } else {
        assert(v / 1 == v && le_value(s) / 1 == le_value(s));
        assert(le_bytes(v, n)[0] == v % 256);
        if s.len() > 0 {
            assert(le_value(s) == s[0] as nat + 256 * le_value(s.drop_first()));
        }
    }
}

/// A part of a part lies where the offsets add up to.
pub proof fn lemma_part_of_part(s: Seq<u8>, from: int, to: int, a: int, b: int)
    requires
        0 <= from <= to <= s.len(),
        0 <= a <= b <= to - from,
    ensures
        s.subrange(from, to).subrange(a, b) == s.subrange(from + a, from + b),
{
    assert(s.subrange(from, to).subrange(a, b) =~= s.subrange(from + a, from + b));
}

/// Appends `n` low-order bytes of `v`.
pub fn push_le(out: &mut Vec<u8>, v: u64, n: usize)
    ensures
        final(out)@ == old(out)@ + le_bytes(v as nat, n as nat),
{
    let mut rest: u64 = v;
    let mut i: usize = 0;
    assert(out@ + le_bytes(v as nat, n as nat) =~= old(out)@ + le_bytes(v as nat, n as nat));
    while i < n
        invariant
            i <= n,
            out@ + le_bytes(rest as nat, (n - i) as nat) == old(out)@ + le_bytes(
                v as nat,
                n as nat,
            ),
        decreases n - i,
    {
        let ghost before = out@;
        let ghost r = rest as nat;
        out.push((rest % 256) as u8);
        assert(before + le_bytes(r, (n - i) as nat) =~= out@ + le_bytes(
            r / 256,
            (n - i - 1) as nat,
        ));
        rest = rest / 256;
        i = i + 1;
    }
    assert(out@ + le_bytes(rest as nat, 0) =~= out@);
}

pub fn push_u8(out: &mut Vec<u8>, v: u8)
    ensures
        final(out)@ == old(out)@.push(v),
{
    out.push(v);
}

pub fn push_u16(out: &mut Vec<u8>, v: u16)
    ensures
        final(out)@ == old(out)@ + le_bytes(v as nat, 2),
{
    push_le(out, v as u64, 2);
}

pub fn push_u32(out: &mut Vec<u8>, v: u32)
    ensures
        final(out)@ == old(out)@ + le_bytes(v as nat, 4),
{
    push_le(out, v as u64, 4);
}

pub fn push_u64(out: &mut Vec<u8>, v: u64)
    ensures
        final(out)@ == old(out)@ + le_bytes(v as nat, 8),
{
    push_le(out, v, 8);
}

/// Appends the two's complement bytes of `v`.
pub fn push_i32(out: &mut Vec<u8>, v: i32)
    ensures
        final(out)@ == old(out)@ + le_bytes((v as u32) as nat, 4),
{
    push_le(out, (v as u32) as u64, 4);
}

/// Appends the two's complement bytes of `v`.
pub fn push_i16(out: &mut Vec<u8>, v: i16)
    ensures
        final(out)@ == old(out)@ + le_bytes((v as u16) as nat, 2),
{
    push_le(out, (v as u16) as u64, 2);
}

/// Appends a whole slice.
pub fn push_bytes(out: &mut Vec<u8>, bytes: &[u8])
    ensures
        final(out)@ == old(out)@ + bytes@,
{
    out.extend_from_slice(bytes);
    assert(out@ =~= old(out)@ + bytes@);
}

/// Appends `n` zero bytes.
pub fn push_zeros(out: &mut Vec<u8>, n: usize)
    ensures
        final(out)@ == old(out)@ + Seq::new(n as nat, |i: int| 0u8),
{
    let mut i: usize = 0;
    while i < n
        invariant
            i <= n,
            out@ =~= old(out)@ + Seq::new(i as nat, |i: int| 0u8),
        decreases n - i,
    {
        out.push(0);
        i = i + 1;
    }
}

/// Reads `n` bytes starting at `pos`.
pub fn read_le(buf: &[u8], pos: usize, n: usize) -> (v: u64)
    requires
        n <= 8,
        pos + n <= buf@.len(),
    ensures
        v as nat == le_value(buf@.subrange(pos as int, pos + n)),
        (v as nat) < pow256(n as nat),
{
    let mut acc: u64 = 0;
    let mut i: usize = n;
    assert(buf.len() <= usize::MAX);
    let end: usize = pos + n;
    proof {
        lemma_pow256_values();
        assert(buf@.subrange(pos + n, pos + n) =~= Seq::<u8>::empty());
    }
    while i > 0
        invariant
            i <= n <= 8,
            pos + n == end <= buf@.len(),
            acc as nat == le_value(buf@.subrange(pos + i, pos + n)),
        decreases i,
    {
        proof {
            lemma_pow256_values();
            lemma_le_value_bound(buf@.subrange(pos + i, pos + n));
            let k: nat = (n - i) as nat;
            assert(pow256(k) <= pow256(7)) by {
                assert(k == 0 || k == 1 || k == 2 || k == 3 || k == 4 || k == 5 || k == 6 || k
                    == 7);
            }
        }
        i = i - 1;
        acc = (buf[pos + i] as u64) + 256 * acc;
        assert(buf@.subrange(pos + i, pos + n).drop_first() =~= buf@.subrange(
            pos + i + 1,
            pos + n,
        ));
    }
    proof {
        lemma_le_value_bound(buf@.subrange(pos as int, pos + n));
    }
    acc
}

pub fn read_u16(buf: &[u8], pos: usize) -> (v: u16)
    requires
        pos + 2 <= buf@.len(),
    ensures
        v as nat == le_value(buf@.subrange(pos as int, pos + 2)),
{
    proof {
        lemma_pow256_values();
    }
    read_le(buf, pos, 2) as u16
}

pub fn read_u32(buf: &[u8], pos: usize) -> (v: u32)
    requires
        pos + 4 <= buf@.len(),
    ensures
        v as nat == le_value(buf@.subrange(pos as int, pos + 4)),
{
    proof {
        lemma_pow256_values();
    }
    read_le(buf, pos, 4) as u32
}

pub fn read_u64(buf: &[u8], pos: usize) -> (v: u64)
    requires
        pos + 8 <= buf@.len(),
    ensures
        v as nat == le_value(buf@.subrange(pos as int, pos + 8)),
{
    read_le(buf, pos, 8)
}

/// Reads a two's complement number.
pub fn read_i32(buf: &[u8], pos: usize) -> (v: i32)
    requires
        pos + 4 <= buf@.len(),
    ensures
        (v as u32) as nat == le_value(buf@.subrange(pos as int, pos + 4)),
{
    let u: u32 = read_u32(buf, pos);
    assert((u as i32) as u32 == u) by (bit_vector);
    u as i32
}

/// Reads a two's complement number.
pub fn read_i16(buf: &[u8], pos: usize) -> (v: i16)
    requires
        pos + 2 <= buf@.len(),
    ensures
        (v as u16) as nat == le_value(buf@.subrange(pos as int, pos + 2)),
{
    let u: u16 = read_u16(buf, pos);
    assert((u as i16) as u16 == u) by (bit_vector);
    u as i16
}

/// Two signed numbers with the same two's complement bits are equal.
pub proof fn lemma_i32_bits_injective(a: i32, b: i32)
    requires
        a as u32 == b as u32,
    ensures
        a == b,
{
    assert(a as u32 == b as u32 ==> a == b) by (bit_vector);
}

/// Two signed numbers with the same two's complement bits are equal.
pub proof fn lemma_i16_bits_injective(a: i16, b: i16)
    requires
        a as u16 == b as u16,
    ensures
        a == b,
{
    assert(a as u16 == b as u16 ==> a == b) by (bit_vector);
}

} // verus!
