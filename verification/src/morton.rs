//! Morton codes: the order in which points are visited when a level of detail
//! is thinned.

use vstd::arithmetic::div_mod::lemma_div_denominator;
use vstd::arithmetic::power::{lemma_pow0, lemma_pow_positive, pow};
use vstd::prelude::*;

verus! {

/// The low `n` bits of `v`, each followed by two zero bits.
pub open spec fn spread(v: nat, n: nat) -> nat
    decreases n,
{
    if n == 0 {
        0
    } else {
        v % 2 + 8 * spread(v / 2, (n - 1) as nat)
    }
}

/// The interleaved low 21 bits of three coordinates, those of `x` lowest.
pub open spec fn morton_code(x: u32, y: u32, z: u32) -> nat {
    spread(x as nat, 21) + 2 * spread(y as nat, 21) + 4 * spread(z as nat, 21)
}

/// `spread_bits` without its first mask.
spec fn spread_steps(v: u64) -> u64 {
    let a = (v | (v << 32)) & 0x1F00000000FFFF;
    let b = (a | (a << 16)) & 0x1F0000FF0000FF;
    let c = (b | (b << 8)) & 0x100F00F00F00F00F;
    let d = (c | (c << 4)) & 0x10C30C30C30C30C3;
    (d | (d << 2)) & 0x1249249249249249
}

/// The low `k` bits set.
spec fn low_mask(k: u64) -> u64 {
    !(0xFFFF_FFFF_FFFF_FFFFu64 << k)
}

proof fn lemma_spread_steps(v: u64, k: u64)
    requires
        k <= 21,
    ensures
        spread_steps(v & low_mask(k)) == spread(v as nat, k as nat),
        spread_steps(v & low_mask(k)) <= 0x1249249249249249,
    decreases k,
{
    let low = v & low_mask(k);
    let r = spread_steps(low);
    let a = (low | (low << 32)) & 0x1F00000000FFFF;
    let b = (a | (a << 16)) & 0x1F0000FF0000FF;
    let c = (b | (b << 8)) & 0x100F00F00F00F00F;
    let d = (c | (c << 4)) & 0x10C30C30C30C30C3;
    assert((d | (d << 2)) & 0x1249249249249249 <= 0x1249249249249249) by (bit_vector);
    if k == 0 {
        assert(r == 0) by (bit_vector)
            requires
                low == v & !(0xFFFF_FFFF_FFFF_FFFFu64 << k),
                k == 0,
                a == (low | (low << 32)) & 0x1F00000000FFFF,
                b == (a | (a << 16)) & 0x1F0000FF0000FF,
                c == (b | (b << 8)) & 0x100F00F00F00F00F,
                d == (c | (c << 4)) & 0x10C30C30C30C30C3,
                r == (d | (d << 2)) & 0x1249249249249249,
        ;
    } else {
        let h = v >> 1;
        let j = (k - 1) as u64;
        lemma_spread_steps(h, j);
        let low2 = h & low_mask(j);
        let a2 = (low2 | (low2 << 32)) & 0x1F00000000FFFF;
        let b2 = (a2 | (a2 << 16)) & 0x1F0000FF0000FF;
        let c2 = (b2 | (b2 << 8)) & 0x100F00F00F00F00F;
        let d2 = (c2 | (c2 << 4)) & 0x10C30C30C30C30C3;
        let r2 = (d2 | (d2 << 2)) & 0x1249249249249249;
        assert(r == (v & 1) | (r2 << 3)) by (bit_vector)
            requires
                1 <= k <= 21,
                k == j + 1,
                h == v >> 1,
                low == v & !(0xFFFF_FFFF_FFFF_FFFFu64 << k),
                a == (low | (low << 32)) & 0x1F00000000FFFF,
                b == (a | (a << 16)) & 0x1F0000FF0000FF,
                c == (b | (b << 8)) & 0x100F00F00F00F00F,
                d == (c | (c << 4)) & 0x10C30C30C30C30C3,
                r == (d | (d << 2)) & 0x1249249249249249,
                low2 == h & !(0xFFFF_FFFF_FFFF_FFFFu64 << j),
                a2 == (low2 | (low2 << 32)) & 0x1F00000000FFFF,
                b2 == (a2 | (a2 << 16)) & 0x1F0000FF0000FF,
                c2 == (b2 | (b2 << 8)) & 0x100F00F00F00F00F,
                d2 == (c2 | (c2 << 4)) & 0x10C30C30C30C30C3,
                r2 == (d2 | (d2 << 2)) & 0x1249249249249249,
        ;
        assert((v & 1) | (r2 << 3) == v % 2 + 8 * r2) by (bit_vector)
            requires
                r2 <= 0x1249249249249249,
        ;
        assert(h == v / 2) by (bit_vector)
            requires
                h == v >> 1,
        ;
        assert(r2 == spread_steps(low2));
    }
}

fn spread_bits(v: u64) -> (r: u64)
    ensures
        r == spread(v as nat, 21),
        r & 0x1249249249249249 == r,
{
    let low: u64 = v & 0x1F_FFFF;
    let a: u64 = (low | (low << 32)) & 0x1F00000000FFFF;
    let b: u64 = (a | (a << 16)) & 0x1F0000FF0000FF;
    let c: u64 = (b | (b << 8)) & 0x100F00F00F00F00F;
    let d: u64 = (c | (c << 4)) & 0x10C30C30C30C30C3;
    let r: u64 = (d | (d << 2)) & 0x1249249249249249;
    proof {
        lemma_spread_steps(v, 21);
        assert(!(0xFFFF_FFFF_FFFF_FFFFu64 << 21u64) == 0x1F_FFFF) by (bit_vector);
        assert(r & 0x1249249249249249 == r) by (bit_vector)
            requires
                r == (d | (d << 2)) & 0x1249249249249249,
        ;
    }
    r
}

/// The Morton code of three coordinates, of each of which the low 21 bits count.
pub fn morton3(x: u32, y: u32, z: u32) -> (m: u64)
    ensures
        m == morton_code(x, y, z),
{
    let a: u64 = spread_bits(x as u64);
    let b: u64 = spread_bits(y as u64);
    let c: u64 = spread_bits(z as u64);
    assert(a | (b << 1) | (c << 2) == a + 2 * b + 4 * c) by (bit_vector)
        requires
            a & 0x1249249249249249 == a,
            b & 0x1249249249249249 == b,
            c & 0x1249249249249249 == c,
    ;
    a | (b << 1) | (c << 2)
}

/// The interleaved low `n` bits of three coordinates.
spec fn interleaved(x: nat, y: nat, z: nat, n: nat) -> nat {
    spread(x, n) + 2 * spread(y, n) + 4 * spread(z, n)
}

proof fn lemma_interleaved(x: nat, y: nat, z: nat, n: nat, i: nat)
    requires
        i < n,
    ensures
        (interleaved(x, y, z, n) / (pow(8, i) as nat)) % 8 == (x / (pow(2, i) as nat)) % 2 + 2 * ((
        y / (pow(2, i) as nat)) % 2) + 4 * ((z / (pow(2, i) as nat)) % 2),
    decreases n,
{
    let m = (n - 1) as nat;
    let low = x % 2 + 2 * (y % 2) + 4 * (z % 2);
    let rest = interleaved(x / 2, y / 2, z / 2, m);
    let all = interleaved(x, y, z, n);
    assert(all == low + 8 * rest);
    lemma_pow_positive(2, i);
    lemma_pow_positive(8, i);
    if i == 0 {
        lemma_pow0(8);
        lemma_pow0(2);
        assert(all / 1 == all && x / 1 == x && y / 1 == y && z / 1 == z);
        assert(all % 8 == low);
    } else {
        let j = (i - 1) as nat;
        lemma_interleaved(x / 2, y / 2, z / 2, m, j);
        lemma_pow_positive(2, j);
        lemma_pow_positive(8, j);
        reveal_with_fuel(pow, 2);
        assert(pow(8, i) == 8 * pow(8, j));
        assert(pow(2, i) == 2 * pow(2, j));
        lemma_div_denominator(all as int, 8, pow(8, j));
        lemma_div_denominator(x as int, 2, pow(2, j));
        lemma_div_denominator(y as int, 2, pow(2, j));
        lemma_div_denominator(z as int, 2, pow(2, j));
        assert(all / 8 == rest);
        assert(all / (pow(8, i) as nat) == rest / (pow(8, j) as nat));
        assert(x / (pow(2, i) as nat) == (x / 2) / (pow(2, j) as nat));
        assert(y / (pow(2, i) as nat) == (y / 2) / (pow(2, j) as nat));
        assert(z / (pow(2, i) as nat) == (z / 2) / (pow(2, j) as nat));
    }
}

/// A Morton code is a number of 63 bits.
pub proof fn lemma_code_bound(x: u32, y: u32, z: u32)
    ensures
        morton_code(x, y, z) < 0x8000_0000_0000_0000,
{
    lemma_spread_bound(x as nat, 21);
    lemma_spread_bound(y as nat, 21);
    lemma_spread_bound(z as nat, 21);
    assert(spread_limit(21) == 0x1249_2492_4924_9249) by {
        reveal_with_fuel(spread_limit, 22);
    }
}

/// The number of which every third of the low `3 * n` bits is set.
spec fn spread_limit(n: nat) -> nat
    decreases n,
{
    if n == 0 {
        0
    } else {
        1 + 8 * spread_limit((n - 1) as nat)
    }
}

proof fn lemma_spread_bound(v: nat, n: nat)
    ensures
        spread(v, n) <= spread_limit(n),
    decreases n,
{
    if n > 0 {
        lemma_spread_bound(v / 2, (n - 1) as nat);
    }
}

/// A Morton code has 21 groups of three bits. In group `i`, from the lowest on,
/// the lowest bit is bit `i` of `x`, the next is bit `i` of `y`, and the third is
/// bit `i` of `z`; there is nothing above the groups.
pub proof fn law_morton_bits(x: u32, y: u32, z: u32, i: nat)
    requires
        i < 21,
    ensures
        (morton_code(x, y, z) / (pow(8, i) as nat)) % 8 == (x as nat / (pow(2, i) as nat)) % 2 + 2
            * ((y as nat / (pow(2, i) as nat)) % 2) + 4 * ((z as nat / (pow(2, i) as nat)) % 2),
        morton_code(x, y, z) < 0x8000_0000_0000_0000,
{
    lemma_interleaved(x as nat, y as nat, z as nat, 21, i);
    lemma_code_bound(x, y, z);
}

} // verus!
