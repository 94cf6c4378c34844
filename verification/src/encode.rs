//! Encoding the points of a node for the output file.

use crate::fbits::{
    is_nan, larger, num_lt, num_max, num_min, rank, smaller, MAX_BITS, MIN_BITS, SIGN_BIT,
};
use crate::le::{
    le_bytes, le_value, lemma_le_bytes_len, lemma_le_value_of_bytes, lemma_pow256_values,
    push_bytes, push_i16, push_i32, push_u16, push_u64, push_u8,
};
use crate::hierarchy::all_indices;
use crate::point::{point_views, PointView, RawPoint};
use crate::sampling::lemma_picked_is_multiset;
use crate::sorting::{
    lemma_picked_permutation, lemma_sort_order_exists, sort_order, sorted_order,
};
use vstd::prelude::*;

verus! {

/// Size of a point record without extra bytes: 30 bytes for format 6, 38 for
/// format 8, 36 for format 7 and any other.
pub open spec fn record_length(fmt: u8) -> nat {
    if fmt == 6 {
        30
    } else if fmt == 8 {
        38
    } else {
        36
    }
}

/// Size of a point record without extra bytes.
pub fn point_record_length(fmt: u8) -> (n: u16)
    ensures
        n == record_length(fmt),
{
    match fmt {
        6 => 30,
        7 => 36,
        8 => 38,
        _ => 36,
    }
}

/// The return number and the number of returns, four bits each.
pub open spec fn return_byte(p: PointView) -> u8 {
    (p.return_number & 0x0F) | ((p.number_of_returns & 0x0F) << 4)
}

/// The fields that all COPC formats share: 30 bytes.
pub open spec fn encoded_base(p: PointView) -> Seq<u8> {
    le_bytes((p.x as u32) as nat, 4) + le_bytes((p.y as u32) as nat, 4) + le_bytes(
        (p.z as u32) as nat,
        4,
    ) + le_bytes(p.intensity as nat, 2) + seq![return_byte(p)] + seq![0u8] + seq![p.classification]
        + seq![p.user_data] + le_bytes((p.scan_angle as u16) as nat, 2) + le_bytes(
        p.point_source_id as nat,
        2,
    ) + le_bytes(p.gps_time as nat, 8)
}

/// A point in the given format: the shared fields, the colour from format 7 on,
/// the near infrared from format 8 on, and the extra bytes.
pub open spec fn encoded_point(p: PointView, fmt: u8) -> Seq<u8> {
    encoded_base(p) + (if fmt >= 7 {
        le_bytes(p.red as nat, 2) + le_bytes(p.green as nat, 2) + le_bytes(p.blue as nat, 2)
    } else {
        Seq::empty()
    }) + (if fmt >= 8 {
        le_bytes(p.nir as nat, 2)
    } else {
        Seq::empty()
    }) + p.extras
}

/// Appends the fields that all COPC formats share.
pub fn encode_point_base(rp: &RawPoint, buf: &mut Vec<u8>)
    ensures
        final(buf)@ == old(buf)@ + encoded_base(rp@),
{
    push_i32(buf, rp.x);
    push_i32(buf, rp.y);
    push_i32(buf, rp.z);
    push_u16(buf, rp.intensity);
    push_u8(buf, (rp.return_number & 0x0F) | ((rp.number_of_returns & 0x0F) << 4));
    push_u8(buf, 0);
    push_u8(buf, rp.classification);
    push_u8(buf, rp.user_data);
    push_i16(buf, rp.scan_angle);
    push_u16(buf, rp.point_source_id);
    push_u64(buf, rp.gps_time);
    assert(buf@ =~= old(buf)@ + encoded_base(rp@));
}

/// Appends one point in the given COPC format (6, 7, or 8).
pub fn encode_point(rp: &RawPoint, fmt: u8, buf: &mut Vec<u8>)
    ensures
        final(buf)@ == old(buf)@ + encoded_point(rp@, fmt),
{
    encode_point_base(rp, buf);
    if fmt >= 7 {
        push_u16(buf, rp.red);
        push_u16(buf, rp.green);
        push_u16(buf, rp.blue);
    }
    if fmt >= 8 {
        push_u16(buf, rp.nir);
    }
    push_bytes(buf, rp.extras.as_slice());
    assert(buf@ =~= old(buf)@ + encoded_point(rp@, fmt));
}

/// A point takes the record length of its format and its extra bytes.
pub proof fn law_encoded_point_len(p: PointView, fmt: u8)
    requires
        6 <= fmt <= 8,
    ensures
        encoded_point(p, fmt).len() == record_length(fmt) + p.extras.len(),
        encoded_base(p).len() == 30,
{
    broadcast use lemma_le_bytes_len;

}

/// A reader of LAS 1.4 gets every point back. In formats 6, 7 and 8 the numbers of
/// a record stand at these bytes, least significant byte first: x, y and z at 0, 4
/// and 8, the intensity at 12, the return number in the low and the number of
/// returns in the high half of byte 14, no flags at 15, the classification at 16,
/// the user data at 17, the scan angle at 18, the source at 20 and the time at 22.
/// In formats 7 and 8 red, green and blue stand at 30, 32 and 34, and in format 8
/// the near infrared at 36. The extra bytes follow.
#[verifier::rlimit(40)]
pub proof fn law_point_layout(p: PointView, fmt: u8)
    requires
        6 <= fmt <= 8,
    ensures
        ({
            let b = encoded_point(p, fmt);
            let end = if fmt == 6 {
                30int
            } else if fmt == 7 {
                36
            } else {
                38
            };
            &&& b.len() == end + p.extras.len()
            &&& le_value(b.subrange(0, 4)) == p.x as u32
            &&& le_value(b.subrange(4, 8)) == p.y as u32
            &&& le_value(b.subrange(8, 12)) == p.z as u32
            &&& le_value(b.subrange(12, 14)) == p.intensity
            &&& p.return_number <= 15 ==> b[14] % 16 == p.return_number
            &&& p.number_of_returns <= 15 ==> b[14] / 16 == p.number_of_returns
            &&& b[15] == 0
            &&& b[16] == p.classification
            &&& b[17] == p.user_data
            &&& le_value(b.subrange(18, 20)) == p.scan_angle as u16
            &&& le_value(b.subrange(20, 22)) == p.point_source_id
            &&& le_value(b.subrange(22, 30)) == p.gps_time
            &&& fmt >= 7 ==> {
                &&& le_value(b.subrange(30, 32)) == p.red
                &&& le_value(b.subrange(32, 34)) == p.green
                &&& le_value(b.subrange(34, 36)) == p.blue
            }
            &&& fmt == 8 ==> le_value(b.subrange(36, 38)) == p.nir
            &&& b.skip(end) == p.extras
        }),
{
    broadcast use lemma_le_bytes_len;

    lemma_pow256_values();
    let b = encoded_point(p, fmt);
    lemma_le_value_of_bytes((p.x as u32) as nat, 4);
    lemma_le_value_of_bytes((p.y as u32) as nat, 4);
    lemma_le_value_of_bytes((p.z as u32) as nat, 4);
    lemma_le_value_of_bytes(p.intensity as nat, 2);
    lemma_le_value_of_bytes((p.scan_angle as u16) as nat, 2);
    lemma_le_value_of_bytes(p.point_source_id as nat, 2);
    lemma_le_value_of_bytes(p.gps_time as nat, 8);
    lemma_le_value_of_bytes(p.red as nat, 2);
    lemma_le_value_of_bytes(p.green as nat, 2);
    lemma_le_value_of_bytes(p.blue as nat, 2);
    lemma_le_value_of_bytes(p.nir as nat, 2);
    assert(b.subrange(0, 4) =~= le_bytes((p.x as u32) as nat, 4));
    assert(b.subrange(4, 8) =~= le_bytes((p.y as u32) as nat, 4));
    assert(b.subrange(8, 12) =~= le_bytes((p.z as u32) as nat, 4));
    assert(b.subrange(12, 14) =~= le_bytes(p.intensity as nat, 2));
    assert(b[14] == return_byte(p));
    assert(b.subrange(18, 20) =~= le_bytes((p.scan_angle as u16) as nat, 2));
    assert(b.subrange(20, 22) =~= le_bytes(p.point_source_id as nat, 2));
    assert(b.subrange(22, 30) =~= le_bytes(p.gps_time as nat, 8));
    let (r, n) = (p.return_number, p.number_of_returns);
    let both = (r & 0x0F) | ((n & 0x0F) << 4);
    assert(r <= 15 ==> both % 16 == r) by (bit_vector)
        requires
            both == (r & 0x0F) | ((n & 0x0F) << 4),
    ;
    assert(n <= 15 ==> both / 16 == n) by (bit_vector)
        requires
            both == (r & 0x0F) | ((n & 0x0F) << 4),
    ;
    if fmt == 6 {
        assert(b.skip(30) =~= p.extras);
    } else {
        assert(b.subrange(30, 32) =~= le_bytes(p.red as nat, 2));
        assert(b.subrange(32, 34) =~= le_bytes(p.green as nat, 2));
        assert(b.subrange(34, 36) =~= le_bytes(p.blue as nat, 2));
        if fmt == 7 {
            assert(b.skip(36) =~= p.extras);
        } else {
            assert(b.subrange(36, 38) =~= le_bytes(p.nir as nat, 2));
            assert(b.skip(38) =~= p.extras);
        }
    }
}

/// A number by which times are ordered: as numbers, with what is no number at
/// the end.
pub open spec fn time_code(t: u64) -> u128 {
    (if is_nan(t) {
        0x1_0000_0000_0000_0000
    } else {
        rank(t) + SIGN_BIT
    }) as u128
}

fn code_of_time(t: u64) -> (c: u128)
    ensures
        c == time_code(t),
{
    if t >= SIGN_BIT {
        let m: u64 = t - SIGN_BIT;
        if m > crate::fbits::INFINITY_BITS {
            0x1_0000_0000_0000_0000
        } else {
            (SIGN_BIT - m) as u128
        }
    } else if t > crate::fbits::INFINITY_BITS {
        0x1_0000_0000_0000_0000
    } else {
        (t as u128) + (SIGN_BIT as u128)
    }
}

/// The codes of the points' times.
pub open spec fn time_codes(ps: Seq<PointView>) -> Seq<u128> {
    Seq::new(ps.len(), |i: int| time_code(ps[i].gps_time))
}

/// The points in the order of their times; points of the same time in their
/// original order.
pub open spec fn by_time(ps: Seq<PointView>) -> Seq<PointView> {
    sort_order(time_codes(ps)).map_values(|i: usize| ps[i as int])
}

/// The encoded points, one behind another.
pub open spec fn encoded_points(ps: Seq<PointView>, fmt: u8) -> Seq<u8>
    decreases ps.len(),
{
    if ps.len() == 0 {
        Seq::empty()
    } else {
        encoded_points(ps.drop_last(), fmt) + encoded_point(ps.last(), fmt)
    }
}

/// How many points have return number `r`.
pub open spec fn returns_of(ps: Seq<PointView>, r: int) -> nat
    decreases ps.len(),
{
    if ps.len() == 0 {
        0
    } else {
        returns_of(ps.drop_last(), r) + if ps.last().return_number == r {
            1nat
        } else {
            0nat
        }
    }
}

/// The earliest time; the largest finite number where no time is a number.
pub open spec fn earliest(ps: Seq<PointView>) -> u64
    decreases ps.len(),
{
    if ps.len() == 0 {
        MAX_BITS
    } else {
        num_min(earliest(ps.drop_last()), ps.last().gps_time)
    }
}

/// The latest time; the smallest finite number where no time is a number.
pub open spec fn latest(ps: Seq<PointView>) -> u64
    decreases ps.len(),
{
    if ps.len() == 0 {
        MIN_BITS
    } else {
        num_max(latest(ps.drop_last()), ps.last().gps_time)
    }
}

/// Points behind one another have the returns of both.
pub proof fn lemma_returns_of_concat(a: Seq<PointView>, b: Seq<PointView>, r: int)
    ensures
        returns_of(a + b, r) == returns_of(a, r) + returns_of(b, r),
    decreases b.len(),
{
    if b.len() == 0 {
        assert(a + b =~= a);
    } else {
        assert((a + b).drop_last() =~= a + b.drop_last());
        lemma_returns_of_concat(a, b.drop_last(), r);
    }
}

/// The earliest and the latest time are numbers.
proof fn lemma_times_are_numbers(ps: Seq<PointView>)
    ensures
        !is_nan(earliest(ps)),
        !is_nan(latest(ps)),
    decreases ps.len(),
{
    if ps.len() > 0 {
        lemma_times_are_numbers(ps.drop_last());
    }
}

/// The time range of points behind one another spans those of both.
pub proof fn lemma_times_of_concat(a: Seq<PointView>, b: Seq<PointView>)
    ensures
        earliest(a + b) == num_min(earliest(a), earliest(b)),
        latest(a + b) == num_max(latest(a), latest(b)),
    decreases b.len(),
{
    lemma_times_are_numbers(a);
    if b.len() == 0 {
        assert(a + b =~= a);
        lemma_times_within(a);
    } else {
        assert((a + b).drop_last() =~= a + b.drop_last());
        lemma_times_are_numbers(b.drop_last());
        lemma_times_of_concat(a, b.drop_last());
    }
}

/// The range lies within the one that no points have.
proof fn lemma_times_within(ps: Seq<PointView>)
    ensures
        rank(earliest(ps)) <= rank(MAX_BITS),
        rank(latest(ps)) >= rank(MIN_BITS),
    decreases ps.len(),
{
    if ps.len() > 0 {
        lemma_times_within(ps.drop_last());
    }
}

/// Whether point `i` of `n` is sampled: every `stride`-th one, and the last.
pub open spec fn is_sampled(i: int, n: int, stride: int) -> bool {
    i % stride == 0 || i == n - 1
}

/// The times of the sampled points among the first `k` of `n`.
pub open spec fn sampled_times(ps: Seq<PointView>, stride: int, k: nat) -> Seq<u64>
    decreases k,
{
    if k == 0 {
        Seq::empty()
    } else {
        let rest = sampled_times(ps, stride, (k - 1) as nat);
        if is_sampled(k - 1, ps.len() as int, stride) {
            rest.push(ps[k - 1].gps_time)
        } else {
            rest
        }
    }
}

/// The samples for the temporal index, if there is one.
pub open spec fn samples_for(ps: Seq<PointView>, stride: Option<u32>) -> Seq<u64> {
    match stride {
        Some(s) => sampled_times(ps, s as int, ps.len()),
        None => Seq::empty(),
    }
}

/// An encoded node and what the file's header needs to know of it.
#[derive(Debug)]
pub struct EncodedNode {
    pub bytes: Vec<u8>,
    /// How many points have each of the return numbers from 1 to 15.
    pub return_counts: [u64; 15],
    pub gps_min: u64,
    pub gps_max: u64,
    pub samples: Vec<u64>,
}

/// `e` is the encoding of the points `ps`, which are ordered by time.
pub open spec fn encodes(
    e: EncodedNode,
    ps: Seq<PointView>,
    fmt: u8,
    stride: Option<u32>,
) -> bool {
    &&& e.bytes@ == encoded_points(ps, fmt)
    &&& forall|r: int|
        1 <= r <= 15 ==> #[trigger] e.return_counts@[r - 1] == returns_of(ps, r)
    &&& e.gps_min == earliest(ps)
    &&& e.gps_max == latest(ps)
    &&& e.samples@ == samples_for(ps, stride)
}

/// Encodes a node: its points in the order of their times, how many of them have
/// which return number, their time range, and samples of their times for the
/// temporal index if one is asked for.
pub fn encode_node(points: &Vec<RawPoint>, fmt: u8, stride: Option<u32>) -> (e: EncodedNode)
    requires
        stride matches Some(s) ==> s > 0,
    ensures
        encodes(e, by_time(point_views(points@)), fmt, stride),
{
    let ghost pv = point_views(points@);
    let mut codes: Vec<u128> = Vec::new();
    let n: usize = points.len();
    let mut i: usize = 0;
    while i < n
        invariant
            n == points@.len(),
            i <= n,
            pv == point_views(points@),
            codes@ =~= time_codes(pv).take(i as int),
        decreases n - i,
    {
        codes.push(code_of_time(points[i].gps_time));
        i = i + 1;
    }
    assert(codes@ =~= time_codes(pv));
    let order = sorted_order(codes.as_slice());
    let ghost ps = by_time(pv);
    let mut bytes: Vec<u8> = Vec::new();
    let mut counts: [u64; 15] = [0, 0, 0, 0, 0, 0, 0, 0, 0, 0, 0, 0, 0, 0, 0];
    let mut gps_min: u64 = MAX_BITS;
    let mut gps_max: u64 = MIN_BITS;
    let mut samples: Vec<u64> = Vec::new();
    let mut i: usize = 0;
    assert(ps.take(0) =~= Seq::<PointView>::empty());
    while i < n
        invariant
            n == points@.len() == order@.len() == ps.len(),
            i <= n,
            pv == point_views(points@),
            ps == by_time(pv),
            order@ == sort_order(time_codes(pv)),
            forall|k: int| 0 <= k < n ==> #[trigger] order@[k] < n,
            stride matches Some(s) ==> s > 0,
            bytes@ == encoded_points(ps.take(i as int), fmt),
            counts@.len() == 15,
            forall|r: int|
                1 <= r <= 15 ==> #[trigger] counts@[r - 1] == returns_of(ps.take(i as int), r),
            forall|r: int| 1 <= r <= 15 ==> #[trigger] counts@[r - 1] <= i,
            gps_min == earliest(ps.take(i as int)),
            gps_max == latest(ps.take(i as int)),
            samples@ == (match stride {
                Some(s) => sampled_times(ps, s as int, i as nat),
                None => Seq::empty(),
            }),
        decreases n - i,
    {
        let at: usize = order[i];
        let p = &points[at];
        let ghost here = ps.take(i as int);
        let ghost next = ps.take(i + 1);
        proof {
            assert(next.drop_last() =~= here);
            assert(ps[i as int] == pv[order@[i as int] as int]);
            assert(next.last() == p@);
        }
        let ghost before = counts@;
        let rn: u8 = p.return_number;
        if rn >= 1 && rn <= 15 {
            let j: usize = (rn - 1) as usize;
            assert(counts@[rn - 1] <= i);
            counts[j] = counts[j] + 1;
        }
        assert forall|r: int| 1 <= r <= 15 implies #[trigger] counts@[r - 1] == returns_of(
            next,
            r,
        ) && counts@[r - 1] <= i + 1 by {
            assert(before[r - 1] == returns_of(here, r));
            assert(before[r - 1] <= i);
        }
        gps_min = smaller(gps_min, p.gps_time);
        gps_max = larger(gps_max, p.gps_time);
        match stride {
            Some(s) => {
                let due: bool = (i as u64) % (s as u64) == 0;
                if due || i == n - 1 {
                    samples.push(p.gps_time);
                }
            },
            None => {},
        }
        encode_point(p, fmt, &mut bytes);
        i = i + 1;
    }
    assert(ps.take(i as int) =~= ps);
    EncodedNode { bytes, return_counts: counts, gps_min, gps_max, samples }
}

// What holds of the samples.
proof fn lemma_by_time(ps: Seq<PointView>, i: int, j: int)
    requires
        ps.len() <= usize::MAX,
        0 <= i < j < ps.len(),
        !is_nan(by_time(ps)[j].gps_time),
    ensures
        by_time(ps).len() == ps.len(),
        !is_nan(by_time(ps)[i].gps_time),
        rank(by_time(ps)[i].gps_time) <= rank(by_time(ps)[j].gps_time),
{
    let codes = time_codes(ps);
    lemma_sort_order_exists(codes);
    let o = sort_order(codes);
    assert(codes[o[i] as int] <= codes[o[j] as int]);
}

/// The samples that come out ascend, as far as they are numbers.
pub proof fn law_samples_ascend(ps: Seq<PointView>, stride: int, k: nat, a: int, b: int)
    requires
        ps.len() <= usize::MAX,
        stride > 0,
        k <= ps.len(),
        0 <= a < b < sampled_times(by_time(ps), stride, k).len(),
        forall|i: int| 0 <= i < ps.len() ==> !is_nan((#[trigger] ps[i]).gps_time),
    ensures
        rank(sampled_times(by_time(ps), stride, k)[a]) <= rank(
            sampled_times(by_time(ps), stride, k)[b],
        ),
    decreases k,
{
    let t = by_time(ps);
    lemma_sort_order_exists(time_codes(ps));
    let s = sampled_times(t, stride, k);
    let r = sampled_times(t, stride, (k - 1) as nat);
    if b < r.len() {
        law_samples_ascend(ps, stride, (k - 1) as nat, a, b);
    } else {
        lemma_sample_source(t, stride, (k - 1) as nat, a);
        let i = choose|i: int| 0 <= i < k - 1 && (#[trigger] t[i]).gps_time == r[a];
        let o = sort_order(time_codes(ps));
        assert(t[k - 1] == ps[o[k - 1] as int]);
        lemma_by_time(ps, i, k - 1);
    }
}

proof fn lemma_sample_source(t: Seq<PointView>, stride: int, k: nat, a: int)
    requires
        k <= t.len(),
        0 <= a < sampled_times(t, stride, k).len(),
    ensures
        exists|i: int| 0 <= i < k && (#[trigger] t[i]).gps_time == sampled_times(t, stride, k)[a],
    decreases k,
{
    let r = sampled_times(t, stride, (k - 1) as nat);
    if a < r.len() {
        lemma_sample_source(t, stride, (k - 1) as nat, a);
        let i = choose|i: int| 0 <= i < k - 1 && (#[trigger] t[i]).gps_time == r[a];
        assert(t[i].gps_time == sampled_times(t, stride, k)[a]);
    } else {
        assert(t[k - 1].gps_time == sampled_times(t, stride, k)[a]);
    }
}

/// A node with points has samples; the first one is the time of its first point
/// and the last one that of its last point.
pub proof fn law_samples_span_node(ps: Seq<PointView>, stride: int)
    requires
        stride > 0,
        ps.len() > 0,
    ensures
        sampled_times(ps, stride, ps.len()).len() > 0,
        sampled_times(ps, stride, ps.len())[0] == ps[0].gps_time,
        sampled_times(ps, stride, ps.len()).last() == ps.last().gps_time,
{
    lemma_first_sample(ps, stride, ps.len());
}

proof fn lemma_first_sample(ps: Seq<PointView>, stride: int, k: nat)
    requires
        stride > 0,
        0 < k <= ps.len(),
    ensures
        sampled_times(ps, stride, k).len() > 0,
        sampled_times(ps, stride, k)[0] == ps[0].gps_time,
    decreases k,
{
    if k > 1 {
        lemma_first_sample(ps, stride, (k - 1) as nat);
    } else {
        reveal_with_fuel(sampled_times, 2);
        vstd::arithmetic::div_mod::lemma_small_mod(0, stride as nat);
    }
}

/// How many samples there are among the first `k` points, and which: every
/// `stride`-th point from the first on, and behind these the last one where it is
/// not one of them.
proof fn lemma_samples(ps: Seq<PointView>, stride: int, k: nat)
    requires
        stride > 0,
        k <= ps.len(),
    ensures
        ({
            let s = sampled_times(ps, stride, k);
            let n = ps.len() as int;
            &&& s.len() == (k + stride - 1) / stride + (if k == n && n > 0 && (n - 1) % stride
                != 0 {
                1int
            } else {
                0
            })
            &&& forall|j: int|
                0 <= j && #[trigger] (j * stride) < k ==> j < s.len() && s[j] == ps[j
                    * stride].gps_time
            &&& k == n && n > 0 ==> s.last() == ps[n - 1].gps_time
        }),
    decreases k,
{
    let s = sampled_times(ps, stride, k);
    let n = ps.len() as int;
    if k == 0 {
        vstd::arithmetic::div_mod::lemma_basic_div(stride - 1, stride);
        assert forall|j: int| 0 <= j && #[trigger] (j * stride) < k implies false by {
            assert(j * stride >= 0) by (nonlinear_arith)
                requires
                    j >= 0,
                    stride > 0,
            ;
        }
    } else {
        let m = k - 1;
        let r = sampled_times(ps, stride, m as nat);
        lemma_samples(ps, stride, m as nat);
        let q = m / stride;
        let rest = m % stride;
        vstd::arithmetic::div_mod::lemma_fundamental_div_mod(m, stride);
        vstd::arithmetic::div_mod::lemma_mod_bound(m, stride);
        assert(m == q * stride + rest) by (nonlinear_arith)
            requires
                m == stride * q + rest,
        ;
        assert(q >= 0) by {
            vstd::arithmetic::div_mod::lemma_div_pos_is_pos(m, stride);
        }
        // The number of multiples below k and below m.
        assert((k + stride - 1) / stride == q + 1) by {
            assert(k + stride - 1 == (q + 1) * stride + rest) by (nonlinear_arith)
                requires
                    k == q * stride + rest + 1,
            ;
            vstd::arithmetic::div_mod::lemma_fundamental_div_mod_converse(
                k + stride - 1,
                stride,
                q + 1,
                rest,
            );
        }
        assert((m + stride - 1) / stride == (if rest == 0 {
            q
        } else {
            q + 1
        })) by {
            if rest == 0 {
                assert(m + stride - 1 == q * stride + (stride - 1));
                vstd::arithmetic::div_mod::lemma_fundamental_div_mod_converse(
                    m + stride - 1,
                    stride,
                    q,
                    stride - 1,
                );
            } else {
                assert(m + stride - 1 == (q + 1) * stride + (rest - 1)) by (nonlinear_arith)
                    requires
                        m == q * stride + rest,
                ;
                vstd::arithmetic::div_mod::lemma_fundamental_div_mod_converse(
                    m + stride - 1,
                    stride,
                    q + 1,
                    rest - 1,
                );
            }
        }
        assert forall|j: int| 0 <= j && #[trigger] (j * stride) < k implies j < s.len() && s[j]
            == ps[j * stride].gps_time by {
            if j * stride < m {
                assert(s[j] == r[j]);
            } else {
                assert(j * stride == m);
                vstd::arithmetic::div_mod::lemma_fundamental_div_mod_converse(m, stride, j, 0);
                assert(r.len() == q);
            }
        }
    }
}

/// For a node of n points in time order and a stride s, sample j is the time of
/// point j * s, for every such point, and the time of the last point follows where
/// it is not one of these. There are no other samples.
pub proof fn law_samples_are_every_nth(ps: Seq<PointView>, stride: u32, j: int)
    requires
        stride > 0,
    ensures
        ({
            let s = samples_for(ps, Some(stride));
            let n = ps.len() as int;
            &&& s.len() == (n + stride - 1) / (stride as int) + (if n > 0 && (n - 1) % (
            stride as int) != 0 {
                1int
            } else {
                0
            })
            &&& 0 <= j && j * stride < n ==> j < s.len() && s[j] == ps[j * stride].gps_time
            &&& n > 0 ==> s.last() == ps[n - 1].gps_time
            &&& samples_for(ps, None).len() == 0
        }),
{
    lemma_samples(ps, stride as int, ps.len());
    if 0 <= j && j * stride < ps.len() {
        let at = j * (stride as int);
        assert(at < ps.len());
    }
}

// What holds of an encoded node.
/// Ordering by time keeps every point, and puts none behind a later one. Points
/// whose time is no number come last.
pub proof fn law_by_time(ps: Seq<PointView>)
    requires
        ps.len() <= usize::MAX,
    ensures
        by_time(ps).to_multiset() == ps.to_multiset(),
        forall|i: int, j: int|
            0 <= i < j < ps.len() ==> {
                &&& !num_lt((#[trigger] by_time(ps)[j]).gps_time, (#[trigger] by_time(
                    ps,
                )[i]).gps_time)
                &&& is_nan(by_time(ps)[i].gps_time) ==> is_nan(by_time(ps)[j].gps_time)
            },
        by_time(ps).len() == ps.len(),
{
    let codes = time_codes(ps);
    let o = sort_order(codes);
    let value = |i: usize| ps[i as int];
    lemma_sort_order_exists(codes);
    lemma_picked_permutation(value, o, ps.len());
    lemma_picked_is_multiset(value, o);
    lemma_picked_is_multiset(value, all_indices(ps.len()));
    assert(all_indices(ps.len()).map_values(value) =~= ps);
    assert forall|i: int, j: int| 0 <= i < j < ps.len() implies {
        &&& !num_lt((#[trigger] by_time(ps)[j]).gps_time, (#[trigger] by_time(ps)[i]).gps_time)
        &&& is_nan(by_time(ps)[i].gps_time) ==> is_nan(by_time(ps)[j].gps_time)
    } by {
        assert(codes[o[i] as int] <= codes[o[j] as int]);
    }
}

/// The points with a return number.
pub open spec fn with_return(r: int) -> spec_fn(PointView) -> bool {
    |p: PointView| p.return_number == r
}

proof fn lemma_returns_filter(ps: Seq<PointView>, r: int)
    ensures
        returns_of(ps, r) == ps.filter(with_return(r)).len(),
    decreases ps.len(),
{
    reveal(Seq::filter);
    if ps.len() > 0 {
        lemma_returns_filter(ps.drop_last(), r);
    }
}

proof fn lemma_earliest(ps: Seq<PointView>)
    ensures
        forall|i: int| 0 <= i < ps.len() ==> !num_lt((#[trigger] ps[i]).gps_time, earliest(ps)),
        forall|i: int| 0 <= i < ps.len() ==> !num_lt(latest(ps), (#[trigger] ps[i]).gps_time),
        earliest(ps) == 0x7FEF_FFFF_FFFF_FFFF || exists|i: int|
            0 <= i < ps.len() && (#[trigger] ps[i]).gps_time == earliest(ps),
        latest(ps) == 0xFFEF_FFFF_FFFF_FFFF || exists|i: int|
            0 <= i < ps.len() && (#[trigger] ps[i]).gps_time == latest(ps),
    decreases ps.len(),
{
    if ps.len() > 0 {
        let init = ps.drop_last();
        lemma_earliest(init);
        lemma_times_are_numbers(init);
        assert(ps[ps.len() - 1] == ps.last());
        assert forall|i: int| 0 <= i < ps.len() implies !num_lt(
            (#[trigger] ps[i]).gps_time,
            earliest(ps),
        ) && !num_lt(latest(ps), ps[i].gps_time) by {
            if i < init.len() {
                assert(init[i] == ps[i]);
            }
        }
        if earliest(ps) == earliest(init) && earliest(ps) != 0x7FEF_FFFF_FFFF_FFFF {
            let i = choose|i: int| 0 <= i < init.len() && (#[trigger] init[i]).gps_time
                == earliest(init);
            assert(ps[i].gps_time == earliest(ps));
        }
        if latest(ps) == latest(init) && latest(ps) != 0xFFEF_FFFF_FFFF_FFFF {
            let i = choose|i: int| 0 <= i < init.len() && (#[trigger] init[i]).gps_time
                == latest(init);
            assert(ps[i].gps_time == latest(ps));
        }
    }
}

/// The records of a node lie one behind another, all of the same size where all
/// points have the same number of extra bytes.
proof fn lemma_record_at(ps: Seq<PointView>, fmt: u8, width: nat, i: int)
    requires
        6 <= fmt <= 8,
        forall|k: int| 0 <= k < ps.len() ==> (#[trigger] ps[k]).extras.len() == width,
    ensures
        encoded_points(ps, fmt).len() == ps.len() * (record_length(fmt) + width),
        0 <= i < ps.len() ==> encoded_points(ps, fmt).subrange(
            i * (record_length(fmt) + width),
            i * (record_length(fmt) + width) + (record_length(fmt) + width),
        ) == encoded_point(ps[i], fmt),
    decreases ps.len(),
{
    let size = record_length(fmt) + width;
    let all = encoded_points(ps, fmt);
    if ps.len() > 0 {
        let init = ps.drop_last();
        let before = encoded_points(init, fmt);
        assert forall|k: int| 0 <= k < init.len() implies (#[trigger] init[k]).extras.len()
            == width by {
            assert(ps[k] == init[k]);
        }
        lemma_record_at(init, fmt, width, i);
        assert(ps[ps.len() - 1].extras.len() == width);
        law_encoded_point_len(ps.last(), fmt);
        assert((ps.len() - 1) * size + size == ps.len() * size) by (nonlinear_arith);
        if 0 <= i < init.len() {
            assert(i * size + size <= init.len() * size && 0 <= i * size) by (nonlinear_arith)
                requires
                    0 <= i < init.len(),
                    0 <= size,
            ;
            assert(all.subrange(i * size, i * size + size) =~= before.subrange(
                i * size,
                i * size + size,
            ));
            assert(init[i] == ps[i]);
        } else if i == ps.len() - 1 {
            assert(all.subrange(i * size, i * size + size) =~= encoded_point(ps.last(), fmt));
        }
    }
}

/// Rearranged points are the same points.
pub proof fn lemma_same_members(a: Seq<PointView>, b: Seq<PointView>, p: PointView)
    requires
        a.to_multiset() == b.to_multiset(),
        a.contains(p),
    ensures
        b.contains(p),
{
    broadcast use vstd::seq_lib::group_to_multiset_ensures;

    assert(a.to_multiset().count(p) > 0);
    assert(b.to_multiset().count(p) > 0);
}

/// The samples of an encoded node: none without a stride; with a stride s, sample
/// j is the time of the point that comes j * s-th in time, for every such point,
/// and the time of the last point follows where it is not one of these.
pub proof fn law_encoded_samples(
    e: EncodedNode,
    points: Seq<PointView>,
    fmt: u8,
    stride: Option<u32>,
    j: int,
)
    requires
        points.len() <= usize::MAX,
        encodes(e, by_time(points), fmt, stride),
        stride matches Some(s) ==> s > 0,
    ensures
        match stride {
            None => e.samples@.len() == 0,
            Some(s) => {
                let t = by_time(points);
                let n = points.len() as int;
                &&& e.samples@.len() == (n + s - 1) / (s as int) + (if n > 0 && (n - 1) % (s as int)
                    != 0 {
                    1int
                } else {
                    0
                })
                &&& 0 <= j && j * s < n ==> j < e.samples@.len() && e.samples@[j] == t[j
                    * s].gps_time
                &&& n > 0 ==> e.samples@.last() == t[n - 1].gps_time
            },
        },
{
    law_by_time(points);
    match stride {
        None => {},
        Some(s) => {
            law_samples_are_every_nth(by_time(points), s, j);
        },
    }
}

/// What an encoded node says of its points: its bytes are their records, in the
/// order of their times and of equal size; it counts as many points of a return
/// number as there are; and no point is earlier or later than it says.
#[verifier::rlimit(40)]
pub proof fn law_encoded_node(
    e: EncodedNode,
    points: Seq<PointView>,
    fmt: u8,
    stride: Option<u32>,
    width: nat,
    i: int,
)
    requires
        points.len() <= usize::MAX,
        6 <= fmt <= 8,
        encodes(e, by_time(points), fmt, stride),
        forall|k: int| 0 <= k < points.len() ==> (#[trigger] points[k]).extras.len() == width,
    ensures
        ({
            let size = (if fmt == 6 {
                30nat
            } else if fmt == 7 {
                36
            } else {
                38
            }) + width;
            &&& e.bytes@.len() == points.len() * size
            &&& 0 <= i < points.len() ==> e.bytes@.subrange(i * size, i * size + size)
                == encoded_point(by_time(points)[i], fmt)
        }),
        by_time(points).to_multiset() == points.to_multiset(),
        forall|r: int|
            1 <= r <= 15 ==> #[trigger] e.return_counts@[r - 1] == by_time(points).filter(
                with_return(r),
            ).len(),
        0 <= i < points.len() ==> !num_lt(points[i].gps_time, e.gps_min) && !num_lt(
            e.gps_max,
            points[i].gps_time,
        ),
        points.len() > 0 && (forall|k: int|
            0 <= k < points.len() ==> num_lt((#[trigger] points[k]).gps_time, 0x7FEF_FFFF_FFFF_FFFF)
                && num_lt(0xFFEF_FFFF_FFFF_FFFF, points[k].gps_time)) ==> {
            &&& exists|k: int| 0 <= k < points.len() && (#[trigger] points[k]).gps_time == e.gps_min
            &&& exists|k: int| 0 <= k < points.len() && (#[trigger] points[k]).gps_time == e.gps_max
        },
{
    let t = by_time(points);
    law_by_time(points);
    assert forall|k: int| 0 <= k < t.len() implies (#[trigger] t[k]).extras.len() == width by {
        assert(t.contains(t[k]));
        lemma_same_members(t, points, t[k]);
        let m = choose|m: int| 0 <= m < points.len() && points[m] == t[k];
        assert(points[m].extras.len() == width);
    }
    lemma_record_at(t, fmt, width, i);
    assert forall|r: int| 1 <= r <= 15 implies #[trigger] e.return_counts@[r - 1] == t.filter(
        with_return(r),
    ).len() by {
        lemma_returns_filter(t, r);
    }
    lemma_earliest(t);
    if 0 <= i < points.len() {
        assert(points.contains(points[i]));
        lemma_same_members(points, t, points[i]);
        let m = choose|m: int| 0 <= m < t.len() && t[m] == points[i];
        assert(!num_lt(t[m].gps_time, earliest(t)));
        assert(!num_lt(latest(t), t[m].gps_time));
    }
    if points.len() > 0 && (forall|k: int|
        0 <= k < points.len() ==> num_lt((#[trigger] points[k]).gps_time, 0x7FEF_FFFF_FFFF_FFFF)
            && num_lt(0xFFEF_FFFF_FFFF_FFFF, points[k].gps_time)) {
        assert(points.contains(points[0]));
        lemma_same_members(points, t, points[0]);
        let m = choose|m: int| 0 <= m < t.len() && t[m] == points[0];
        assert(!num_lt(t[m].gps_time, earliest(t)));
        assert(!num_lt(latest(t), t[m].gps_time));
        let a = choose|a: int| 0 <= a < t.len() && (#[trigger] t[a]).gps_time == earliest(t);
        assert(t.contains(t[a]));
        lemma_same_members(t, points, t[a]);
        let b = choose|b: int| 0 <= b < t.len() && (#[trigger] t[b]).gps_time == latest(t);
        assert(t.contains(t[b]));
        lemma_same_members(t, points, t[b]);
    }
}

// Totals over all nodes.
/// What the file's header and its COPC record need to know of all nodes.
#[derive(Debug)]
pub struct Totals {
    pub return_counts: [u64; 15],
    pub gps_min: u64,
    pub gps_max: u64,
}

impl Totals {
    pub fn new() -> (t: Totals)
        ensures
            forall|r: int| 0 <= r < 15 ==> #[trigger] t.return_counts@[r] == 0,
            t.gps_min == MAX_BITS,
            t.gps_max == MIN_BITS,
    {
        Totals {
            return_counts: [0, 0, 0, 0, 0, 0, 0, 0, 0, 0, 0, 0, 0, 0, 0],
            gps_min: MAX_BITS,
            gps_max: MIN_BITS,
        }
    }

    /// Takes one more node into account.
    pub fn add_node(&mut self, e: &EncodedNode)
        requires
            forall|r: int|
                0 <= r < 15 ==> #[trigger] old(self).return_counts@[r] + e.return_counts@[r]
                    <= u64::MAX,
        ensures
            forall|r: int|
                0 <= r < 15 ==> #[trigger] final(self).return_counts@[r]
                    == old(self).return_counts@[r] + e.return_counts@[r],
            final(self).gps_min == num_min(old(self).gps_min, e.gps_min),
            final(self).gps_max == num_max(old(self).gps_max, e.gps_max),
    {
        let mut j: usize = 0;
        while j < 15
            invariant
                j <= 15,
                self.gps_min == old(self).gps_min,
                self.gps_max == old(self).gps_max,
                forall|r: int|
                    0 <= r < 15 ==> #[trigger] old(self).return_counts@[r] + e.return_counts@[r]
                        <= u64::MAX,
                forall|r: int|
                    0 <= r < j ==> #[trigger] self.return_counts@[r] == old(
                        self,
                    ).return_counts@[r] + e.return_counts@[r],
                forall|r: int|
                    j <= r < 15 ==> #[trigger] self.return_counts@[r] == old(
                        self,
                    ).return_counts@[r],
            decreases 15 - j,
        {
            assert(old(self).return_counts@[j as int] + e.return_counts@[j as int] <= u64::MAX);
            self.return_counts[j] = self.return_counts[j] + e.return_counts[j];
            j = j + 1;
        }
        self.gps_min = smaller(self.gps_min, e.gps_min);
        self.gps_max = larger(self.gps_max, e.gps_max);
    }

    /// The time range of all points; zero to zero where there are none.
    pub fn gps_range(&self) -> (r: (u64, u64))
        ensures
            r == (if num_lt(self.gps_max, self.gps_min) {
                (0u64, 0u64)
            } else {
                (self.gps_min, self.gps_max)
            }),
    {
        if crate::fbits::less(self.gps_max, self.gps_min) {
            (0, 0)
        } else {
            (self.gps_min, self.gps_max)
        }
    }
}

/// A point's extra bytes at the declared width.
pub open spec fn fitted(extra: Seq<u8>, want: nat) -> Seq<u8> {
    Seq::new(want, |i: int|
        if i < extra.len() {
            extra[i]
        } else {
            0
        })
}

/// Pads a point's extra bytes with zeros, or cuts them, to the declared width.
pub fn fit_extras(extra: &[u8], want: u16) -> (r: Vec<u8>)
    ensures
        r@ == fitted(extra@, want as nat),
{
    let mut r: Vec<u8> = Vec::new();
    let mut i: usize = 0;
    while i < want as usize
        invariant
            i <= want,
            r@ =~= fitted(extra@, want as nat).take(i as int),
        decreases want - i,
    {
        r.push(
            if i < extra.len() {
                extra[i]
            } else {
                0
            },
        );
        i = i + 1;
    }
    assert(fitted(extra@, want as nat).take(i as int) =~= fitted(extra@, want as nat));
    r
}

} // verus!
