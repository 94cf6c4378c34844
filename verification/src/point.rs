//! Point records as they are kept in temporary files.

use crate::le::{
    le_bytes, le_value, lemma_i16_bits_injective, lemma_i32_bits_injective,
    lemma_le_bytes_len, lemma_le_bytes_of_value, lemma_le_value_of_bytes, lemma_pow256_values,
    push_bytes, push_i16, push_i32, push_u16, push_u64, push_u8, read_i16, read_i32, read_u16,
    read_u64,
};
use vstd::prelude::*;

verus! {

/// A byte slice that is consumed from the front.
pub struct ByteReader<'a> {
    pub data: &'a [u8],
    pub pos: usize,
}

impl<'a> ByteReader<'a> {
    /// The cursor lies inside the data.
    pub open spec fn wf(self) -> bool {
        self.pos <= self.data@.len()
    }

    /// The bytes that are still to be read.
    pub open spec fn rest(self) -> Seq<u8> {
        self.data@.subrange(self.pos as int, self.data@.len() as int)
    }

    pub fn new(data: &'a [u8]) -> (r: ByteReader<'a>)
        ensures
            r.wf(),
            r.rest() == data@,
            r.data@ == data@,
            r.pos == 0,
    {
        assert(data@.subrange(0, data@.len() as int) =~= data@);
        ByteReader { data, pos: 0 }
    }

    /// Number of bytes left.
    pub fn remaining(&self) -> (n: usize)
        requires
            self.wf(),
        ensures
            n == self.rest().len(),
    {
        self.data.len() - self.pos
    }
}

/// Input that ended inside a record.
#[derive(Debug, Clone, Copy, PartialEq, Eq, Structural)]
pub struct UnexpectedEof;

/// A raw point stored as scaled integer coordinates plus attributes.
/// Scaled ints allow exact LAS round-trip without floating-point loss.
///
/// `gps_time` is the bit pattern of the IEEE 754 double. `extras` carries the
/// trailing per-point bytes from any LAS Extra Bytes VLR present in the input;
/// it is empty when the input declares none.
#[derive(Debug)]
pub struct RawPoint {
    pub x: i32,
    pub y: i32,
    pub z: i32,
    pub intensity: u16,
    pub return_number: u8,
    pub number_of_returns: u8,
    pub classification: u8,
    pub scan_angle: i16,
    pub user_data: u8,
    pub point_source_id: u16,
    pub gps_time: u64,
    pub red: u16,
    pub green: u16,
    pub blue: u16,
    pub nir: u16,
    pub extras: Vec<u8>,
}

/// What a point is, with its extras as a sequence.
#[verifier::ext_equal]
pub struct PointView {
    pub x: i32,
    pub y: i32,
    pub z: i32,
    pub intensity: u16,
    pub return_number: u8,
    pub number_of_returns: u8,
    pub classification: u8,
    pub scan_angle: i16,
    pub user_data: u8,
    pub point_source_id: u16,
    pub gps_time: u64,
    pub red: u16,
    pub green: u16,
    pub blue: u16,
    pub nir: u16,
    pub extras: Seq<u8>,
}

impl View for RawPoint {
    type V = PointView;

    open spec fn view(&self) -> PointView {
        PointView {
            x: self.x,
            y: self.y,
            z: self.z,
            intensity: self.intensity,
            return_number: self.return_number,
            number_of_returns: self.number_of_returns,
            classification: self.classification,
            scan_angle: self.scan_angle,
            user_data: self.user_data,
            point_source_id: self.point_source_id,
            gps_time: self.gps_time,
            red: self.red,
            green: self.green,
            blue: self.blue,
            nir: self.nir,
            extras: self.extras@,
        }
    }
}

/// The views of a sequence of points.
pub open spec fn point_views(s: Seq<RawPoint>) -> Seq<PointView> {
    s.map_values(|p: RawPoint| p@)
}

/// The fixed part of a record: fifteen little-endian fields.
pub open spec fn base_bytes(p: PointView) -> Seq<u8> {
    le_bytes((p.x as u32) as nat, 4) + le_bytes((p.y as u32) as nat, 4) + le_bytes(
        (p.z as u32) as nat,
        4,
    ) + le_bytes(p.intensity as nat, 2) + seq![p.return_number] + seq![p.number_of_returns]
        + seq![p.classification] + le_bytes((p.scan_angle as u16) as nat, 2) + seq![p.user_data]
        + le_bytes(p.point_source_id as nat, 2) + le_bytes(p.gps_time as nat, 8) + le_bytes(
        p.red as nat,
        2,
    ) + le_bytes(p.green as nat, 2) + le_bytes(p.blue as nat, 2) + le_bytes(p.nir as nat, 2)
}

/// A whole record: the fixed part, then the extras.
pub open spec fn record_bytes(p: PointView) -> Seq<u8> {
    base_bytes(p) + p.extras
}

/// The records of `ps`, one after another.
pub open spec fn bulk_bytes(ps: Seq<PointView>) -> Seq<u8>
    decreases ps.len(),
{
    if ps.len() == 0 {
        Seq::empty()
    } else {
        record_bytes(ps[0]) + bulk_bytes(ps.drop_first())
    }
}

/// The point that a record stands for.
pub open spec fn decode_record(s: Seq<u8>) -> PointView {
    PointView {
        x: (le_value(s.subrange(0, 4)) as u32) as i32,
        y: (le_value(s.subrange(4, 8)) as u32) as i32,
        z: (le_value(s.subrange(8, 12)) as u32) as i32,
        intensity: le_value(s.subrange(12, 14)) as u16,
        return_number: s[14],
        number_of_returns: s[15],
        classification: s[16],
        scan_angle: (le_value(s.subrange(17, 19)) as u16) as i16,
        user_data: s[19],
        point_source_id: le_value(s.subrange(20, 22)) as u16,
        gps_time: le_value(s.subrange(22, 30)) as u64,
        red: le_value(s.subrange(30, 32)) as u16,
        green: le_value(s.subrange(32, 34)) as u16,
        blue: le_value(s.subrange(34, 36)) as u16,
        nir: le_value(s.subrange(36, 38)) as u16,
        extras: s.subrange(38, s.len() as int),
    }
}

/// The points of `count` records of `size` bytes each, one after another.
pub open spec fn decode_records(s: Seq<u8>, count: nat, size: nat) -> Seq<PointView>
    decreases count,
{
    if count == 0 {
        Seq::empty()
    } else {
        seq![decode_record(s.take(size as int))] + decode_records(
            s.skip(size as int),
            (count - 1) as nat,
            size,
        )
    }
}

/// Every point carries exactly `n` extra bytes.
pub open spec fn uniform_extras(ps: Seq<PointView>, n: nat) -> bool {
    forall|i: int| 0 <= i < ps.len() ==> (#[trigger] ps[i]).extras.len() == n
}

/// Fixed parts that agree byte for byte belong to points that agree field for
/// field.
pub proof fn lemma_base_bytes_injective(p: PointView, q: PointView)
    requires
        base_bytes(p) == base_bytes(q),
        p.extras == q.extras,
    ensures
        p == q,
{
    broadcast use lemma_le_bytes_len;

    lemma_base_bytes_fields(p);
    lemma_base_bytes_fields(q);
    lemma_i32_bits_injective(p.x, q.x);
    lemma_i32_bits_injective(p.y, q.y);
    lemma_i32_bits_injective(p.z, q.z);
    lemma_i16_bits_injective(p.scan_angle, q.scan_angle);
    assert(p =~= q);
}

/// Where each field stands in the fixed part.
pub proof fn lemma_base_bytes_fields(p: PointView)
    ensures
        base_bytes(p).len() == 38,
        le_value(base_bytes(p).subrange(0, 4)) == (p.x as u32) as nat,
        le_value(base_bytes(p).subrange(4, 8)) == (p.y as u32) as nat,
        le_value(base_bytes(p).subrange(8, 12)) == (p.z as u32) as nat,
        le_value(base_bytes(p).subrange(12, 14)) == p.intensity as nat,
        base_bytes(p)[14] == p.return_number,
        base_bytes(p)[15] == p.number_of_returns,
        base_bytes(p)[16] == p.classification,
        le_value(base_bytes(p).subrange(17, 19)) == (p.scan_angle as u16) as nat,
        base_bytes(p)[19] == p.user_data,
        le_value(base_bytes(p).subrange(20, 22)) == p.point_source_id as nat,
        le_value(base_bytes(p).subrange(22, 30)) == p.gps_time as nat,
        le_value(base_bytes(p).subrange(30, 32)) == p.red as nat,
        le_value(base_bytes(p).subrange(32, 34)) == p.green as nat,
        le_value(base_bytes(p).subrange(34, 36)) == p.blue as nat,
        le_value(base_bytes(p).subrange(36, 38)) == p.nir as nat,
{
    broadcast use lemma_le_bytes_len;

    lemma_pow256_values();
    let b = base_bytes(p);
    assert(b.subrange(0, 4) =~= le_bytes((p.x as u32) as nat, 4));
    assert(b.subrange(4, 8) =~= le_bytes((p.y as u32) as nat, 4));
    assert(b.subrange(8, 12) =~= le_bytes((p.z as u32) as nat, 4));
    assert(b.subrange(12, 14) =~= le_bytes(p.intensity as nat, 2));
    assert(b.subrange(17, 19) =~= le_bytes((p.scan_angle as u16) as nat, 2));
    assert(b.subrange(20, 22) =~= le_bytes(p.point_source_id as nat, 2));
    assert(b.subrange(22, 30) =~= le_bytes(p.gps_time as nat, 8));
    assert(b.subrange(30, 32) =~= le_bytes(p.red as nat, 2));
    assert(b.subrange(32, 34) =~= le_bytes(p.green as nat, 2));
    assert(b.subrange(34, 36) =~= le_bytes(p.blue as nat, 2));
    assert(b.subrange(36, 38) =~= le_bytes(p.nir as nat, 2));
    lemma_le_value_of_bytes((p.x as u32) as nat, 4);
    lemma_le_value_of_bytes((p.y as u32) as nat, 4);
    lemma_le_value_of_bytes((p.z as u32) as nat, 4);
    lemma_le_value_of_bytes(p.intensity as nat, 2);
    lemma_le_value_of_bytes((p.scan_angle as u16) as nat, 2);
    lemma_le_value_of_bytes(p.point_source_id as nat, 2);
    lemma_le_value_of_bytes(p.gps_time as nat, 8);
    lemma_le_value_of_bytes(p.red as nat, 2);
    lemma_le_value_of_bytes(p.green as nat, 2);
    lemma_le_value_of_bytes(p.blue as nat, 2);
    lemma_le_value_of_bytes(p.nir as nat, 2);
}

/// The fixed part takes 38 bytes.
pub broadcast proof fn lemma_base_bytes_len(p: PointView)
    ensures
        #[trigger] base_bytes(p).len() == 38,
{
    lemma_base_bytes_fields(p);
}

/// Records that agree byte for byte, with extras of the same length, belong to
/// the same point.
pub proof fn lemma_record_bytes_injective(p: PointView, q: PointView)
    requires
        record_bytes(p) == record_bytes(q),
    ensures
        p == q,
{
    broadcast use lemma_base_bytes_len;

    assert(base_bytes(p) =~= record_bytes(p).subrange(0, 38));
    assert(base_bytes(q) =~= record_bytes(q).subrange(0, 38));
    assert(p.extras =~= record_bytes(p).subrange(38, record_bytes(p).len() as int));
    assert(q.extras =~= record_bytes(q).subrange(38, record_bytes(q).len() as int));
    lemma_base_bytes_injective(p, q);
}

/// Decoding a record yields the point it was written from.
pub proof fn lemma_decode_record(p: PointView)
    ensures
        decode_record(record_bytes(p)) == p,
{
    broadcast use lemma_base_bytes_len;

    lemma_base_bytes_fields(p);
    let s = record_bytes(p);
    let b = base_bytes(p);
    assert(s.subrange(0, 4) =~= b.subrange(0, 4));
    assert(s.subrange(4, 8) =~= b.subrange(4, 8));
    assert(s.subrange(8, 12) =~= b.subrange(8, 12));
    assert(s.subrange(12, 14) =~= b.subrange(12, 14));
    assert(s.subrange(17, 19) =~= b.subrange(17, 19));
    assert(s.subrange(20, 22) =~= b.subrange(20, 22));
    assert(s.subrange(22, 30) =~= b.subrange(22, 30));
    assert(s.subrange(30, 32) =~= b.subrange(30, 32));
    assert(s.subrange(32, 34) =~= b.subrange(32, 34));
    assert(s.subrange(34, 36) =~= b.subrange(34, 36));
    assert(s.subrange(36, 38) =~= b.subrange(36, 38));
    assert(s.subrange(38, s.len() as int) =~= p.extras);
    let x = p.x;
    let y = p.y;
    let z = p.z;
    let a = p.scan_angle;
    assert((x as u32) as i32 == x) by (bit_vector);
    assert((y as u32) as i32 == y) by (bit_vector);
    assert((z as u32) as i32 == z) by (bit_vector);
    assert((a as u16) as i16 == a) by (bit_vector);
    assert(decode_record(s) =~= p);
}

/// Decoding the records of `ps`, whatever follows them, yields `ps`.
pub proof fn lemma_decode_bulk(ps: Seq<PointView>, n: nat, tail: Seq<u8>)
    requires
        uniform_extras(ps, n),
    ensures
        decode_records(bulk_bytes(ps) + tail, ps.len(), 38 + n) == ps,
    decreases ps.len(),
{
    broadcast use lemma_base_bytes_len;

    if ps.len() == 0 {
        assert(decode_records(bulk_bytes(ps) + tail, ps.len(), 38 + n) =~= ps);
    } else {
        let rest = ps.drop_first();
        assert forall|i: int| 0 <= i < rest.len() implies (#[trigger] rest[i]).extras.len()
            == n by {
            assert(rest[i] == ps[i + 1]);
        }
        lemma_decode_bulk(rest, n, tail);
        let s = bulk_bytes(ps) + tail;
        let size = 38 + n as int;
        assert(ps[0].extras.len() == n);
        assert(s.take(size) =~= record_bytes(ps[0]));
        assert(s.skip(size) =~= bulk_bytes(rest) + tail);
        lemma_decode_record(ps[0]);
        assert(decode_records(s, ps.len(), 38 + n) =~= ps);
    }
}

/// Decoding one record more.
pub proof fn lemma_decode_records_step(s: Seq<u8>, count: nat, size: nat)
    requires
        (count + 1) * size <= s.len(),
        size >= 38,
    ensures
        decode_records(s, count + 1, size) == decode_records(s, count, size).push(
            decode_record(s.subrange((count * size) as int, ((count + 1) * size) as int)),
        ),
    decreases count,
{
    let size_i = size as int;
    if count == 0 {
        assert((0 + 1) * size == size) by (nonlinear_arith);
        assert(s.subrange(0, size_i) =~= s.take(size_i));
        assert(decode_records(s.skip(size_i), 0, size) =~= Seq::<PointView>::empty());
        assert(decode_records(s, 1, size) =~= decode_records(s, 0, size).push(
            decode_record(s.take(size_i)),
        ));
        assert(count * size == 0) by (nonlinear_arith)
            requires
                count == 0,
        ;
    } else {
        let t = s.skip(size_i);
        let c1 = (count - 1) as nat;
        assert((count + 1) * size == count * size + size && count * size == c1 * size + size)
            by (nonlinear_arith)
            requires
                count == c1 + 1,
        ;
        assert((c1 + 1) * size == c1 * size + size) by (nonlinear_arith);
        assert(c1 * size >= 0) by (nonlinear_arith);
        lemma_decode_records_step(t, c1, size);
        assert(t.subrange((c1 * size) as int, ((c1 + 1) * size) as int) =~= s.subrange(
            (count * size) as int,
            ((count + 1) * size) as int,
        ));
        assert(decode_records(s, count + 1, size) =~= decode_records(s, count, size).push(
            decode_record(s.subrange((count * size) as int, ((count + 1) * size) as int)),
        ));
    }
}

/// The records of a sequence extended by one point.
pub proof fn lemma_bulk_bytes_push(ps: Seq<PointView>, p: PointView)
    ensures
        bulk_bytes(ps.push(p)) == bulk_bytes(ps) + record_bytes(p),
    decreases ps.len(),
{
    let all = ps.push(p);
    if ps.len() == 0 {
        assert(all.drop_first() =~= Seq::<PointView>::empty());
        assert(bulk_bytes(all.drop_first()) =~= Seq::<u8>::empty());
        assert(bulk_bytes(ps) =~= Seq::<u8>::empty());
        assert(all[0] == p);
        assert(bulk_bytes(all) =~= bulk_bytes(ps) + record_bytes(p));
    } else {
        assert(all.drop_first() =~= ps.drop_first().push(p));
        lemma_bulk_bytes_push(ps.drop_first(), p);
        assert(bulk_bytes(all) =~= bulk_bytes(ps) + record_bytes(p));
    }
}

/// The length of the records of points of one width.
pub proof fn lemma_bulk_bytes_len(ps: Seq<PointView>, n: nat)
    requires
        uniform_extras(ps, n),
    ensures
        bulk_bytes(ps).len() == ps.len() * (38 + n),
    decreases ps.len(),
{
    broadcast use lemma_base_bytes_len;

    if ps.len() > 0 {
        let rest = ps.drop_first();
        assert forall|i: int| 0 <= i < rest.len() implies (#[trigger] rest[i]).extras.len()
            == n by {
            assert(rest[i] == ps[i + 1]);
        }
        lemma_bulk_bytes_len(rest, n);
        assert(record_bytes(ps[0]).len() == 38 + n);
        assert(ps.len() * (38 + n) == (38 + n) + (ps.len() - 1) * (38 + n))
            by (nonlinear_arith)
            requires
                ps.len() > 0,
        ;
    }
}

impl Clone for RawPoint {
    fn clone(&self) -> (p: RawPoint)
        ensures
            p@ == self@,
    {
        let extras = self.extras.clone();
        assert(extras@ =~= self.extras@);
        RawPoint {
            x: self.x,
            y: self.y,
            z: self.z,
            intensity: self.intensity,
            return_number: self.return_number,
            number_of_returns: self.number_of_returns,
            classification: self.classification,
            scan_angle: self.scan_angle,
            user_data: self.user_data,
            point_source_id: self.point_source_id,
            gps_time: self.gps_time,
            red: self.red,
            green: self.green,
            blue: self.blue,
            nir: self.nir,
            extras,
        }
    }
}

impl RawPoint {
    /// Size of the fixed (non-extras) portion of the on-disk record.
    pub const BASE_BYTE_SIZE: usize = 38;

    /// Total on-disk record size for the given extras width.
    pub fn record_size(num_extra_bytes: u16) -> (n: usize)
        ensures
            n == 38 + num_extra_bytes,
    {
        Self::BASE_BYTE_SIZE + num_extra_bytes as usize
    }

    /// Appends the point's record.
    pub fn write_base_into(&self, out: &mut Vec<u8>)
        ensures
            final(out)@ == old(out)@ + record_bytes(self@),
    {
        push_i32(out, self.x);
        push_i32(out, self.y);
        push_i32(out, self.z);
        push_u16(out, self.intensity);
        push_u8(out, self.return_number);
        push_u8(out, self.number_of_returns);
        push_u8(out, self.classification);
        push_i16(out, self.scan_angle);
        push_u8(out, self.user_data);
        push_u16(out, self.point_source_id);
        push_u64(out, self.gps_time);
        push_u16(out, self.red);
        push_u16(out, self.green);
        push_u16(out, self.blue);
        push_u16(out, self.nir);
        push_bytes(out, self.extras.as_slice());
        assert(out@ =~= old(out)@ + record_bytes(self@));
    }

    /// Reads one record of the given width; fails when fewer bytes are left,
    /// in which case nothing is consumed.
    pub fn read(r: &mut ByteReader, num_extra_bytes: u16) -> (res: Result<RawPoint, UnexpectedEof>)
        requires
            old(r).wf(),
        ensures
            final(r).wf(),
            final(r).data@ == old(r).data@,
            match res {
                Ok(p) => {
                    &&& final(r).pos == old(r).pos + 38 + num_extra_bytes
                    &&& p.extras@.len() == num_extra_bytes
                    &&& p@ == decode_record(old(r).rest().take(38 + num_extra_bytes))
                    &&& record_bytes(p@) + final(r).rest() == old(r).rest()
                },
                Err(_) => {
                    &&& old(r).rest().len() < 38 + num_extra_bytes
                    &&& final(r).pos == old(r).pos
                },
            },
    {
        broadcast use lemma_le_bytes_len;

        let size: usize = Self::record_size(num_extra_bytes);
        if r.remaining() < size {
            return Err(UnexpectedEof);
        }
        let b = r.data;
        let at: usize = r.pos;
        assert(b.len() <= usize::MAX);
        let mut extras: Vec<u8> = Vec::new();
        let tail = vstd::slice::slice_subrange(b, at + 38, at + size);
        push_bytes(&mut extras, tail);
        let p = RawPoint {
            x: read_i32(b, at),
            y: read_i32(b, at + 4),
            z: read_i32(b, at + 8),
            intensity: read_u16(b, at + 12),
            return_number: b[at + 14],
            number_of_returns: b[at + 15],
            classification: b[at + 16],
            scan_angle: read_i16(b, at + 17),
            user_data: b[at + 19],
            point_source_id: read_u16(b, at + 20),
            gps_time: read_u64(b, at + 22),
            red: read_u16(b, at + 30),
            green: read_u16(b, at + 32),
            blue: read_u16(b, at + 34),
            nir: read_u16(b, at + 36),
            extras,
        };
        proof {
            let s = b@;
            let a = at as int;
            lemma_le_bytes_of_value(s.subrange(a, a + 4));
            lemma_le_bytes_of_value(s.subrange(a + 4, a + 8));
            lemma_le_bytes_of_value(s.subrange(a + 8, a + 12));
            lemma_le_bytes_of_value(s.subrange(a + 12, a + 14));
            lemma_le_bytes_of_value(s.subrange(a + 17, a + 19));
            lemma_le_bytes_of_value(s.subrange(a + 20, a + 22));
            lemma_le_bytes_of_value(s.subrange(a + 22, a + 30));
            lemma_le_bytes_of_value(s.subrange(a + 30, a + 32));
            lemma_le_bytes_of_value(s.subrange(a + 32, a + 34));
            lemma_le_bytes_of_value(s.subrange(a + 34, a + 36));
            lemma_le_bytes_of_value(s.subrange(a + 36, a + 38));
            assert(base_bytes(p@) =~= s.subrange(a, a + 38));
            assert(record_bytes(p@) + s.subrange(a + size, s.len() as int) =~= s.subrange(
                a,
                s.len() as int,
            ));
            assert(record_bytes(p@) =~= r.rest().take(size as int));
            lemma_decode_record(p@);
        }
        r.pos = at + size;
        Ok(p)
    }

    /// Appends the records of several points. All points must carry exactly
    /// `num_extra_bytes` of extras.
    pub fn write_bulk(points: &[RawPoint], num_extra_bytes: u16, out: &mut Vec<u8>)
        requires
            uniform_extras(point_views(points@), num_extra_bytes as nat),
        ensures
            final(out)@ == old(out)@ + bulk_bytes(point_views(points@)),
    {
        let ghost views = point_views(points@);
        assert(views.take(0) =~= Seq::<PointView>::empty());
        assert(out@ =~= old(out)@ + bulk_bytes(views.take(0)));
        let mut i: usize = 0;
        while i < points.len()
            invariant
                i <= points@.len(),
                views == point_views(points@),
                out@ == old(out)@ + bulk_bytes(views.take(i as int)),
            decreases points@.len() - i,
        {
            points[i].write_base_into(out);
            proof {
                lemma_bulk_bytes_push(views.take(i as int), views[i as int]);
                assert(views.take(i + 1) =~= views.take(i as int).push(views[i as int]));
                assert(out@ =~= old(out)@ + bulk_bytes(views.take(i + 1)));
            }
            i = i + 1;
        }
        assert(views.take(i as int) =~= views);
    }
}

/// Reading a record back from what `write_base_into` appended yields the same
/// point and leaves the bytes that follow it.
pub proof fn law_point_read_back(p: PointView, q: PointView, tail: Seq<u8>, rest: Seq<u8>)
    requires
        p.extras.len() == q.extras.len(),
        record_bytes(q) + rest == record_bytes(p) + tail,
    ensures
        q == p,
        rest == tail,
{
    broadcast use lemma_base_bytes_len;

    let all = record_bytes(p) + tail;
    let n = record_bytes(p).len() as int;
    assert(record_bytes(q).len() == n);
    assert(all.subrange(0, n) =~= record_bytes(p));
    assert(all.subrange(0, n) =~= record_bytes(q));
    assert(all.subrange(n, all.len() as int) =~= tail);
    assert(all.subrange(n, all.len() as int) =~= rest);
    lemma_record_bytes_injective(p, q);
}

} // verus!
