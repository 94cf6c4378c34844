//! The output file.
//!
//! ```text
//! [LAS 1.4 header]           375 bytes
//! [copc info VLR]            54 + 160 bytes
//! [laszip VLR]               54 bytes + its payload
//! [Extra Bytes VLR]          optional
//! [WKT CRS VLR]              optional
//! [chunk-table offset]       8 bytes
//! [compressed chunks]
//! [chunk table]
//! [copc hierarchy EVLR]
//! [temporal index EVLR]      optional
//! ```
//!
//! The library makes everything but the compressed chunks and their table. What
//! stands before them can be made twice: once to reserve its place, and again
//! when the chunks are written and all of its numbers are known.

use crate::batches::{batch_views, batches_from, split_in_order};
use crate::encode::{point_record_length, record_length, Totals};
use crate::hierarchy::{
    build_hierarchy_payload, hierarchy_bytes, hierarchy_len, root_page_len, HierarchyEntry,
};
use crate::key::{key_code, key_id};
use crate::le::{
    le_bytes, le_value, lemma_le_bytes_len, lemma_le_value_of_bytes, lemma_pow256_values,
    push_bytes, push_u16, push_u32, push_u64, push_u8, push_zeros,
};
use crate::node_map::Counted;
use crate::sorting::{sort_order, sorted_order};
use crate::temporal::{
    build_temporal_payload, entry_views, index_pages_len, temporal_bytes, TemporalIndexEntry,
    TEMPORAL_HEADER_SIZE,
};
use vstd::prelude::*;
use vstd::utf8::encode_utf8;

verus! {

/// Size of the header of an extended variable-length record.
pub const EVLR_HEADER_SIZE: u64 = 60;

/// Size of the header of a variable-length record.
pub const VLR_HEADER_SIZE: u32 = 54;

/// How many nodes are compressed at a time.
pub const WRITER_COMPRESS_MINI_BATCH: usize = 32;

// The laszip record.
/// One item of the laszip record: its type, its size and the version of its
/// compression.
pub open spec fn laz_item(kind: nat, size: nat) -> Seq<u8> {
    le_bytes(kind, 2) + le_bytes(size, 2) + le_bytes(3, 2)
}

/// The items of a COPC point format: the point, its colours, and its extra
/// bytes.
pub open spec fn laz_items(fmt: u8, num_extra_bytes: u16) -> Seq<u8> {
    laz_item(10, 30) + (if fmt == 7 {
        laz_item(11, 6)
    } else if fmt == 8 {
        laz_item(12, 8)
    } else {
        Seq::empty()
    }) + (if num_extra_bytes > 0 {
        laz_item(14, num_extra_bytes as nat)
    } else {
        Seq::empty()
    })
}

/// The payload of the laszip record for chunks of variable size: layered chunks,
/// arithmetic coder, version 2.2, no options, the mark of variable chunks, no
/// special records, and the items.
pub open spec fn laz_vlr_bytes(fmt: u8, num_extra_bytes: u16) -> Seq<u8> {
    let items = laz_items(fmt, num_extra_bytes);
    le_bytes(3, 2) + le_bytes(0, 2) + seq![2u8, 2u8] + le_bytes(0, 2) + le_bytes(0, 4) + le_bytes(
        0xFFFF_FFFF,
        4,
    ) + Seq::new(16, |i: int| 0xFFu8) + le_bytes(items.len() / 6, 2) + items
}

/// Calls `laz::LazVlrBuilder` with the point format and variable chunk size, and
/// `LazVlr::write_to` on a vector, which cannot fail. The builder accepts the
/// COPC point formats, takes the items' version 3 for them, and writes the extra
/// bytes as an item where there are any.
#[verifier::external_body]
fn build_laz_vlr(fmt: u8, num_extra_bytes: u16) -> (payload: Vec<u8>)
    requires
        6 <= fmt <= 8,
    ensures
        payload@ == laz_vlr_bytes(fmt, num_extra_bytes),
{
    let builder = laz::LazVlrBuilder::default().with_point_format(fmt, num_extra_bytes);
    let vlr = builder.expect("known point format").with_variable_chunk_size().build();
    let mut payload = Vec::new();
    vlr.write_to(&mut payload).expect("writing to a vector");
    payload
}

/// The payload of the laszip record for a COPC point format (6, 7, or 8).
pub fn laz_vlr_payload(fmt: u8, num_extra_bytes: u16) -> (payload: Vec<u8>)
    requires
        6 <= fmt <= 8,
    ensures
        payload@ == laz_vlr_bytes(fmt, num_extra_bytes),
{
    build_laz_vlr(fmt, num_extra_bytes)
}

// Records.
/// A text in a field of `n` bytes: cut, or filled with zeros.
pub open spec fn padded(s: Seq<u8>, n: nat) -> Seq<u8> {
    Seq::new(n, |i: int|
        if i < s.len() {
            s[i]
        } else {
            0
        })
}

fn push_padded(out: &mut Vec<u8>, s: &str, n: usize)
    ensures
        final(out)@ == old(out)@ + padded(encode_utf8(s@), n as nat),
{
    let b = s.as_bytes();
    let mut i: usize = 0;
    while i < n
        invariant
            i <= n,
            b@ == encode_utf8(s@),
            out@ =~= old(out)@ + padded(encode_utf8(s@), n as nat).take(i as int),
        decreases n - i,
    {
        out.push(
            if i < b.len() {
                b[i]
            } else {
                0
            },
        );
        i = i + 1;
    }
    assert(padded(encode_utf8(s@), n as nat).take(i as int) =~= padded(encode_utf8(s@), n as nat));
}

/// A variable-length record.
pub open spec fn vlr_bytes(
    user_id: Seq<char>,
    record_id: u16,
    description: Seq<char>,
    data: Seq<u8>,
) -> Seq<u8> {
    le_bytes(0, 2) + padded(encode_utf8(user_id), 16) + le_bytes(record_id as nat, 2) + le_bytes(
        (data.len() as u16) as nat,
        2,
    ) + padded(encode_utf8(description), 32) + data
}

/// An extended variable-length record.
pub open spec fn evlr_bytes(
    user_id: Seq<char>,
    record_id: u16,
    description: Seq<char>,
    data: Seq<u8>,
) -> Seq<u8> {
    le_bytes(0, 2) + padded(encode_utf8(user_id), 16) + le_bytes(record_id as nat, 2) + le_bytes(
        data.len(),
        8,
    ) + padded(encode_utf8(description), 32) + data
}

/// Appends a variable-length record.
pub fn write_vlr(out: &mut Vec<u8>, user_id: &str, record_id: u16, description: &str, data: &[u8])
    ensures
        final(out)@ == old(out)@ + vlr_bytes(user_id@, record_id, description@, data@),
{
    push_u16(out, 0);
    push_padded(out, user_id, 16);
    push_u16(out, record_id);
    push_u16(out, #[verifier::truncate] (data.len() as u16));
    push_padded(out, description, 32);
    push_bytes(out, data);
    assert(out@ =~= old(out)@ + vlr_bytes(user_id@, record_id, description@, data@));
}

/// Appends an extended variable-length record.
pub fn write_evlr(out: &mut Vec<u8>, user_id: &str, record_id: u16, description: &str, data: &[u8])
    ensures
        final(out)@ == old(out)@ + evlr_bytes(user_id@, record_id, description@, data@),
{
    push_u16(out, 0);
    push_padded(out, user_id, 16);
    push_u16(out, record_id);
    push_u64(out, data.len() as u64);
    push_padded(out, description, 32);
    push_bytes(out, data);
    assert(out@ =~= old(out)@ + evlr_bytes(user_id@, record_id, description@, data@));
}

/// A variable-length record takes 54 bytes and its data.
pub proof fn lemma_vlr_len(
    user_id: Seq<char>,
    record_id: u16,
    description: Seq<char>,
    data: Seq<u8>,
)
    ensures
        vlr_bytes(user_id, record_id, description, data).len() == 54 + data.len(),
        evlr_bytes(user_id, record_id, description, data).len() == 60 + data.len(),
{
    broadcast use lemma_le_bytes_len;

}

/// The COPC record.
#[derive(Debug, Clone, Copy, PartialEq, Eq, Structural)]
pub struct CopcInfo {
    pub center_x: u64,
    pub center_y: u64,
    pub center_z: u64,
    pub halfsize: u64,
    pub spacing: u64,
    pub root_hier_offset: u64,
    pub root_hier_size: u64,
    pub gpstime_minimum: u64,
    pub gpstime_maximum: u64,
}

/// The COPC record: 160 bytes, the last 88 of which are reserved.
pub open spec fn info_bytes(c: CopcInfo) -> Seq<u8> {
    le_bytes(c.center_x as nat, 8) + le_bytes(c.center_y as nat, 8) + le_bytes(
        c.center_z as nat,
        8,
    ) + le_bytes(c.halfsize as nat, 8) + le_bytes(c.spacing as nat, 8) + le_bytes(
        c.root_hier_offset as nat,
        8,
    ) + le_bytes(c.root_hier_size as nat, 8) + le_bytes(c.gpstime_minimum as nat, 8) + le_bytes(
        c.gpstime_maximum as nat,
        8,
    ) + Seq::new(88, |i: int| 0u8)
}

impl CopcInfo {
    /// Appends the record's 160 bytes.
    pub fn write(&self, out: &mut Vec<u8>)
        ensures
            final(out)@ == old(out)@ + info_bytes(*self),
    {
        push_u64(out, self.center_x);
        push_u64(out, self.center_y);
        push_u64(out, self.center_z);
        push_u64(out, self.halfsize);
        push_u64(out, self.spacing);
        push_u64(out, self.root_hier_offset);
        push_u64(out, self.root_hier_size);
        push_u64(out, self.gpstime_minimum);
        push_u64(out, self.gpstime_maximum);
        push_zeros(out, 88);
        assert(out@ =~= old(out)@ + info_bytes(*self));
    }
}

// The header.
/// What the LAS header says.
#[derive(Debug)]
pub struct LasHeader {
    pub offset_to_point_data: u32,
    pub num_vlrs: u32,
    pub point_format: u8,
    pub record_len: u16,
    pub scale: [u64; 3],
    pub offset: [u64; 3],
    pub min: [u64; 3],
    pub max: [u64; 3],
    pub evlr_start: u64,
    pub num_evlrs: u32,
    pub total_points: u64,
    pub return_counts: [u64; 15],
}

/// Numbers of eight bytes each.
pub open spec fn u64s_bytes(v: Seq<u64>) -> Seq<u8>
    decreases v.len(),
{
    if v.len() == 0 {
        Seq::empty()
    } else {
        u64s_bytes(v.drop_last()) + le_bytes(v.last() as nat, 8)
    }
}

/// The first part of the header, up to the numbers of points.
pub open spec fn header_start(h: LasHeader) -> Seq<u8> {
    seq![76u8, 65, 83, 70] + le_bytes(0, 2) + le_bytes(0x11, 2) + Seq::new(16, |i: int| 0u8)
        + seq![1u8] + seq![4u8] + padded(encode_utf8("copc_converter"@), 32) + padded(
        encode_utf8("copc_converter 0.1"@),
        32,
    ) + le_bytes(1, 2) + le_bytes(2024, 2) + le_bytes(375, 2) + le_bytes(
        h.offset_to_point_data as nat,
        4,
    ) + le_bytes(h.num_vlrs as nat, 4) + seq![128u8 | h.point_format] + le_bytes(
        h.record_len as nat,
        2,
    ) + Seq::new(24, |i: int| 0u8)
}

/// The middle part: how coordinates are stored, and the bounds.
pub open spec fn header_geometry(h: LasHeader) -> Seq<u8> {
    le_bytes(h.scale@[0] as nat, 8) + le_bytes(h.scale@[1] as nat, 8) + le_bytes(
        h.scale@[2] as nat,
        8,
    ) + le_bytes(h.offset@[0] as nat, 8) + le_bytes(h.offset@[1] as nat, 8) + le_bytes(
        h.offset@[2] as nat,
        8,
    ) + le_bytes(h.max@[0] as nat, 8) + le_bytes(h.min@[0] as nat, 8) + le_bytes(
        h.max@[1] as nat,
        8,
    ) + le_bytes(h.min@[1] as nat, 8) + le_bytes(h.max@[2] as nat, 8) + le_bytes(
        h.min@[2] as nat,
        8,
    )
}

/// The last part: where the extended records are, and the numbers of points.
pub open spec fn header_end(h: LasHeader) -> Seq<u8> {
    le_bytes(0, 8) + le_bytes(h.evlr_start as nat, 8) + le_bytes(h.num_evlrs as nat, 4) + le_bytes(
        h.total_points as nat,
        8,
    ) + u64s_bytes(h.return_counts@)
}

/// The LAS 1.4 header: 375 bytes. The point format is marked as compressed.
pub open spec fn header_bytes(h: LasHeader) -> Seq<u8> {
    header_start(h) + header_geometry(h) + header_end(h)
}

impl LasHeader {
    fn write_start(&self, out: &mut Vec<u8>)
        ensures
            final(out)@ == old(out)@ + header_start(*self),
    {
        let ghost base = out@;
        push_u8(out, 76);
        push_u8(out, 65);
        push_u8(out, 83);
        push_u8(out, 70);
        push_u16(out, 0);
        push_u16(out, 0x11);
        push_zeros(out, 16);
        push_u8(out, 1);
        push_u8(out, 4);
        push_padded(out, "copc_converter", 32);
        push_padded(out, "copc_converter 0.1", 32);
        push_u16(out, 1);
        push_u16(out, 2024);
        push_u16(out, 375);
        push_u32(out, self.offset_to_point_data);
        push_u32(out, self.num_vlrs);
        push_u8(out, 128u8 | self.point_format);
        push_u16(out, self.record_len);
        push_zeros(out, 24);
        assert(out@ =~= base + header_start(*self));
    }

    fn write_geometry(&self, out: &mut Vec<u8>)
        ensures
            final(out)@ == old(out)@ + header_geometry(*self),
    {
        let ghost base = out@;
        push_u64(out, self.scale[0]);
        push_u64(out, self.scale[1]);
        push_u64(out, self.scale[2]);
        push_u64(out, self.offset[0]);
        push_u64(out, self.offset[1]);
        push_u64(out, self.offset[2]);
        push_u64(out, self.max[0]);
        push_u64(out, self.min[0]);
        push_u64(out, self.max[1]);
        push_u64(out, self.min[1]);
        push_u64(out, self.max[2]);
        push_u64(out, self.min[2]);
        assert(out@ =~= base + header_geometry(*self));
    }

    fn write_end(&self, out: &mut Vec<u8>)
        ensures
            final(out)@ == old(out)@ + header_end(*self),
    {
        let ghost base = out@;
        push_u64(out, 0);
        push_u64(out, self.evlr_start);
        push_u32(out, self.num_evlrs);
        push_u64(out, self.total_points);
        let ghost numbers = out@;
        let ghost counts = self.return_counts@;
        let mut i: usize = 0;
        assert(counts.take(0) =~= Seq::<u64>::empty());
        assert(out@ =~= numbers + u64s_bytes(counts.take(0)));
        while i < 15
            invariant
                i <= 15,
                counts == self.return_counts@,
                counts.len() == 15,
                out@ == numbers + u64s_bytes(counts.take(i as int)),
            decreases 15 - i,
        {
            push_u64(out, self.return_counts[i]);
            proof {
                assert(counts.take(i + 1).drop_last() =~= counts.take(i as int));
                assert(out@ =~= numbers + u64s_bytes(counts.take(i + 1)));
            }
            i = i + 1;
        }
        assert(counts.take(i as int) =~= counts);
        assert(out@ =~= base + header_end(*self));
    }

    /// Appends the header's 375 bytes.
    pub fn write(&self, out: &mut Vec<u8>)
        ensures
            final(out)@ == old(out)@ + header_bytes(*self),
    {
        let ghost base = out@;
        self.write_start(out);
        self.write_geometry(out);
        self.write_end(out);
        assert(out@ =~= base + header_bytes(*self));
    }
}

proof fn lemma_u64s_bytes(v: Seq<u64>)
    ensures
        u64s_bytes(v).len() == 8 * v.len(),
        forall|i: int|
            0 <= i < v.len() ==> le_value(#[trigger] u64s_bytes(v).subrange(8 * i, 8 * i + 8))
                == v[i],
    decreases v.len(),
{
    broadcast use lemma_le_bytes_len;

    if v.len() > 0 {
        let init = v.drop_last();
        lemma_u64s_bytes(init);
        lemma_pow256_values();
        let s = u64s_bytes(v);
        let t = u64s_bytes(init);
        assert forall|i: int| 0 <= i < v.len() implies le_value(
            #[trigger] s.subrange(8 * i, 8 * i + 8),
        ) == v[i] by {
            if i < init.len() {
                assert(s.subrange(8 * i, 8 * i + 8) =~= t.subrange(8 * i, 8 * i + 8));
            } else {
                assert(s.subrange(8 * i, 8 * i + 8) =~= le_bytes(v.last() as nat, 8));
                lemma_le_value_of_bytes(v.last() as nat, 8);
            }
        }
    }
}

/// The header has 375 bytes, and a reader finds its numbers where the LAS 1.4
/// format has them.
pub proof fn law_header_fields(h: LasHeader)
    ensures
        header_bytes(h).len() == 375,
        le_value(header_bytes(h).subrange(96, 100)) == h.offset_to_point_data,
        le_value(header_bytes(h).subrange(100, 104)) == h.num_vlrs,
        header_bytes(h)[104] == 128u8 | h.point_format,
        le_value(header_bytes(h).subrange(105, 107)) == h.record_len,
        le_value(header_bytes(h).subrange(235, 243)) == h.evlr_start,
        le_value(header_bytes(h).subrange(243, 247)) == h.num_evlrs,
        le_value(header_bytes(h).subrange(247, 255)) == h.total_points,
        forall|r: int|
            0 <= r < 15 ==> le_value(
                header_bytes(h).subrange(255 + 8 * r, 263 + 8 * r),
            ) == #[trigger] h.return_counts@[r],
{
    broadcast use lemma_le_bytes_len;

    lemma_pow256_values();
    let b = header_bytes(h);
    let s = header_start(h);
    let g = header_geometry(h);
    let e = header_end(h);
    assert(s.len() == 131);
    assert(g.len() == 96);
    lemma_u64s_bytes(h.return_counts@);
    assert(h.return_counts@.len() == 15);
    assert(e.len() == 148);
    lemma_le_value_of_bytes(h.offset_to_point_data as nat, 4);
    lemma_le_value_of_bytes(h.num_vlrs as nat, 4);
    lemma_le_value_of_bytes(h.record_len as nat, 2);
    lemma_le_value_of_bytes(h.evlr_start as nat, 8);
    lemma_le_value_of_bytes(h.num_evlrs as nat, 4);
    lemma_le_value_of_bytes(h.total_points as nat, 8);
    assert(s.subrange(96, 100) =~= le_bytes(h.offset_to_point_data as nat, 4));
    assert(s.subrange(100, 104) =~= le_bytes(h.num_vlrs as nat, 4));
    assert(s.subrange(105, 107) =~= le_bytes(h.record_len as nat, 2));
    assert(b.subrange(96, 100) =~= s.subrange(96, 100));
    assert(b.subrange(100, 104) =~= s.subrange(100, 104));
    assert(b.subrange(105, 107) =~= s.subrange(105, 107));
    assert(b[104] == s[104]);
    assert(e.subrange(8, 16) =~= le_bytes(h.evlr_start as nat, 8));
    assert(e.subrange(16, 20) =~= le_bytes(h.num_evlrs as nat, 4));
    assert(e.subrange(20, 28) =~= le_bytes(h.total_points as nat, 8));
    assert(b.subrange(235, 243) =~= e.subrange(8, 16));
    assert(b.subrange(243, 247) =~= e.subrange(16, 20));
    assert(b.subrange(247, 255) =~= e.subrange(20, 28));
    assert forall|r: int| 0 <= r < 15 implies le_value(b.subrange(255 + 8 * r, 263 + 8 * r))
        == #[trigger] h.return_counts@[r] by {
        let u = u64s_bytes(h.return_counts@);
        assert(b.subrange(255 + 8 * r, 263 + 8 * r) =~= u.subrange(8 * r, 8 * r + 8));
    }
}

// What stands before the chunks.
/// What the output file is made with. Numbers that are doubles are bit patterns.
#[derive(Debug)]
pub struct CopcParams {
    pub point_format: u8,
    pub num_extra_bytes: u16,
    pub scale: [u64; 3],
    pub offset: [u64; 3],
    pub min: [u64; 3],
    pub max: [u64; 3],
    pub center: [u64; 3],
    pub halfsize: u64,
    pub spacing: u64,
    /// Payload of the laszip record.
    pub laz_vlr: Vec<u8>,
    pub extra_bytes_vlr: Option<Vec<u8>>,
    pub wkt_crs: Option<Vec<u8>>,
    pub temporal_index: bool,
}

/// Numbers that are known only when the chunks are written.
#[derive(Debug)]
pub struct FileNumbers {
    pub total_points: u64,
    pub evlr_start: u64,
    pub return_counts: [u64; 15],
    pub root_hier_offset: u64,
    pub root_hier_size: u64,
    pub gps_min: u64,
    pub gps_max: u64,
}

/// Size of an optional record.
pub open spec fn optional_len(v: Option<Vec<u8>>) -> nat {
    match v {
        Some(d) => 54 + d@.len(),
        None => 0,
    }
}

/// Size of everything before the chunks.
pub open spec fn prefix_len(p: CopcParams) -> nat {
    375 + 54 + 160 + 54 + p.laz_vlr@.len() + optional_len(p.extra_bytes_vlr) + optional_len(
        p.wkt_crs,
    )
}

/// Number of variable-length records.
pub open spec fn vlr_count(p: CopcParams) -> u32 {
    (2 + (if p.extra_bytes_vlr is Some {
        1int
    } else {
        0
    }) + (if p.wkt_crs is Some {
        1int
    } else {
        0
    })) as u32
}

/// The file's header.
pub open spec fn file_header(p: CopcParams, f: FileNumbers) -> LasHeader {
    LasHeader {
        offset_to_point_data: prefix_len(p) as u32,
        num_vlrs: vlr_count(p),
        point_format: p.point_format,
        record_len: (record_length(p.point_format) + p.num_extra_bytes) as u16,
        scale: p.scale,
        offset: p.offset,
        min: p.min,
        max: p.max,
        evlr_start: f.evlr_start,
        num_evlrs: if p.temporal_index {
            2
        } else {
            1
        },
        total_points: f.total_points,
        return_counts: f.return_counts,
    }
}

/// The file's COPC record.
pub open spec fn file_info(p: CopcParams, f: FileNumbers) -> CopcInfo {
    CopcInfo {
        center_x: p.center@[0],
        center_y: p.center@[1],
        center_z: p.center@[2],
        halfsize: p.halfsize,
        spacing: p.spacing,
        root_hier_offset: f.root_hier_offset,
        root_hier_size: f.root_hier_size,
        gpstime_minimum: f.gps_min,
        gpstime_maximum: f.gps_max,
    }
}

/// Everything before the chunks.
pub open spec fn prefix_bytes(p: CopcParams, f: FileNumbers) -> Seq<u8> {
    header_bytes(file_header(p, f)) + vlr_bytes(
        "copc"@,
        1,
        "copc info"@,
        info_bytes(file_info(p, f)),
    ) + vlr_bytes("laszip encoded"@, 22204, "laz variable chunks"@, p.laz_vlr@) + (
    match p.extra_bytes_vlr {
        Some(d) => vlr_bytes("LASF_Spec"@, 4, "Extra Bytes Record"@, d@),
        None => Seq::empty(),
    }) + (match p.wkt_crs {
        Some(d) => vlr_bytes("LASF_Projection"@, 2112, "WKT"@, d@),
        None => Seq::empty(),
    })
}

/// The inputs fit the fields of the header, and the laszip record is that of the
/// points.
pub open spec fn params_ok(p: CopcParams) -> bool {
    &&& prefix_len(p) <= u32::MAX
    &&& 38 + p.num_extra_bytes <= u16::MAX
    &&& p.laz_vlr@ == laz_vlr_bytes(p.point_format, p.num_extra_bytes)
}

fn record_size(v: &Option<Vec<u8>>) -> (n: u64)
    ensures
        n == optional_len(*v) || n == u64::MAX,
        optional_len(*v) <= u32::MAX ==> n == optional_len(*v),
{
    match v {
        Some(d) => {
            if d.len() as u64 <= 0xFFFF_FFFF {
                54 + d.len() as u64
            } else {
                u64::MAX
            }
        },
        None => 0,
    }
}

/// Where the chunks start: the size of everything before them.
pub fn offset_to_point_data(p: &CopcParams) -> (n: u32)
    requires
        params_ok(*p),
    ensures
        n == prefix_len(*p),
{
    let extra: u64 = record_size(&p.extra_bytes_vlr);
    let wkt: u64 = record_size(&p.wkt_crs);
    (643 + p.laz_vlr.len() as u64 + extra + wkt) as u32
}

/// Makes everything before the chunks.
pub fn file_prefix(p: &CopcParams, f: &FileNumbers) -> (out: Vec<u8>)
    requires
        params_ok(*p),
    ensures
        out@ == prefix_bytes(*p, *f),
{
    let mut out: Vec<u8> = Vec::new();
    let mut num_vlrs: u32 = 2;
    if p.extra_bytes_vlr.is_some() {
        num_vlrs = num_vlrs + 1;
    }
    if p.wkt_crs.is_some() {
        num_vlrs = num_vlrs + 1;
    }
    let header = LasHeader {
        offset_to_point_data: offset_to_point_data(p),
        num_vlrs,
        point_format: p.point_format,
        record_len: point_record_length(p.point_format) + p.num_extra_bytes,
        scale: p.scale,
        offset: p.offset,
        min: p.min,
        max: p.max,
        evlr_start: f.evlr_start,
        num_evlrs: if p.temporal_index {
            2
        } else {
            1
        },
        total_points: f.total_points,
        return_counts: f.return_counts,
    };
    header.write(&mut out);
    let info = CopcInfo {
        center_x: p.center[0],
        center_y: p.center[1],
        center_z: p.center[2],
        halfsize: p.halfsize,
        spacing: p.spacing,
        root_hier_offset: f.root_hier_offset,
        root_hier_size: f.root_hier_size,
        gpstime_minimum: f.gps_min,
        gpstime_maximum: f.gps_max,
    };
    let mut payload: Vec<u8> = Vec::new();
    info.write(&mut payload);
    proof {
        assert(header == file_header(*p, *f));
        assert(payload@ =~= info_bytes(file_info(*p, *f)));
    }
    write_vlr(&mut out, "copc", 1, "copc info", payload.as_slice());
    write_vlr(
        &mut out,
        "laszip encoded",
        22204,
        "laz variable chunks",
        p.laz_vlr.as_slice(),
    );
    match &p.extra_bytes_vlr {
        Some(d) => {
            write_vlr(&mut out, "LASF_Spec", 4, "Extra Bytes Record", d.as_slice());
        },
        None => {},
    }
    match &p.wkt_crs {
        Some(d) => {
            write_vlr(&mut out, "LASF_Projection", 2112, "WKT", d.as_slice());
        },
        None => {},
    }
    assert(out@ =~= prefix_bytes(*p, *f));
    out
}

/// What stands before the chunks always takes the same room, whatever the
/// numbers are: it can be made again when they are known. It says itself where
/// the chunks start.
pub proof fn law_prefix_len(p: CopcParams, f: FileNumbers)
    requires
        params_ok(p),
    ensures
        prefix_bytes(p, f).len() == prefix_len(p),
        le_value(prefix_bytes(p, f).subrange(96, 100)) == prefix_len(p),
{
    broadcast use lemma_le_bytes_len;

    let h = file_header(p, f);
    law_header_fields(h);
    let i = info_bytes(file_info(p, f));
    assert(i.len() == 160);
    lemma_vlr_len("copc"@, 1, "copc info"@, i);
    lemma_vlr_len("laszip encoded"@, 22204, "laz variable chunks"@, p.laz_vlr@);
    match p.extra_bytes_vlr {
        Some(d) => {
            lemma_vlr_len("LASF_Spec"@, 4, "Extra Bytes Record"@, d@);
        },
        None => {},
    }
    match p.wkt_crs {
        Some(d) => {
            lemma_vlr_len("LASF_Projection"@, 2112, "WKT"@, d@);
        },
        None => {},
    }
    assert(prefix_bytes(p, f).subrange(96, 100) =~= header_bytes(h).subrange(96, 100));
}

// The nodes.
/// Numbers by which nodes are ordered by their keys.
pub open spec fn node_codes(nodes: Seq<Counted>) -> Seq<u128> {
    Seq::new(nodes.len(), |i: int| key_code(nodes[i].0) as u128)
}

/// The nodes in the order of their keys: coarse levels first, so that readers
/// can show them progressively, then by x, y and z.
pub open spec fn by_key(nodes: Seq<Counted>) -> Seq<Counted> {
    sort_order(node_codes(nodes)).map_values(|i: usize| nodes[i as int])
}

/// The nodes in the order of their keys.
pub fn order_nodes(nodes: &Vec<Counted>) -> (out: Vec<Counted>)
    ensures
        out@ == by_key(nodes@),
        out@.len() == nodes@.len(),
{
    let mut codes: Vec<u128> = Vec::new();
    let mut i: usize = 0;
    while i < nodes.len()
        invariant
            i <= nodes@.len(),
            codes@ =~= node_codes(nodes@).take(i as int),
        decreases nodes@.len() - i,
    {
        codes.push(key_id(nodes[i].0));
        i = i + 1;
    }
    assert(codes@ =~= node_codes(nodes@));
    let order = sorted_order(codes.as_slice());
    let ghost value = |i: usize| nodes@[i as int];
    let mut out: Vec<Counted> = Vec::new();
    let mut i: usize = 0;
    while i < order.len()
        invariant
            i <= order@.len(),
            value == (|i: usize| nodes@[i as int]),
            forall|k: int| 0 <= k < order@.len() ==> #[trigger] order@[k] < nodes@.len(),
            out@ =~= order@.take(i as int).map_values(value),
        decreases order@.len() - i,
    {
        assert(order@.take(i + 1) =~= order@.take(i as int).push(order@[i as int]));
        out.push(nodes[order[i]]);
        i = i + 1;
    }
    assert(order@.take(i as int) =~= order@);
    out
}

/// The nodes that hold points.
pub open spec fn data_nodes(nodes: Seq<Counted>) -> Seq<Counted>
    decreases nodes.len(),
{
    if nodes.len() == 0 {
        Seq::empty()
    } else if nodes.last().1 > 0 {
        data_nodes(nodes.drop_last()).push(nodes.last())
    } else {
        data_nodes(nodes.drop_last())
    }
}

/// The nodes that hold points, which are the ones that get chunks.
pub fn select_data_nodes(nodes: &Vec<Counted>) -> (out: Vec<Counted>)
    ensures
        out@ == data_nodes(nodes@),
{
    let mut out: Vec<Counted> = Vec::new();
    let mut i: usize = 0;
    assert(nodes@.take(0) =~= Seq::<Counted>::empty());
    while i < nodes.len()
        invariant
            i <= nodes@.len(),
            out@ == data_nodes(nodes@.take(i as int)),
        decreases nodes@.len() - i,
    {
        assert(nodes@.take(i + 1).drop_last() =~= nodes@.take(i as int));
        assert(nodes@.take(i + 1).last() == nodes@[i as int]);
        if nodes[i].1 > 0 {
            out.push(nodes[i]);
        }
        i = i + 1;
    }
    assert(nodes@.take(i as int) =~= nodes@);
    out
}

/// Memory that one encoded point takes while a batch is written: twice its
/// record.
pub open spec fn batch_bytes_per_point(fmt: u8, num_extra_bytes: u16) -> nat {
    2 * (record_length(fmt) + num_extra_bytes as nat)
}

/// The memory that each node takes while a batch is written.
pub open spec fn node_sizes(nodes: Seq<Counted>, fmt: u8, num_extra_bytes: u16) -> Seq<u128> {
    Seq::new(
        nodes.len(),
        |i: int| (nodes[i].1 * batch_bytes_per_point(fmt, num_extra_bytes)) as u128,
    )
}

/// Splits the nodes, in their order, into batches that fit the memory budget.
pub fn write_batches(
    data: &Vec<Counted>,
    fmt: u8,
    num_extra_bytes: u16,
    memory_budget: u64,
) -> (out: Vec<Vec<usize>>)
    ensures
        batch_views(out@) == batches_from(
            node_sizes(data@, fmt, num_extra_bytes),
            crate::hierarchy::all_indices(data@.len()),
            0,
            memory_budget,
        ),
{
    let per_point: u128 = 2 * (point_record_length(fmt) as u128 + num_extra_bytes as u128);
    let mut sizes: Vec<u128> = Vec::new();
    let mut order: Vec<usize> = Vec::new();
    let mut i: usize = 0;
    while i < data.len()
        invariant
            i <= data@.len(),
            per_point == batch_bytes_per_point(fmt, num_extra_bytes),
            per_point <= 200_000,
            sizes@ =~= node_sizes(data@, fmt, num_extra_bytes).take(i as int),
            crate::batches::sizes_ok(sizes@),
            order@ =~= crate::hierarchy::all_indices(i as nat),
        decreases data@.len() - i,
    {
        let n: u64 = data[i].1;
        assert(0 <= n * per_point <= 0xFFFF_FFFF_FFFF_FFFF * 200_000) by (nonlinear_arith)
            requires
                0 <= n <= 0xFFFF_FFFF_FFFF_FFFF,
                0 <= per_point <= 200_000,
        ;
        sizes.push(n as u128 * per_point);
        order.push(i);
        i = i + 1;
    }
    assert(sizes@ =~= node_sizes(data@, fmt, num_extra_bytes));
    split_in_order(&sizes, &order, memory_budget)
}

// The hierarchy's entries.
/// The sizes of the first `n` chunks together.
pub open spec fn size_before(sizes: Seq<u64>, n: nat) -> nat
    decreases n,
{
    if n == 0 {
        0
    } else {
        size_before(sizes, (n - 1) as nat) + sizes[n - 1] as nat
    }
}

/// How many of the first `n` nodes hold points.
pub open spec fn data_before(nodes: Seq<Counted>, n: nat) -> nat
    decreases n,
{
    if n == 0 {
        0
    } else {
        data_before(nodes, (n - 1) as nat) + if nodes[n - 1].1 > 0 {
            1nat
        } else {
            0nat
        }
    }
}

/// The entry of node `i`. Chunks lie one behind another from `first` on, in the
/// order of the nodes that hold points. A node without points has no chunk.
pub open spec fn node_entry(
    nodes: Seq<Counted>,
    sizes: Seq<u64>,
    first: nat,
    i: int,
) -> HierarchyEntry {
    let c = data_before(nodes, i as nat);
    if nodes[i].1 == 0 {
        HierarchyEntry { key: nodes[i].0, offset: 0, byte_size: 0, point_count: 0 }
    } else {
        HierarchyEntry {
            key: nodes[i].0,
            offset: (first + size_before(sizes, c)) as u64,
            byte_size: sizes[c as int] as i32,
            point_count: nodes[i].1 as i32,
        }
    }
}

/// The entries of all nodes.
pub open spec fn node_entries(nodes: Seq<Counted>, sizes: Seq<u64>, first: nat) -> Seq<
    HierarchyEntry,
> {
    Seq::new(nodes.len(), |i: int| node_entry(nodes, sizes, first, i))
}

proof fn lemma_size_before(sizes: Seq<u64>, a: nat, b: nat)
    requires
        a <= b <= sizes.len(),
    ensures
        size_before(sizes, a) <= size_before(sizes, b),
    decreases b,
{
    if a < b {
        lemma_size_before(sizes, a, (b - 1) as nat);
    }
}

proof fn lemma_data_before(nodes: Seq<Counted>, a: nat, b: nat)
    requires
        a <= b <= nodes.len(),
    ensures
        data_before(nodes, a) <= data_before(nodes, b),
    decreases b,
{
    if a < b {
        lemma_data_before(nodes, a, (b - 1) as nat);
    }
}

/// Makes the hierarchy's entries: where the chunk of each node lies, given the
/// sizes of the chunks.
pub fn build_chunk_info(nodes: &Vec<Counted>, chunk_sizes: &Vec<u64>, first_chunk_start: u64) -> (
    out: Vec<HierarchyEntry>)
    requires
        data_before(nodes@, nodes@.len()) <= chunk_sizes@.len(),
        first_chunk_start + size_before(chunk_sizes@, chunk_sizes@.len()) <= u64::MAX,
    ensures
        out@ == node_entries(nodes@, chunk_sizes@, first_chunk_start as nat),
{
    let ghost first = first_chunk_start as nat;
    let ghost want = node_entries(nodes@, chunk_sizes@, first);
    let mut out: Vec<HierarchyEntry> = Vec::new();
    let mut current_offset: u64 = first_chunk_start;
    let mut chunk_index: usize = 0;
    let mut i: usize = 0;
    while i < nodes.len()
        invariant
            i <= nodes@.len(),
            first == first_chunk_start,
            want == node_entries(nodes@, chunk_sizes@, first),
            data_before(nodes@, nodes@.len()) <= chunk_sizes@.len(),
            first + size_before(chunk_sizes@, chunk_sizes@.len()) <= u64::MAX,
            chunk_index == data_before(nodes@, i as nat),
            current_offset == first + size_before(chunk_sizes@, chunk_index as nat),
            out@ =~= want.take(i as int),
        decreases nodes@.len() - i,
    {
        proof {
            lemma_data_before(nodes@, (i + 1) as nat, nodes@.len());
        }
        let (key, pc) = nodes[i];
        if pc == 0 {
            out.push(HierarchyEntry { key, offset: 0, byte_size: 0, point_count: 0 });
        } else {
            let byte_size: u64 = chunk_sizes[chunk_index];
            proof {
                lemma_size_before(
                    chunk_sizes@,
                    (chunk_index + 1) as nat,
                    chunk_sizes@.len(),
                );
            }
            out.push(
                HierarchyEntry {
                    key,
                    offset: current_offset,
                    byte_size: #[verifier::truncate]
                    (byte_size as i32),
                    point_count: #[verifier::truncate]
                    (pc as i32),
                },
            );
            current_offset = current_offset + byte_size;
            assert(chunk_sizes.len() <= usize::MAX);
            chunk_index = chunk_index + 1;
        }
        i = i + 1;
    }
    assert(out@ =~= want);
    out
}

/// Chunks do not overlap: the chunk of a later node starts where the chunk of an
/// earlier one ends, or behind it.
pub proof fn law_chunks_disjoint(
    nodes: Seq<Counted>,
    sizes: Seq<u64>,
    first: nat,
    i: int,
    j: int,
)
    requires
        0 <= i < j < nodes.len(),
        nodes[i].1 > 0,
        nodes[j].1 > 0,
        data_before(nodes, nodes.len()) <= sizes.len(),
        first + size_before(sizes, sizes.len()) <= u64::MAX,
    ensures
        node_entry(nodes, sizes, first, i).offset + sizes[data_before(nodes, i as nat) as int]
            <= node_entry(nodes, sizes, first, j).offset,
        node_entry(nodes, sizes, first, i).offset >= first,
{
    let a = data_before(nodes, i as nat);
    let b = data_before(nodes, j as nat);
    lemma_data_before(nodes, (i + 1) as nat, j as nat);
    lemma_data_before(nodes, (j + 1) as nat, nodes.len());
    lemma_size_before(sizes, (a + 1) as nat, b);
    lemma_size_before(sizes, b, sizes.len());
}

// What stands behind the chunks.
/// The number of points of all nodes.
pub open spec fn total_count(nodes: Seq<Counted>) -> nat
    decreases nodes.len(),
{
    if nodes.len() == 0 {
        0
    } else {
        total_count(nodes.drop_last()) + nodes.last().1 as nat
    }
}

/// The number of points of all nodes.
pub fn count_points(nodes: &Vec<Counted>) -> (n: u64)
    requires
        total_count(nodes@) <= u64::MAX,
    ensures
        n == total_count(nodes@),
{
    let mut n: u64 = 0;
    let mut i: usize = 0;
    assert(nodes@.take(0) =~= Seq::<Counted>::empty());
    while i < nodes.len()
        invariant
            i <= nodes@.len(),
            total_count(nodes@) <= u64::MAX,
            n == total_count(nodes@.take(i as int)),
        decreases nodes@.len() - i,
    {
        proof {
            assert(nodes@.take(i + 1).drop_last() =~= nodes@.take(i as int));
            assert(nodes@.take(i + 1).last() == nodes@[i as int]);
            lemma_total_count_prefix(nodes@, i + 1);
        }
        n = n + nodes[i].1;
        i = i + 1;
    }
    assert(nodes@.take(i as int) =~= nodes@);
    n
}

pub proof fn lemma_total_count_prefix(nodes: Seq<Counted>, n: int)
    requires
        0 <= n <= nodes.len(),
    ensures
        total_count(nodes.take(n)) <= total_count(nodes),
    decreases nodes.len() - n,
{
    if n < nodes.len() {
        lemma_total_count_prefix(nodes, n + 1);
        assert(nodes.take(n + 1).drop_last() =~= nodes.take(n));
    } else {
        assert(nodes.take(n) =~= nodes);
    }
}

/// The temporal index to write: its stride, and the samples of each node.
#[derive(Debug)]
pub struct TemporalIndex {
    pub stride: u32,
    pub entries: Vec<TemporalIndexEntry>,
}

/// The parts of the output file that are not the chunks.
#[derive(Debug)]
pub struct CopcFile {
    /// Everything before the chunks.
    pub prefix: Vec<u8>,
    /// Everything behind the chunks and their table.
    pub evlrs: Vec<u8>,
}

/// The hierarchy record.
pub open spec fn hierarchy_record(entries: Seq<HierarchyEntry>, end_pos: nat) -> Seq<u8> {
    evlr_bytes("copc"@, 1000, "copc hierarchy"@, hierarchy_bytes(entries, end_pos + 60))
}

/// The records behind the chunks, which end at `end_pos`.
pub open spec fn evlrs_bytes(
    entries: Seq<HierarchyEntry>,
    end_pos: nat,
    temporal: Option<TemporalIndex>,
) -> Seq<u8> {
    hierarchy_record(entries, end_pos) + (match temporal {
        Some(t) => evlr_bytes(
            "copc_temporal"@,
            1000,
            "temporal index"@,
            temporal_bytes(
                entry_views(t.entries@),
                t.stride,
                end_pos + 60 + hierarchy_len(entries) + 60,
            ),
        ),
        None => Seq::empty(),
    })
}

/// The time range of all points, as the COPC record has it.
pub open spec fn gps_range_of(t: Totals) -> (u64, u64) {
    if crate::fbits::num_lt(t.gps_max, t.gps_min) {
        (0u64, 0u64)
    } else {
        (t.gps_min, t.gps_max)
    }
}

/// The numbers that are known when the chunks are written.
pub open spec fn final_numbers(
    nodes: Seq<Counted>,
    entries: Seq<HierarchyEntry>,
    end_pos: u64,
    totals: Totals,
) -> FileNumbers {
    FileNumbers {
        total_points: total_count(nodes) as u64,
        evlr_start: end_pos,
        return_counts: totals.return_counts,
        root_hier_offset: (end_pos + 60) as u64,
        root_hier_size: root_page_len(entries) as u64,
        gps_min: gps_range_of(totals).0,
        gps_max: gps_range_of(totals).1,
    }
}

/// Room that the temporal index takes.
pub open spec fn temporal_room(temporal: Option<TemporalIndex>) -> nat {
    match temporal {
        Some(t) => 60 + TEMPORAL_HEADER_SIZE as nat + index_pages_len(entry_views(t.entries@)),
        None => 0,
    }
}

/// Everything has its place in a file that 64-bit offsets can address, and the
/// header announces a temporal index if there is one.
pub open spec fn file_fits(
    p: CopcParams,
    nodes: Seq<Counted>,
    chunk_sizes: Seq<u64>,
    end_pos: u64,
    temporal: Option<TemporalIndex>,
) -> bool {
    let first = (prefix_len(p) + 8) as nat;
    &&& params_ok(p)
    &&& p.temporal_index == (temporal is Some)
    &&& total_count(nodes) <= u64::MAX
    &&& data_before(nodes, nodes.len()) <= chunk_sizes.len()
    &&& first + size_before(chunk_sizes, chunk_sizes.len()) <= u64::MAX
    &&& end_pos + 60 + hierarchy_len(node_entries(nodes, chunk_sizes, first)) + temporal_room(
        temporal,
    ) <= u64::MAX
}

/// The numbers that reserve the place of what stands before the chunks.
pub fn placeholder_numbers(nodes: &Vec<Counted>) -> (f: FileNumbers)
    requires
        total_count(nodes@) <= u64::MAX,
    ensures
        f.total_points == total_count(nodes@),
        f.evlr_start == 0,
        forall|r: int| 0 <= r < 15 ==> #[trigger] f.return_counts@[r] == 0,
        f.root_hier_offset == 0,
        f.root_hier_size == 0,
        f.gps_min == 0,
        f.gps_max == 0,
{
    FileNumbers {
        total_points: count_points(nodes),
        evlr_start: 0,
        return_counts: [0, 0, 0, 0, 0, 0, 0, 0, 0, 0, 0, 0, 0, 0, 0],
        root_hier_offset: 0,
        root_hier_size: 0,
        gps_min: 0,
        gps_max: 0,
    }
}

/// Makes the parts of the output file that are not the chunks, once the chunks
/// are written: their sizes are `chunk_sizes`, in the order of the nodes that
/// hold points, and they and their table end at `end_pos`. `nodes` is ordered by
/// key.
pub fn write_copc(
    p: &CopcParams,
    nodes: &Vec<Counted>,
    chunk_sizes: &Vec<u64>,
    end_pos: u64,
    totals: &Totals,
    temporal: &Option<TemporalIndex>,
) -> (file: CopcFile)
    requires
        file_fits(*p, nodes@, chunk_sizes@, end_pos, *temporal),
    ensures
        ({
            let entries = node_entries(nodes@, chunk_sizes@, prefix_len(*p) + 8);
            &&& file.prefix@ == prefix_bytes(
                *p,
                final_numbers(nodes@, entries, end_pos, *totals),
            )
            &&& file.evlrs@ == evlrs_bytes(entries, end_pos as nat, *temporal)
        }),
{
    let first: u64 = offset_to_point_data(p) as u64 + 8;
    let entries = build_chunk_info(nodes, chunk_sizes, first);
    let hier_start: u64 = end_pos + EVLR_HEADER_SIZE;
    let (payload, root_offset, root_size) = build_hierarchy_payload(entries.as_slice(), hier_start);
    proof {
        crate::hierarchy::lemma_tree_bytes_len(
            entries@,
            crate::hierarchy::all_indices(entries@.len()),
            crate::hierarchy::page_boundaries(crate::hierarchy::deepest_level(entries@)),
            0,
            hier_start as nat,
        );
        assert(payload@.len() == hierarchy_len(entries@));
    }
    let mut evlrs: Vec<u8> = Vec::new();
    write_evlr(&mut evlrs, "copc", 1000, "copc hierarchy", payload.as_slice());
    match temporal {
        Some(t) => {
            let start: u64 = hier_start + payload.len() as u64 + EVLR_HEADER_SIZE;
            let index = build_temporal_payload(t.entries.as_slice(), t.stride, start);
            write_evlr(&mut evlrs, "copc_temporal", 1000, "temporal index", index.as_slice());
        },
        None => {},
    }
    assert(evlrs@ =~= evlrs_bytes(entries@, end_pos as nat, *temporal));
    let (gps_min, gps_max) = totals.gps_range();
    let numbers = FileNumbers {
        total_points: count_points(nodes),
        evlr_start: end_pos,
        return_counts: totals.return_counts,
        root_hier_offset: root_offset,
        root_hier_size: root_size,
        gps_min,
        gps_max,
    };
    assert(numbers == final_numbers(nodes@, entries@, end_pos, *totals));
    let prefix = file_prefix(p, &numbers);
    CopcFile { prefix, evlrs }
}

/// In the output file the COPC record says where the root page of the hierarchy
/// lies: right behind the header of the first record behind the chunks.
pub proof fn law_root_page_located(
    p: CopcParams,
    nodes: Seq<Counted>,
    chunk_sizes: Seq<u64>,
    end_pos: u64,
    totals: Totals,
    temporal: Option<TemporalIndex>,
)
    requires
        file_fits(p, nodes, chunk_sizes, end_pos, temporal),
    ensures
        ({
            let entries = node_entries(nodes, chunk_sizes, prefix_len(p) + 8);
            let f = final_numbers(nodes, entries, end_pos, totals);
            let prefix = prefix_bytes(p, f);
            let evlrs = evlrs_bytes(entries, end_pos as nat, temporal);
            &&& le_value(prefix.subrange(235, 243)) == end_pos
            &&& le_value(prefix.subrange(469, 477)) == end_pos + 60
            &&& le_value(prefix.subrange(477, 485)) == root_page_len(entries)
            &&& evlrs.subrange(60, 60int + hierarchy_len(entries)) == hierarchy_bytes(
                entries,
                (end_pos + 60) as nat,
            )
        }),
{
    broadcast use lemma_le_bytes_len;

    lemma_pow256_values();
    let entries = node_entries(nodes, chunk_sizes, prefix_len(p) + 8);
    let f = final_numbers(nodes, entries, end_pos, totals);
    let prefix = prefix_bytes(p, f);
    let h = file_header(p, f);
    law_header_fields(h);
    let c = file_info(p, f);
    let info = info_bytes(c);
    assert(info.len() == 160);
    lemma_vlr_len("copc"@, 1, "copc info"@, info);
    let vlr = vlr_bytes("copc"@, 1, "copc info"@, info);
    assert(vlr.subrange(54, 214) =~= info);
    assert(prefix.subrange(235, 243) =~= header_bytes(h).subrange(235, 243));
    assert(prefix.subrange(469, 477) =~= vlr.subrange(94, 102));
    assert(prefix.subrange(477, 485) =~= vlr.subrange(102, 110));
    assert(vlr.subrange(94, 102) =~= info.subrange(40, 48));
    assert(vlr.subrange(102, 110) =~= info.subrange(48, 56));
    assert(info.subrange(40, 48) =~= le_bytes(c.root_hier_offset as nat, 8));
    assert(info.subrange(48, 56) =~= le_bytes(c.root_hier_size as nat, 8));
    lemma_le_value_of_bytes(c.root_hier_offset as nat, 8);
    lemma_le_value_of_bytes(c.root_hier_size as nat, 8);
    let sel = crate::hierarchy::all_indices(entries.len());
    let bounds = crate::hierarchy::page_boundaries(crate::hierarchy::deepest_level(entries));
    let start = (end_pos + 60) as nat;
    crate::hierarchy::lemma_tree_bytes_len(entries, sel, bounds, 0, start);
    let payload = hierarchy_bytes(entries, start);
    lemma_vlr_len("copc"@, 1000, "copc hierarchy"@, payload);
    let record = hierarchy_record(entries, end_pos as nat);
    assert(record.subrange(60, 60int + payload.len()) =~= payload);
    let evlrs = evlrs_bytes(entries, end_pos as nat, temporal);
    assert(evlrs.subrange(60, 60int + payload.len()) =~= record.subrange(60, 60int + payload.len()));
    assert(root_page_len(entries) <= hierarchy_len(entries));
}

/// How many extended records the bytes hold, one behind another; nothing where
/// they do not end with a record.
pub open spec fn records_in(b: Seq<u8>) -> Option<nat>
    decreases b.len(),
{
    if b.len() == 0 {
        Some(0)
    } else if b.len() < 60 || b.len() < 60 + le_value(b.subrange(20, 28)) {
        None
    } else {
        match records_in(b.skip(60int + le_value(b.subrange(20, 28)))) {
            Some(n) => Some(n + 1),
            None => None,
        }
    }
}

proof fn lemma_one_record(
    user_id: Seq<char>,
    record_id: u16,
    description: Seq<char>,
    data: Seq<u8>,
    rest: Seq<u8>,
)
    requires
        data.len() <= u64::MAX,
    ensures
        records_in(evlr_bytes(user_id, record_id, description, data) + rest) == (match records_in(
            rest,
        ) {
            Some(n) => Some(n + 1),
            None => None::<nat>,
        }),
{
    broadcast use lemma_le_bytes_len;

    lemma_pow256_values();
    let r = evlr_bytes(user_id, record_id, description, data);
    let b = r + rest;
    lemma_vlr_len(user_id, record_id, description, data);
    assert(b.subrange(20, 28) =~= le_bytes(data.len(), 8));
    lemma_le_value_of_bytes(data.len(), 8);
    assert(b.skip(60int + data.len()) =~= rest);
}

/// The header announces as many extended records as there are behind the chunks.
pub proof fn law_record_count(
    p: CopcParams,
    nodes: Seq<Counted>,
    chunk_sizes: Seq<u64>,
    end_pos: u64,
    totals: Totals,
    temporal: Option<TemporalIndex>,
)
    requires
        file_fits(p, nodes, chunk_sizes, end_pos, temporal),
    ensures
        ({
            let entries = node_entries(nodes, chunk_sizes, prefix_len(p) + 8);
            let f = final_numbers(nodes, entries, end_pos, totals);
            records_in(evlrs_bytes(entries, end_pos as nat, temporal)) == Some(
                le_value(prefix_bytes(p, f).subrange(243, 247)),
            )
        }),
{
    let entries = node_entries(nodes, chunk_sizes, prefix_len(p) + 8);
    let f = final_numbers(nodes, entries, end_pos, totals);
    let h = file_header(p, f);
    law_header_fields(h);
    assert(prefix_bytes(p, f).subrange(243, 247) =~= header_bytes(h).subrange(243, 247));
    let start = (end_pos + 60) as nat;
    let payload = hierarchy_bytes(entries, start);
    crate::hierarchy::lemma_tree_bytes_len(
        entries,
        crate::hierarchy::all_indices(entries.len()),
        crate::hierarchy::page_boundaries(crate::hierarchy::deepest_level(entries)),
        0,
        start,
    );
    let none = Seq::<u8>::empty();
    match temporal {
        Some(t) => {
            let es = entry_views(t.entries@);
            let at = (end_pos + 60 + hierarchy_len(entries) + 60) as nat;
            let index = temporal_bytes(es, t.stride, at);
            crate::temporal::lemma_temporal_len(es, t.stride, at);
            let record = evlr_bytes("copc_temporal"@, 1000, "temporal index"@, index);
            lemma_one_record("copc_temporal"@, 1000, "temporal index"@, index, none);
            assert(record + none =~= record);
            lemma_one_record("copc"@, 1000, "copc hierarchy"@, payload, record);
        },
        None => {
            lemma_one_record("copc"@, 1000, "copc hierarchy"@, payload, none);
        },
    }
    assert(records_in(none) == Some(0nat));
}

} // verus!
