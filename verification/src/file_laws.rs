//! What a reader finds in the output file, and where: the header of LAS 1.4, the
//! COPC record, and the records before and behind the chunks.

use crate::encode::Totals;
use crate::fbits::{is_nan, rank};
use crate::hierarchy::{
    all_indices, deepest_level, hierarchy_bytes, hierarchy_len, lemma_tree_bytes_len,
    page_boundaries, HierarchyEntry,
};
use crate::le::{
    le_bytes, le_value, lemma_le_bytes_len, lemma_le_value_of_bytes, lemma_pow256_values,
};
use crate::temporal::{entry_views, temporal_bytes};
use crate::writer::{
    evlr_bytes, evlrs_bytes, file_header, file_info, gps_range_of, header_bytes, header_end,
    header_geometry, header_start, info_bytes, law_header_fields, law_prefix_len, lemma_vlr_len,
    padded, params_ok, prefix_bytes, vlr_bytes, CopcInfo, CopcParams, FileNumbers,
    LasHeader, TemporalIndex,
};
use vstd::prelude::*;
use vstd::utf8::{encode_utf8, is_ascii_chars, is_ascii_chars_encode_utf8};

verus! {

/// The little-endian number in the `n` bytes at `at`.
pub open spec fn le_at(b: Seq<u8>, at: int, n: int) -> nat {
    le_value(b.subrange(at, at + n))
}

/// The `n` bytes at `at` hold a text of ASCII characters, filled up with zeros.
pub open spec fn text_at(b: Seq<u8>, at: int, n: int, text: Seq<char>) -> bool {
    &&& text.len() <= n
    &&& forall|i: int|
        0 <= i < n ==> #[trigger] b[at + i] == (if i < text.len() {
            text[i] as u8
        } else {
            0u8
        })
}

/// Bytes `from` to `to` are zero.
pub open spec fn zeros_at(b: Seq<u8>, from: int, to: int) -> bool {
    forall|i: int| from <= i < to ==> #[trigger] b[i] == 0
}

/// The number that was written at `at` is read there.
proof fn lemma_number_at(b: Seq<u8>, at: int, n: nat, v: nat)
    requires
        0 <= at,
        at + n <= b.len(),
        b.subrange(at, at + n) == le_bytes(v, n),
        v < crate::le::pow256(n),
    ensures
        le_at(b, at, n as int) == v,
{
    lemma_le_value_of_bytes(v, n);
}

/// What is read within a part is what the part holds.
proof fn lemma_number_within(b: Seq<u8>, part: Seq<u8>, from: int, at: int, n: int)
    requires
        0 <= from,
        from + part.len() <= b.len(),
        b.subrange(from, from + part.len()) == part,
        0 <= at,
        0 <= n,
        at + n <= part.len(),
    ensures
        le_at(b, from + at, n) == le_at(part, at, n),
{
    assert(b.subrange(from + at, from + at + n) =~= part.subrange(at, at + n));
}

/// An ASCII text in a field of `n` bytes.
proof fn lemma_text_at(b: Seq<u8>, at: int, n: nat, text: Seq<char>)
    requires
        0 <= at,
        at + n <= b.len(),
        text.len() <= n,
        is_ascii_chars(text),
        b.subrange(at, at + n) == padded(encode_utf8(text), n),
    ensures
        text_at(b, at, n as int, text),
{
    is_ascii_chars_encode_utf8(text);
    let p = padded(encode_utf8(text), n);
    assert forall|i: int| 0 <= i < n implies #[trigger] b[at + i] == (if i < text.len() {
        text[i] as u8
    } else {
        0u8
    }) by {
        assert(b.subrange(at, at + n)[i] == p[i]);
    }
}

// The COPC record.
/// A reader finds every number of the COPC record where the format has it: the
/// centre's x, y and z at 0, 8 and 16, half the size at 24, the spacing at 32,
/// where the root page lies and how large it is at 40 and 48, and the smallest
/// and largest GPS time at 56 and 64. The other bytes of the 160 are zero.
#[verifier::rlimit(40)]
pub proof fn law_info_layout(c: CopcInfo)
    ensures
        info_bytes(c).len() == 160,
        le_at(info_bytes(c), 0, 8) == c.center_x,
        le_at(info_bytes(c), 8, 8) == c.center_y,
        le_at(info_bytes(c), 16, 8) == c.center_z,
        le_at(info_bytes(c), 24, 8) == c.halfsize,
        le_at(info_bytes(c), 32, 8) == c.spacing,
        le_at(info_bytes(c), 40, 8) == c.root_hier_offset,
        le_at(info_bytes(c), 48, 8) == c.root_hier_size,
        le_at(info_bytes(c), 56, 8) == c.gpstime_minimum,
        le_at(info_bytes(c), 64, 8) == c.gpstime_maximum,
        zeros_at(info_bytes(c), 72, 160),
{
    broadcast use lemma_le_bytes_len;

    lemma_pow256_values();
    let b = info_bytes(c);
    assert(b.len() == 160);
    assert(b.subrange(0, 8) =~= le_bytes(c.center_x as nat, 8));
    assert(b.subrange(8, 16) =~= le_bytes(c.center_y as nat, 8));
    assert(b.subrange(16, 24) =~= le_bytes(c.center_z as nat, 8));
    assert(b.subrange(24, 32) =~= le_bytes(c.halfsize as nat, 8));
    assert(b.subrange(32, 40) =~= le_bytes(c.spacing as nat, 8));
    assert(b.subrange(40, 48) =~= le_bytes(c.root_hier_offset as nat, 8));
    assert(b.subrange(48, 56) =~= le_bytes(c.root_hier_size as nat, 8));
    assert(b.subrange(56, 64) =~= le_bytes(c.gpstime_minimum as nat, 8));
    assert(b.subrange(64, 72) =~= le_bytes(c.gpstime_maximum as nat, 8));
    lemma_number_at(b, 0, 8, c.center_x as nat);
    lemma_number_at(b, 8, 8, c.center_y as nat);
    lemma_number_at(b, 16, 8, c.center_z as nat);
    lemma_number_at(b, 24, 8, c.halfsize as nat);
    lemma_number_at(b, 32, 8, c.spacing as nat);
    lemma_number_at(b, 40, 8, c.root_hier_offset as nat);
    lemma_number_at(b, 48, 8, c.root_hier_size as nat);
    lemma_number_at(b, 56, 8, c.gpstime_minimum as nat);
    lemma_number_at(b, 64, 8, c.gpstime_maximum as nat);
}

// The header.
/// The constant part of the header: the signature, the global encoding (GPS
/// standard time and a WKT coordinate system), version 1.4, the names of the
/// system and the program, day and year, the header's size, and zeros for what
/// later formats replaced.
pub open spec fn header_constants(b: Seq<u8>) -> bool {
    &&& text_at(b, 0, 4, "LASF"@)
    &&& le_at(b, 4, 2) == 0
    &&& le_at(b, 6, 2) == 17
    &&& zeros_at(b, 8, 24)
    &&& b[24] == 1
    &&& b[25] == 4
    &&& text_at(b, 26, 32, "copc_converter"@)
    &&& text_at(b, 58, 32, "copc_converter 0.1"@)
    &&& le_at(b, 90, 2) == 1
    &&& le_at(b, 92, 2) == 2024
    &&& le_at(b, 94, 2) == 375
    &&& zeros_at(b, 107, 131)
    &&& le_at(b, 227, 8) == 0
}

#[verifier::rlimit(40)]
proof fn lemma_header_start(h: LasHeader)
    ensures
        header_start(h).len() == 131,
        text_at(header_start(h), 0, 4, "LASF"@),
        le_at(header_start(h), 4, 2) == 0,
        le_at(header_start(h), 6, 2) == 17,
        zeros_at(header_start(h), 8, 24),
        header_start(h)[24] == 1,
        header_start(h)[25] == 4,
        text_at(header_start(h), 26, 32, "copc_converter"@),
        text_at(header_start(h), 58, 32, "copc_converter 0.1"@),
        le_at(header_start(h), 90, 2) == 1,
        le_at(header_start(h), 92, 2) == 2024,
        le_at(header_start(h), 94, 2) == 375,
        zeros_at(header_start(h), 107, 131),
{
    broadcast use lemma_le_bytes_len;

    lemma_pow256_values();
    reveal_strlit("LASF");
    reveal_strlit("copc_converter");
    reveal_strlit("copc_converter 0.1");
    let s = header_start(h);
    assert(s.len() == 131);
    assert(s.subrange(4, 6) =~= le_bytes(0, 2));
    assert(s.subrange(6, 8) =~= le_bytes(17, 2));
    assert(s.subrange(26, 58) =~= padded(encode_utf8("copc_converter"@), 32));
    assert(s.subrange(58, 90) =~= padded(encode_utf8("copc_converter 0.1"@), 32));
    assert(s.subrange(90, 92) =~= le_bytes(1, 2));
    assert(s.subrange(92, 94) =~= le_bytes(2024, 2));
    assert(s.subrange(94, 96) =~= le_bytes(375, 2));
    lemma_number_at(s, 4, 2, 0);
    lemma_number_at(s, 6, 2, 17);
    lemma_number_at(s, 90, 2, 1);
    lemma_number_at(s, 92, 2, 2024);
    lemma_number_at(s, 94, 2, 375);
    assert(is_ascii_chars("copc_converter"@));
    assert(is_ascii_chars("copc_converter 0.1"@));
    lemma_text_at(s, 26, 32, "copc_converter"@);
    lemma_text_at(s, 58, 32, "copc_converter 0.1"@);
    let mark = "LASF"@;
    assert(s[0int + 0] == 76 && s[0int + 1] == 65 && s[0int + 2] == 83 && s[0int + 3] == 70);
    assert(mark[0] as u8 == 76 && mark[1] as u8 == 65 && mark[2] as u8 == 83 && mark[3] as u8
        == 70);
    assert forall|i: int| 0 <= i < 4 implies #[trigger] s[0 + i] == mark[i] as u8 by {
        assert(i == 0 || i == 1 || i == 2 || i == 3);
    }
}

/// A reader finds how coordinates are stored and the bounds where LAS 1.4 has
/// them: the scales of x, y and z at 131, 139 and 147, the offsets at 155, 163
/// and 171, and then, axis by axis from 179 on, the largest and the smallest
/// coordinate. The constant parts are there too.
#[verifier::rlimit(40)]
pub proof fn law_header_layout(h: LasHeader)
    ensures
        header_bytes(h).len() == 375,
        header_constants(header_bytes(h)),
        le_at(header_bytes(h), 131, 8) == h.scale@[0],
        le_at(header_bytes(h), 139, 8) == h.scale@[1],
        le_at(header_bytes(h), 147, 8) == h.scale@[2],
        le_at(header_bytes(h), 155, 8) == h.offset@[0],
        le_at(header_bytes(h), 163, 8) == h.offset@[1],
        le_at(header_bytes(h), 171, 8) == h.offset@[2],
        le_at(header_bytes(h), 179, 8) == h.max@[0],
        le_at(header_bytes(h), 187, 8) == h.min@[0],
        le_at(header_bytes(h), 195, 8) == h.max@[1],
        le_at(header_bytes(h), 203, 8) == h.min@[1],
        le_at(header_bytes(h), 211, 8) == h.max@[2],
        le_at(header_bytes(h), 219, 8) == h.min@[2],
{
    broadcast use lemma_le_bytes_len;

    lemma_pow256_values();
    law_header_fields(h);
    lemma_header_start(h);
    let b = header_bytes(h);
    let s = header_start(h);
    let g = header_geometry(h);
    let e = header_end(h);
    assert(g.len() == 96);
    assert(b.subrange(0, 0int + s.len()) =~= s);
    assert(b.subrange(131, 131int + g.len()) =~= g);
    assert(b.subrange(227, 227int + e.len()) =~= e);
    lemma_number_within(b, s, 0, 4, 2);
    lemma_number_within(b, s, 0, 6, 2);
    lemma_number_within(b, s, 0, 90, 2);
    lemma_number_within(b, s, 0, 92, 2);
    lemma_number_within(b, s, 0, 94, 2);
    assert(zeros_at(b, 8, 24)) by {
        assert forall|i: int| 8 <= i < 24 implies #[trigger] b[i] == 0 by {
            assert(s[i] == 0);
        }
    }
    assert(zeros_at(b, 107, 131)) by {
        assert forall|i: int| 107 <= i < 131 implies #[trigger] b[i] == 0 by {
            assert(s[i] == 0);
        }
    }
    lemma_text_within(b, s, 0, 0, 4, "LASF"@);
    lemma_text_within(b, s, 0, 26, 32, "copc_converter"@);
    lemma_text_within(b, s, 0, 58, 32, "copc_converter 0.1"@);
    assert(b[24] == s[24] && b[25] == s[25]);
    assert(e.subrange(0, 8) =~= le_bytes(0, 8));
    lemma_number_at(e, 0, 8, 0);
    lemma_number_within(b, e, 227, 0, 8);
    lemma_geometry(h);
    lemma_number_within(b, g, 131, 0, 8);
    lemma_number_within(b, g, 131, 8, 8);
    lemma_number_within(b, g, 131, 16, 8);
    lemma_number_within(b, g, 131, 24, 8);
    lemma_number_within(b, g, 131, 32, 8);
    lemma_number_within(b, g, 131, 40, 8);
    lemma_number_within(b, g, 131, 48, 8);
    lemma_number_within(b, g, 131, 56, 8);
    lemma_number_within(b, g, 131, 64, 8);
    lemma_number_within(b, g, 131, 72, 8);
    lemma_number_within(b, g, 131, 80, 8);
    lemma_number_within(b, g, 131, 88, 8);
}

proof fn lemma_geometry(h: LasHeader)
    ensures
        header_geometry(h).len() == 96,
        le_at(header_geometry(h), 0, 8) == h.scale@[0],
        le_at(header_geometry(h), 8, 8) == h.scale@[1],
        le_at(header_geometry(h), 16, 8) == h.scale@[2],
        le_at(header_geometry(h), 24, 8) == h.offset@[0],
        le_at(header_geometry(h), 32, 8) == h.offset@[1],
        le_at(header_geometry(h), 40, 8) == h.offset@[2],
        le_at(header_geometry(h), 48, 8) == h.max@[0],
        le_at(header_geometry(h), 56, 8) == h.min@[0],
        le_at(header_geometry(h), 64, 8) == h.max@[1],
        le_at(header_geometry(h), 72, 8) == h.min@[1],
        le_at(header_geometry(h), 80, 8) == h.max@[2],
        le_at(header_geometry(h), 88, 8) == h.min@[2],
{
    broadcast use lemma_le_bytes_len;

    lemma_pow256_values();
    let g = header_geometry(h);
    assert(g.subrange(0, 8) =~= le_bytes(h.scale@[0] as nat, 8));
    assert(g.subrange(8, 16) =~= le_bytes(h.scale@[1] as nat, 8));
    assert(g.subrange(16, 24) =~= le_bytes(h.scale@[2] as nat, 8));
    assert(g.subrange(24, 32) =~= le_bytes(h.offset@[0] as nat, 8));
    assert(g.subrange(32, 40) =~= le_bytes(h.offset@[1] as nat, 8));
    assert(g.subrange(40, 48) =~= le_bytes(h.offset@[2] as nat, 8));
    assert(g.subrange(48, 56) =~= le_bytes(h.max@[0] as nat, 8));
    assert(g.subrange(56, 64) =~= le_bytes(h.min@[0] as nat, 8));
    assert(g.subrange(64, 72) =~= le_bytes(h.max@[1] as nat, 8));
    assert(g.subrange(72, 80) =~= le_bytes(h.min@[1] as nat, 8));
    assert(g.subrange(80, 88) =~= le_bytes(h.max@[2] as nat, 8));
    assert(g.subrange(88, 96) =~= le_bytes(h.min@[2] as nat, 8));
    lemma_number_at(g, 0, 8, h.scale@[0] as nat);
    lemma_number_at(g, 8, 8, h.scale@[1] as nat);
    lemma_number_at(g, 16, 8, h.scale@[2] as nat);
    lemma_number_at(g, 24, 8, h.offset@[0] as nat);
    lemma_number_at(g, 32, 8, h.offset@[1] as nat);
    lemma_number_at(g, 40, 8, h.offset@[2] as nat);
    lemma_number_at(g, 48, 8, h.max@[0] as nat);
    lemma_number_at(g, 56, 8, h.min@[0] as nat);
    lemma_number_at(g, 64, 8, h.max@[1] as nat);
    lemma_number_at(g, 72, 8, h.min@[1] as nat);
    lemma_number_at(g, 80, 8, h.max@[2] as nat);
    lemma_number_at(g, 88, 8, h.min@[2] as nat);
}

/// A text within a part.
proof fn lemma_text_within(b: Seq<u8>, part: Seq<u8>, from: int, at: int, n: int, text: Seq<char>)
    requires
        0 <= from,
        from + part.len() <= b.len(),
        b.subrange(from, from + part.len()) == part,
        0 <= at,
        0 <= n,
        at + n <= part.len(),
        text_at(part, at, n, text),
    ensures
        text_at(b, from + at, n, text),
{
    assert forall|i: int| 0 <= i < n implies #[trigger] b[from + at + i] == (if i < text.len() {
        text[i] as u8
    } else {
        0u8
    }) by {
        assert(part[at + i] == b.subrange(from, from + part.len())[at + i]);
    }
}

// Records.
/// A variable-length record stands at `at`: two reserved bytes, the user id in
/// 16 bytes, the record id, the length of the data in two bytes, the description
/// in 32 bytes, and the data from byte 54 on.
pub open spec fn vlr_at(
    b: Seq<u8>,
    at: int,
    user_id: Seq<char>,
    record_id: nat,
    description: Seq<char>,
    data: Seq<u8>,
) -> bool {
    &&& at + 54 + data.len() <= b.len()
    &&& le_at(b, at, 2) == 0
    &&& text_at(b, at + 2, 16, user_id)
    &&& le_at(b, at + 18, 2) == record_id
    &&& data.len() <= 65535 ==> le_at(b, at + 20, 2) == data.len()
    &&& text_at(b, at + 22, 32, description)
    &&& b.subrange(at + 54, at + 54 + data.len()) == data
}

/// An extended record stands at `at`: as a variable-length record, but with the
/// length of the data in eight bytes, and the data from byte 60 on.
pub open spec fn evlr_at(
    b: Seq<u8>,
    at: int,
    user_id: Seq<char>,
    record_id: nat,
    description: Seq<char>,
    data: Seq<u8>,
) -> bool {
    &&& at + 60 + data.len() <= b.len()
    &&& le_at(b, at, 2) == 0
    &&& text_at(b, at + 2, 16, user_id)
    &&& le_at(b, at + 18, 2) == record_id
    &&& le_at(b, at + 20, 8) == data.len()
    &&& text_at(b, at + 28, 32, description)
    &&& b.subrange(at + 60, at + 60 + data.len()) == data
}

/// A record is found in the bytes that were written for it, wherever they stand:
/// user id, record id, length, description and data each in their place.
#[verifier::rlimit(40)]
pub proof fn law_record_layout(
    b: Seq<u8>,
    at: int,
    user_id: Seq<char>,
    record_id: u16,
    description: Seq<char>,
    data: Seq<u8>,
)
    requires
        0 <= at,
        is_ascii_chars(user_id),
        user_id.len() <= 16,
        is_ascii_chars(description),
        description.len() <= 32,
        data.len() <= u64::MAX,
    ensures
        at + 54 + data.len() <= b.len() && b.subrange(at, at + 54 + data.len()) == vlr_bytes(
            user_id,
            record_id,
            description,
            data,
        ) ==> vlr_at(b, at, user_id, record_id as nat, description, data),
        at + 60 + data.len() <= b.len() && b.subrange(at, at + 60 + data.len()) == evlr_bytes(
            user_id,
            record_id,
            description,
            data,
        ) ==> evlr_at(b, at, user_id, record_id as nat, description, data),
{
    broadcast use lemma_le_bytes_len;

    lemma_pow256_values();
    lemma_vlr_len(user_id, record_id, description, data);
    let v = vlr_bytes(user_id, record_id, description, data);
    let e = evlr_bytes(user_id, record_id, description, data);
    if at + 54 + data.len() <= b.len() && b.subrange(at, at + 54 + data.len()) == v {
        assert(v.subrange(0, 2) =~= le_bytes(0, 2));
        assert(v.subrange(2, 18) =~= padded(encode_utf8(user_id), 16));
        assert(v.subrange(18, 20) =~= le_bytes(record_id as nat, 2));
        assert(v.subrange(20, 22) =~= le_bytes((data.len() as u16) as nat, 2));
        assert(v.subrange(22, 54) =~= padded(encode_utf8(description), 32));
        assert(v.subrange(54, 54int + data.len()) =~= data);
        lemma_number_at(v, 0, 2, 0);
        lemma_number_at(v, 18, 2, record_id as nat);
        lemma_number_at(v, 20, 2, (data.len() as u16) as nat);
        lemma_text_at(v, 2, 16, user_id);
        lemma_text_at(v, 22, 32, description);
        lemma_number_within(b, v, at, 0, 2);
        lemma_number_within(b, v, at, 18, 2);
        lemma_number_within(b, v, at, 20, 2);
        lemma_text_within(b, v, at, 2, 16, user_id);
        lemma_text_within(b, v, at, 22, 32, description);
        assert(b.subrange(at + 54, at + 54 + data.len()) =~= v.subrange(54, 54int + data.len()));
    }
    if at + 60 + data.len() <= b.len() && b.subrange(at, at + 60 + data.len()) == e {
        assert(e.subrange(0, 2) =~= le_bytes(0, 2));
        assert(e.subrange(2, 18) =~= padded(encode_utf8(user_id), 16));
        assert(e.subrange(18, 20) =~= le_bytes(record_id as nat, 2));
        assert(e.subrange(20, 28) =~= le_bytes(data.len(), 8));
        assert(e.subrange(28, 60) =~= padded(encode_utf8(description), 32));
        assert(e.subrange(60, 60int + data.len()) =~= data);
        lemma_number_at(e, 0, 2, 0);
        lemma_number_at(e, 18, 2, record_id as nat);
        lemma_number_at(e, 20, 8, data.len());
        lemma_text_at(e, 2, 16, user_id);
        lemma_text_at(e, 28, 32, description);
        lemma_number_within(b, e, at, 0, 2);
        lemma_number_within(b, e, at, 18, 2);
        lemma_number_within(b, e, at, 20, 8);
        lemma_text_within(b, e, at, 2, 16, user_id);
        lemma_text_within(b, e, at, 28, 32, description);
        assert(b.subrange(at + 60, at + 60 + data.len()) =~= e.subrange(60, 60int + data.len()));
    }
}

// The file.
/// Number of variable-length records of a file.
pub open spec fn records_before_chunks(p: CopcParams) -> nat {
    2 + (if p.extra_bytes_vlr is Some {
        1nat
    } else {
        0nat
    }) + (if p.wkt_crs is Some {
        1nat
    } else {
        0nat
    })
}

/// The numbers of a header stand in the first bytes of `b`.
pub open spec fn header_reads(b: Seq<u8>, h: LasHeader) -> bool {
    &&& le_at(b, 96, 4) == h.offset_to_point_data
    &&& le_at(b, 100, 4) == h.num_vlrs
    &&& b[104] == 128u8 | h.point_format
    &&& le_at(b, 105, 2) == h.record_len
    &&& le_at(b, 131, 8) == h.scale@[0]
    &&& le_at(b, 139, 8) == h.scale@[1]
    &&& le_at(b, 147, 8) == h.scale@[2]
    &&& le_at(b, 155, 8) == h.offset@[0]
    &&& le_at(b, 163, 8) == h.offset@[1]
    &&& le_at(b, 171, 8) == h.offset@[2]
    &&& le_at(b, 179, 8) == h.max@[0]
    &&& le_at(b, 187, 8) == h.min@[0]
    &&& le_at(b, 195, 8) == h.max@[1]
    &&& le_at(b, 203, 8) == h.min@[1]
    &&& le_at(b, 211, 8) == h.max@[2]
    &&& le_at(b, 219, 8) == h.min@[2]
    &&& le_at(b, 235, 8) == h.evlr_start
    &&& le_at(b, 243, 4) == h.num_evlrs
    &&& le_at(b, 247, 8) == h.total_points
    &&& forall|r: int| 0 <= r < 15 ==> le_at(b, 255 + 8 * r, 8) == #[trigger] h.return_counts@[r]
}

/// A header reads as the numbers that it was made of.
#[verifier::rlimit(40)]
pub proof fn law_header_read_back(h: LasHeader)
    ensures
        header_reads(header_bytes(h), h),
{
    law_header_fields(h);
    law_header_layout(h);
    let b = header_bytes(h);
    assert forall|r: int| 0 <= r < 15 implies le_at(b, 255 + 8 * r, 8)
        == #[trigger] h.return_counts@[r] by {
        assert(255 + 8 * r + 8 == 263 + 8 * r);
    }
}

/// A header that is copied to the front of a file reads there as it did.
proof fn lemma_header_copied(b: Seq<u8>, t: Seq<u8>, h: LasHeader)
    requires
        t.len() == 375,
        375 <= b.len(),
        b.subrange(0, 375) == t,
        header_constants(t),
        header_reads(t, h),
    ensures
        header_constants(b),
        header_reads(b, h),
{
    assert forall|at: int, n: int| 0 <= at && 0 <= n && at + n <= 375 implies #[trigger] le_at(
        b,
        at,
        n,
    ) == le_at(t, at, n) by {
        lemma_number_within(b, t, 0, at, n);
    }
    assert forall|i: int| 0 <= i < 375 implies #[trigger] b[i] == t[i] by {
        assert(t[i] == b.subrange(0, 375)[i]);
    }
    lemma_text_within(b, t, 0, 0, 4, "LASF"@);
    lemma_text_within(b, t, 0, 26, 32, "copc_converter"@);
    lemma_text_within(b, t, 0, 58, 32, "copc_converter 0.1"@);
    assert forall|r: int| 0 <= r < 15 implies le_at(b, 255 + 8 * r, 8)
        == #[trigger] h.return_counts@[r] by {
        assert(le_at(t, 255 + 8 * r, 8) == h.return_counts@[r]);
    }
}

/// The file starts with its header.
proof fn lemma_header_first(p: CopcParams, f: FileNumbers)
    ensures
        header_bytes(file_header(p, f)).len() == 375,
        prefix_bytes(p, f).len() >= 375,
        prefix_bytes(p, f).subrange(0, 375) == header_bytes(file_header(p, f)),
{
    let t = header_bytes(file_header(p, f));
    law_header_fields(file_header(p, f));
    lemma_starts_with(
        t,
        vlr_bytes("copc"@, 1, "copc info"@, info_bytes(file_info(p, f))),
        vlr_bytes("laszip encoded"@, 22204, "laz variable chunks"@, p.laz_vlr@),
        match p.extra_bytes_vlr {
            Some(d) => vlr_bytes("LASF_Spec"@, 4, "Extra Bytes Record"@, d@),
            None => Seq::empty(),
        },
        match p.wkt_crs {
            Some(d) => vlr_bytes("LASF_Projection"@, 2112, "WKT"@, d@),
            None => Seq::empty(),
        },
    );
}

/// Where each of five parts lies that stand one behind another.
#[verifier::rlimit(40)]
proof fn lemma_starts_with(h: Seq<u8>, a: Seq<u8>, c: Seq<u8>, d: Seq<u8>, e: Seq<u8>)
    ensures
        ({
            let b = h + a + c + d + e;
            let i = h.len() as int;
            let j = i + a.len();
            let k = j + c.len();
            let l = k + d.len();
            &&& b.len() == l + e.len()
            &&& b.subrange(0, i) == h
            &&& b.subrange(i, j) == a
            &&& b.subrange(j, k) == c
            &&& b.subrange(k, l) == d
            &&& b.subrange(l, l + e.len()) == e
        }),
{
    let b = h + a + c + d + e;
    let i = h.len() as int;
    let j = i + a.len();
    let k = j + c.len();
    let l = k + d.len();
    assert(b.subrange(0, i) =~= h);
    assert(b.subrange(i, j) =~= a);
    assert(b.subrange(j, k) =~= c);
    assert(b.subrange(k, l) =~= d);
    assert(b.subrange(l, l + e.len()) =~= e);
}

/// The data of the COPC record read in the file as they do alone.
proof fn lemma_info_copied(b: Seq<u8>, info: Seq<u8>)
    requires
        info.len() == 160,
        589 <= b.len(),
        b.subrange(429, 589) == info,
    ensures
        forall|at: int, n: int|
            429 <= at && 0 <= n && at + n <= 589 ==> #[trigger] le_at(b, at, n) == le_at(
                info,
                at - 429,
                n,
            ),
        zeros_at(info, 72, 160) ==> zeros_at(b, 501, 589),
{
    assert forall|at: int, n: int| 429 <= at && 0 <= n && at + n <= 589 implies #[trigger] le_at(
        b,
        at,
        n,
    ) == le_at(info, at - 429, n) by {
        lemma_number_within(b, info, 429, at - 429, n);
    }
    if zeros_at(info, 72, 160) {
        assert forall|i: int| 501 <= i < 589 implies #[trigger] b[i] == 0 by {
            assert(info[i - 429] == 0);
            assert(b.subrange(429, 589)[i - 429] == info[i - 429]);
        }
    }
}

/// The names of the records are ASCII texts that fit their fields.
proof fn lemma_record_names()
    ensures
        is_ascii_chars("copc"@) && "copc"@.len() <= 16,
        is_ascii_chars("copc info"@) && "copc info"@.len() <= 32,
        is_ascii_chars("laszip encoded"@) && "laszip encoded"@.len() <= 16,
        is_ascii_chars("laz variable chunks"@) && "laz variable chunks"@.len() <= 32,
        is_ascii_chars("LASF_Spec"@) && "LASF_Spec"@.len() <= 16,
        is_ascii_chars("Extra Bytes Record"@) && "Extra Bytes Record"@.len() <= 32,
        is_ascii_chars("LASF_Projection"@) && "LASF_Projection"@.len() <= 16,
        is_ascii_chars("WKT"@) && "WKT"@.len() <= 32,
{
    reveal_strlit("copc");
    reveal_strlit("copc info");
    reveal_strlit("laszip encoded");
    reveal_strlit("laz variable chunks");
    reveal_strlit("LASF_Spec");
    reveal_strlit("Extra Bytes Record");
    reveal_strlit("LASF_Projection");
    reveal_strlit("WKT");
}

/// What a reader finds in the header of the file: the numbers that it was made
/// with, each at its place. The point format is marked as compressed. A point
/// takes 30, 36 or 38 bytes in formats 6, 7 and 8, and its extra bytes. The
/// points start where the header says that they do: behind all records.
#[verifier::rlimit(40)]
pub proof fn law_file_header(p: CopcParams, f: FileNumbers)
    requires
        params_ok(p),
        6 <= p.point_format <= 8,
    ensures
        ({
            let b = prefix_bytes(p, f);
            &&& header_constants(b)
            &&& le_at(b, 96, 4) == b.len()
            &&& le_at(b, 100, 4) == records_before_chunks(p)
            &&& b[104] == 128 + p.point_format
            &&& le_at(b, 105, 2) == p.num_extra_bytes + (if p.point_format == 6 {
                30int
            } else if p.point_format == 7 {
                36int
            } else {
                38int
            })
            &&& le_at(b, 131, 8) == p.scale@[0]
            &&& le_at(b, 139, 8) == p.scale@[1]
            &&& le_at(b, 147, 8) == p.scale@[2]
            &&& le_at(b, 155, 8) == p.offset@[0]
            &&& le_at(b, 163, 8) == p.offset@[1]
            &&& le_at(b, 171, 8) == p.offset@[2]
            &&& le_at(b, 179, 8) == p.max@[0]
            &&& le_at(b, 187, 8) == p.min@[0]
            &&& le_at(b, 195, 8) == p.max@[1]
            &&& le_at(b, 203, 8) == p.min@[1]
            &&& le_at(b, 211, 8) == p.max@[2]
            &&& le_at(b, 219, 8) == p.min@[2]
            &&& le_at(b, 235, 8) == f.evlr_start
            &&& le_at(b, 243, 4) == (if p.temporal_index {
                2nat
            } else {
                1nat
            })
            &&& le_at(b, 247, 8) == f.total_points
            &&& forall|r: int| 0 <= r < 15 ==> le_at(b, 255 + 8 * r, 8)
                == #[trigger] f.return_counts@[r]
        }),
{
    let b = prefix_bytes(p, f);
    let h = file_header(p, f);
    let t = header_bytes(h);
    law_header_layout(h);
    law_prefix_len(p, f);
    lemma_header_first(p, f);
    law_header_read_back(h);
    lemma_header_copied(b, t, h);
    let fmt = p.point_format;
    assert(128u8 | fmt == 128 + fmt) by (bit_vector)
        requires
            6 <= fmt <= 8,
    ;
    assert forall|r: int| 0 <= r < 15 implies le_at(b, 255 + 8 * r, 8)
        == #[trigger] f.return_counts@[r] by {
        assert(h.return_counts@[r] == f.return_counts@[r]);
    }
}

/// The records before the chunks: the COPC record at 375, the laszip record at
/// 589, then the Extra Bytes record and the coordinate system's record, as far as
/// the file has them. A reader finds the cube, the spacing, the root page and the
/// range of the GPS times in the COPC record.
#[verifier::rlimit(40)]
pub proof fn law_file_records(p: CopcParams, f: FileNumbers)
    requires
        params_ok(p),
    ensures
        ({
            let b = prefix_bytes(p, f);
            let third = 643int + p.laz_vlr@.len();
            let fourth = third + (match p.extra_bytes_vlr {
                Some(d) => 54 + d@.len(),
                None => 0,
            });
            &&& vlr_at(b, 375, "copc"@, 1, "copc info"@, b.subrange(429, 589))
            &&& le_at(b, 429, 8) == p.center@[0]
            &&& le_at(b, 437, 8) == p.center@[1]
            &&& le_at(b, 445, 8) == p.center@[2]
            &&& le_at(b, 453, 8) == p.halfsize
            &&& le_at(b, 461, 8) == p.spacing
            &&& le_at(b, 469, 8) == f.root_hier_offset
            &&& le_at(b, 477, 8) == f.root_hier_size
            &&& le_at(b, 485, 8) == f.gps_min
            &&& le_at(b, 493, 8) == f.gps_max
            &&& zeros_at(b, 501, 589)
            &&& vlr_at(b, 589, "laszip encoded"@, 22204, "laz variable chunks"@, p.laz_vlr@)
            &&& p.extra_bytes_vlr matches Some(d) ==> vlr_at(
                b,
                third,
                "LASF_Spec"@,
                4,
                "Extra Bytes Record"@,
                d@,
            )
            &&& p.wkt_crs matches Some(d) ==> vlr_at(
                b,
                fourth,
                "LASF_Projection"@,
                2112,
                "WKT"@,
                d@,
            )
        }),
{
    let b = prefix_bytes(p, f);
    let h = header_bytes(file_header(p, f));
    law_header_fields(file_header(p, f));
    let c = file_info(p, f);
    let info = info_bytes(c);
    law_info_layout(c);
    lemma_record_names();
    let first = vlr_bytes("copc"@, 1, "copc info"@, info);
    let second = vlr_bytes("laszip encoded"@, 22204, "laz variable chunks"@, p.laz_vlr@);
    let third = match p.extra_bytes_vlr {
        Some(d) => vlr_bytes("LASF_Spec"@, 4, "Extra Bytes Record"@, d@),
        None => Seq::empty(),
    };
    let fourth = match p.wkt_crs {
        Some(d) => vlr_bytes("LASF_Projection"@, 2112, "WKT"@, d@),
        None => Seq::empty(),
    };
    lemma_vlr_len("copc"@, 1, "copc info"@, info);
    lemma_vlr_len("laszip encoded"@, 22204, "laz variable chunks"@, p.laz_vlr@);
    lemma_starts_with(h, first, second, third, fourth);
    law_record_layout(b, 375, "copc"@, 1, "copc info"@, info);
    assert(b.subrange(429, 589) == info);
    lemma_info_copied(b, info);
    law_record_layout(b, 589, "laszip encoded"@, 22204, "laz variable chunks"@, p.laz_vlr@);
    let at3 = 643int + p.laz_vlr@.len();
    match p.extra_bytes_vlr {
        Some(d) => {
            lemma_vlr_len("LASF_Spec"@, 4, "Extra Bytes Record"@, d@);
            law_record_layout(b, at3, "LASF_Spec"@, 4, "Extra Bytes Record"@, d@);
        },
        None => {},
    }
    let at4 = at3 + third.len();
    match p.wkt_crs {
        Some(d) => {
            lemma_vlr_len("LASF_Projection"@, 2112, "WKT"@, d@);
            law_record_layout(b, at4, "LASF_Projection"@, 2112, "WKT"@, d@);
        },
        None => {},
    }
}

/// The records behind the chunks, which end at `end_pos`: first the hierarchy,
/// whose pages know that they start 60 bytes behind `end_pos`, then the temporal
/// index, where there is one, whose pages know where they start too. There is
/// nothing else.
pub proof fn law_file_extended_records(
    entries: Seq<HierarchyEntry>,
    end_pos: nat,
    temporal: Option<TemporalIndex>,
)
    requires
        hierarchy_bytes(entries, end_pos + 60).len() <= u64::MAX,
        temporal matches Some(t) ==> temporal_bytes(
            entry_views(t.entries@),
            t.stride,
            end_pos + 120 + hierarchy_bytes(entries, end_pos + 60).len(),
        ).len() <= u64::MAX,
    ensures
        ({
            let b = evlrs_bytes(entries, end_pos, temporal);
            let pages = hierarchy_bytes(entries, end_pos + 60);
            &&& evlr_at(b, 0, "copc"@, 1000, "copc hierarchy"@, pages)
            &&& match temporal {
                Some(t) => {
                    let index = temporal_bytes(
                        entry_views(t.entries@),
                        t.stride,
                        end_pos + 120 + pages.len(),
                    );
                    &&& b.len() == 120 + pages.len() + index.len()
                    &&& evlr_at(
                        b,
                        60int + pages.len(),
                        "copc_temporal"@,
                        1000,
                        "temporal index"@,
                        index,
                    )
                },
                None => b.len() == 60 + pages.len(),
            }
        }),
{
    let pages = hierarchy_bytes(entries, end_pos + 60);
    lemma_pages_len(entries, end_pos + 60);
    let first = evlr_bytes("copc"@, 1000, "copc hierarchy"@, pages);
    match temporal {
        Some(t) => {
            let index = temporal_bytes(
                entry_views(t.entries@),
                t.stride,
                end_pos + 120 + pages.len(),
            );
            lemma_extended_pair(pages, Some(index));
        },
        None => {
            lemma_extended_pair(pages, None);
            assert(first + Seq::<u8>::empty() =~= first);
        },
    }
}

proof fn lemma_pages_len(entries: Seq<HierarchyEntry>, start: nat)
    ensures
        hierarchy_bytes(entries, start).len() == hierarchy_len(entries),
{
    lemma_tree_bytes_len(
        entries,
        all_indices(entries.len()),
        page_boundaries(deepest_level(entries)),
        0,
        start,
    );
}

/// The record of the hierarchy, and behind it that of the index, if there is one.
#[verifier::rlimit(40)]
proof fn lemma_extended_pair(pages: Seq<u8>, index: Option<Seq<u8>>)
    requires
        pages.len() <= u64::MAX,
        index matches Some(i) ==> i.len() <= u64::MAX,
    ensures
        ({
            let first = evlr_bytes("copc"@, 1000, "copc hierarchy"@, pages);
            match index {
                None => {
                    &&& first.len() == 60 + pages.len()
                    &&& evlr_at(first, 0, "copc"@, 1000, "copc hierarchy"@, pages)
                },
                Some(i) => {
                    let second = evlr_bytes("copc_temporal"@, 1000, "temporal index"@, i);
                    let b = first + second;
                    &&& b.len() == 120 + pages.len() + i.len()
                    &&& evlr_at(b, 0, "copc"@, 1000, "copc hierarchy"@, pages)
                    &&& evlr_at(
                        b,
                        60int + pages.len(),
                        "copc_temporal"@,
                        1000,
                        "temporal index"@,
                        i,
                    )
                },
            }
        }),
{
    lemma_extended_names();
    let none = Seq::<u8>::empty();
    let first = evlr_bytes("copc"@, 1000, "copc hierarchy"@, pages);
    lemma_vlr_len("copc"@, 1000, "copc hierarchy"@, pages);
    match index {
        None => {
            lemma_starts_with(first, none, none, none, none);
            assert(first + none + none + none + none =~= first);
            law_record_layout(first, 0, "copc"@, 1000, "copc hierarchy"@, pages);
        },
        Some(i) => {
            let second = evlr_bytes("copc_temporal"@, 1000, "temporal index"@, i);
            lemma_vlr_len("copc_temporal"@, 1000, "temporal index"@, i);
            lemma_starts_with(first, second, none, none, none);
            let b = first + second;
            assert(b + none + none + none =~= b);
            law_record_layout(b, 0, "copc"@, 1000, "copc hierarchy"@, pages);
            law_record_layout(
                b,
                60int + pages.len(),
                "copc_temporal"@,
                1000,
                "temporal index"@,
                i,
            );
        },
    }
}

proof fn lemma_extended_names()
    ensures
        is_ascii_chars("copc"@) && "copc"@.len() <= 16,
        is_ascii_chars("copc hierarchy"@) && "copc hierarchy"@.len() <= 32,
        is_ascii_chars("copc_temporal"@) && "copc_temporal"@.len() <= 16,
        is_ascii_chars("temporal index"@) && "temporal index"@.len() <= 32,
{
    reveal_strlit("copc");
    reveal_strlit("copc hierarchy");
    reveal_strlit("copc_temporal");
    reveal_strlit("temporal index");
}

/// The range of the GPS times that the file states is that of its points, and
/// zero at both ends where no point has a time.
pub proof fn law_gps_range(t: Totals)
    ensures
        !is_nan(t.gps_min) && !is_nan(t.gps_max) && rank(t.gps_min) <= rank(t.gps_max)
            ==> gps_range_of(t) == (t.gps_min, t.gps_max),
        !is_nan(t.gps_min) && !is_nan(t.gps_max) && rank(t.gps_min) > rank(t.gps_max)
            ==> gps_range_of(t) == (0u64, 0u64),
{
}

} // verus!
