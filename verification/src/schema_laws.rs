//! What a reader of the Extra Bytes record can rely on: where each part of a
//! descriptor stands, that texts are read as they were written, that the bytes
//! that are hashed tell different schemas apart, and what merging does to the
//! bytes of a record.

use crate::extra_bytes::{
    any_has, descriptor, field_bytes, field_text, flag, hash_of_fields,
    law_merge_keeps_schema, law_merge_unites_stats, law_merged_range_covers, lemma_merged_max_source,
    lemma_merged_min_source, lemma_merged_parts, lemma_triple_round_trip, merged_max,
    merged_maxs, merged_min, merged_mins, merged_record, parsed, stats_of_field, triple,
    triple_bytes, without_nuls, FieldView, ParsedExtraBytes,
};
use crate::fbits::{is_nan, rank, INFINITY_BITS, NEG_INFINITY_BITS};
use crate::le::{le_value, lemma_le_bytes_len};
use std::collections::hash_map::DefaultHasher;
use vstd::prelude::*;
use vstd::std_specs::hash::DefaultHasherAdditionalSpecFns;
use vstd::utf8::{
    decode_utf8, encode_utf8, encode_utf8_decode_utf8, encode_utf8_first_scalar,
    encode_utf8_valid_utf8, valid_utf8,
};

verus! {

// The schema's hash.
/// UTF-8 does not use the byte 255.
proof fn lemma_no_mark_in_utf8(chars: Seq<char>)
    ensures
        forall|i: int| 0 <= i < encode_utf8(chars).len() ==> #[trigger] encode_utf8(chars)[i] < 255,
    decreases chars.len(),
{
    if chars.len() > 0 {
        let b = encode_utf8(chars);
        let rest = encode_utf8(chars.drop_first());
        encode_utf8_first_scalar(chars);
        lemma_no_mark_in_utf8(chars.drop_first());
        let n = vstd::utf8::encode_scalar(chars[0] as u32).len();
        assert(1 <= n <= 4);
        assert forall|i: int| 0 <= i < b.len() implies #[trigger] b[i] < 255 by {
            if i >= n {
                assert(b[i] == rest[i - n]);
            }
        }
    }
}

/// Two texts that end at the first byte 255 of the same bytes are the same.
proof fn lemma_marked_text(s: Seq<u8>, at: int, a: Seq<char>, b: Seq<char>)
    requires
        0 <= at,
        at + encode_utf8(a).len() < s.len(),
        at + encode_utf8(b).len() < s.len(),
        s.subrange(at, at + encode_utf8(a).len()) == encode_utf8(a),
        s.subrange(at, at + encode_utf8(b).len()) == encode_utf8(b),
        s[at + encode_utf8(a).len()] == 255,
        s[at + encode_utf8(b).len()] == 255,
    ensures
        a == b,
{
    let x = encode_utf8(a);
    let y = encode_utf8(b);
    lemma_no_mark_in_utf8(a);
    lemma_no_mark_in_utf8(b);
    if x.len() < y.len() {
        assert(y[x.len() as int] == s[at + x.len()]);
    }
    if y.len() < x.len() {
        assert(x[y.len() as int] == s[at + y.len()]);
    }
    assert(x == y);
    encode_utf8_decode_utf8(a);
    encode_utf8_decode_utf8(b);
}

/// The bytes of a field that are hashed tell fields apart: fields of three
/// numbers each with the same bytes are the same in every part.
#[verifier::rlimit(40)]
pub proof fn law_field_bytes_tell_fields_apart(a: FieldView, b: FieldView)
    requires
        a.scale.len() == 3,
        a.offset.len() == 3,
        a.no_data.len() == 3,
        b.scale.len() == 3,
        b.offset.len() == 3,
        b.no_data.len() == 3,
        field_bytes(a) == field_bytes(b),
    ensures
        a.data_type == b.data_type,
        a.name == b.name,
        a.description == b.description,
        a.options_structural == b.options_structural,
        a.scale == b.scale,
        a.offset == b.offset,
        a.no_data == b.no_data,
        a == b,
{
    broadcast use lemma_le_bytes_len;

    let s = field_bytes(a);
    let (na, nb) = (encode_utf8(a.name), encode_utf8(b.name));
    let (da, db) = (encode_utf8(a.description), encode_utf8(b.description));
    assert(triple_bytes(a.scale).len() == 24 && triple_bytes(b.scale).len() == 24);
    assert(triple_bytes(a.offset).len() == 24 && triple_bytes(b.offset).len() == 24);
    assert(triple_bytes(a.no_data).len() == 24 && triple_bytes(b.no_data).len() == 24);
    assert(s.len() == na.len() + da.len() + 76);
    assert(field_bytes(b).len() == nb.len() + db.len() + 76);
    assert(s[0] == a.data_type);
    assert(field_bytes(b)[0] == b.data_type);
    assert(s.subrange(1, 1int + na.len()) =~= na);
    assert(field_bytes(b).subrange(1, 1int + nb.len()) =~= nb);
    assert(s[1int + na.len()] == 255);
    assert(field_bytes(b)[1int + nb.len()] == 255);
    lemma_marked_text(s, 1, a.name, b.name);
    let at: int = 2int + na.len();
    assert(s.subrange(at, at + da.len()) =~= da);
    assert(field_bytes(b).subrange(at, at + db.len()) =~= db);
    assert(s[at + da.len()] == 255);
    assert(field_bytes(b)[at + db.len()] == 255);
    lemma_marked_text(s, at, a.description, b.description);
    let o: int = at + da.len() + 1;
    assert(s[o] == a.options_structural);
    assert(field_bytes(b)[o] == b.options_structural);
    assert(s.subrange(o + 1, o + 25) =~= triple_bytes(a.scale));
    assert(field_bytes(b).subrange(o + 1, o + 25) =~= triple_bytes(b.scale));
    assert(s.subrange(o + 25, o + 49) =~= triple_bytes(a.offset));
    assert(field_bytes(b).subrange(o + 25, o + 49) =~= triple_bytes(b.offset));
    assert(s.subrange(o + 49, o + 73) =~= triple_bytes(a.no_data));
    assert(field_bytes(b).subrange(o + 49, o + 73) =~= triple_bytes(b.no_data));
    lemma_triple_round_trip(a.scale);
    lemma_triple_round_trip(b.scale);
    lemma_triple_round_trip(a.offset);
    lemma_triple_round_trip(b.offset);
    lemma_triple_round_trip(a.no_data);
    lemma_triple_round_trip(b.no_data);
    assert(a =~= b);
}

/// What is written to the hasher for a schema: one write per field.
pub open spec fn hashed_writes(fields: Seq<FieldView>) -> Seq<Seq<u8>> {
    fields.map_values(|f: FieldView| field_bytes(f))
}

/// The numbers of every field come in threes.
pub open spec fn triples(fields: Seq<FieldView>) -> bool {
    forall|i: int|
        0 <= i < fields.len() ==> (#[trigger] fields[i]).scale.len() == 3
            && fields[i].offset.len() == 3 && fields[i].no_data.len() == 3
}

/// The hash of a schema is that of what is written for it, and different schemas
/// write differently: where two records are hashed from the same writes, they
/// have the same fields in the same order, alike in every part.
pub proof fn law_hash_input_is_the_schema(a: Seq<FieldView>, b: Seq<FieldView>)
    requires
        triples(a),
        triples(b),
    ensures
        hash_of_fields(a) == DefaultHasher::spec_finish(hashed_writes(a)),
        hashed_writes(a) == hashed_writes(b) <==> a == b,
{
    let (x, y) = (hashed_writes(a), hashed_writes(b));
    assert(x =~= a.map_values(|f: FieldView| field_bytes(f)));
    if x == y {
        assert(a.len() == b.len());
        assert forall|i: int| 0 <= i < a.len() implies a[i] == b[i] by {
            assert(x[i] == field_bytes(a[i]));
            assert(y[i] == field_bytes(b[i]));
            law_field_bytes_tell_fields_apart(a[i], b[i]);
        }
        assert(a =~= b);
    }
}

// Reading descriptors.
/// Descriptor `i` starts at byte `192 * i`. The data type is its byte 2 and the
/// options its byte 3, of which 8 and 16 belong to the schema and 1, 2 and 4 to
/// the statistics. The name is in bytes 4 to 36 and the description in bytes 160
/// to 192. Triples of numbers stand at 40 (missing data), 64 (minimum), 88
/// (maximum), 112 (scale) and 136 (offset).
#[verifier::rlimit(40)]
pub proof fn law_descriptor_layout(payload: Seq<u8>, n: nat, i: int, a: int)
    requires
        192 * n <= payload.len(),
        0 <= i < n,
        0 <= a < 3,
    ensures
        parsed(payload, n).0.len() == n,
        parsed(payload, n).1.len() == n,
        ({
            let at = 192 * i;
            let f = parsed(payload, n).0[i];
            let s = parsed(payload, n).1[i];
            &&& f.data_type == payload[at + 2]
            &&& f.options_structural == payload[at + 3] & 24
            &&& s.options_stats == payload[at + 3] & 7
            &&& f.name == field_text(payload.subrange(at + 4, at + 36))
            &&& f.description == field_text(payload.subrange(at + 160, at + 192))
            &&& f.no_data.len() == 3 && s.min.len() == 3 && s.max.len() == 3
            &&& f.scale.len() == 3 && f.offset.len() == 3
            &&& f.no_data[a] == le_value(payload.subrange(at + 40 + 8 * a, at + 48 + 8 * a))
            &&& s.min[a] == le_value(payload.subrange(at + 64 + 8 * a, at + 72 + 8 * a))
            &&& s.max[a] == le_value(payload.subrange(at + 88 + 8 * a, at + 96 + 8 * a))
            &&& f.scale[a] == le_value(payload.subrange(at + 112 + 8 * a, at + 120 + 8 * a))
            &&& f.offset[a] == le_value(payload.subrange(at + 136 + 8 * a, at + 144 + 8 * a))
        }),
{
    let at = 192 * i;
    let d = descriptor(payload, i);
    assert(d =~= payload.subrange(at, at + 192));
    assert(d.subrange(4, 36) =~= payload.subrange(at + 4, at + 36));
    assert(d.subrange(160, 192) =~= payload.subrange(at + 160, at + 192));
    lemma_triple_at(payload, i, 40, a);
    lemma_triple_at(payload, i, 64, a);
    lemma_triple_at(payload, i, 88, a);
    lemma_triple_at(payload, i, 112, a);
    lemma_triple_at(payload, i, 136, a);
}

/// Eight bytes hold a number below 2^64.
proof fn lemma_eight_bytes(b: Seq<u8>)
    requires
        b.len() == 8,
    ensures
        le_value(b) <= u64::MAX,
{
    crate::le::lemma_le_value_bound(b);
    crate::le::lemma_pow256_values();
}

/// A number of a triple of descriptor `i`.
proof fn lemma_triple_at(payload: Seq<u8>, i: int, off: int, a: int)
    requires
        0 <= i,
        192 * i + 192 <= payload.len(),
        0 <= off <= 168,
        0 <= a < 3,
    ensures
        triple(descriptor(payload, i), off)[a] == le_value(
            payload.subrange(192 * i + off + 8 * a, 192 * i + off + 8 + 8 * a),
        ),
{
    let at = 192 * i + off + 8 * a;
    let d = descriptor(payload, i);
    assert(d.subrange(off + 8 * a, off + 8 * a + 8) =~= payload.subrange(at, at + 8));
    lemma_eight_bytes(payload.subrange(at, at + 8));
}

/// `n` NUL characters.
spec fn nuls(n: nat) -> Seq<char> {
    Seq::new(n, |i: int| '\0')
}

proof fn lemma_utf8_of_sum(a: Seq<char>, b: Seq<char>)
    ensures
        encode_utf8(a + b) == encode_utf8(a) + encode_utf8(b),
    decreases a.len(),
{
    if a.len() == 0 {
        assert(a + b =~= b);
        assert(encode_utf8(a) + encode_utf8(b) =~= encode_utf8(b));
    } else {
        lemma_utf8_of_sum(a.drop_first(), b);
        assert((a + b).drop_first() =~= a.drop_first() + b);
        assert(encode_utf8(a + b) =~= encode_utf8(a) + encode_utf8(b));
    }
}

proof fn lemma_utf8_of_nuls(n: nat)
    ensures
        encode_utf8(nuls(n)) == Seq::new(n, |i: int| 0u8),
    decreases n,
{
    if n == 0 {
        assert(encode_utf8(nuls(0)) =~= Seq::new(0, |i: int| 0u8));
    } else {
        lemma_utf8_of_nuls((n - 1) as nat);
        assert(nuls(n).drop_first() =~= nuls((n - 1) as nat));
        assert((0u32 & 0x7F) as u8 == 0u8) by (bit_vector);
        assert(nuls(n)[0] as u32 == 0u32);
        assert(encode_utf8(nuls(n)) =~= Seq::new(n, |i: int| 0u8));
    }
}

proof fn lemma_nuls_trimmed(text: Seq<char>, n: nat)
    requires
        text.len() == 0 || text.last() != '\0',
    ensures
        without_nuls(text + nuls(n)) == text,
    decreases n,
{
    if n == 0 {
        assert(text + nuls(0) =~= text);
    } else {
        lemma_nuls_trimmed(text, (n - 1) as nat);
        assert((text + nuls(n)).drop_last() =~= text + nuls((n - 1) as nat));
        assert((text + nuls(n)).last() == '\0');
    }
}

/// A text is read as it was written: its UTF-8 bytes, filled up with zeros to the
/// width of the field, give the text back, where it does not end with a NUL
/// character itself. Bytes that are not UTF-8 give the empty text.
pub proof fn law_text_read_back(text: Seq<char>, fill: nat, other: Seq<u8>)
    requires
        text.len() == 0 || text.last() != '\0',
        !valid_utf8(other),
    ensures
        field_text(encode_utf8(text) + Seq::new(fill, |i: int| 0u8)) == text,
        field_text(other).len() == 0,
{
    lemma_utf8_of_sum(text, nuls(fill));
    lemma_utf8_of_nuls(fill);
    encode_utf8_valid_utf8(text + nuls(fill));
    encode_utf8_decode_utf8(text + nuls(fill));
    lemma_nuls_trimmed(text, fill);
}

// Merging.
/// File `f` declares the statistic `bit` for field `i`.
pub open spec fn declares(files: Seq<ParsedExtraBytes>, f: int, i: int, bit: u8) -> bool {
    0 <= f < files.len() && files[f].stats@[i].options_stats & bit != 0
}

/// Some file declares the statistic `bit` for field `i`.
pub open spec fn declared(files: Seq<ParsedExtraBytes>, i: int, bit: u8) -> bool {
    exists|f: int| #[trigger] declares(files, f, i, bit)
}

proof fn lemma_declared(files: Seq<ParsedExtraBytes>, i: int, bit: u8)
    ensures
        declared(files, i, bit) == any_has(stats_of_field(files, i), bit),
{
    let all = stats_of_field(files, i);
    if declared(files, i, bit) {
        let f = choose|f: int| #[trigger] declares(files, f, i, bit);
        assert(all[f].options_stats & bit != 0);
    }
    if any_has(all, bit) {
        let f = choose|f: int| 0 <= f < all.len() && (#[trigger] all[f]).options_stats & bit != 0;
        assert(declares(files, f, i, bit));
    }
}

/// Merging changes the options byte and the 48 bytes of the minimum and maximum
/// of a descriptor, and no other. The options keep what belongs to the schema,
/// and name a statistic exactly where some file declares it.
#[verifier::rlimit(40)]
pub proof fn law_merged_record_bytes(
    canonical: Seq<u8>,
    files: Seq<ParsedExtraBytes>,
    n: nat,
    i: int,
)
    requires
        192 * n <= canonical.len(),
        0 <= i < n,
    ensures
        merged_record(canonical, files, n).len() == 192 * n,
        ({
            let m = merged_record(canonical, files, n);
            let at = 192 * i;
            &&& forall|k: int|
                at <= k < at + 192 && k != at + 3 && !(at + 64 <= k < at + 112)
                    ==> #[trigger] m[k] == canonical[k]
            &&& m[at + 3] & 24 == canonical[at + 3] & 24
            &&& m[at + 3] & 224 == 0
            &&& m[at + 3] & 1 != 0 <==> declared(files, i, 1)
            &&& m[at + 3] & 2 != 0 <==> declared(files, i, 2)
            &&& m[at + 3] & 4 != 0 <==> declared(files, i, 4)
            &&& !declared(files, i, 2) ==> m.subrange(at + 64, at + 88) == canonical.subrange(
                at + 64,
                at + 88,
            )
            &&& !declared(files, i, 4) ==> m.subrange(at + 88, at + 112) == canonical.subrange(
                at + 88,
                at + 112,
            )
        }),
{
    broadcast use lemma_le_bytes_len;

    let m = merged_record(canonical, files, n);
    let at = 192 * i;
    let d = descriptor(canonical, i);
    let stats = stats_of_field(files, i);
    lemma_merged_parts(canonical, files, n);
    law_merge_keeps_schema(d, stats);
    let e = descriptor(m, i);
    assert(e =~= m.subrange(at, at + 192));
    assert(d =~= canonical.subrange(at, at + 192));
    lemma_declared(files, i, 1);
    lemma_declared(files, i, 2);
    lemma_declared(files, i, 4);
    let (o, p) = (d[3], e[3]);
    let a = flag(any_has(stats, 1), 1);
    let b = flag(any_has(stats, 2), 2);
    let c = flag(any_has(stats, 4), 4);
    assert(p == (o & 24) | a | b | c);
    assert(p & 24 == o & 24 && p & 224 == 0 && (p & 1 != 0 <==> a != 0) && (p & 2 != 0 <==> b != 0)
        && (p & 4 != 0 <==> c != 0)) by (bit_vector)
        requires
            p == (o & 24) | a | b | c,
            a == 0 || a == 1,
            b == 0 || b == 2,
            c == 0 || c == 4,
    ;
    assert(m[at + 3] == p && canonical[at + 3] == o);
    assert forall|k: int|
        at <= k < at + 192 && k != at + 3 && !(at + 64 <= k < at + 112) implies #[trigger] m[k]
        == canonical[k] by {
        assert(m[k] == e[k - at]);
        assert(canonical[k] == d[k - at]);
    }
    assert(m.subrange(at + 64, at + 88) =~= e.subrange(64, 88));
    assert(m.subrange(at + 88, at + 112) =~= e.subrange(88, 112));
    assert(canonical.subrange(at + 64, at + 88) =~= d.subrange(64, 88));
    assert(canonical.subrange(at + 88, at + 112) =~= d.subrange(88, 112));
    if !declared(files, i, 2) {
        assert(e.subrange(64, 88) =~= d.subrange(64, 88));
    }
    if !declared(files, i, 4) {
        assert(e.subrange(88, 112) =~= d.subrange(88, 112));
    }
}

/// The merged minimum of a statistic that some file declares lies at or below
/// that of every file that declares it, and is one of theirs, or positive
/// infinity; the merged maximum lies at or above, and is one of theirs, or
/// negative infinity. Files that do not declare a statistic do not count.
#[verifier::rlimit(40)]
pub proof fn law_merged_record_range(
    canonical: Seq<u8>,
    files: Seq<ParsedExtraBytes>,
    n: nat,
    i: int,
    a: int,
)
    requires
        192 * n <= canonical.len(),
        0 <= i < n,
        0 <= a < 3,
    ensures
        ({
            let m = merged_record(canonical, files, n);
            let at = 192 * i;
            let lo = le_value(m.subrange(at + 64 + 8 * a, at + 72 + 8 * a)) as u64;
            let hi = le_value(m.subrange(at + 88 + 8 * a, at + 96 + 8 * a)) as u64;
            &&& declared(files, i, 2) ==> {
                &&& forall|f: int| #[trigger]
                    declares(files, f, i, 2) && !is_nan(files[f].stats@[i].min@[a]) ==> rank(lo)
                        <= rank(files[f].stats@[i].min@[a])
                &&& lo == 0x7FF0_0000_0000_0000 || exists|f: int| #[trigger]
                    declares(files, f, i, 2) && !is_nan(files[f].stats@[i].min@[a])
                        && files[f].stats@[i].min@[a] == lo
            }
            &&& declared(files, i, 4) ==> {
                &&& forall|f: int| #[trigger]
                    declares(files, f, i, 4) && !is_nan(files[f].stats@[i].max@[a]) ==> rank(hi)
                        >= rank(files[f].stats@[i].max@[a])
                &&& hi == 0xFFF0_0000_0000_0000 || exists|f: int| #[trigger]
                    declares(files, f, i, 4) && !is_nan(files[f].stats@[i].max@[a])
                        && files[f].stats@[i].max@[a] == hi
            }
        }),
{
    let m = merged_record(canonical, files, n);
    let d = descriptor(canonical, i);
    let all = stats_of_field(files, i);
    let len = all.len();
    lemma_merged_parts(canonical, files, n);
    law_merge_unites_stats(d, all);
    lemma_triple_at(m, i, 64, a);
    lemma_triple_at(m, i, 88, a);
    lemma_declared(files, i, 2);
    lemma_declared(files, i, 4);
    lemma_merged_min_source(all, a, len);
    lemma_merged_max_source(all, a, len);
    let e = descriptor(m, i);
    if declared(files, i, 2) {
        assert(triple(e, 64)[a] == merged_mins(all)[a]);
        let lo = merged_min(all, a, len);
        assert forall|f: int| #[trigger]
            declares(files, f, i, 2) && !is_nan(files[f].stats@[i].min@[a]) implies rank(lo)
            <= rank(files[f].stats@[i].min@[a]) by {
            assert(all[f] == files[f].stats@[i]@);
            law_merged_range_covers(all, a, f, len);
        }
        if lo != INFINITY_BITS {
            let f = choose|f: int|
                {
                    &&& 0 <= f < len
                    &&& (#[trigger] all[f]).options_stats & 2 != 0
                    &&& !is_nan(all[f].min[a])
                    &&& lo == all[f].min[a]
                };
            assert(declares(files, f, i, 2));
        }
    }
    if declared(files, i, 4) {
        assert(triple(e, 88)[a] == merged_maxs(all)[a]);
        let hi = merged_max(all, a, len);
        assert forall|f: int| #[trigger]
            declares(files, f, i, 4) && !is_nan(files[f].stats@[i].max@[a]) implies rank(hi)
            >= rank(files[f].stats@[i].max@[a]) by {
            assert(all[f] == files[f].stats@[i]@);
            law_merged_range_covers(all, a, f, len);
        }
        if hi != NEG_INFINITY_BITS {
            let f = choose|f: int|
                {
                    &&& 0 <= f < len
                    &&& (#[trigger] all[f]).options_stats & 4 != 0
                    &&& !is_nan(all[f].max[a])
                    &&& hi == all[f].max[a]
                };
            assert(declares(files, f, i, 4));
        }
    }
}

} // verus!
