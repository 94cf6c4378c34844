//! LAS 1.4 Extra Bytes: parsing of the descriptors, comparison of schemas, and
//! merging of statistics.
//!
//! The Extra Bytes record declares the bytes that trail each point as a sequence
//! of 192-byte descriptors. Each describes one field: its name, data type and
//! how values are decoded. It may also carry statistics (min, max) that the
//! producer computed from one file's points. Files of one logical schema can be
//! merged although their statistics differ: the schema has to agree, the
//! statistics are united.

use crate::fbits::{
    is_nan, larger, num_max, num_min, rank, smaller, INFINITY_BITS, NEG_INFINITY_BITS, SIGN_BIT,
};
use crate::le::{
    le_bytes, le_value, lemma_le_bytes_len, lemma_le_value_of_bytes, lemma_pow256_values,
    push_bytes, push_u64, read_u64,
};
use crate::text::text_of_utf8;
use std::collections::hash_map::DefaultHasher;
use std::hash::Hasher;
use vstd::prelude::*;
use vstd::std_specs::hash::DefaultHasherAdditionalSpecFns;
use vstd::string::StrSliceExecFns;
use vstd::utf8::{decode_utf8, encode_utf8, valid_utf8};

verus! {

/// Size of one descriptor.
pub const DESCRIPTOR_SIZE: usize = 192;

/// Bits of a descriptor's `options` byte.
pub const OPT_NO_DATA: u8 = 1;

pub const OPT_MIN: u8 = 2;

pub const OPT_MAX: u8 = 4;

pub const OPT_SCALE: u8 = 8;

pub const OPT_OFFSET: u8 = 16;

/// The bits that say which statistics are there.
pub const OPT_STATS: u8 = 7;

/// The bits that change how values are decoded.
pub const OPT_STRUCTURAL: u8 = 24;

/// The name of a data type code.
pub open spec fn code_name(data_type: u8) -> Seq<char> {
    if data_type == 0 {
        "undocumented"@
    } else if data_type == 1 {
        "u8"@
    } else if data_type == 2 {
        "i8"@
    } else if data_type == 3 {
        "u16"@
    } else if data_type == 4 {
        "i16"@
    } else if data_type == 5 {
        "u32"@
    } else if data_type == 6 {
        "i32"@
    } else if data_type == 7 {
        "u64"@
    } else if data_type == 8 {
        "i64"@
    } else if data_type == 9 {
        "f32"@
    } else if data_type == 10 {
        "f64"@
    } else {
        "?"@
    }
}

/// Human-readable name for a data type code.
pub fn data_type_name(data_type: u8) -> (name: &'static str)
    ensures
        name@ == code_name(data_type),
{
    match data_type {
        0 => "undocumented",
        1 => "u8",
        2 => "i8",
        3 => "u16",
        4 => "i16",
        5 => "u32",
        6 => "i32",
        7 => "u64",
        8 => "i64",
        9 => "f32",
        10 => "f64",
        _ => "?",
    }
}

/// The parts of one field that define the bytes per point and how values are
/// decoded from them. Numbers are bit patterns of doubles.
#[derive(Debug)]
pub struct FieldSchema {
    pub data_type: u8,
    /// Field name, with trailing NUL characters trimmed.
    pub name: String,
    /// Field description, with trailing NUL characters trimmed.
    pub description: String,
    /// The scale and offset bits of the descriptor's `options` byte.
    pub options_structural: u8,
    pub scale: [u64; 3],
    pub offset: [u64; 3],
    /// Values that stand for missing data.
    pub no_data: [u64; 3],
}

/// What a field's schema is.
#[verifier::ext_equal]
pub struct FieldView {
    pub data_type: u8,
    pub name: Seq<char>,
    pub description: Seq<char>,
    pub options_structural: u8,
    pub scale: Seq<u64>,
    pub offset: Seq<u64>,
    pub no_data: Seq<u64>,
}

impl View for FieldSchema {
    type V = FieldView;

    open spec fn view(&self) -> FieldView {
        FieldView {
            data_type: self.data_type,
            name: self.name@,
            description: self.description@,
            options_structural: self.options_structural,
            scale: self.scale@,
            offset: self.offset@,
            no_data: self.no_data@,
        }
    }
}

/// The statistics of one field in one file.
#[derive(Debug, Clone, Copy)]
pub struct FieldStats {
    /// Which statistics the file declares.
    pub options_stats: u8,
    pub min: [u64; 3],
    pub max: [u64; 3],
}

/// What a field's statistics are.
#[verifier::ext_equal]
pub struct StatsView {
    pub options_stats: u8,
    pub min: Seq<u64>,
    pub max: Seq<u64>,
}

impl View for FieldStats {
    type V = StatsView;

    open spec fn view(&self) -> StatsView {
        StatsView { options_stats: self.options_stats, min: self.min@, max: self.max@ }
    }
}

/// A parsed Extra Bytes record: the schema and, per field, the statistics.
#[derive(Debug)]
pub struct ParsedExtraBytes {
    pub fields: Vec<FieldSchema>,
    pub stats: Vec<FieldStats>,
}

/// The views of several fields.
pub open spec fn field_views(f: Seq<FieldSchema>) -> Seq<FieldView> {
    f.map_values(|x: FieldSchema| x@)
}

/// The views of several fields' statistics.
pub open spec fn stats_views(s: Seq<FieldStats>) -> Seq<StatsView> {
    s.map_values(|x: FieldStats| x@)
}

impl View for ParsedExtraBytes {
    type V = (Seq<FieldView>, Seq<StatsView>);

    open spec fn view(&self) -> (Seq<FieldView>, Seq<StatsView>) {
        (field_views(self.fields@), stats_views(self.stats@))
    }
}

/// A record whose length is not a whole number of descriptors.
#[derive(Debug, Clone, Copy, PartialEq, Eq, Structural)]
pub struct BadDescriptorLength {
    pub length: usize,
}

/// A text without the NUL characters at its end.
pub open spec fn without_nuls(s: Seq<char>) -> Seq<char>
    decreases s.len(),
{
    if s.len() > 0 && s.last() == '\0' {
        without_nuls(s.drop_last())
    } else {
        s
    }
}

/// The text of a fixed-width field: empty where it is not valid UTF-8.
pub open spec fn field_text(bytes: Seq<u8>) -> Seq<char> {
    if valid_utf8(bytes) {
        without_nuls(decode_utf8(bytes))
    } else {
        Seq::empty()
    }
}

/// The text of a fixed-width field, with trailing NUL characters trimmed. A
/// field that is not valid UTF-8 counts as empty.
pub fn trim_nul(buf: &[u8]) -> (s: String)
    ensures
        s@ == field_text(buf@),
{
    let text = match text_of_utf8(buf) {
        Some(t) => t,
        None => {
            let empty = String::new();
            assert(empty@ =~= Seq::<char>::empty());
            return empty;
        },
    };
    let mut n: usize = text.as_str().unicode_len();
    assert(text@.take(n as int) =~= text@);
    while n > 0 && text.as_str().get_char(n - 1) == '\0'
        invariant
            n <= text@.len(),
            without_nuls(text@) == without_nuls(text@.take(n as int)),
        decreases n,
    {
        assert(text@.take(n as int).drop_last() =~= text@.take(n - 1));
        n = n - 1;
    }
    let trimmed = text.as_str().substring_char(0, n).to_owned();
    assert(trimmed@ =~= text@.take(n as int));
    trimmed
}

/// Three numbers that start at `at`.
pub open spec fn triple(d: Seq<u8>, at: int) -> Seq<u64> {
    Seq::new(3, |i: int| le_value(d.subrange(at + 8 * i, at + 8 * i + 8)) as u64)
}

/// The schema of the field that a descriptor describes.
pub open spec fn descriptor_field(d: Seq<u8>) -> FieldView {
    FieldView {
        data_type: d[2],
        name: field_text(d.subrange(4, 36)),
        description: field_text(d.subrange(160, 192)),
        options_structural: d[3] & OPT_STRUCTURAL,
        scale: triple(d, 112),
        offset: triple(d, 136),
        no_data: triple(d, 40),
    }
}

/// The statistics that a descriptor carries.
pub open spec fn descriptor_stats(d: Seq<u8>) -> StatsView {
    StatsView {
        options_stats: d[3] & OPT_STATS,
        min: triple(d, 64),
        max: triple(d, 88),
    }
}

/// Descriptor `i` of a record.
pub open spec fn descriptor(payload: Seq<u8>, i: int) -> Seq<u8> {
    payload.subrange(i * DESCRIPTOR_SIZE, i * DESCRIPTOR_SIZE + DESCRIPTOR_SIZE)
}

/// The fields and statistics of the first `n` descriptors.
pub open spec fn parsed(payload: Seq<u8>, n: nat) -> (Seq<FieldView>, Seq<StatsView>) {
    (
        Seq::new(n, |i: int| descriptor_field(descriptor(payload, i))),
        Seq::new(n, |i: int| descriptor_stats(descriptor(payload, i))),
    )
}

fn read_triple(payload: &[u8], at: usize, Ghost(d): Ghost<Seq<u8>>, Ghost(off): Ghost<int>) -> (r:
    [u64; 3])
    requires
        at + 24 <= payload@.len(),
        0 <= off <= at,
        d.len() == DESCRIPTOR_SIZE,
        at + 24 <= off + DESCRIPTOR_SIZE <= payload@.len(),
        d == payload@.subrange(off, off + DESCRIPTOR_SIZE),
    ensures
        r@ == triple(d, at - off),
{
    assert(payload.len() <= usize::MAX);
    let a: u64 = read_u64(payload, at);
    let b: u64 = read_u64(payload, at + 8);
    let c: u64 = read_u64(payload, at + 16);
    let r = [a, b, c];
    proof {
        let o = at - off;
        assert(payload@.subrange(at as int, at + 8) =~= d.subrange(o, o + 8));
        assert(payload@.subrange(at + 8, at + 16) =~= d.subrange(o + 8, o + 16));
        assert(payload@.subrange(at + 16, at + 24) =~= d.subrange(o + 16, o + 24));
        assert(r@ =~= triple(d, o));
    }
    r
}

impl ParsedExtraBytes {
    /// Each field has its statistics.
    pub open spec fn wf(self) -> bool {
        self.fields@.len() == self.stats@.len()
    }

    /// Parses the record. Its length must be a multiple of 192 bytes; anything
    /// else is malformed.
    pub fn parse(payload: &[u8]) -> (r: Result<ParsedExtraBytes, BadDescriptorLength>)
        ensures
            match r {
                Ok(p) => {
                    &&& payload@.len() % 192 == 0
                    &&& p.wf()
                    &&& p@ == parsed(payload@, payload@.len() / 192)
                },
                Err(e) => {
                    &&& payload@.len() % 192 != 0
                    &&& e.length == payload@.len()
                },
            },
    {
        let len: usize = payload.len();
        if len % DESCRIPTOR_SIZE != 0 {
            return Err(BadDescriptorLength { length: len });
        }
        let n: usize = len / DESCRIPTOR_SIZE;
        let ghost want = parsed(payload@, n as nat);
        let mut fields: Vec<FieldSchema> = Vec::new();
        let mut stats: Vec<FieldStats> = Vec::new();
        let mut i: usize = 0;
        while i < n
            invariant
                i <= n,
                len == payload@.len() == n * 192,
                want == parsed(payload@, n as nat),
                fields@.len() == i,
                stats@.len() == i,
                field_views(fields@) =~= want.0.take(i as int),
                stats_views(stats@) =~= want.1.take(i as int),
            decreases n - i,
        {
            let off: usize = i * DESCRIPTOR_SIZE;
            let ghost d = descriptor(payload@, i as int);
            let ghost o = off as int;
            let options: u8 = payload[off + 3];
            let name = trim_nul(vstd::slice::slice_subrange(payload, off + 4, off + 36));
            let description = trim_nul(
                vstd::slice::slice_subrange(payload, off + 160, off + 192),
            );
            let field = FieldSchema {
                data_type: payload[off + 2],
                name,
                description,
                options_structural: options & OPT_STRUCTURAL,
                scale: read_triple(payload, off + 112, Ghost(d), Ghost(o)),
                offset: read_triple(payload, off + 136, Ghost(d), Ghost(o)),
                no_data: read_triple(payload, off + 40, Ghost(d), Ghost(o)),
            };
            let stat = FieldStats {
                options_stats: options & OPT_STATS,
                min: read_triple(payload, off + 64, Ghost(d), Ghost(o)),
                max: read_triple(payload, off + 88, Ghost(d), Ghost(o)),
            };
            proof {
                assert(payload@.subrange(o + 4, o + 36) =~= d.subrange(4, 36));
                assert(payload@.subrange(o + 160, o + 192) =~= d.subrange(160, 192));
                assert(field@ =~= descriptor_field(d));
                assert(stat@ =~= descriptor_stats(d));
                assert(field_views(fields@.push(field)) =~= field_views(fields@).push(field@));
                assert(stats_views(stats@.push(stat)) =~= stats_views(stats@).push(stat@));
            }
            fields.push(field);
            stats.push(stat);
            i = i + 1;
        }
        proof {
            assert(want.0.take(n as int) =~= want.0);
            assert(want.1.take(n as int) =~= want.1);
            assert(payload@.len() / 192 == n);
        }
        Ok(ParsedExtraBytes { fields, stats })
    }
}

// The schema's hash.
/// Three numbers, eight bytes each.
pub open spec fn triple_bytes(t: Seq<u64>) -> Seq<u8> {
    le_bytes(t[0] as nat, 8) + le_bytes(t[1] as nat, 8) + le_bytes(t[2] as nat, 8)
}

/// The bytes of a field that are hashed: all of its schema. Texts end with a
/// byte that does not occur in UTF-8.
pub open spec fn field_bytes(f: FieldView) -> Seq<u8> {
    seq![f.data_type] + encode_utf8(f.name) + seq![0xFFu8] + encode_utf8(f.description)
        + seq![0xFFu8] + seq![f.options_structural] + triple_bytes(f.scale) + triple_bytes(
        f.offset,
    ) + triple_bytes(f.no_data)
}

/// The hash of a schema.
pub open spec fn hash_of_fields(fields: Seq<FieldView>) -> u64 {
    DefaultHasher::spec_finish(fields.map_values(|f: FieldView| field_bytes(f)))
}

fn push_triple(out: &mut Vec<u8>, t: &[u64; 3])
    ensures
        final(out)@ == old(out)@ + triple_bytes(t@),
{
    push_u64(out, t[0]);
    push_u64(out, t[1]);
    push_u64(out, t[2]);
    assert(out@ =~= old(out)@ + triple_bytes(t@));
}

/// Hash of a schema. It covers the fields' schemas and nothing else, so files
/// of one logical schema have the same hash whatever their statistics are.
pub fn schema_hash(parsed: &ParsedExtraBytes) -> (h: u64)
    ensures
        h == hash_of_fields(parsed@.0),
{
    let ghost fields = parsed@.0;
    let ghost value = |f: FieldView| field_bytes(f);
    let mut h = DefaultHasher::new();
    let mut i: usize = 0;
    assert(fields.take(0).map_values(value) =~= Seq::<Seq<u8>>::empty());
    while i < parsed.fields.len()
        invariant
            i <= parsed.fields@.len(),
            fields == field_views(parsed.fields@),
            value == (|f: FieldView| field_bytes(f)),
            h@ == fields.take(i as int).map_values(value),
        decreases parsed.fields@.len() - i,
    {
        let f = &parsed.fields[i];
        let mut bytes: Vec<u8> = Vec::new();
        bytes.push(f.data_type);
        push_bytes(&mut bytes, f.name.as_str().as_bytes());
        bytes.push(0xFF);
        push_bytes(&mut bytes, f.description.as_str().as_bytes());
        bytes.push(0xFF);
        bytes.push(f.options_structural);
        push_triple(&mut bytes, &f.scale);
        push_triple(&mut bytes, &f.offset);
        push_triple(&mut bytes, &f.no_data);
        proof {
            assert(bytes@ =~= field_bytes(f@));
            assert(fields.take(i + 1) =~= fields.take(i as int).push(f@));
            assert(fields.take(i + 1).map_values(value) =~= fields.take(i as int).map_values(
                value,
            ).push(bytes@));
        }
        h.write(bytes.as_slice());
        i = i + 1;
    }
    assert(fields.take(i as int) =~= fields);
    h.finish()
}

/// Hash of some bytes, the same for the same bytes in every file.
pub fn bytes_hash(bytes: &[u8]) -> (r: u64)
    ensures
        r == DefaultHasher::spec_finish(seq![bytes@]),
{
    let mut h = DefaultHasher::new();
    h.write(bytes);
    assert(h@ =~= seq![bytes@]);
    h.finish()
}

// Statistics.
/// The smallest of the minima that the first `n` files declare for one axis.
pub open spec fn merged_min(stats: Seq<StatsView>, axis: int, n: nat) -> u64
    decreases n,
{
    if n == 0 {
        INFINITY_BITS
    } else {
        let m = merged_min(stats, axis, (n - 1) as nat);
        if stats[n - 1].options_stats & OPT_MIN != 0 {
            num_min(m, stats[n - 1].min[axis])
        } else {
            m
        }
    }
}

/// The largest of the maxima that the first `n` files declare for one axis.
pub open spec fn merged_max(stats: Seq<StatsView>, axis: int, n: nat) -> u64
    decreases n,
{
    if n == 0 {
        NEG_INFINITY_BITS
    } else {
        let m = merged_max(stats, axis, (n - 1) as nat);
        if stats[n - 1].options_stats & OPT_MAX != 0 {
            num_max(m, stats[n - 1].max[axis])
        } else {
            m
        }
    }
}

/// Whether any file declares the statistic `bit`.
pub open spec fn any_has(stats: Seq<StatsView>, bit: u8) -> bool {
    exists|i: int| 0 <= i < stats.len() && (#[trigger] stats[i]).options_stats & bit != 0
}

/// `bit` where the flag is set.
pub open spec fn flag(set: bool, bit: u8) -> u8 {
    if set {
        bit
    } else {
        0
    }
}

/// The options byte after merging: how values are decoded stays, the statistics
/// are those that any file has.
pub open spec fn merged_options(options: u8, stats: Seq<StatsView>) -> u8 {
    (options & OPT_STRUCTURAL) | flag(any_has(stats, OPT_NO_DATA), OPT_NO_DATA) | flag(
        any_has(stats, OPT_MIN),
        OPT_MIN,
    ) | flag(any_has(stats, OPT_MAX), OPT_MAX)
}

/// The merged minima of the three axes.
pub open spec fn merged_mins(stats: Seq<StatsView>) -> Seq<u64> {
    Seq::new(3, |a: int| merged_min(stats, a, stats.len()))
}

/// The merged maxima of the three axes.
pub open spec fn merged_maxs(stats: Seq<StatsView>) -> Seq<u64> {
    Seq::new(3, |a: int| merged_max(stats, a, stats.len()))
}

/// A descriptor with its statistics replaced by those of all files.
pub open spec fn merged_descriptor(d: Seq<u8>, stats: Seq<StatsView>) -> Seq<u8> {
    d.take(3) + seq![merged_options(d[3], stats)] + d.subrange(4, 64) + (if any_has(
        stats,
        OPT_MIN,
    ) {
        triple_bytes(merged_mins(stats))
    } else {
        d.subrange(64, 88)
    }) + (if any_has(stats, OPT_MAX) {
        triple_bytes(merged_maxs(stats))
    } else {
        d.subrange(88, 112)
    }) + d.skip(112)
}

/// The statistics of field `i` in each file.
pub open spec fn stats_of_field(files: Seq<ParsedExtraBytes>, i: int) -> Seq<StatsView> {
    files.map_values(|p: ParsedExtraBytes| p.stats@[i]@)
}

/// The first `n` descriptors with merged statistics.
pub open spec fn merged_record(
    canonical: Seq<u8>,
    files: Seq<ParsedExtraBytes>,
    n: nat,
) -> Seq<u8>
    decreases n,
{
    if n == 0 {
        Seq::empty()
    } else {
        merged_record(canonical, files, (n - 1) as nat) + merged_descriptor(
            descriptor(canonical, n - 1),
            stats_of_field(files, n - 1),
        )
    }
}

/// Why statistics cannot be merged.
#[derive(Debug, Clone, Copy, PartialEq, Eq, Structural)]
pub enum MergeStatsError {
    /// The record is not a whole number of descriptors.
    BadLength { length: usize },
    /// A file has another number of fields than the record.
    FieldCount { expected: usize, found: usize },
}

/// Whether merging succeeds: always where there is no file; else the record has
/// to be a whole number of descriptors, as many as each file has fields.
pub open spec fn mergeable(canonical: Seq<u8>, files: Seq<ParsedExtraBytes>) -> bool {
    files.len() == 0 || (canonical.len() % 192 == 0 && (canonical.len() == 0 || forall|i: int|
        0 <= i < files.len() ==> (#[trigger] files[i]).fields@.len() == canonical.len() / 192))
}

/// The number of fields of the first file from `i` on that has not `n` fields.
pub open spec fn other_count(files: Seq<ParsedExtraBytes>, n: nat, i: int) -> Option<nat>
    decreases files.len() - i,
{
    if i < 0 || i >= files.len() {
        None
    } else if files[i].fields@.len() != n {
        Some(files[i].fields@.len())
    } else {
        other_count(files, n, i + 1)
    }
}

/// Why merging fails, if it does.
pub open spec fn merge_error(canonical: Seq<u8>, files: Seq<ParsedExtraBytes>) -> Option<
    MergeStatsError,
> {
    if files.len() == 0 {
        None
    } else if canonical.len() % 192 != 0 {
        Some(MergeStatsError::BadLength { length: canonical.len() as usize })
    } else if canonical.len() == 0 {
        None
    } else {
        match other_count(files, canonical.len() / 192, 0) {
            Some(found) => Some(
                MergeStatsError::FieldCount {
                    expected: (canonical.len() / 192) as usize,
                    found: found as usize,
                },
            ),
            None => None,
        }
    }
}

/// Replaces the statistics in a record by the union over all files: the smallest
/// minimum and the largest maximum of each axis. The schema is untouched. Where
/// merging fails the record stays as it is.
pub fn merge_stats_into_canonical(
    canonical: &mut Vec<u8>,
    per_file_parsed: &Vec<&ParsedExtraBytes>,
) -> (r: Result<(), MergeStatsError>)
    requires
        forall|i: int| 0 <= i < per_file_parsed@.len() ==> (#[trigger] per_file_parsed@[i]).wf(),
    ensures
        r is Ok <==> mergeable(old(canonical)@, derefs(per_file_parsed@)),
        match r {
            Ok(_) => final(canonical)@ == (if per_file_parsed@.len() == 0 {
                old(canonical)@
            } else {
                merged_record(
                    old(canonical)@,
                    derefs(per_file_parsed@),
                    old(canonical)@.len() / 192,
                )
            }),
            Err(e) => {
                &&& final(canonical)@ == old(canonical)@
                &&& merge_error(old(canonical)@, derefs(per_file_parsed@)) == Some(e)
            },
        },
        r is Ok ==> merge_error(old(canonical)@, derefs(per_file_parsed@)) is None,
{
    let ghost files = derefs(per_file_parsed@);
    let len: usize = canonical.len();
    if per_file_parsed.len() == 0 {
        return Ok(());
    }
    if len % DESCRIPTOR_SIZE != 0 {
        return Err(MergeStatsError::BadLength { length: len });
    }
    let n: usize = len / DESCRIPTOR_SIZE;
    if n == 0 {
        assert(canonical@ =~= merged_record(canonical@, files, 0));
        return Ok(());
    }
    let mut k: usize = 0;
    while k < per_file_parsed.len()
        invariant
            k <= per_file_parsed@.len(),
            files == derefs(per_file_parsed@),
            canonical@ == old(canonical)@,
            n > 0,
            n == canonical@.len() / 192,
            canonical@.len() % 192 == 0,
            forall|j: int|
                0 <= j < k ==> (#[trigger] per_file_parsed@[j]).fields@.len() == n,
            other_count(files, n as nat, 0) == other_count(files, n as nat, k as int),
        decreases per_file_parsed@.len() - k,
    {
        let found: usize = per_file_parsed[k].fields.len();
        if found != n {
            assert(files[k as int].fields@.len() != n);
            return Err(MergeStatsError::FieldCount { expected: n, found });
        }
        k = k + 1;
    }
    assert forall|i: int| 0 <= i < files.len() implies (#[trigger] files[i]).fields@.len()
        == n by {
        assert(per_file_parsed@[i].fields@.len() == n);
    }
    let mut out: Vec<u8> = Vec::new();
    let mut i: usize = 0;
    while i < n
        invariant
            i <= n,
            files == derefs(per_file_parsed@),
            canonical@ == old(canonical)@,
            len == canonical@.len() == n * 192,
            forall|j: int| 0 <= j < files.len() ==> (#[trigger] files[j]).stats@.len() == n,
            per_file_parsed@.len() == files.len(),
            out@ == merged_record(canonical@, files, i as nat),
        decreases n - i,
    {
        let off: usize = i * DESCRIPTOR_SIZE;
        assert forall|j: int| 0 <= j < per_file_parsed@.len() implies i < (
        #[trigger] per_file_parsed@[j]).stats@.len() by {
            assert(files[j].stats@.len() == n);
        }
        push_merged(&mut out, canonical, off, i, per_file_parsed);
        i = i + 1;
    }
    *canonical = out;
    Ok(())
}

/// The values behind references.
pub open spec fn derefs(v: Seq<&ParsedExtraBytes>) -> Seq<ParsedExtraBytes> {
    v.map_values(|p: &ParsedExtraBytes| *p)
}

/// Appends descriptor `i` with merged statistics.
fn push_merged(
    out: &mut Vec<u8>,
    canonical: &Vec<u8>,
    off: usize,
    i: usize,
    per_file_parsed: &Vec<&ParsedExtraBytes>,
)
    requires
        off == i * DESCRIPTOR_SIZE,
        off + DESCRIPTOR_SIZE <= canonical@.len(),
        forall|j: int|
            0 <= j < per_file_parsed@.len() ==> i < (#[trigger] per_file_parsed@[j]).stats@.len(),
    ensures
        final(out)@ == old(out)@ + merged_descriptor(
            descriptor(canonical@, i as int),
            stats_of_field(derefs(per_file_parsed@), i as int),
        ),
{
    let ghost d = descriptor(canonical@, i as int);
    let ghost all = stats_of_field(derefs(per_file_parsed@), i as int);
    let mut any_no_data: bool = false;
    let mut any_min: bool = false;
    let mut any_max: bool = false;
    let mut mins: [u64; 3] = [INFINITY_BITS, INFINITY_BITS, INFINITY_BITS];
    let mut maxs: [u64; 3] = [NEG_INFINITY_BITS, NEG_INFINITY_BITS, NEG_INFINITY_BITS];
    let mut k: usize = 0;
    assert(all.take(0) =~= Seq::<StatsView>::empty());
    while k < per_file_parsed.len()
        invariant
            k <= per_file_parsed@.len(),
            all == stats_of_field(derefs(per_file_parsed@), i as int),
            forall|j: int|
                0 <= j < per_file_parsed@.len() ==> i < (
                #[trigger] per_file_parsed@[j]).stats@.len(),
            any_no_data == any_has(all.take(k as int), OPT_NO_DATA),
            any_min == any_has(all.take(k as int), OPT_MIN),
            any_max == any_has(all.take(k as int), OPT_MAX),
            forall|a: int| 0 <= a < 3 ==> #[trigger] mins@[a] == merged_min(all, a, k as nat),
            forall|a: int| 0 <= a < 3 ==> #[trigger] maxs@[a] == merged_max(all, a, k as nat),
        decreases per_file_parsed@.len() - k,
    {
        let stats = per_file_parsed[k].stats[i];
        proof {
            assert(all[k as int] == stats@);
            lemma_any_has_step(all, k as int, OPT_NO_DATA);
            lemma_any_has_step(all, k as int, OPT_MIN);
            lemma_any_has_step(all, k as int, OPT_MAX);
        }
        if stats.options_stats & OPT_NO_DATA != 0 {
            any_no_data = true;
        }
        if stats.options_stats & OPT_MIN != 0 {
            any_min = true;
            mins = [
                smaller(mins[0], stats.min[0]),
                smaller(mins[1], stats.min[1]),
                smaller(mins[2], stats.min[2]),
            ];
        }
        if stats.options_stats & OPT_MAX != 0 {
            any_max = true;
            maxs = [
                larger(maxs[0], stats.max[0]),
                larger(maxs[1], stats.max[1]),
                larger(maxs[2], stats.max[2]),
            ];
        }
        k = k + 1;
    }
    assert(all.take(k as int) =~= all);
    assert(mins@ =~= merged_mins(all));
    assert(maxs@ =~= merged_maxs(all));
    let options: u8 = (canonical[off + 3] & OPT_STRUCTURAL) | (if any_no_data {
        OPT_NO_DATA
    } else {
        0
    }) | (if any_min {
        OPT_MIN
    } else {
        0
    }) | (if any_max {
        OPT_MAX
    } else {
        0
    });
    let c = canonical.as_slice();
    assert(c.len() <= usize::MAX);
    let ghost base = out@;
    push_bytes(out, vstd::slice::slice_subrange(c, off, off + 3));
    out.push(options);
    push_bytes(out, vstd::slice::slice_subrange(c, off + 4, off + 64));
    if any_min {
        push_triple(out, &mins);
    } else {
        push_bytes(out, vstd::slice::slice_subrange(c, off + 64, off + 88));
    }
    if any_max {
        push_triple(out, &maxs);
    } else {
        push_bytes(out, vstd::slice::slice_subrange(c, off + 88, off + 112));
    }
    push_bytes(out, vstd::slice::slice_subrange(c, off + 112, off + 192));
    proof {
        let o = off as int;
        assert(c@.subrange(o, o + 3) =~= d.take(3));
        assert(c@.subrange(o + 4, o + 64) =~= d.subrange(4, 64));
        assert(c@.subrange(o + 64, o + 88) =~= d.subrange(64, 88));
        assert(c@.subrange(o + 88, o + 112) =~= d.subrange(88, 112));
        assert(c@.subrange(o + 112, o + 192) =~= d.skip(112));
        assert(d[3] == c@[o + 3]);
        assert(out@ =~= base + merged_descriptor(d, all));
    }
}

proof fn lemma_any_has_step(all: Seq<StatsView>, k: int, bit: u8)
    requires
        0 <= k < all.len(),
    ensures
        any_has(all.take(k + 1), bit) == (any_has(all.take(k), bit) || all[k].options_stats & bit
            != 0),
{
    let a = all.take(k);
    let b = all.take(k + 1);
    if any_has(a, bit) {
        let i = choose|i: int| 0 <= i < a.len() && (#[trigger] a[i]).options_stats & bit != 0;
        assert(b[i].options_stats & bit != 0);
    }
    if all[k].options_stats & bit != 0 {
        assert(b[k].options_stats & bit != 0);
    }
    if any_has(b, bit) {
        let i = choose|i: int| 0 <= i < b.len() && (#[trigger] b[i]).options_stats & bit != 0;
        if i < k {
            assert(a[i].options_stats & bit != 0);
        }
    }
}

/// Merging statistics leaves the schema of every field as it is.
pub proof fn law_merge_keeps_schema(d: Seq<u8>, stats: Seq<StatsView>)
    requires
        d.len() == DESCRIPTOR_SIZE,
    ensures
        merged_descriptor(d, stats).len() == DESCRIPTOR_SIZE,
        descriptor_field(merged_descriptor(d, stats)) == descriptor_field(d),
{
    broadcast use lemma_le_bytes_len;

    let m = merged_descriptor(d, stats);
    assert(m.len() == 192);
    let o = d[3];
    let a = flag(any_has(stats, OPT_NO_DATA), OPT_NO_DATA);
    let b = flag(any_has(stats, OPT_MIN), OPT_MIN);
    let c = flag(any_has(stats, OPT_MAX), OPT_MAX);
    assert(((o & 24) | a | b | c) & 24 == o & 24) by (bit_vector)
        requires
            a == 0 || a == 1,
            b == 0 || b == 2,
            c == 0 || c == 4,
    ;
    assert(m.subrange(4, 36) =~= d.subrange(4, 36));
    assert(m.subrange(160, 192) =~= d.subrange(160, 192));
    assert forall|at: int| at == 40 || at == 112 || at == 136 implies #[trigger] triple(m, at)
        == triple(d, at) by {
        assert forall|i: int| 0 <= i < 3 implies le_value(
            #[trigger] m.subrange(at + 8 * i, at + 8 * i + 8),
        ) == le_value(d.subrange(at + 8 * i, at + 8 * i + 8)) by {
            assert(m.subrange(at + 8 * i, at + 8 * i + 8) =~= d.subrange(
                at + 8 * i,
                at + 8 * i + 8,
            ));
        }
        assert(triple(m, at) =~= triple(d, at));
    }
    assert(descriptor_field(m) =~= descriptor_field(d));
}

/// The merged statistics are those of all files together: a statistic is there
/// where any file has it, and its numbers are the unions; the numbers of a
/// statistic that no file has stay as they are.
pub proof fn law_merge_unites_stats(d: Seq<u8>, stats: Seq<StatsView>)
    requires
        d.len() == DESCRIPTOR_SIZE,
    ensures
        descriptor_stats(merged_descriptor(d, stats)).options_stats == flag(
            any_has(stats, OPT_NO_DATA),
            OPT_NO_DATA,
        ) | flag(any_has(stats, OPT_MIN), OPT_MIN) | flag(any_has(stats, OPT_MAX), OPT_MAX),
        descriptor_stats(merged_descriptor(d, stats)).min == (if any_has(stats, OPT_MIN) {
            merged_mins(stats)
        } else {
            descriptor_stats(d).min
        }),
        descriptor_stats(merged_descriptor(d, stats)).max == (if any_has(stats, OPT_MAX) {
            merged_maxs(stats)
        } else {
            descriptor_stats(d).max
        }),
{
    broadcast use lemma_le_bytes_len;

    let m = merged_descriptor(d, stats);
    let o = d[3];
    let a = flag(any_has(stats, OPT_NO_DATA), OPT_NO_DATA);
    let b = flag(any_has(stats, OPT_MIN), OPT_MIN);
    let c = flag(any_has(stats, OPT_MAX), OPT_MAX);
    assert(((o & 24) | a | b | c) & 7 == a | b | c) by (bit_vector)
        requires
            a == 0 || a == 1,
            b == 0 || b == 2,
            c == 0 || c == 4,
    ;
    let lo = if any_has(stats, OPT_MIN) {
        triple_bytes(merged_mins(stats))
    } else {
        d.subrange(64, 88)
    };
    let hi = if any_has(stats, OPT_MAX) {
        triple_bytes(merged_maxs(stats))
    } else {
        d.subrange(88, 112)
    };
    assert(lo.len() == 24 && hi.len() == 24);
    assert(m.subrange(64, 88) =~= lo);
    assert(m.subrange(88, 112) =~= hi);
    lemma_triple_part(m, 64);
    lemma_triple_part(m, 88);
    lemma_triple_part(d, 64);
    lemma_triple_part(d, 88);
    if any_has(stats, OPT_MIN) {
        lemma_triple_round_trip(merged_mins(stats));
    }
    if any_has(stats, OPT_MAX) {
        lemma_triple_round_trip(merged_maxs(stats));
    }
}

/// Three numbers are read from their own bytes.
proof fn lemma_triple_part(d: Seq<u8>, at: int)
    requires
        0 <= at,
        at + 24 <= d.len(),
    ensures
        triple(d, at) == triple(d.subrange(at, at + 24), 0),
{
    let p = d.subrange(at, at + 24);
    assert forall|i: int| 0 <= i < 3 implies #[trigger] triple(d, at)[i] == triple(p, 0)[i] by {
        assert(d.subrange(at + 8 * i, at + 8 * i + 8) =~= p.subrange(8 * i, 8 * i + 8));
    }
    assert(triple(d, at) =~= triple(p, 0));
}

/// Three numbers are read as they were written.
pub proof fn lemma_triple_round_trip(t: Seq<u64>)
    requires
        t.len() == 3,
    ensures
        triple(triple_bytes(t), 0) == t,
{
    broadcast use lemma_le_bytes_len;

    lemma_pow256_values();
    let b = triple_bytes(t);
    assert(b.subrange(0, 8) =~= le_bytes(t[0] as nat, 8));
    assert(b.subrange(8, 16) =~= le_bytes(t[1] as nat, 8));
    assert(b.subrange(16, 24) =~= le_bytes(t[2] as nat, 8));
    lemma_le_value_of_bytes(t[0] as nat, 8);
    lemma_le_value_of_bytes(t[1] as nat, 8);
    lemma_le_value_of_bytes(t[2] as nat, 8);
    assert(triple(b, 0) =~= t);
}

/// No file's minimum lies below the merged one, and no file's maximum above it,
/// as far as they are numbers.
pub proof fn law_merged_range_covers(stats: Seq<StatsView>, axis: int, i: int, n: nat)
    requires
        0 <= i < n <= stats.len(),
        0 <= axis < 3,
    ensures
        !is_nan(merged_min(stats, axis, n)),
        !is_nan(merged_max(stats, axis, n)),
        stats[i].options_stats & OPT_MIN != 0 && !is_nan(stats[i].min[axis]) ==> rank(
            merged_min(stats, axis, n),
        ) <= rank(stats[i].min[axis]),
        stats[i].options_stats & OPT_MAX != 0 && !is_nan(stats[i].max[axis]) ==> rank(
            merged_max(stats, axis, n),
        ) >= rank(stats[i].max[axis]),
    decreases n,
{
    if n > 1 && i < n - 1 {
        law_merged_range_covers(stats, axis, i, (n - 1) as nat);
    } else if n > 1 {
        law_merged_range_covers(stats, axis, 0, (n - 1) as nat);
    } else {
        assert(merged_min(stats, axis, 0) == INFINITY_BITS);
        assert(merged_max(stats, axis, 0) == NEG_INFINITY_BITS);
    }
}

// Merging again, and in another order.
/// The descriptors of a merged record are the merged descriptors.
pub proof fn lemma_merged_parts(canonical: Seq<u8>, files: Seq<ParsedExtraBytes>, n: nat)
    requires
        192 * n <= canonical.len(),
    ensures
        merged_record(canonical, files, n).len() == 192 * n,
        forall|i: int|
            0 <= i < n ==> #[trigger] descriptor(merged_record(canonical, files, n), i)
                == merged_descriptor(descriptor(canonical, i), stats_of_field(files, i)),
    decreases n,
{
    if n > 0 {
        let m = (n - 1) as nat;
        lemma_merged_parts(canonical, files, m);
        let before = merged_record(canonical, files, m);
        let last = merged_descriptor(
            descriptor(canonical, n - 1),
            stats_of_field(files, n - 1),
        );
        law_merge_keeps_schema(descriptor(canonical, n - 1), stats_of_field(files, n - 1));
        let all = merged_record(canonical, files, n);
        assert forall|i: int| 0 <= i < n implies #[trigger] descriptor(all, i)
            == merged_descriptor(descriptor(canonical, i), stats_of_field(files, i)) by {
            if i < m {
                assert(descriptor(all, i) =~= descriptor(before, i));
            } else {
                assert(descriptor(all, i) =~= last);
            }
        }
    }
}

proof fn lemma_merge_descriptor_again(d: Seq<u8>, stats: Seq<StatsView>)
    requires
        d.len() == DESCRIPTOR_SIZE,
    ensures
        merged_descriptor(merged_descriptor(d, stats), stats) == merged_descriptor(d, stats),
{
    broadcast use lemma_le_bytes_len;

    let m = merged_descriptor(d, stats);
    law_merge_keeps_schema(d, stats);
    let o = d[3];
    let a = flag(any_has(stats, OPT_NO_DATA), OPT_NO_DATA);
    let b = flag(any_has(stats, OPT_MIN), OPT_MIN);
    let c = flag(any_has(stats, OPT_MAX), OPT_MAX);
    assert((((o & 24) | a | b | c) & 24) | a | b | c == (o & 24) | a | b | c) by (bit_vector);
    assert(m[3] == merged_options(o, stats));
    assert(merged_descriptor(m, stats) =~= m);
}

proof fn lemma_merge_record_again(
    canonical: Seq<u8>,
    merged: Seq<u8>,
    files: Seq<ParsedExtraBytes>,
    n: nat,
)
    requires
        192 * n <= canonical.len(),
        192 * n <= merged.len(),
        forall|i: int|
            0 <= i < n ==> #[trigger] descriptor(merged, i) == merged_descriptor(
                descriptor(canonical, i),
                stats_of_field(files, i),
            ),
    ensures
        merged_record(merged, files, n) == merged_record(canonical, files, n),
    decreases n,
{
    if n > 0 {
        lemma_merge_record_again(canonical, merged, files, (n - 1) as nat);
        assert(descriptor(merged, n - 1) == merged_descriptor(
            descriptor(canonical, n - 1),
            stats_of_field(files, n - 1),
        ));
        lemma_merge_descriptor_again(descriptor(canonical, n - 1), stats_of_field(files, n - 1));
    }
}

/// Merging the statistics of the same files again changes nothing.
pub proof fn law_merge_again(canonical: Seq<u8>, files: Seq<ParsedExtraBytes>)
    requires
        canonical.len() % 192 == 0,
    ensures
        ({
            let once = merged_record(canonical, files, canonical.len() / 192);
            &&& once.len() == canonical.len()
            &&& merged_record(once, files, once.len() / 192) == once
        }),
{
    let n = canonical.len() / 192;
    lemma_merged_parts(canonical, files, n);
    lemma_merge_record_again(canonical, merged_record(canonical, files, n), files, n);
}

/// The merged minimum is positive infinity or the minimum of a file.
pub proof fn lemma_merged_min_source(stats: Seq<StatsView>, axis: int, n: nat)
    requires
        n <= stats.len(),
    ensures
        merged_min(stats, axis, n) == INFINITY_BITS || exists|i: int|
            {
                &&& 0 <= i < n
                &&& (#[trigger] stats[i]).options_stats & OPT_MIN != 0
                &&& !is_nan(stats[i].min[axis])
                &&& merged_min(stats, axis, n) == stats[i].min[axis]
            },
    decreases n,
{
    if n > 0 {
        lemma_merged_min_source(stats, axis, (n - 1) as nat);
        assert(stats[n - 1] == stats[n - 1]);
    }
}

/// The merged maximum is negative infinity or the maximum of a file.
pub proof fn lemma_merged_max_source(stats: Seq<StatsView>, axis: int, n: nat)
    requires
        n <= stats.len(),
    ensures
        merged_max(stats, axis, n) == NEG_INFINITY_BITS || exists|i: int|
            {
                &&& 0 <= i < n
                &&& (#[trigger] stats[i]).options_stats & OPT_MAX != 0
                &&& !is_nan(stats[i].max[axis])
                &&& merged_max(stats, axis, n) == stats[i].max[axis]
            },
    decreases n,
{
    if n > 0 {
        lemma_merged_max_source(stats, axis, (n - 1) as nat);
        assert(stats[n - 1] == stats[n - 1]);
    }
}

/// No statistic is the negative zero, which equals zero but is written
/// otherwise.
pub open spec fn no_negative_zero(stats: Seq<StatsView>) -> bool {
    &&& forall|i: int, a: int|
        0 <= i < stats.len() && 0 <= a < 3 ==> #[trigger] stats[i].min[a] != SIGN_BIT
    &&& forall|i: int, a: int|
        0 <= i < stats.len() && 0 <= a < 3 ==> #[trigger] stats[i].max[a] != SIGN_BIT
}

/// Two lists hold the same statistics.
pub open spec fn same_stats(a: Seq<StatsView>, b: Seq<StatsView>) -> bool {
    forall|s: StatsView| #[trigger] a.contains(s) <==> b.contains(s)
}

proof fn lemma_no_lower_min(a: Seq<StatsView>, b: Seq<StatsView>, axis: int)
    requires
        same_stats(a, b),
        0 <= axis < 3,
    ensures
        !is_nan(merged_min(a, axis, a.len())),
        rank(merged_min(a, axis, a.len())) <= rank(merged_min(b, axis, b.len())),
        !is_nan(merged_max(a, axis, a.len())),
        rank(merged_max(a, axis, a.len())) >= rank(merged_max(b, axis, b.len())),
{
    lemma_merged_min_source(a, axis, a.len());
    lemma_merged_max_source(a, axis, a.len());
    lemma_merged_min_source(b, axis, b.len());
    lemma_merged_max_source(b, axis, b.len());
    assert(rank(INFINITY_BITS) == 0x7FF0_0000_0000_0000);
    assert(rank(NEG_INFINITY_BITS) == -0x7FF0_0000_0000_0000);
    if merged_min(b, axis, b.len()) != INFINITY_BITS {
        let i = choose|i: int|
            {
                &&& 0 <= i < b.len()
                &&& (#[trigger] b[i]).options_stats & OPT_MIN != 0
                &&& !is_nan(b[i].min[axis])
                &&& merged_min(b, axis, b.len()) == b[i].min[axis]
            };
        assert(b.contains(b[i]));
        assert(a.contains(b[i]));
        let j = choose|j: int| 0 <= j < a.len() && a[j] == b[i];
        law_merged_range_covers(a, axis, j, a.len());
    }
    if merged_max(b, axis, b.len()) != NEG_INFINITY_BITS {
        let i = choose|i: int|
            {
                &&& 0 <= i < b.len()
                &&& (#[trigger] b[i]).options_stats & OPT_MAX != 0
                &&& !is_nan(b[i].max[axis])
                &&& merged_max(b, axis, b.len()) == b[i].max[axis]
            };
        assert(b.contains(b[i]));
        assert(a.contains(b[i]));
        let j = choose|j: int| 0 <= j < a.len() && a[j] == b[i];
        law_merged_range_covers(a, axis, j, a.len());
    }
}

proof fn lemma_same_merge(a: Seq<StatsView>, b: Seq<StatsView>, axis: int)
    requires
        same_stats(a, b),
        no_negative_zero(a),
        no_negative_zero(b),
        0 <= axis < 3,
    ensures
        merged_min(a, axis, a.len()) == merged_min(b, axis, b.len()),
        merged_max(a, axis, a.len()) == merged_max(b, axis, b.len()),
{
    lemma_no_lower_min(a, b, axis);
    lemma_no_lower_min(b, a, axis);
    lemma_merged_min_source(a, axis, a.len());
    lemma_merged_max_source(a, axis, a.len());
    lemma_merged_min_source(b, axis, b.len());
    lemma_merged_max_source(b, axis, b.len());
    let (m, n) = (merged_min(a, axis, a.len()), merged_min(b, axis, b.len()));
    let (p, q) = (merged_max(a, axis, a.len()), merged_max(b, axis, b.len()));
    assert(m != SIGN_BIT && n != SIGN_BIT && p != SIGN_BIT && q != SIGN_BIT);
}

proof fn lemma_same_any(a: Seq<StatsView>, b: Seq<StatsView>, bit: u8)
    requires
        same_stats(a, b),
        any_has(a, bit),
    ensures
        any_has(b, bit),
{
    let i = choose|i: int| 0 <= i < a.len() && (#[trigger] a[i]).options_stats & bit != 0;
    assert(a.contains(a[i]));
    let j = choose|j: int| 0 <= j < b.len() && b[j] == a[i];
    assert(b[j].options_stats & bit != 0);
}

proof fn lemma_same_bits(a: Seq<StatsView>, b: Seq<StatsView>, bit: u8)
    requires
        same_stats(a, b),
    ensures
        any_has(a, bit) == any_has(b, bit),
{
    if any_has(a, bit) {
        lemma_same_any(a, b, bit);
    }
    if any_has(b, bit) {
        lemma_same_any(b, a, bit);
    }
}

/// Merging does not depend on the order of the files, where no statistic is the
/// negative zero.
pub proof fn law_merge_in_any_order(
    canonical: Seq<u8>,
    ps: Seq<ParsedExtraBytes>,
    qs: Seq<ParsedExtraBytes>,
    n: nat,
)
    requires
        ps.to_multiset() == qs.to_multiset(),
        forall|i: int| 0 <= i < n ==> #[trigger] no_negative_zero(stats_of_field(ps, i)),
    ensures
        merged_record(canonical, ps, n) == merged_record(canonical, qs, n),
    decreases n,
{
    if n > 0 {
        law_merge_in_any_order(canonical, ps, qs, (n - 1) as nat);
        let a = stats_of_field(ps, n - 1);
        let b = stats_of_field(qs, n - 1);
        lemma_part_of_permutation(ps, qs, n - 1);
        lemma_part_of_permutation(qs, ps, n - 1);
        assert(no_negative_zero(a));
        assert(no_negative_zero(b)) by {
            assert forall|i: int, x: int|
                0 <= i < b.len() && 0 <= x < 3 implies #[trigger] b[i].min[x] != SIGN_BIT by {
                assert(b.contains(b[i]));
                let j = choose|j: int| 0 <= j < a.len() && a[j] == b[i];
                assert(a[j].min[x] != SIGN_BIT);
            }
            assert forall|i: int, x: int|
                0 <= i < b.len() && 0 <= x < 3 implies #[trigger] b[i].max[x] != SIGN_BIT by {
                assert(b.contains(b[i]));
                let j = choose|j: int| 0 <= j < a.len() && a[j] == b[i];
                assert(a[j].max[x] != SIGN_BIT);
            }
        }
        lemma_same_bits(a, b, OPT_NO_DATA);
        lemma_same_bits(a, b, OPT_MIN);
        lemma_same_bits(a, b, OPT_MAX);
        lemma_same_merge(a, b, 0);
        lemma_same_merge(a, b, 1);
        lemma_same_merge(a, b, 2);
        assert(merged_mins(a) =~= merged_mins(b));
        assert(merged_maxs(a) =~= merged_maxs(b));
    }
}

/// What one order of the files has, the other has too.
proof fn lemma_part_of_permutation(
    ps: Seq<ParsedExtraBytes>,
    qs: Seq<ParsedExtraBytes>,
    i: int,
)
    requires
        ps.to_multiset() == qs.to_multiset(),
    ensures
        forall|s: StatsView| #[trigger]
            stats_of_field(ps, i).contains(s) ==> stats_of_field(qs, i).contains(s),
{
    broadcast use vstd::seq_lib::group_to_multiset_ensures;

    let a = stats_of_field(ps, i);
    let b = stats_of_field(qs, i);
    assert forall|s: StatsView| #[trigger] a.contains(s) implies b.contains(s) by {
        let j = choose|j: int| 0 <= j < a.len() && a[j] == s;
        assert(ps.contains(ps[j]));
        assert(qs.to_multiset().count(ps[j]) > 0);
        assert(qs.contains(ps[j]));
        let k = choose|k: int| 0 <= k < qs.len() && qs[k] == ps[j];
        assert(b[k] == s);
    }
}

} // verus!
