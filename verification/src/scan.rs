//! The scan of the input files: bounds, counts, and what the headers declare.

use crate::crs::{crs_of_file, file_kind, opt_bytes, CrsKind, GeoKeys};
use crate::extra_bytes::{
    hash_of_fields, parsed, schema_hash, without_nuls, BadDescriptorLength, ParsedExtraBytes,
};
use crate::fbits::{
    is_nan, larger, num_max, num_min, rank, smaller, MAX_BITS, MIN_BITS,
};
use vstd::prelude::*;
use vstd::string::StrSliceExecFns;

verus! {

/// An axis-aligned box; its numbers are bit patterns of doubles.
#[derive(Debug, Clone, Copy, PartialEq, Eq, Structural)]
pub struct Bounds {
    pub min_x: u64,
    pub min_y: u64,
    pub min_z: u64,
    pub max_x: u64,
    pub max_y: u64,
    pub max_z: u64,
}

/// The box that holds nothing.
pub open spec fn empty_bounds() -> Bounds {
    Bounds {
        min_x: MAX_BITS,
        min_y: MAX_BITS,
        min_z: MAX_BITS,
        max_x: MIN_BITS,
        max_y: MIN_BITS,
        max_z: MIN_BITS,
    }
}

/// The smallest box that holds both.
pub open spec fn united(a: Bounds, b: Bounds) -> Bounds {
    Bounds {
        min_x: num_min(a.min_x, b.min_x),
        min_y: num_min(a.min_y, b.min_y),
        min_z: num_min(a.min_z, b.min_z),
        max_x: num_max(a.max_x, b.max_x),
        max_y: num_max(a.max_y, b.max_y),
        max_z: num_max(a.max_z, b.max_z),
    }
}

/// The box of one point.
pub open spec fn point_box(x: u64, y: u64, z: u64) -> Bounds {
    Bounds { min_x: x, min_y: y, min_z: z, max_x: x, max_y: y, max_z: z }
}

/// Whether `v` lies between two numbers.
pub open spec fn between(lo: u64, v: u64, hi: u64) -> bool {
    !is_nan(lo) && !is_nan(hi) && rank(lo) <= rank(v) <= rank(hi)
}

/// Whether the box holds a point.
pub open spec fn holds(b: Bounds, x: u64, y: u64, z: u64) -> bool {
    between(b.min_x, x, b.max_x) && between(b.min_y, y, b.max_y) && between(b.min_z, z, b.max_z)
}

/// None of the box's numbers is a NaN.
pub open spec fn is_numeric(b: Bounds) -> bool {
    !is_nan(b.min_x) && !is_nan(b.min_y) && !is_nan(b.min_z) && !is_nan(b.max_x) && !is_nan(
        b.max_y,
    ) && !is_nan(b.max_z)
}

impl Bounds {
    pub fn empty() -> (b: Bounds)
        ensures
            b == empty_bounds(),
    {
        Bounds {
            min_x: MAX_BITS,
            min_y: MAX_BITS,
            min_z: MAX_BITS,
            max_x: MIN_BITS,
            max_y: MIN_BITS,
            max_z: MIN_BITS,
        }
    }

    /// Widens the box so that it holds a point.
    pub fn expand_with(&mut self, x: u64, y: u64, z: u64)
        ensures
            *final(self) == united(*old(self), point_box(x, y, z)),
    {
        self.min_x = smaller(self.min_x, x);
        self.min_y = smaller(self.min_y, y);
        self.min_z = smaller(self.min_z, z);
        self.max_x = larger(self.max_x, x);
        self.max_y = larger(self.max_y, y);
        self.max_z = larger(self.max_z, z);
    }

    /// Widens the box so that it holds another one.
    pub fn merge(&mut self, other: &Bounds)
        ensures
            *final(self) == united(*old(self), *other),
    {
        self.min_x = smaller(self.min_x, other.min_x);
        self.min_y = smaller(self.min_y, other.min_y);
        self.min_z = smaller(self.min_z, other.min_z);
        self.max_x = larger(self.max_x, other.max_x);
        self.max_y = larger(self.max_y, other.max_y);
        self.max_z = larger(self.max_z, other.max_z);
    }
}

/// A united box holds every point that either box holds.
pub proof fn law_united_holds_both(a: Bounds, b: Bounds, x: u64, y: u64, z: u64)
    requires
        is_numeric(a),
        is_numeric(b),
        holds(a, x, y, z) || holds(b, x, y, z),
    ensures
        holds(united(a, b), x, y, z),
{
}

/// A box holds a point that it was widened with, and every point that it held
/// before.
pub proof fn law_expanded_holds_point(a: Bounds, x: u64, y: u64, z: u64)
    requires
        is_numeric(a),
        !is_nan(x),
        !is_nan(y),
        !is_nan(z),
    ensures
        holds(united(a, point_box(x, y, z)), x, y, z),
        is_numeric(united(a, point_box(x, y, z))),
        is_numeric(empty_bounds()),
{
}

/// A variable-length record of a file.
#[derive(Debug)]
pub struct Vlr {
    pub user_id: String,
    pub record_id: u16,
    pub data: Vec<u8>,
}

/// What the header of an input file says.
#[derive(Debug)]
pub struct FileHeader {
    pub bounds_min: [u64; 3],
    pub bounds_max: [u64; 3],
    pub point_count: u64,
    pub scale: [u64; 3],
    pub offset: [u64; 3],
    pub wkt: Option<Vec<u8>>,
    pub geo: Option<GeoKeys>,
    pub vlrs: Vec<Vlr>,
    pub num_extra_bytes: u16,
    pub point_format_id: u8,
}

/// What the scan found in one file.
#[derive(Debug)]
pub struct ScanResult {
    pub bounds: Bounds,
    pub point_count: u64,
    pub scale: [u64; 3],
    pub offset: [u64; 3],
    /// What the file declares as its reference system, if anything.
    pub crs: Option<CrsKind>,
    /// The file's Extra Bytes, if it declares any.
    pub extra_bytes_parsed: Option<ParsedExtraBytes>,
    /// Hash of the schema of the file's Extra Bytes.
    pub extra_bytes_schema_hash: Option<u64>,
    /// Number of bytes that trail each point.
    pub num_extra_bytes: u16,
    pub point_format_id: u8,
}

/// The results per file, and the one WKT record and the one Extra Bytes record
/// that go to the output: those of the first file that has one.
#[derive(Debug)]
pub struct ScanOutput {
    pub results: Vec<ScanResult>,
    pub canonical_wkt: Option<Vec<u8>>,
    pub canonical_extra_bytes_vlr: Option<Vec<u8>>,
}

/// Whether a record holds Extra Bytes descriptors.
pub open spec fn is_extra_bytes(v: Vlr) -> bool {
    without_nuls(v.user_id@) == "LASF_Spec"@ && v.record_id == 4
}

/// The first record from `i` on that holds Extra Bytes descriptors.
pub open spec fn extra_bytes_from(vlrs: Seq<Vlr>, i: int) -> Option<Seq<u8>>
    decreases vlrs.len() - i,
{
    if i < 0 || i >= vlrs.len() {
        None
    } else if is_extra_bytes(vlrs[i]) {
        Some(vlrs[i].data@)
    } else {
        extra_bytes_from(vlrs, i + 1)
    }
}

/// The bounds that a header declares.
pub open spec fn declared_bounds(h: FileHeader) -> Bounds {
    united(
        united(
            empty_bounds(),
            point_box(h.bounds_min@[0], h.bounds_min@[1], h.bounds_min@[2]),
        ),
        point_box(h.bounds_max@[0], h.bounds_max@[1], h.bounds_max@[2]),
    )
}

/// `r` is the result of scanning a file with header `h`.
pub open spec fn scanned(h: FileHeader, r: ScanResult) -> bool {
    let record = extra_bytes_from(h.vlrs@, 0);
    &&& r.bounds == declared_bounds(h)
    &&& r.point_count == h.point_count
    &&& r.scale == h.scale
    &&& r.offset == h.offset
    &&& r.crs == file_kind(opt_bytes(h.wkt), h.geo)
    &&& r.num_extra_bytes == h.num_extra_bytes
    &&& r.point_format_id == h.point_format_id
    &&& match record {
        None => r.extra_bytes_parsed is None && r.extra_bytes_schema_hash is None,
        Some(p) => match r.extra_bytes_parsed {
            Some(x) => {
                &&& p.len() % 192 == 0
                &&& x.wf()
                &&& x@ == parsed(p, p.len() / 192)
                &&& r.extra_bytes_schema_hash == Some(hash_of_fields(x@.0))
            },
            None => false,
        },
    }
}

/// Whether the Extra Bytes record of a file, if it has one, can be parsed.
pub open spec fn header_ok(h: FileHeader) -> bool {
    match extra_bytes_from(h.vlrs@, 0) {
        Some(p) => p.len() % 192 == 0,
        None => true,
    }
}

/// Whether a text without its trailing NUL characters is the given one.
fn is_text(s: &String, want: &str) -> (b: bool)
    ensures
        b == (without_nuls(s@) == want@),
{
    let t = s.as_str();
    let mut n: usize = t.unicode_len();
    assert(s@.take(n as int) =~= s@);
    while n > 0 && t.get_char(n - 1) == '\0'
        invariant
            t@ == s@,
            n <= s@.len(),
            without_nuls(s@) == without_nuls(s@.take(n as int)),
        decreases n,
    {
        assert(s@.take(n as int).drop_last() =~= s@.take(n - 1));
        n = n - 1;
    }
    let short = t.substring_char(0, n).to_owned();
    assert(short@ =~= s@.take(n as int));
    let other = want.to_owned();
    short == other
}

/// A copy of some bytes.
pub fn copy_bytes(v: &Vec<u8>) -> (r: Vec<u8>)
    ensures
        r@ == v@,
{
    let r = v.clone();
    assert(r@ =~= v@);
    r
}

/// Scans one file: its declared bounds, its reference system, and its Extra
/// Bytes. Returns with them a copy of the Extra Bytes record. Fails where that
/// record is malformed.
pub fn scan_header(h: &FileHeader) -> (r: Result<
    (ScanResult, Option<Vec<u8>>),
    BadDescriptorLength,
>)
    ensures
        match r {
            Ok(x) => {
                &&& header_ok(*h)
                &&& scanned(*h, x.0)
                &&& opt_bytes(x.1) == extra_bytes_from(h.vlrs@, 0)
            },
            Err(e) => {
                &&& !header_ok(*h)
                &&& extra_bytes_from(h.vlrs@, 0) matches Some(p) && e.length == p.len()
            },
        },
{
    let mut bounds = Bounds::empty();
    bounds.expand_with(h.bounds_min[0], h.bounds_min[1], h.bounds_min[2]);
    bounds.expand_with(h.bounds_max[0], h.bounds_max[1], h.bounds_max[2]);
    let crs = crs_of_file(&h.wkt, h.geo);
    let mut record: Option<Vec<u8>> = None;
    let mut i: usize = 0;
    while i < h.vlrs.len()
        invariant_except_break
            record is None,
            extra_bytes_from(h.vlrs@, 0) == extra_bytes_from(h.vlrs@, i as int),
        invariant
            i <= h.vlrs@.len(),
        ensures
            opt_bytes(record) == extra_bytes_from(h.vlrs@, 0),
        decreases h.vlrs@.len() - i,
    {
        if is_text(&h.vlrs[i].user_id, "LASF_Spec") && h.vlrs[i].record_id == 4 {
            record = Some(copy_bytes(&h.vlrs[i].data));
            break;
        }
        i = i + 1;
    }
    let mut extra: Option<ParsedExtraBytes> = None;
    let mut hash: Option<u64> = None;
    match &record {
        Some(bytes) => {
            match ParsedExtraBytes::parse(bytes.as_slice()) {
                Ok(p) => {
                    hash = Some(schema_hash(&p));
                    extra = Some(p);
                },
                Err(e) => {
                    return Err(e);
                },
            }
        },
        None => {},
    }
    let result = ScanResult {
        bounds,
        point_count: h.point_count,
        scale: h.scale,
        offset: h.offset,
        crs,
        extra_bytes_parsed: extra,
        extra_bytes_schema_hash: hash,
        num_extra_bytes: h.num_extra_bytes,
        point_format_id: h.point_format_id,
    };
    Ok((result, record))
}

/// The WKT record of the first of the files that has one.
pub open spec fn first_wkt(hs: Seq<FileHeader>) -> Option<Seq<u8>>
    decreases hs.len(),
{
    if hs.len() == 0 {
        None
    } else {
        match first_wkt(hs.drop_last()) {
            Some(w) => Some(w),
            None => opt_bytes(hs.last().wkt),
        }
    }
}

/// The Extra Bytes record of the first of the files that has one.
pub open spec fn first_extra_bytes(hs: Seq<FileHeader>) -> Option<Seq<u8>>
    decreases hs.len(),
{
    if hs.len() == 0 {
        None
    } else {
        match first_extra_bytes(hs.drop_last()) {
            Some(w) => Some(w),
            None => extra_bytes_from(hs.last().vlrs@, 0),
        }
    }
}

/// The output of a scan belongs to the headers.
pub open spec fn scan_matches(headers: Seq<FileHeader>, out: ScanOutput) -> bool {
    &&& out.results@.len() == headers.len()
    &&& forall|i: int|
        0 <= i < headers.len() ==> scanned(headers[i], #[trigger] out.results@[i])
    &&& opt_bytes(out.canonical_wkt) == first_wkt(headers)
    &&& opt_bytes(out.canonical_extra_bytes_vlr) == first_extra_bytes(headers)
}

impl ScanOutput {
    /// The output of a scan of no files.
    pub fn new() -> (out: ScanOutput)
        ensures
            scan_matches(Seq::empty(), out),
    {
        ScanOutput {
            results: Vec::new(),
            canonical_wkt: None,
            canonical_extra_bytes_vlr: None,
        }
    }

    /// Adds another file. Fails, without a change, where its Extra Bytes record
    /// is malformed.
    pub fn add_header(&mut self, h: &FileHeader) -> (r: Result<(), BadDescriptorLength>)
        ensures
            match r {
                Ok(_) => {
                    &&& header_ok(*h)
                    &&& forall|hs: Seq<FileHeader>| #[trigger]
                        scan_matches(hs, *old(self)) ==> scan_matches(hs.push(*h), *final(self))
                },
                Err(e) => {
                    &&& !header_ok(*h)
                    &&& extra_bytes_from(h.vlrs@, 0) matches Some(p) && e.length == p.len()
                    &&& *final(self) == *old(self)
                },
            },
    {
        match scan_header(h) {
            Ok((result, record)) => {
                if self.canonical_wkt.is_none() {
                    match &h.wkt {
                        Some(w) => {
                            self.canonical_wkt = Some(copy_bytes(w));
                        },
                        None => {},
                    }
                }
                if self.canonical_extra_bytes_vlr.is_none() {
                    self.canonical_extra_bytes_vlr = record;
                }
                self.results.push(result);
                proof {
                    assert forall|hs: Seq<FileHeader>| #[trigger]
                        scan_matches(hs, *old(self)) implies scan_matches(
                        hs.push(*h),
                        *self,
                    ) by {
                        assert(hs.push(*h).drop_last() =~= hs);
                        assert forall|i: int| 0 <= i < hs.push(*h).len() implies scanned(
                            hs.push(*h)[i],
                            #[trigger] self.results@[i],
                        ) by {
                            if i < hs.len() {
                                assert(scanned(hs[i], old(self).results@[i]));
                            }
                        }
                    }
                }
                Ok(())
            },
            Err(e) => Err(e),
        }
    }
}

} // verus!
