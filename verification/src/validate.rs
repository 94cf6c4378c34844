//! Consistency of the scanned input files.

use crate::crs::{
    compare_kinds, compatible, get_epsg_from_wkt_crs_bytes, opt_bytes, record_codes, registry_wkt,
    wkt_for_epsg, CrsKind, Epsg,
};
use crate::error::{line_views, Error, ErrorView, LineView, MismatchLine};
use crate::extra_bytes::{
    derefs, merge_stats_into_canonical, mergeable, merged_record, ParsedExtraBytes,
};
use crate::scan::ScanResult;
use crate::schema_diff::{diff_schemas, diff_views, schema_diffs, DiffView};
use vstd::prelude::*;

verus! {

/// Properties that hold across all input files.
#[derive(Debug)]
pub struct ValidatedInputs {
    /// WKT of the output (if available): that of the first input that has one,
    /// or what the registry has for the EPSG code of the inputs.
    pub wkt_crs: Option<Vec<u8>>,
    /// Extra Bytes record of the output (if any): that of the first input that
    /// has one, with the statistics of all inputs.
    pub extra_bytes_vlr: Option<Vec<u8>>,
    /// Number of bytes that trail each point.
    pub num_extra_bytes: u16,
    /// Point format of the output (6, 7, or 8).
    pub point_format: u8,
}

/// Whether a LAS point format has GPS time: all but 0 and 2 do.
pub open spec fn has_gps_time(fmt: u8) -> bool {
    fmt != 0 && fmt != 2
}

/// Returns true if the LAS point format includes GPS time.
pub fn format_has_gps_time(fmt: u8) -> (b: bool)
    ensures
        b == has_gps_time(fmt),
{
    !(fmt == 0 || fmt == 2)
}

/// The COPC point format for a LAS point format: 8 for those with colour and
/// near infrared, 7 for those with colour, 6 for all others.
pub open spec fn copc_format(id: u8) -> u8 {
    if id == 8 || id == 10 {
        8
    } else if id == 2 || id == 3 || id == 5 || id == 7 {
        7
    } else {
        6
    }
}

/// Maps a LAS point format (0–10) to a COPC point format (6, 7, or 8).
pub fn input_to_copc_format(id: u8) -> (fmt: u8)
    ensures
        fmt == copc_format(id),
{
    match id {
        2 | 3 | 5 | 7 => 7,
        8 | 10 => 8,
        _ => 6,
    }
}

/// The EPSG codes of the first result from `i` on that has a GeoTIFF
/// declaration.
pub open spec fn geotiff_from(results: Seq<ScanResult>, i: int) -> Option<Epsg>
    decreases results.len() - i,
{
    if i < 0 || i >= results.len() {
        None
    } else {
        match results[i].crs {
            Some(CrsKind::GeoTiffEpsg(h, v)) => Some((h, v)),
            _ => geotiff_from(results, i + 1),
        }
    }
}

/// The WKT of the output: that of the inputs, else what the registry has for
/// their horizontal code.
pub open spec fn output_wkt(results: Seq<ScanResult>, wkt: Option<Seq<u8>>) -> Option<Seq<u8>> {
    match wkt {
        Some(w) => Some(w),
        None => match geotiff_from(results, 0) {
            Some(e) => registry_wkt(e.0),
            None => None,
        },
    }
}

/// The first result from `i` on that declares a reference system; 0 if none
/// does.
pub open spec fn crs_index_from(results: Seq<ScanResult>, i: int) -> int
    decreases results.len() - i,
{
    if i < 0 || i >= results.len() {
        0
    } else if results[i].crs is Some {
        i
    } else {
        crs_index_from(results, i + 1)
    }
}

/// The first result from `i` on that declares Extra Bytes; 0 if none does.
pub open spec fn extras_index_from(results: Seq<ScanResult>, i: int) -> int
    decreases results.len() - i,
{
    if i < 0 || i >= results.len() {
        0
    } else if results[i].extra_bytes_parsed is Some {
        i
    } else {
        extras_index_from(results, i + 1)
    }
}

/// How two optional declarations compare.
pub open spec fn declared_alike(
    a: Option<CrsKind>,
    b: Option<CrsKind>,
    codes: Option<Epsg>,
) -> bool {
    match (a, b) {
        (None, None) => true,
        (Some(x), Some(y)) => compatible(x, y, codes).0,
        _ => false,
    }
}

/// What is wrong with the reference system or the point format of file `i`.
pub open spec fn basic_error(
    files: Seq<String>,
    results: Seq<ScanResult>,
    codes: Option<Epsg>,
    i: int,
) -> Option<ErrorView> {
    let c = crs_index_from(results, 0);
    if i != c && !declared_alike(results[c].crs, results[i].crs, codes) {
        Some(ErrorView::CrsMismatch { file_a: files[c]@, file_b: files[i]@ })
    } else if results[i].point_format_id != results[0].point_format_id {
        Some(
            ErrorView::PointFormatMismatch {
                file_a: files[0]@,
                format_a: results[0].point_format_id,
                file_b: files[i]@,
                format_b: results[i].point_format_id,
            },
        )
    } else {
        None
    }
}

/// The first such error from file `i` on.
pub open spec fn basic_error_from(
    files: Seq<String>,
    results: Seq<ScanResult>,
    codes: Option<Epsg>,
    i: int,
) -> Option<ErrorView>
    decreases results.len() - i,
{
    if i < 0 || i >= results.len() {
        None
    } else {
        match basic_error(files, results, codes, i) {
            Some(e) => Some(e),
            None => basic_error_from(files, results, codes, i + 1),
        }
    }
}

/// Whether the Extra Bytes of file `i` agree with those of the reference file.
pub open spec fn extras_alike(results: Seq<ScanResult>, i: int) -> bool {
    let e = extras_index_from(results, 0);
    i == e || (results[i].extra_bytes_schema_hash == results[e].extra_bytes_schema_hash
        && results[i].num_extra_bytes == results[e].num_extra_bytes)
}

/// Every reason why the Extra Bytes of two files do not agree.
pub open spec fn mismatch_lines(a: ScanResult, b: ScanResult) -> Seq<LineView> {
    (if a.num_extra_bytes != b.num_extra_bytes {
        seq![LineView::Width { reference: a.num_extra_bytes, other: b.num_extra_bytes }]
    } else {
        Seq::empty()
    }) + match (a.extra_bytes_parsed, b.extra_bytes_parsed) {
        (Some(x), Some(y)) => schema_diffs(x@.0, y@.0).map_values(
            |d: DiffView| LineView::Schema(d),
        ),
        (Some(_), None) => seq![LineView::OnlyReference],
        (None, Some(_)) => seq![LineView::OnlyOther],
        (None, None) => Seq::empty(),
    }
}

/// The error for the first file from `i` on whose Extra Bytes do not agree with
/// those of the reference file.
pub open spec fn extras_error_from(
    files: Seq<String>,
    results: Seq<ScanResult>,
    i: int,
) -> Option<ErrorView>
    decreases results.len() - i,
{
    let e = extras_index_from(results, 0);
    if i < 0 || i >= results.len() {
        None
    } else if !extras_alike(results, i) {
        Some(
            ErrorView::ExtraBytesMismatch {
                file_a: files[e]@,
                file_b: files[i]@,
                detail: mismatch_lines(results[e], results[i]),
            },
        )
    } else {
        extras_error_from(files, results, i + 1)
    }
}

/// What is wrong with the request for a temporal index.
pub open spec fn temporal_error(results: Seq<ScanResult>, temporal_index: Option<u32>) -> Option<
    ErrorView,
> {
    match temporal_index {
        None => None,
        Some(stride) => {
            if stride == 0 {
                Some(ErrorView::InvalidTemporalStride { stride })
            } else if !has_gps_time(results[0].point_format_id) {
                Some(ErrorView::NoGpsTime { format: results[0].point_format_id })
            } else {
                None
            }
        },
    }
}

/// The first error of all: reference systems and point formats file by file,
/// then Extra Bytes, then the temporal index.
pub open spec fn input_error(
    files: Seq<String>,
    results: Seq<ScanResult>,
    wkt: Option<Seq<u8>>,
    temporal_index: Option<u32>,
) -> Option<ErrorView> {
    error_for(files, results, record_codes(output_wkt(results, wkt)), temporal_index)
}

/// The Extra Bytes of all files that declare any.
pub open spec fn all_extras(results: Seq<ScanResult>) -> Seq<ParsedExtraBytes>
    decreases results.len(),
{
    if results.len() == 0 {
        Seq::empty()
    } else {
        match results.last().extra_bytes_parsed {
            Some(p) => all_extras(results.drop_last()).push(p),
            None => all_extras(results.drop_last()),
        }
    }
}

/// The Extra Bytes record of the output: the given one with the statistics of
/// all files, where they can be merged.
pub open spec fn output_extras(results: Seq<ScanResult>, vlr: Option<Seq<u8>>) -> Option<Seq<u8>> {
    let files = all_extras(results);
    match vlr {
        Some(b) => {
            if files.len() > 0 && mergeable(b, files) {
                Some(merged_record(b, files, b.len() / 192))
            } else {
                Some(b)
            }
        },
        None => None,
    }
}

/// Every parsed record has statistics for each field.
pub open spec fn results_wf(results: Seq<ScanResult>) -> bool {
    forall|i: int|
        0 <= i < results.len() ==> ((#[trigger] results[i]).extra_bytes_parsed matches Some(p)
            ==> p.wf())
}

/// The WKT of the output.
fn choose_wkt(results: &Vec<ScanResult>, canonical_wkt: Option<Vec<u8>>) -> (r: Option<Vec<u8>>)
    ensures
        opt_bytes(r) == output_wkt(results@, opt_bytes(canonical_wkt)),
{
    match canonical_wkt {
        Some(w) => Some(w),
        None => {
            let mut i: usize = 0;
            while i < results.len()
                invariant
                    i <= results@.len(),
                    geotiff_from(results@, 0) == geotiff_from(results@, i as int),
                    canonical_wkt is None,
                decreases results@.len() - i,
            {
                match results[i].crs {
                    Some(CrsKind::GeoTiffEpsg(h, _)) => {
                        return wkt_for_epsg(h);
                    },
                    _ => {},
                }
                i = i + 1;
            }
            None
        },
    }
}

pub(crate) fn find_crs(results: &Vec<ScanResult>) -> (c: usize)
    requires
        results@.len() > 0,
    ensures
        c == crs_index_from(results@, 0),
        c < results@.len(),
{
    let mut i: usize = 0;
    while i < results.len()
        invariant
            results@.len() > 0,
            i <= results@.len(),
            crs_index_from(results@, 0) == crs_index_from(results@, i as int),
        decreases results@.len() - i,
    {
        if results[i].crs.is_some() {
            return i;
        }
        i = i + 1;
    }
    0
}

fn find_extras(results: &Vec<ScanResult>) -> (c: usize)
    requires
        results@.len() > 0,
    ensures
        c == extras_index_from(results@, 0),
        c < results@.len(),
{
    let mut i: usize = 0;
    while i < results.len()
        invariant
            results@.len() > 0,
            i <= results@.len(),
            extras_index_from(results@, 0) == extras_index_from(results@, i as int),
        decreases results@.len() - i,
    {
        if results[i].extra_bytes_parsed.is_some() {
            return i;
        }
        i = i + 1;
    }
    0
}

fn same_hash(a: Option<u64>, b: Option<u64>) -> (r: bool)
    ensures
        r == (a == b),
{
    match (a, b) {
        (Some(x), Some(y)) => x == y,
        (None, None) => true,
        _ => false,
    }
}

/// Appends the differences of two schemas as reasons.
fn push_schema_lines(
    detail: &mut Vec<MismatchLine>,
    reference: &ParsedExtraBytes,
    other: &ParsedExtraBytes,
)
    ensures
        line_views(final(detail)@) == line_views(old(detail)@) + schema_diffs(
            reference@.0,
            other@.0,
        ).map_values(|d: DiffView| LineView::Schema(d)),
{
    let ghost wrap = |d: DiffView| LineView::Schema(d);
    let mut diffs = diff_schemas(reference, other);
    let ghost want = schema_diffs(reference@.0, other@.0);
    let ghost before = line_views(detail@);
    let ghost mut k: int = 0;
    assert(want.skip(0) =~= want);
    assert(line_views(detail@) =~= before + want.take(0).map_values(wrap));
    while diffs.len() > 0
        invariant
            wrap == (|d: DiffView| LineView::Schema(d)),
            0 <= k <= want.len(),
            diff_views(diffs@) == want.skip(k),
            line_views(detail@) == before + want.take(k).map_values(wrap),
        decreases diffs@.len(),
    {
        let ghost all = diffs@;
        let d = diffs.remove(0);
        let line = MismatchLine::Schema(d);
        proof {
            assert(diff_views(all).len() == all.len());
            assert(want.skip(k).len() == want.len() - k);
            assert(diff_views(all)[0] == d@);
            assert(want.skip(k)[0] == want[k]);
            assert(diff_views(diffs@) =~= want.skip(k + 1)) by {
                assert forall|j: int| 0 <= j < diffs@.len() implies #[trigger] diff_views(
                    diffs@,
                )[j] == want.skip(k + 1)[j] by {
                    assert(diff_views(all)[j + 1] == want.skip(k)[j + 1]);
                }
            }
            assert(want.take(k + 1) =~= want.take(k).push(d@));
            assert(line_views(detail@.push(line)) =~= line_views(detail@).push(line@));
            assert(line_views(detail@).push(line@) =~= before + want.take(k + 1).map_values(wrap));
            k = k + 1;
        }
        detail.push(line);
    }
    assert(diff_views(diffs@).len() == 0);
    assert(want.take(k) =~= want);
}

/// The error for two files whose Extra Bytes do not agree, with every
/// structural difference between them.
pub fn extras_mismatch_error(
    file_a: &String,
    file_b: &String,
    reference: &ScanResult,
    other: &ScanResult,
) -> (e: Error)
    ensures
        e@ == (ErrorView::ExtraBytesMismatch {
            file_a: file_a@,
            file_b: file_b@,
            detail: mismatch_lines(*reference, *other),
        }),
{
    let mut detail: Vec<MismatchLine> = Vec::new();
    if other.num_extra_bytes != reference.num_extra_bytes {
        detail.push(
            MismatchLine::Width {
                reference: reference.num_extra_bytes,
                other: other.num_extra_bytes,
            },
        );
    }
    match (&reference.extra_bytes_parsed, &other.extra_bytes_parsed) {
        (Some(a), Some(b)) => {
            push_schema_lines(&mut detail, a, b);
        },
        (Some(_), None) => {
            detail.push(MismatchLine::OnlyReference);
        },
        (None, Some(_)) => {
            detail.push(MismatchLine::OnlyOther);
        },
        (None, None) => {},
    }
    assert(line_views(detail@) =~= mismatch_lines(*reference, *other));
    Error::ExtraBytesMismatch { file_a: file_a.clone(), file_b: file_b.clone(), detail }
}

/// What is wrong with the reference systems and the point formats.
fn check_basics(
    input_files: &Vec<String>,
    results: &Vec<ScanResult>,
    codes: Option<Epsg>,
) -> (r: Option<Error>)
    requires
        0 < results@.len() <= input_files@.len(),
    ensures
        match r {
            Some(e) => basic_error_from(input_files@, results@, codes, 0) == Some(e@),
            None => basic_error_from(input_files@, results@, codes, 0) is None,
        },
{
    let c: usize = find_crs(results);
    let first: u8 = results[0].point_format_id;
    let mut i: usize = 0;
    while i < results.len()
        invariant
            0 < results@.len() <= input_files@.len(),
            i <= results@.len(),
            c == crs_index_from(results@, 0),
            c < results@.len(),
            first == results@[0].point_format_id,
            basic_error_from(input_files@, results@, codes, 0) == basic_error_from(
                input_files@,
                results@,
                codes,
                i as int,
            ),
        decreases results@.len() - i,
    {
        if i != c {
            let alike = match (results[c].crs, results[i].crs) {
                (None, None) => true,
                (Some(a), Some(b)) => compare_kinds(a, b, codes).0,
                _ => false,
            };
            if !alike {
                return Some(
                    Error::CrsMismatch {
                        file_a: input_files[c].clone(),
                        file_b: input_files[i].clone(),
                    },
                );
            }
        }
        if results[i].point_format_id != first {
            return Some(
                Error::PointFormatMismatch {
                    file_a: input_files[0].clone(),
                    format_a: first,
                    file_b: input_files[i].clone(),
                    format_b: results[i].point_format_id,
                },
            );
        }
        i = i + 1;
    }
    None
}

/// What is wrong with the Extra Bytes.
fn check_extras(input_files: &Vec<String>, results: &Vec<ScanResult>, e: usize) -> (r: Option<
    Error,
>)
    requires
        0 < results@.len() <= input_files@.len(),
        e == extras_index_from(results@, 0),
        e < results@.len(),
    ensures
        match r {
            Some(x) => extras_error_from(input_files@, results@, 0) == Some(x@),
            None => extras_error_from(input_files@, results@, 0) is None,
        },
{
    let mut i: usize = 0;
    while i < results.len()
        invariant
            0 < results@.len() <= input_files@.len(),
            e == extras_index_from(results@, 0),
            e < results@.len(),
            i <= results@.len(),
            extras_error_from(input_files@, results@, 0) == extras_error_from(
                input_files@,
                results@,
                i as int,
            ),
        decreases results@.len() - i,
    {
        if i != e && !(same_hash(
            results[i].extra_bytes_schema_hash,
            results[e].extra_bytes_schema_hash,
        ) && results[i].num_extra_bytes == results[e].num_extra_bytes) {
            return Some(
                extras_mismatch_error(&input_files[e], &input_files[i], &results[e], &results[i]),
            );
        }
        i = i + 1;
    }
    None
}

/// The Extra Bytes of all files that declare any.
pub(crate) fn collect_extras<'a>(results: &'a Vec<ScanResult>) -> (r: Vec<&'a ParsedExtraBytes>)
    requires
        results_wf(results@),
    ensures
        derefs(r@) == all_extras(results@),
        forall|i: int| 0 <= i < r@.len() ==> (#[trigger] r@[i]).wf(),
{
    let mut r: Vec<&'a ParsedExtraBytes> = Vec::new();
    let mut i: usize = 0;
    assert(results@.take(0) =~= Seq::<ScanResult>::empty());
    assert(derefs(r@) =~= all_extras(results@.take(0)));
    while i < results.len()
        invariant
            i <= results@.len(),
            results_wf(results@),
            derefs(r@) == all_extras(results@.take(i as int)),
            forall|i: int| 0 <= i < r@.len() ==> (#[trigger] r@[i]).wf(),
        decreases results@.len() - i,
    {
        proof {
            assert(results@.take(i + 1).drop_last() =~= results@.take(i as int));
            assert(results@.take(i + 1).last() == results@[i as int]);
        }
        match &results[i].extra_bytes_parsed {
            Some(p) => {
                assert(derefs(r@.push(p)) =~= derefs(r@).push(*p));
                r.push(p);
            },
            None => {},
        }
        i = i + 1;
    }
    assert(results@.take(i as int) =~= results@);
    r
}

/// The first error of all, where `codes` are those of the WKT of the output.
pub open spec fn error_for(
    files: Seq<String>,
    results: Seq<ScanResult>,
    codes: Option<Epsg>,
    temporal_index: Option<u32>,
) -> Option<ErrorView> {
    match basic_error_from(files, results, codes, 0) {
        Some(e) => Some(e),
        None => match extras_error_from(files, results, 0) {
            Some(e) => Some(e),
            None => temporal_error(results, temporal_index),
        },
    }
}

/// What is wrong with the inputs.
pub(crate) fn check_inputs(
    input_files: &Vec<String>,
    results: &Vec<ScanResult>,
    codes: Option<Epsg>,
    temporal_index: Option<u32>,
) -> (r: Option<Error>)
    requires
        0 < results@.len() <= input_files@.len(),
    ensures
        match r {
            Some(e) => error_for(input_files@, results@, codes, temporal_index) == Some(e@),
            None => error_for(input_files@, results@, codes, temporal_index) is None,
        },
{
    match check_basics(input_files, results, codes) {
        Some(e) => {
            return Some(e);
        },
        None => {},
    }
    let e: usize = find_extras(results);
    match check_extras(input_files, results, e) {
        Some(x) => {
            return Some(x);
        },
        None => {},
    }
    let first: u8 = results[0].point_format_id;
    match temporal_index {
        Some(stride) => {
            if stride == 0 {
                return Some(Error::InvalidTemporalStride { stride });
            }
            if !format_has_gps_time(first) {
                return Some(Error::NoGpsTime { format: first });
            }
        },
        None => {},
    }
    None
}

/// Checks that all scanned files agree on their reference system, their point
/// format and their Extra Bytes schema, and derives the properties of the
/// output.
///
/// Where no input has a WKT record but some input has a GeoTIFF code, the WKT of
/// the output comes from the registry; its vertical part is dropped, because the
/// registry has horizontal codes only. Files that differ in the vertical part
/// alone are accepted. The statistics of the Extra Bytes are united.
pub fn validate(
    input_files: &Vec<String>,
    results: &Vec<ScanResult>,
    canonical_wkt: Option<Vec<u8>>,
    canonical_extra_bytes_vlr: Option<Vec<u8>>,
    temporal_index: Option<u32>,
) -> (r: Result<ValidatedInputs, Error>)
    requires
        0 < results@.len() <= input_files@.len(),
        results_wf(results@),
    ensures
        match r {
            Ok(v) => {
                &&& input_error(
                    input_files@,
                    results@,
                    opt_bytes(canonical_wkt),
                    temporal_index,
                ) is None
                &&& opt_bytes(v.wkt_crs) == output_wkt(results@, opt_bytes(canonical_wkt))
                &&& opt_bytes(v.extra_bytes_vlr) == output_extras(
                    results@,
                    opt_bytes(canonical_extra_bytes_vlr),
                )
                &&& v.num_extra_bytes == results@[extras_index_from(
                    results@,
                    0,
                )].num_extra_bytes
                &&& v.point_format == copc_format(results@[0].point_format_id)
            },
            Err(e) => input_error(
                input_files@,
                results@,
                opt_bytes(canonical_wkt),
                temporal_index,
            ) == Some(e@),
        },
{
    let wkt = choose_wkt(results, canonical_wkt);
    let codes = match &wkt {
        Some(w) => get_epsg_from_wkt_crs_bytes(w.as_slice()),
        None => None,
    };
    match check_inputs(input_files, results, codes, temporal_index) {
        Some(e) => {
            return Err(e);
        },
        None => {},
    }
    let e: usize = find_extras(results);
    let first: u8 = results[0].point_format_id;
    let extras = collect_extras(results);
    let mut vlr: Option<Vec<u8>> = None;
    match canonical_extra_bytes_vlr {
        Some(b) => {
            let mut bytes = b;
            if extras.len() > 0 {
                match merge_stats_into_canonical(&mut bytes, &extras) {
                    Ok(_) => {},
                    Err(_) => {},
                }
            }
            vlr = Some(bytes);
        },
        None => {},
    }
    Ok(
        ValidatedInputs {
            wkt_crs: wkt,
            extra_bytes_vlr: vlr,
            num_extra_bytes: results[e].num_extra_bytes,
            point_format: input_to_copc_format(first),
        },
    )
}

/// Whether the inputs are accepted does not depend on statistics: files whose
/// Extra Bytes have the same schema hash and width never cause an Extra Bytes
/// error.
pub proof fn law_same_schema_is_accepted(files: Seq<String>, results: Seq<ScanResult>, i: int)
    requires
        0 <= i,
        forall|a: int, b: int|
            0 <= a < results.len() && 0 <= b < results.len() ==> {
                &&& (#[trigger] results[a]).extra_bytes_schema_hash == (
                #[trigger] results[b]).extra_bytes_schema_hash
                &&& results[a].num_extra_bytes == results[b].num_extra_bytes
            },
    ensures
        extras_error_from(files, results, i) is None,
    decreases results.len() - i,
{
    if i < results.len() {
        lemma_extras_index(results, 0);
        law_same_schema_is_accepted(files, results, i + 1);
    }
}

proof fn lemma_extras_index(results: Seq<ScanResult>, i: int)
    requires
        0 <= i,
        results.len() > 0,
    ensures
        0 <= extras_index_from(results, i) < results.len(),
    decreases results.len() - i,
{
    if i < results.len() {
        lemma_extras_index(results, i + 1);
    }
}

} // verus!
