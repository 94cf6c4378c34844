//! What the checks of the input files promise: which inputs are accepted, what an
//! error says, and how reference systems, bounds and records are read.

use crate::crs::{
    code_at_end, compatible, epsg_of, file_kind, first_from, is_blank, is_digit,
    last_ten, occurs_at, opt_bytes, run_length, run_value, trimmed, upto_digit,
    vert_cs, vertcrs, verticalcrs, wkt_parts, CrsKind, Epsg, GeoKeys,
};
use crate::error::{ErrorView, LineView};
use crate::extra_bytes::{hash_of_fields, parsed};
use crate::fbits::rank;
use crate::inputs::{is_point_file, point_files, DirFile};
use crate::scan::{
    empty_bounds, extra_bytes_from, first_extra_bytes, first_wkt, holds,
    is_extra_bytes, is_numeric, scan_matches, scanned, united, Bounds, FileHeader, ScanOutput,
    ScanResult, Vlr,
};
use crate::schema_diff::{schema_diffs, DiffView};
use crate::text::{decimal, digit};
use crate::validate::{
    all_extras, basic_error, basic_error_from, copc_format, crs_index_from, declared_alike, error_for,
    extras_alike, extras_error_from, extras_index_from, geotiff_from, has_gps_time, mismatch_lines,
    output_wkt,
};
use std::collections::hash_map::DefaultHasher;
use vstd::prelude::*;
use vstd::std_specs::hash::DefaultHasherAdditionalSpecFns;

verus! {

// Which inputs are accepted.
/// The reference systems of two files agree: neither has one; both have the same
/// WKT; both name the same horizontal code; or one has a WKT whose horizontal
/// code is the one that the other names. Vertical parts do not count.
pub open spec fn systems_agree(a: Option<CrsKind>, b: Option<CrsKind>, codes: Option<Epsg>) -> bool {
    match (a, b) {
        (None, None) => true,
        (Some(CrsKind::WktHash(x)), Some(CrsKind::WktHash(y))) => x == y,
        (Some(CrsKind::GeoTiffEpsg(h, _)), Some(CrsKind::GeoTiffEpsg(k, _))) => h == k,
        (Some(CrsKind::WktHash(_)), Some(CrsKind::GeoTiffEpsg(h, _))) => codes matches Some(e)
            && e.0 == h,
        (Some(CrsKind::GeoTiffEpsg(h, _)), Some(CrsKind::WktHash(_))) => codes matches Some(e)
            && e.0 == h,
        _ => false,
    }
}

/// Every file agrees with the first: in its reference system, its point format,
/// and the schema and width of its Extra Bytes. Where a temporal index is asked
/// for, its stride is not zero and the points have a time: theirs is not one of
/// the formats 0 and 2.
pub open spec fn inputs_agree(
    results: Seq<ScanResult>,
    codes: Option<Epsg>,
    temporal_index: Option<u32>,
) -> bool {
    &&& forall|i: int|
        0 <= i < results.len() ==> {
            &&& systems_agree(results[0].crs, (#[trigger] results[i]).crs, codes)
            &&& results[i].point_format_id == results[0].point_format_id
            &&& results[i].extra_bytes_schema_hash == results[0].extra_bytes_schema_hash
            &&& results[i].num_extra_bytes == results[0].num_extra_bytes
        }
    &&& temporal_index matches Some(stride) ==> {
        &&& stride > 0
        &&& results[0].point_format_id != 0
        &&& results[0].point_format_id != 2
    }
}

proof fn lemma_crs_index(results: Seq<ScanResult>, i: int)
    requires
        0 <= i,
        results.len() > 0,
    ensures
        0 <= crs_index_from(results, i) < results.len(),
        crs_index_from(results, i) >= i || crs_index_from(results, i) == 0,
        forall|k: int|
            i <= k < results.len() && (#[trigger] results[k]).crs is Some ==> {
                &&& i <= crs_index_from(results, i) <= k
                &&& results[crs_index_from(results, i)].crs is Some
            },
    decreases results.len() - i,
{
    if i < results.len() {
        lemma_crs_index(results, i + 1);
        if results[i].crs is None {
            assert forall|k: int|
                i <= k < results.len() && (#[trigger] results[k]).crs is Some implies {
                &&& i <= crs_index_from(results, i) <= k
                &&& results[crs_index_from(results, i)].crs is Some
            } by {
                assert(k != i);
            }
        }
    }
}

proof fn lemma_extras_index(results: Seq<ScanResult>, i: int)
    requires
        0 <= i,
        results.len() > 0,
    ensures
        0 <= extras_index_from(results, i) < results.len(),
        (forall|k: int|
            i <= k < results.len() ==> (#[trigger] results[k]).extra_bytes_parsed is None)
            ==> extras_index_from(results, i) == 0,
        forall|k: int|
            i <= k < results.len() && (#[trigger] results[k]).extra_bytes_parsed is Some ==> {
                &&& i <= extras_index_from(results, i) <= k
                &&& results[extras_index_from(results, i)].extra_bytes_parsed is Some
            },
    decreases results.len() - i,
{
    if i < results.len() {
        lemma_extras_index(results, i + 1);
        if results[i].extra_bytes_parsed is None {
            assert forall|k: int|
                i <= k < results.len() && (
                #[trigger] results[k]).extra_bytes_parsed is Some implies {
                &&& i <= extras_index_from(results, i) <= k
                &&& results[extras_index_from(results, i)].extra_bytes_parsed is Some
            } by {
                assert(k != i);
            }
        }
    }
}

/// There is no basic error from file `i` on exactly where no file has one.
proof fn lemma_basic_none(
    files: Seq<String>,
    results: Seq<ScanResult>,
    codes: Option<Epsg>,
    i: int,
)
    requires
        0 <= i,
    ensures
        basic_error_from(files, results, codes, i) is None <==> forall|k: int|
            i <= k < results.len() ==> (#[trigger] basic_error(files, results, codes, k)) is None,
        basic_error_from(files, results, codes, i) is Some ==> exists|k: int|
            {
                &&& i <= k < results.len()
                &&& basic_error_from(files, results, codes, i) == #[trigger] basic_error(
                    files,
                    results,
                    codes,
                    k,
                )
                &&& forall|m: int|
                    i <= m < k ==> (#[trigger] basic_error(files, results, codes, m)) is None
            },
    decreases results.len() - i,
{
    if i < results.len() {
        lemma_basic_none(files, results, codes, i + 1);
        let here = basic_error(files, results, codes, i);
        let rest = basic_error_from(files, results, codes, i + 1);
        if here is None && rest is Some {
            let k = choose|k: int|
                {
                    &&& i + 1 <= k < results.len()
                    &&& rest == #[trigger] basic_error(files, results, codes, k)
                    &&& forall|m: int|
                        i + 1 <= m < k ==> (#[trigger] basic_error(
                            files,
                            results,
                            codes,
                            m,
                        )) is None
                };
            assert(basic_error_from(files, results, codes, i) == basic_error(
                files,
                results,
                codes,
                k,
            ));
        }
    }
}

proof fn lemma_extras_none(files: Seq<String>, results: Seq<ScanResult>, i: int)
    requires
        0 <= i,
    ensures
        extras_error_from(files, results, i) is None <==> forall|k: int|
            i <= k < results.len() ==> #[trigger] extras_alike(results, k),
    decreases results.len() - i,
{
    if i < results.len() {
        lemma_extras_none(files, results, i + 1);
    }
}

/// The inputs are accepted exactly where they agree.
#[verifier::rlimit(40)]
pub proof fn law_accepted_where_inputs_agree(
    files: Seq<String>,
    results: Seq<ScanResult>,
    codes: Option<Epsg>,
    temporal_index: Option<u32>,
)
    requires
        0 < results.len() <= files.len(),
    ensures
        error_for(files, results, codes, temporal_index) is None <==> inputs_agree(
            results,
            codes,
            temporal_index,
        ),
{
    let c = crs_index_from(results, 0);
    let e = extras_index_from(results, 0);
    lemma_crs_index(results, 0);
    lemma_extras_index(results, 0);
    lemma_basic_none(files, results, codes, 0);
    lemma_extras_none(files, results, 0);
    if error_for(files, results, codes, temporal_index) is None {
        assert(extras_alike(results, 0));
        assert(basic_error(files, results, codes, 0) is None);
        assert forall|i: int| 0 <= i < results.len() implies {
            &&& systems_agree(results[0].crs, (#[trigger] results[i]).crs, codes)
            &&& results[i].point_format_id == results[0].point_format_id
            &&& results[i].extra_bytes_schema_hash == results[0].extra_bytes_schema_hash
            &&& results[i].num_extra_bytes == results[0].num_extra_bytes
        } by {
            assert(basic_error(files, results, codes, i) is None);
            assert(extras_alike(results, i));
            if c != 0 {
                assert(declared_alike(results[c].crs, results[0].crs, codes));
            }
            if i != c {
                assert(declared_alike(results[c].crs, results[i].crs, codes));
            }
        }
    }
    if inputs_agree(results, codes, temporal_index) {
        assert(systems_agree(results[0].crs, results[c].crs, codes));
        assert forall|k: int| 0 <= k < results.len() implies (#[trigger] basic_error(
            files,
            results,
            codes,
            k,
        )) is None by {
            assert(systems_agree(results[0].crs, results[k].crs, codes));
            assert(results[c].crs is Some ==> c == 0) by {
                if results[c].crs is Some {
                    assert(results[0].crs is Some);
                }
            }
        }
        assert forall|k: int| 0 <= k < results.len() implies #[trigger] extras_alike(
            results,
            k,
        ) by {
            assert(results[k].num_extra_bytes == results[0].num_extra_bytes);
            assert(results[e].num_extra_bytes == results[0].num_extra_bytes);
        }
    }
}

/// An error says the truth. A point format error names the first file, and a file
/// whose format is another, with both formats; no file before it has another
/// format. A reference system error names two files whose systems do not agree.
/// The stride and the missing time are complained of only where all files agree.
#[verifier::rlimit(40)]
pub proof fn law_errors_are_true(
    files: Seq<String>,
    results: Seq<ScanResult>,
    codes: Option<Epsg>,
    temporal_index: Option<u32>,
)
    requires
        0 < results.len() <= files.len(),
    ensures
        match error_for(files, results, codes, temporal_index) {
            Some(ErrorView::PointFormatMismatch { file_a, format_a, file_b, format_b }) => {
                &&& file_a == files[0]@
                &&& format_a == results[0].point_format_id
                &&& format_a != format_b
                &&& exists|i: int|
                    {
                        &&& 0 <= i < results.len()
                        &&& file_b == files[i]@
                        &&& format_b == (#[trigger] results[i]).point_format_id
                        &&& forall|k: int|
                            0 <= k < i ==> (#[trigger] results[k]).point_format_id == format_a
                    }
            },
            Some(ErrorView::CrsMismatch { file_a, file_b }) => exists|a: int, b: int|
                {
                    &&& 0 <= a < results.len()
                    &&& 0 <= b < results.len()
                    &&& file_a == files[a]@
                    &&& file_b == files[b]@
                    &&& !systems_agree(
                        (#[trigger] results[a]).crs,
                        (#[trigger] results[b]).crs,
                        codes,
                    )
                },
            Some(ErrorView::ExtraBytesMismatch { file_a, file_b, detail }) => {
                &&& exists|a: int, b: int|
                    {
                        &&& 0 <= a < results.len()
                        &&& 0 <= b < results.len()
                        &&& file_a == files[a]@
                        &&& file_b == files[b]@
                        &&& ((#[trigger] results[a]).extra_bytes_schema_hash != (
                        #[trigger] results[b]).extra_bytes_schema_hash
                            || results[a].num_extra_bytes != results[b].num_extra_bytes)
                    }
                &&& forall|i: int|
                    0 <= i < results.len() ==> (#[trigger] results[i]).point_format_id
                        == results[0].point_format_id
            },
            Some(ErrorView::InvalidTemporalStride { stride }) => {
                &&& stride == 0
                &&& temporal_index == Some(0u32)
                &&& inputs_agree(results, codes, None)
            },
            Some(ErrorView::NoGpsTime { format }) => {
                &&& format == results[0].point_format_id
                &&& (format == 0 || format == 2)
                &&& temporal_index is Some
                &&& inputs_agree(results, codes, None)
            },
            Some(_) => false,
            None => true,
        },
{
    let c = crs_index_from(results, 0);
    let e = extras_index_from(results, 0);
    lemma_crs_index(results, 0);
    lemma_extras_index(results, 0);
    lemma_basic_none(files, results, codes, 0);
    lemma_extras_none(files, results, 0);
    law_accepted_where_inputs_agree(files, results, codes, None);
    let basic = basic_error_from(files, results, codes, 0);
    if basic is Some {
        let k = choose|k: int|
            {
                &&& 0 <= k < results.len()
                &&& basic == #[trigger] basic_error(files, results, codes, k)
                &&& forall|m: int|
                    0 <= m < k ==> (#[trigger] basic_error(files, results, codes, m)) is None
            };
        assert(results[k] == results[k]);
        if k != c && !declared_alike(results[c].crs, results[k].crs, codes) {
            assert(!systems_agree(results[c].crs, results[k].crs, codes));
        } else {
            assert forall|m: int| 0 <= m < k implies (#[trigger] results[m]).point_format_id
                == results[0].point_format_id by {
                assert(basic_error(files, results, codes, m) is None);
            }
        }
    } else {
        assert forall|i: int| 0 <= i < results.len() implies (
        #[trigger] results[i]).point_format_id == results[0].point_format_id by {
            assert(basic_error(files, results, codes, i) is None);
        }
        if extras_error_from(files, results, 0) is Some {
            lemma_extras_first(files, results, 0);
            let k = choose|k: int|
                {
                    &&& 0 <= k < results.len()
                    &&& !(#[trigger] extras_alike(results, k))
                    &&& extras_error_from(files, results, 0) == Some(
                        ErrorView::ExtraBytesMismatch {
                            file_a: files[e]@,
                            file_b: files[k]@,
                            detail: mismatch_lines(results[e], results[k]),
                        },
                    )
                };
            assert(results[e] == results[e] && results[k] == results[k]);
        }
    }
}

/// File `b` is the first whose reference system does not agree with that of file
/// `a`, which is the first that declares one.
pub open spec fn first_other_system(
    results: Seq<ScanResult>,
    codes: Option<Epsg>,
    a: int,
    b: int,
) -> bool {
    &&& 0 <= a < results.len()
    &&& 0 <= b < results.len()
    &&& results[a].crs is Some
    &&& !systems_agree(results[a].crs, results[b].crs, codes)
    &&& forall|k: int| 0 <= k < a ==> (#[trigger] results[k]).crs is None
    &&& forall|k: int|
        0 <= k < b && k != a ==> systems_agree(
            results[a].crs,
            (#[trigger] results[k]).crs,
            codes,
        )
}

/// File `b` is the first whose Extra Bytes do not agree with those of file `a`,
/// which is the first that declares any, or the first file where none does.
pub open spec fn first_other_extras(results: Seq<ScanResult>, a: int, b: int) -> bool {
    &&& 0 <= a < results.len()
    &&& 0 <= b < results.len()
    &&& results[a].extra_bytes_schema_hash != results[b].extra_bytes_schema_hash
        || results[a].num_extra_bytes != results[b].num_extra_bytes
    &&& results[a].extra_bytes_parsed is None ==> a == 0 && forall|k: int|
        0 <= k < results.len() ==> (#[trigger] results[k]).extra_bytes_parsed is None
    &&& forall|k: int| 0 <= k < a ==> (#[trigger] results[k]).extra_bytes_parsed is None
    &&& forall|k: int|
        0 <= k < b ==> {
            &&& (#[trigger] results[k]).extra_bytes_schema_hash
                == results[a].extra_bytes_schema_hash
            &&& results[k].num_extra_bytes == results[a].num_extra_bytes
        }
}

proof fn lemma_first_other_system(
    files: Seq<String>,
    results: Seq<ScanResult>,
    codes: Option<Epsg>,
    k: int,
)
    requires
        0 <= k < results.len(),
        k != crs_index_from(results, 0),
        !declared_alike(results[crs_index_from(results, 0)].crs, results[k].crs, codes),
        forall|m: int| 0 <= m < k ==> (#[trigger] basic_error(files, results, codes, m)) is None,
    ensures
        first_other_system(results, codes, crs_index_from(results, 0), k),
{
    let c = crs_index_from(results, 0);
    lemma_crs_index(results, 0);
    assert(results[k] == results[k]);
    assert forall|m: int| 0 <= m < k && m != c implies systems_agree(
        results[c].crs,
        (#[trigger] results[m]).crs,
        codes,
    ) by {
        assert(basic_error(files, results, codes, m) is None);
    }
}

proof fn lemma_first_other_extras(results: Seq<ScanResult>, k: int)
    requires
        0 <= k < results.len(),
        !extras_alike(results, k),
        forall|m: int| 0 <= m < k ==> #[trigger] extras_alike(results, m),
    ensures
        first_other_extras(results, extras_index_from(results, 0), k),
{
    let e = extras_index_from(results, 0);
    lemma_extras_index(results, 0);
    assert forall|m: int| 0 <= m < k implies {
        &&& (#[trigger] results[m]).extra_bytes_schema_hash == results[e].extra_bytes_schema_hash
        &&& results[m].num_extra_bytes == results[e].num_extra_bytes
    } by {
        assert(extras_alike(results, m));
    }
}

/// An error on two files that do not agree names the reference file first, then
/// the first file that does not agree with it, and says how their Extra Bytes
/// differ.
pub proof fn law_reference_is_named_first(
    files: Seq<String>,
    results: Seq<ScanResult>,
    codes: Option<Epsg>,
    temporal_index: Option<u32>,
)
    requires
        0 < results.len() <= files.len(),
    ensures
        match error_for(files, results, codes, temporal_index) {
            Some(ErrorView::CrsMismatch { file_a, file_b }) => exists|a: int, b: int|
                {
                    &&& #[trigger] first_other_system(results, codes, a, b)
                    &&& file_a == files[a]@
                    &&& file_b == files[b]@
                },
            Some(ErrorView::ExtraBytesMismatch { file_a, file_b, detail }) => exists|
                a: int,
                b: int,
            |
                {
                    &&& #[trigger] first_other_extras(results, a, b)
                    &&& file_a == files[a]@
                    &&& file_b == files[b]@
                    &&& detail == mismatch_lines(results[a], results[b])
                },
            _ => true,
        },
{
    let c = crs_index_from(results, 0);
    lemma_basic_none(files, results, codes, 0);
    let basic = basic_error_from(files, results, codes, 0);
    if basic is Some {
        let k = choose|k: int|
            {
                &&& 0 <= k < results.len()
                &&& basic == #[trigger] basic_error(files, results, codes, k)
                &&& forall|m: int|
                    0 <= m < k ==> (#[trigger] basic_error(files, results, codes, m)) is None
            };
        if k != c && !declared_alike(results[c].crs, results[k].crs, codes) {
            lemma_first_other_system(files, results, codes, k);
        }
    } else if extras_error_from(files, results, 0) is Some {
        let e = extras_index_from(results, 0);
        lemma_extras_first(files, results, 0);
        let k = choose|k: int|
            {
                &&& 0 <= k < results.len()
                &&& !(#[trigger] extras_alike(results, k))
                &&& forall|m: int| 0 <= m < k ==> #[trigger] extras_alike(results, m)
                &&& extras_error_from(files, results, 0) == Some(
                    ErrorView::ExtraBytesMismatch {
                        file_a: files[e]@,
                        file_b: files[k]@,
                        detail: mismatch_lines(results[e], results[k]),
                    },
                )
            };
        lemma_first_other_extras(results, k);
    }
}

proof fn lemma_extras_first(files: Seq<String>, results: Seq<ScanResult>, i: int)
    requires
        0 <= i,
        extras_error_from(files, results, i) is Some,
    ensures
        exists|k: int|
            {
                &&& i <= k < results.len()
                &&& !(#[trigger] extras_alike(results, k))
                &&& forall|m: int| i <= m < k ==> #[trigger] extras_alike(results, m)
                &&& extras_error_from(files, results, i) == Some(
                    ErrorView::ExtraBytesMismatch {
                        file_a: files[extras_index_from(results, 0)]@,
                        file_b: files[k]@,
                        detail: mismatch_lines(
                            results[extras_index_from(results, 0)],
                            results[k],
                        ),
                    },
                )
            },
    decreases results.len() - i,
{
    if i < results.len() && extras_alike(results, i) {
        lemma_extras_first(files, results, i + 1);
    }
}

/// The lines on Extra Bytes that do not agree are complete and say nothing that is
/// not so: the widths where they differ, the reference's first; which of the two
/// files declares none; and, where both declare some, every difference of the
/// schemas.
pub proof fn law_mismatch_lines(a: ScanResult, b: ScanResult, d: DiffView)
    ensures
        ({
            let lines = mismatch_lines(a, b);
            &&& lines.contains(
                LineView::Width { reference: a.num_extra_bytes, other: b.num_extra_bytes },
            ) <==> a.num_extra_bytes != b.num_extra_bytes
            &&& lines.contains(LineView::OnlyReference) <==> a.extra_bytes_parsed is Some
                && b.extra_bytes_parsed is None
            &&& lines.contains(LineView::OnlyOther) <==> a.extra_bytes_parsed is None
                && b.extra_bytes_parsed is Some
            &&& lines.contains(LineView::Schema(d)) <==> (a.extra_bytes_parsed matches Some(x)
                && b.extra_bytes_parsed matches Some(y) && schema_diffs(x@.0, y@.0).contains(d))
            &&& forall|i: int|
                0 <= i < lines.len() && #[trigger] lines[i] is Width ==> lines[i]
                    == (LineView::Width {
                    reference: a.num_extra_bytes,
                    other: b.num_extra_bytes,
                })
        }),
{
    let lines = mismatch_lines(a, b);
    let width = LineView::Width { reference: a.num_extra_bytes, other: b.num_extra_bytes };
    let n: int = if a.num_extra_bytes != b.num_extra_bytes {
        1
    } else {
        0
    };
    if n == 1 {
        assert(lines[0] == width);
    }
    match (a.extra_bytes_parsed, b.extra_bytes_parsed) {
        (Some(x), Some(y)) => {
            let ds = schema_diffs(x@.0, y@.0);
            if ds.contains(d) {
                let k = choose|k: int| 0 <= k < ds.len() && ds[k] == d;
                assert(lines[n + k] == LineView::Schema(d));
            }
            assert forall|k: int| n <= k < lines.len() implies #[trigger] lines[k]
                == LineView::Schema(ds[k - n]) by {}
        },
        (Some(_), None) => {
            assert(lines[n] == LineView::OnlyReference);
        },
        (None, Some(_)) => {
            assert(lines[n] == LineView::OnlyOther);
        },
        (None, None) => {},
    }
}

/// The point format of the output has what that of the inputs has: near infrared
/// in format 8 for inputs of formats 8 and 10, colours in formats 7 and 8 for
/// inputs of formats 2, 3, 5, 7, 8 and 10, and nothing more than that; a time in
/// any case. A file of the output's format keeps its format.
pub proof fn law_output_format(id: u8)
    ensures
        6 <= copc_format(id) <= 8,
        copc_format(id) == 8 <==> id == 8 || id == 10,
        copc_format(id) >= 7 <==> id == 2 || id == 3 || id == 5 || id == 7 || id == 8 || id == 10,
        copc_format(copc_format(id)) == copc_format(id),
        has_gps_time(copc_format(id)),
        !has_gps_time(id) <==> id == 0 || id == 2,
{
}

/// The WKT of the output is that of the inputs where there is one; else that of
/// the registry for the first GeoTIFF code of the inputs; and none where there is
/// no code.
pub proof fn law_output_wkt(results: Seq<ScanResult>, wkt: Option<Seq<u8>>, i: int)
    requires
        0 <= i < results.len(),
        forall|k: int| 0 <= k < i ==> !((#[trigger] results[k]).crs matches Some(
            CrsKind::GeoTiffEpsg(_, _),
        )),
    ensures
        wkt is Some ==> output_wkt(results, wkt) == wkt,
        wkt is None ==> (results[i].crs matches Some(CrsKind::GeoTiffEpsg(h, _)) ==> output_wkt(
            results,
            wkt,
        ) == crate::crs::registry_wkt(h)),
        wkt is None && i == results.len() - 1 && !(results[i].crs matches Some(
            CrsKind::GeoTiffEpsg(_, _),
        )) ==> output_wkt(results, wkt) is None,
{
    lemma_geotiff(results, 0, i);
}

proof fn lemma_geotiff(results: Seq<ScanResult>, from: int, i: int)
    requires
        0 <= from <= i < results.len(),
        forall|k: int| 0 <= k < i ==> !((#[trigger] results[k]).crs matches Some(
            CrsKind::GeoTiffEpsg(_, _),
        )),
    ensures
        geotiff_from(results, from) == geotiff_from(results, i),
        i == results.len() - 1 ==> geotiff_from(results, i + 1) is None,
    decreases i - from,
{
    if from < i {
        lemma_geotiff(results, from + 1, i);
        assert(!(results[from].crs matches Some(CrsKind::GeoTiffEpsg(_, _))));
    }
}

// Reference systems.
/// Comparing reference systems does not depend on the order, every system agrees
/// with itself, and two that agree do so with the same horizontal code. That the
/// vertical part had to be ignored is said exactly where the systems agree by
/// their codes and the vertical codes differ; where one is a WKT record its codes
/// are consulted.
pub proof fn law_systems_compared(a: CrsKind, b: CrsKind, codes: Option<Epsg>)
    ensures
        compatible(a, b, codes) == compatible(b, a, codes),
        compatible(a, a, codes) == (true, false),
        compatible(a, b, codes).0 == systems_agree(Some(a), Some(b), codes),
        compatible(a, b, codes).1 ==> compatible(a, b, codes).0,
        match (a, b) {
            (CrsKind::WktHash(_), CrsKind::WktHash(_)) => !compatible(a, b, codes).1,
            (CrsKind::GeoTiffEpsg(h, v), CrsKind::GeoTiffEpsg(k, w)) => compatible(a, b, codes).1
                == (h == k && v != w),
            (CrsKind::WktHash(_), CrsKind::GeoTiffEpsg(h, v)) => compatible(a, b, codes).1 == (
            codes matches Some(e) && e.0 == h && e.1 != v),
            (CrsKind::GeoTiffEpsg(h, v), CrsKind::WktHash(_)) => compatible(a, b, codes).1 == (
            codes matches Some(e) && e.0 == h && e.1 != v),
        },
{
}

/// A file's WKT record decides what it declares, whatever its GeoTIFF directory
/// says: the hash of all its bytes. Without one, the directory names its projected code in model type 1 and
/// its geodetic code in model types 2 and 3, with its vertical code, and nothing
/// otherwise.
pub proof fn law_declaration(w: Seq<u8>, k: GeoKeys, other: Option<GeoKeys>, h: u16, v: Option<u16>)
    ensures
        file_kind(Some(w), other) == file_kind(Some(w), None),
        file_kind(Some(w), other) == Some(
            CrsKind::WktHash(DefaultHasher::spec_finish(seq![w])),
        ),
        file_kind(None, None) is None,
        file_kind(None, Some(k)) == Some(CrsKind::GeoTiffEpsg(h, v)) <==> v == k.vertical && (
        k.model_type == Some(1u16) && k.projected == Some(h) || k.model_type == Some(2u16)
            && k.geodetic == Some(h) || k.model_type == Some(3u16) && k.geodetic == Some(h)),
        file_kind(None, Some(k)) matches Some(CrsKind::WktHash(_)) ==> false,
{
}

/// The bytes of an ASCII text.
pub open spec fn ascii(s: Seq<char>) -> Seq<u8> {
    s.map_values(|c: char| c as u8)
}

proof fn lemma_decimal_digits(n: nat)
    ensures
        decimal(n).len() > 0,
        forall|i: int| 0 <= i < decimal(n).len() ==> '0' <= #[trigger] decimal(n)[i] <= '9',
    decreases n,
{
    if n >= 10 {
        lemma_decimal_digits(n / 10);
    }
}

/// The digits at the end of a text are those of the number, behind a text that
/// does not end with a digit.
proof fn lemma_run(a: Seq<u8>, n: nat)
    requires
        a.len() == 0 || !is_digit(a.last()),
    ensures
        run_length(a + ascii(decimal(n))) == decimal(n).len(),
        run_value(a + ascii(decimal(n)), decimal(n).len()) == n,
    decreases n,
{
    let d = ascii(decimal(n));
    let s = a + d;
    lemma_decimal_digits(n);
    assert(s.last() == decimal(n).last() as u8);
    if n >= 10 {
        lemma_run(a, n / 10);
        assert(s.drop_last() =~= a + ascii(decimal(n / 10)));
        assert(decimal(n).last() == digit(n % 10));
        assert(is_digit(s.last()));
        assert((s.last() - 0x30) as nat == n % 10);
    } else {
        assert(s.drop_last() =~= a);
        assert(decimal(n).len() == 1);
        assert(decimal(n)[0] == digit(n));
        assert(is_digit(s.last()));
        assert((s.last() - 0x30) as nat == n);
        assert(run_length(a) == 0);
        assert(run_value(s, 1) == 10 * run_value(a, 0) + n);
    }
}

proof fn lemma_trim_blanks(s: Seq<u8>, blanks: Seq<u8>)
    requires
        s.len() == 0 || !is_blank(s.last()),
        forall|i: int| 0 <= i < blanks.len() ==> is_blank(#[trigger] blanks[i]),
    ensures
        trimmed(s + blanks) == s,
    decreases blanks.len(),
{
    if blanks.len() == 0 {
        assert(s + blanks =~= s);
    } else {
        let rest = blanks.drop_last();
        assert forall|i: int| 0 <= i < rest.len() implies is_blank(#[trigger] rest[i]) by {
            assert(rest[i] == blanks[i]);
        }
        lemma_trim_blanks(s, rest);
        assert((s + blanks).drop_last() =~= s + rest);
        assert((s + blanks).last() == blanks[blanks.len() - 1]);
    }
}

proof fn lemma_upto(s: Seq<u8>, tail: Seq<u8>)
    requires
        s.len() > 0,
        is_digit(s.last()),
        forall|i: int| 0 <= i < tail.len() ==> !is_digit(#[trigger] tail[i]),
    ensures
        upto_digit(s + tail) == s,
    decreases tail.len(),
{
    if tail.len() == 0 {
        assert(s + tail =~= s);
    } else {
        let rest = tail.drop_last();
        assert forall|i: int| 0 <= i < rest.len() implies !is_digit(#[trigger] rest[i]) by {
            assert(rest[i] == tail[i]);
        }
        lemma_upto(s, rest);
        assert((s + tail).drop_last() =~= s + rest);
        assert((s + tail).last() == tail[tail.len() - 1]);
    }
}

/// A code is read as it was written: a number in decimal that stands at the end
/// of a text, behind something that is not a digit and before no more than a
/// bracket or the like, so that it lies within the last ten bytes. White space at
/// the end does not count.
pub proof fn law_code_read_back(head: Seq<u8>, code: nat, tail: Seq<u8>, blanks: Seq<u8>)
    requires
        head.len() == 0 || !is_digit(head.last()),
        decimal(code).len() + tail.len() <= 10,
        forall|i: int| 0 <= i < tail.len() ==> !is_digit(#[trigger] tail[i]),
        tail.len() > 0 ==> !is_blank(tail.last()),
        forall|i: int| 0 <= i < blanks.len() ==> is_blank(#[trigger] blanks[i]),
    ensures
        code_at_end(head + ascii(decimal(code)) + tail + blanks) == (if code <= 65535 {
            Some(code as u16)
        } else {
            None::<u16>
        }),
{
    let d = ascii(decimal(code));
    let s = head + d + tail;
    lemma_decimal_digits(code);
    assert(d.last() == decimal(code).last() as u8);
    assert(s.last() == if tail.len() > 0 {
        tail.last()
    } else {
        d.last()
    });
    lemma_trim_blanks(s, blanks);
    let room = (10 - d.len() - tail.len()) as nat;
    let near = if head.len() <= room {
        head
    } else {
        head.skip(head.len() - room)
    };
    assert(last_ten(s) =~= near + d + tail);
    assert(near.len() > 0 ==> near.last() == head.last());
    assert((near + d).last() == d.last());
    lemma_upto(near + d, tail);
    lemma_run(near, code);
}

proof fn lemma_first(s: Seq<u8>, pat: Seq<u8>, from: int, at: int)
    requires
        0 <= from <= at,
        occurs_at(s, pat, at),
        forall|i: int| from <= i < at ==> !#[trigger] occurs_at(s, pat, i),
    ensures
        first_from(s, pat, from) == Some(at),
    decreases at - from,
{
    if from < at {
        assert(!occurs_at(s, pat, from));
        lemma_first(s, pat, from + 1, at);
    }
}

proof fn lemma_nowhere(s: Seq<u8>, pat: Seq<u8>, from: int)
    requires
        0 <= from,
        forall|i: int| !#[trigger] occurs_at(s, pat, i),
    ensures
        first_from(s, pat, from) is None,
    decreases s.len() - from + 1,
{
    if from + pat.len() <= s.len() {
        assert(!occurs_at(s, pat, from));
        lemma_nowhere(s, pat, from + 1);
    }
}

/// A pattern does not occur in a text.
pub open spec fn nowhere(s: Seq<u8>, pat: Seq<u8>) -> bool {
    forall|i: int| !#[trigger] occurs_at(s, pat, i)
}

/// A number from 1024 on and below 32767 is taken as a code, and no other.
pub open spec fn as_code(c: Option<u16>) -> Option<u16> {
    match c {
        Some(n) => if 1024 <= n < 32767 {
            Some(n)
        } else {
            None
        },
        None => None,
    }
}

/// The codes of a text of two parts: there are none without a horizontal one.
pub open spec fn codes_of_parts(h: Option<u16>, v: Option<u16>) -> Option<Epsg> {
    match as_code(h) {
        Some(n) => Some((n, as_code(v))),
        None => None,
    }
}

/// Where a text names a vertical system, by the first of the words VERTCRS,
/// VERTICALCRS and VERT_CS that it holds at all, the horizontal code is what the
/// part before the word ends with, and the vertical code what the part behind it
/// ends with. Else the whole text is horizontal.
pub proof fn law_codes_of_wkt(h: Seq<u8>, word: Seq<u8>, v: Seq<u8>, plain: Seq<u8>)
    requires
        word == ascii("VERTCRS"@) || word == ascii("VERTICALCRS"@) || word == ascii("VERT_CS"@),
        forall|i: int| 0 <= i < h.len() ==> !#[trigger] occurs_at(h + word + v, word, i),
        word == ascii("VERTICALCRS"@) ==> nowhere(h + word + v, ascii("VERTCRS"@)),
        word == ascii("VERT_CS"@) ==> nowhere(h + word + v, ascii("VERTCRS"@)) && nowhere(
            h + word + v,
            ascii("VERTICALCRS"@),
        ),
        nowhere(plain, ascii("VERTCRS"@)),
        nowhere(plain, ascii("VERTICALCRS"@)),
        nowhere(plain, ascii("VERT_CS"@)),
    ensures
        epsg_of(h + word + v) == codes_of_parts(code_at_end(h), code_at_end(v)),
        epsg_of(plain) == codes_of_parts(code_at_end(plain), None),
{
    reveal_strlit("VERTCRS");
    reveal_strlit("VERTICALCRS");
    reveal_strlit("VERT_CS");
    assert(ascii("VERTCRS"@) =~= vertcrs());
    assert(ascii("VERTICALCRS"@) =~= verticalcrs());
    assert(ascii("VERT_CS"@) =~= vert_cs());
    let s = h + word + v;
    let n = h.len() as int;
    assert(s.subrange(n, n + word.len()) =~= word);
    assert(occurs_at(s, word, n));
    lemma_first(s, word, 0, n);
    assert(s.take(n) =~= h);
    assert(s.skip(n + word.len()) =~= v);
    if word == verticalcrs() {
        lemma_nowhere(s, vertcrs(), 0);
        assert(vertcrs().len() == 7 && verticalcrs().len() == 11);
    }
    if word == vert_cs() {
        lemma_nowhere(s, vertcrs(), 0);
        lemma_nowhere(s, verticalcrs(), 0);
        assert(vertcrs()[4] == 67 && vert_cs()[4] == 95);
    }
    assert(wkt_parts(s) == (h, Some(v)));
    lemma_nowhere(plain, vertcrs(), 0);
    lemma_nowhere(plain, verticalcrs(), 0);
    lemma_nowhere(plain, vert_cs(), 0);
}

// The scan.
/// A united box is the smallest that holds both: each of its numbers is one of
/// either box, the smaller of the lower ones and the larger of the upper ones.
pub proof fn law_united_is_tight(a: Bounds, b: Bounds)
    requires
        is_numeric(a),
        is_numeric(b),
    ensures
        ({
            let u = united(a, b);
            &&& is_numeric(u)
            &&& (u.min_x == a.min_x || u.min_x == b.min_x) && rank(u.min_x) <= rank(a.min_x)
                && rank(u.min_x) <= rank(b.min_x)
            &&& (u.min_y == a.min_y || u.min_y == b.min_y) && rank(u.min_y) <= rank(a.min_y)
                && rank(u.min_y) <= rank(b.min_y)
            &&& (u.min_z == a.min_z || u.min_z == b.min_z) && rank(u.min_z) <= rank(a.min_z)
                && rank(u.min_z) <= rank(b.min_z)
            &&& (u.max_x == a.max_x || u.max_x == b.max_x) && rank(u.max_x) >= rank(a.max_x)
                && rank(u.max_x) >= rank(b.max_x)
            &&& (u.max_y == a.max_y || u.max_y == b.max_y) && rank(u.max_y) >= rank(a.max_y)
                && rank(u.max_y) >= rank(b.max_y)
            &&& (u.max_z == a.max_z || u.max_z == b.max_z) && rank(u.max_z) >= rank(a.max_z)
                && rank(u.max_z) >= rank(b.max_z)
        }),
{
}

/// The pattern is that of a finite number.
pub open spec fn is_finite(b: u64) -> bool {
    -0x7FF0_0000_0000_0000 < rank(b) < 0x7FF0_0000_0000_0000
}

/// The empty box holds no point, and uniting it with a box of finite numbers
/// gives that box, whatever its corners are.
pub proof fn law_empty_box(b: Bounds, x: u64, y: u64, z: u64)
    requires
        is_finite(b.min_x) && is_finite(b.min_y) && is_finite(b.min_z),
        is_finite(b.max_x) && is_finite(b.max_y) && is_finite(b.max_z),
    ensures
        !holds(empty_bounds(), x, y, z),
        united(empty_bounds(), b) == b,
{
}

/// What the scan reports of a file is what its header says: the number of points,
/// scale and offset, point format, reference system, width and schema of the Extra
/// Bytes, and, where the bounds are finite and in order, the bounds.
pub proof fn law_scan_reports_header(h: FileHeader, r: ScanResult)
    requires
        scanned(h, r),
        forall|a: int|
            0 <= a < 3 ==> is_finite(#[trigger] h.bounds_min@[a]) && is_finite(h.bounds_max@[a])
                && rank(h.bounds_min@[a]) <= rank(h.bounds_max@[a]),
    ensures
        r.point_count == h.point_count,
        r.scale@ == h.scale@,
        r.offset@ == h.offset@,
        r.point_format_id == h.point_format_id,
        r.num_extra_bytes == h.num_extra_bytes,
        r.bounds.min_x == h.bounds_min@[0],
        r.bounds.min_y == h.bounds_min@[1],
        r.bounds.min_z == h.bounds_min@[2],
        rank(r.bounds.max_x) == rank(h.bounds_max@[0]),
        rank(r.bounds.max_y) == rank(h.bounds_max@[1]),
        rank(r.bounds.max_z) == rank(h.bounds_max@[2]),
        r.extra_bytes_parsed is Some <==> extra_bytes_from(h.vlrs@, 0) is Some,
        r.extra_bytes_schema_hash is Some <==> extra_bytes_from(h.vlrs@, 0) is Some,
        r.crs == file_kind(opt_bytes(h.wkt), h.geo),
        r.extra_bytes_parsed matches Some(x) ==> {
            &&& extra_bytes_from(h.vlrs@, 0) matches Some(p) && x@ == parsed(p, p.len() / 192)
            &&& r.extra_bytes_schema_hash == Some(hash_of_fields(x@.0))
        },
{
    assert(is_finite(h.bounds_min@[0]) && is_finite(h.bounds_min@[1]) && is_finite(
        h.bounds_min@[2],
    ));
}

/// The Extra Bytes record of a file is the first record with the user id
/// LASF_Spec and the record id 4; NUL characters at the end of the user id do not
/// count. A file without such a record has none.
pub proof fn law_extra_bytes_record(vlrs: Seq<Vlr>, i: int)
    requires
        0 <= i < vlrs.len(),
        forall|k: int|
            0 <= k < i ==> !(crate::extra_bytes::without_nuls((#[trigger] vlrs[k]).user_id@)
                == "LASF_Spec"@ && vlrs[k].record_id == 4),
    ensures
        crate::extra_bytes::without_nuls(vlrs[i].user_id@) == "LASF_Spec"@ && vlrs[i].record_id
            == 4 ==> extra_bytes_from(vlrs, 0) == Some(vlrs[i].data@),
        i == vlrs.len() - 1 && !(crate::extra_bytes::without_nuls(vlrs[i].user_id@)
            == "LASF_Spec"@ && vlrs[i].record_id == 4) ==> extra_bytes_from(vlrs, 0) is None,
{
    lemma_extra_bytes_record(vlrs, 0, i);
}

proof fn lemma_extra_bytes_record(vlrs: Seq<Vlr>, from: int, i: int)
    requires
        0 <= from <= i < vlrs.len(),
        forall|k: int| 0 <= k < i ==> !is_extra_bytes(#[trigger] vlrs[k]),
    ensures
        extra_bytes_from(vlrs, from) == extra_bytes_from(vlrs, i),
        i == vlrs.len() - 1 ==> extra_bytes_from(vlrs, i + 1) is None,
    decreases i - from,
{
    if from < i {
        lemma_extra_bytes_record(vlrs, from + 1, i);
        assert(!is_extra_bytes(vlrs[from]));
    }
}

/// The output of a scan has a result for each file, in the order of the files, and
/// the records of the first file that has one.
pub proof fn law_scan_output(hs: Seq<FileHeader>, out: ScanOutput, i: int)
    requires
        scan_matches(hs, out),
        0 <= i < hs.len(),
    ensures
        out.results@.len() == hs.len(),
        out.results@[i].point_count == hs[i].point_count,
        out.results@[i].point_format_id == hs[i].point_format_id,
        out.results@[i].scale@ == hs[i].scale@,
        out.results@[i].offset@ == hs[i].offset@,
        out.results@[i].num_extra_bytes == hs[i].num_extra_bytes,
        (forall|k: int| 0 <= k < i ==> (#[trigger] hs[k]).wkt is None) && hs[i].wkt is Some
            ==> opt_bytes(out.canonical_wkt) == opt_bytes(hs[i].wkt),
        (forall|k: int| 0 <= k < hs.len() ==> (#[trigger] hs[k]).wkt is None)
            ==> out.canonical_wkt is None,
{
    law_first_records(hs);
    assert(scanned(hs[i], out.results@[i]));
    if (forall|k: int| 0 <= k < i ==> (#[trigger] hs[k]).wkt is None) && hs[i].wkt is Some {
        match first_wkt(hs) {
            Some(w) => {
                let m = choose|m: int|
                    {
                        &&& 0 <= m < hs.len()
                        &&& opt_bytes((#[trigger] hs[m]).wkt) == Some(w)
                        &&& forall|k: int| 0 <= k < m ==> (#[trigger] hs[k]).wkt is None
                    };
                assert(m == i) by {
                    if m < i {
                        assert(hs[m].wkt is None);
                    } else if i < m {
                        assert(hs[i].wkt is None);
                    }
                }
            },
            None => {
                assert(hs[i].wkt is None);
            },
        }
    }
}

/// The records that go to the output are those of the first file that has one.
pub proof fn law_first_records(hs: Seq<FileHeader>)
    ensures
        match first_wkt(hs) {
            Some(w) => exists|i: int|
                {
                    &&& 0 <= i < hs.len()
                    &&& opt_bytes((#[trigger] hs[i]).wkt) == Some(w)
                    &&& forall|k: int| 0 <= k < i ==> (#[trigger] hs[k]).wkt is None
                },
            None => forall|k: int| 0 <= k < hs.len() ==> (#[trigger] hs[k]).wkt is None,
        },
        match first_extra_bytes(hs) {
            Some(w) => exists|i: int|
                {
                    &&& 0 <= i < hs.len()
                    &&& extra_bytes_from((#[trigger] hs[i]).vlrs@, 0) == Some(w)
                    &&& forall|k: int|
                        0 <= k < i ==> extra_bytes_from((#[trigger] hs[k]).vlrs@, 0) is None
                },
            None => forall|k: int|
                0 <= k < hs.len() ==> extra_bytes_from((#[trigger] hs[k]).vlrs@, 0) is None,
        },
    decreases hs.len(),
{
    if hs.len() > 0 {
        let init = hs.drop_last();
        let last = hs.len() - 1;
        law_first_records(init);
        assert(forall|k: int| 0 <= k < last ==> init[k] == #[trigger] hs[k]);
        if first_wkt(init) is Some {
            let w = first_wkt(init)->0;
            let i = choose|i: int|
                {
                    &&& 0 <= i < init.len()
                    &&& opt_bytes((#[trigger] init[i]).wkt) == Some(w)
                    &&& forall|k: int| 0 <= k < i ==> (#[trigger] init[k]).wkt is None
                };
            assert(opt_bytes(hs[i].wkt) == Some(w));
            assert forall|k: int| 0 <= k < i implies (#[trigger] hs[k]).wkt is None by {
                assert(init[k].wkt is None);
            }
        } else {
            assert forall|k: int| 0 <= k < last implies (#[trigger] hs[k]).wkt is None by {
                assert(init[k].wkt is None);
            }
            assert(hs[last] == hs.last());
        }
        if first_extra_bytes(init) is Some {
            let w = first_extra_bytes(init)->0;
            let i = choose|i: int|
                {
                    &&& 0 <= i < init.len()
                    &&& extra_bytes_from((#[trigger] init[i]).vlrs@, 0) == Some(w)
                    &&& forall|k: int|
                        0 <= k < i ==> extra_bytes_from((#[trigger] init[k]).vlrs@, 0) is None
                };
            assert(extra_bytes_from(hs[i].vlrs@, 0) == Some(w));
            assert forall|k: int| 0 <= k < i implies extra_bytes_from(
                (#[trigger] hs[k]).vlrs@,
                0,
            ) is None by {
                assert(extra_bytes_from(init[k].vlrs@, 0) is None);
            }
        } else {
            assert forall|k: int| 0 <= k < last implies extra_bytes_from(
                (#[trigger] hs[k]).vlrs@,
                0,
            ) is None by {
                assert(extra_bytes_from(init[k].vlrs@, 0) is None);
            }
            assert(hs[last] == hs.last());
        }
    }
}

// The files.
/// In a directory the files with the extensions laz, las, LAZ and LAS are taken,
/// each as often as it is listed, and no others.
pub proof fn law_point_files(files: Seq<DirFile>)
    ensures
        point_files(files) == files.filter(
            |f: DirFile| f.extension is Some && (f.extension->0@ == "laz"@ || f.extension->0@
                == "las"@ || f.extension->0@ == "LAZ"@ || f.extension->0@ == "LAS"@),
        ).map_values(|f: DirFile| f.path),
    decreases files.len(),
{
    reveal(Seq::filter);
    let pred = |f: DirFile| f.extension is Some && (f.extension->0@ == "laz"@ || f.extension->0@
        == "las"@ || f.extension->0@ == "LAZ"@ || f.extension->0@ == "LAS"@);
    let path = |f: DirFile| f.path;
    if files.len() == 0 {
        assert(point_files(files) =~= files.filter(pred).map_values(path));
    } else {
        let init = files.drop_last();
        law_point_files(init);
        assert(pred(files.last()) == is_point_file(files.last()));
        if is_point_file(files.last()) {
            assert(files.filter(pred) =~= init.filter(pred).push(files.last()));
            assert(point_files(files) =~= files.filter(pred).map_values(path));
        } else {
            assert(files.filter(pred) =~= init.filter(pred));
        }
    }
}

/// The statistics of every file that declares Extra Bytes go into the output's
/// record, file by file.
pub proof fn law_all_extras(results: Seq<ScanResult>)
    ensures
        all_extras(results) == results.filter(
            |r: ScanResult| r.extra_bytes_parsed is Some,
        ).map_values(|r: ScanResult| r.extra_bytes_parsed->0),
    decreases results.len(),
{
    reveal(Seq::filter);
    let pred = |r: ScanResult| r.extra_bytes_parsed is Some;
    let value = |r: ScanResult| r.extra_bytes_parsed->0;
    if results.len() == 0 {
        assert(all_extras(results) =~= results.filter(pred).map_values(value));
    } else {
        let init = results.drop_last();
        law_all_extras(init);
        if pred(results.last()) {
            assert(results.filter(pred) =~= init.filter(pred).push(results.last()));
            assert(all_extras(results) =~= results.filter(pred).map_values(value));
        } else {
            assert(results.filter(pred) =~= init.filter(pred));
        }
    }
}

} // verus!
