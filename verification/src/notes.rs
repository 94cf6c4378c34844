//! What is worth a warning although the inputs are accepted.

use crate::crs::{
    compare_kinds, compatible, get_epsg_from_wkt_crs_bytes, opt_bytes, record_codes, registry_wkt,
    wkt_for_epsg, CrsKind, Epsg,
};
use crate::extra_bytes::{merge_error, merge_stats_into_canonical, MergeStatsError};
use crate::scan::{copy_bytes, ScanResult};
use crate::text::{decimal, push_decimal, push_text, quote, quoted};
use crate::validate::{
    all_extras, basic_error, check_inputs, collect_extras, crs_index_from, find_crs, geotiff_from,
    input_error, output_wkt, results_wf,
};
use vstd::prelude::*;

verus! {

/// A warning about the inputs.
#[derive(Debug)]
pub enum Note {
    /// The WKT of the output comes from the registry, which has no vertical
    /// codes.
    VerticalDropped { horizontal: u16 },
    /// The registry does not have the code of the inputs.
    UnknownCode { horizontal: u16 },
    /// Two files differ in their vertical reference system alone.
    VerticalDiffers { file_a: String, file_b: String },
    /// The statistics of the Extra Bytes could not be merged.
    StatsNotMerged(MergeStatsError),
}

/// What a warning is.
pub enum NoteView {
    VerticalDropped { horizontal: u16 },
    UnknownCode { horizontal: u16 },
    VerticalDiffers { file_a: Seq<char>, file_b: Seq<char> },
    StatsNotMerged(MergeStatsError),
}

impl View for Note {
    type V = NoteView;

    open spec fn view(&self) -> NoteView {
        match *self {
            Note::VerticalDropped { horizontal } => NoteView::VerticalDropped { horizontal },
            Note::UnknownCode { horizontal } => NoteView::UnknownCode { horizontal },
            Note::VerticalDiffers { file_a, file_b } => {
                NoteView::VerticalDiffers { file_a: file_a@, file_b: file_b@ }
            },
            Note::StatsNotMerged(e) => NoteView::StatsNotMerged(e),
        }
    }
}

/// The views of several warnings.
pub open spec fn note_views(notes: Seq<Note>) -> Seq<NoteView> {
    notes.map_values(|n: Note| n@)
}

/// The warnings about the translation of GeoTIFF codes, which is made where no
/// input has a WKT record.
pub open spec fn translation_notes(results: Seq<ScanResult>, wkt: Option<Seq<u8>>) -> Seq<
    NoteView,
> {
    match (wkt, geotiff_from(results, 0)) {
        (None, Some(e)) => {
            (if e.1 is Some {
                seq![NoteView::VerticalDropped { horizontal: e.0 }]
            } else {
                Seq::empty()
            }) + (if registry_wkt(e.0) is None {
                seq![NoteView::UnknownCode { horizontal: e.0 }]
            } else {
                Seq::empty()
            })
        },
        _ => Seq::empty(),
    }
}

/// Whether the reference system of file `i` is accepted although its vertical
/// part differs.
pub open spec fn vertical_differs(results: Seq<ScanResult>, codes: Option<Epsg>, i: int) -> bool {
    let c = crs_index_from(results, 0);
    i != c && match (results[c].crs, results[i].crs) {
        (Some(a), Some(b)) => compatible(a, b, codes) == (true, true),
        _ => false,
    }
}

/// The warnings about vertical parts from file `i` on, up to the first file that
/// is refused.
pub open spec fn vertical_notes(
    files: Seq<String>,
    results: Seq<ScanResult>,
    codes: Option<Epsg>,
    i: int,
) -> Seq<NoteView>
    decreases results.len() - i,
{
    let c = crs_index_from(results, 0);
    if i < 0 || i >= results.len() {
        Seq::empty()
    } else {
        (if vertical_differs(results, codes, i) {
            seq![NoteView::VerticalDiffers { file_a: files[c]@, file_b: files[i]@ }]
        } else {
            Seq::empty()
        }) + (if basic_error(files, results, codes, i) is Some {
            Seq::empty()
        } else {
            vertical_notes(files, results, codes, i + 1)
        })
    }
}

/// The warning about statistics, where the inputs are accepted.
pub open spec fn merge_notes(
    files: Seq<String>,
    results: Seq<ScanResult>,
    wkt: Option<Seq<u8>>,
    vlr: Option<Seq<u8>>,
    temporal_index: Option<u32>,
) -> Seq<NoteView> {
    match vlr {
        Some(b) => match merge_error(b, all_extras(results)) {
            Some(e) => {
                if input_error(files, results, wkt, temporal_index) is None {
                    seq![NoteView::StatsNotMerged(e)]
                } else {
                    Seq::empty()
                }
            },
            None => Seq::empty(),
        },
        None => Seq::empty(),
    }
}

/// All warnings, in the order in which the inputs are looked at.
pub open spec fn all_notes(
    files: Seq<String>,
    results: Seq<ScanResult>,
    wkt: Option<Seq<u8>>,
    vlr: Option<Seq<u8>>,
    temporal_index: Option<u32>,
) -> Seq<NoteView> {
    translation_notes(results, wkt) + vertical_notes(
        files,
        results,
        record_codes(output_wkt(results, wkt)),
        0,
    ) + merge_notes(files, results, wkt, vlr, temporal_index)
}

fn first_geotiff(results: &Vec<ScanResult>) -> (r: Option<Epsg>)
    ensures
        r == geotiff_from(results@, 0),
{
    let mut i: usize = 0;
    while i < results.len()
        invariant
            i <= results@.len(),
            geotiff_from(results@, 0) == geotiff_from(results@, i as int),
        decreases results@.len() - i,
    {
        match results[i].crs {
            Some(CrsKind::GeoTiffEpsg(h, v)) => {
                return Some((h, v));
            },
            _ => {},
        }
        i = i + 1;
    }
    None
}

fn push_note(notes: &mut Vec<Note>, note: Note)
    ensures
        note_views(final(notes)@) == note_views(old(notes)@).push(note@),
{
    notes.push(note);
    assert(note_views(notes@) =~= note_views(old(notes)@).push(note@));
}

/// The warnings about the inputs: that the registry drops the vertical part of a
/// reference system or does not have its code, that files differ in the vertical
/// part alone, and that statistics could not be merged.
pub fn validation_notes(
    input_files: &Vec<String>,
    results: &Vec<ScanResult>,
    canonical_wkt: &Option<Vec<u8>>,
    canonical_extra_bytes_vlr: &Option<Vec<u8>>,
    temporal_index: Option<u32>,
) -> (notes: Vec<Note>)
    requires
        0 < results@.len() <= input_files@.len(),
        results_wf(results@),
    ensures
        note_views(notes@) == all_notes(
            input_files@,
            results@,
            opt_bytes(*canonical_wkt),
            opt_bytes(*canonical_extra_bytes_vlr),
            temporal_index,
        ),
{
    let ghost wkt = opt_bytes(*canonical_wkt);
    let mut notes: Vec<Note> = Vec::new();
    let mut translated: Option<Vec<u8>> = None;
    assert(note_views(notes@) =~= Seq::<NoteView>::empty());
    match canonical_wkt {
        Some(w) => {
            translated = Some(copy_bytes(w));
        },
        None => match first_geotiff(results) {
            Some((horizontal, vertical)) => {
                if vertical.is_some() {
                    push_note(&mut notes, Note::VerticalDropped { horizontal });
                }
                translated = wkt_for_epsg(horizontal);
                if translated.is_none() {
                    push_note(&mut notes, Note::UnknownCode { horizontal });
                }
            },
            None => {},
        },
    }
    let codes = match &translated {
        Some(w) => get_epsg_from_wkt_crs_bytes(w.as_slice()),
        None => None,
    };
    let ghost first = note_views(notes@);
    assert(first =~= translation_notes(results@, wkt));
    assert(opt_bytes(translated) == output_wkt(results@, wkt));
    push_vertical_notes(&mut notes, input_files, results, codes);
    let ghost second = note_views(notes@);
    match canonical_extra_bytes_vlr {
        Some(b) => {
            let extras = collect_extras(results);
            let mut bytes = copy_bytes(b);
            match merge_stats_into_canonical(&mut bytes, &extras) {
                Ok(_) => {},
                Err(e) => {
                    if check_inputs(input_files, results, codes, temporal_index).is_none() {
                        push_note(&mut notes, Note::StatsNotMerged(e));
                    }
                },
            }
        },
        None => {},
    }
    assert(note_views(notes@) =~= second + merge_notes(
        input_files@,
        results@,
        wkt,
        opt_bytes(*canonical_extra_bytes_vlr),
        temporal_index,
    ));
    notes
}

fn push_vertical_notes(
    notes: &mut Vec<Note>,
    input_files: &Vec<String>,
    results: &Vec<ScanResult>,
    codes: Option<Epsg>,
)
    requires
        0 < results@.len() <= input_files@.len(),
    ensures
        note_views(final(notes)@) == note_views(old(notes)@) + vertical_notes(
            input_files@,
            results@,
            codes,
            0,
        ),
{
    let ghost before = note_views(notes@);
    let ghost all = before + vertical_notes(input_files@, results@, codes, 0);
    let c: usize = find_crs(results);
    let format: u8 = results[0].point_format_id;
    let mut i: usize = 0;
    while i < results.len()
        invariant
            0 < results@.len() <= input_files@.len(),
            i <= results@.len(),
            c == crs_index_from(results@, 0),
            c < results@.len(),
            format == results@[0].point_format_id,
            all == note_views(notes@) + vertical_notes(
                input_files@,
                results@,
                codes,
                i as int,
            ),
            all == before + vertical_notes(input_files@, results@, codes, 0),
            before == note_views(old(notes)@),
        decreases results@.len() - i,
    {
        let ghost so_far = note_views(notes@);
        if i != c {
            let (alike, differs) = match (results[c].crs, results[i].crs) {
                (None, None) => (true, false),
                (Some(a), Some(b)) => compare_kinds(a, b, codes),
                _ => (false, false),
            };
            if !alike {
                assert(note_views(notes@) + Seq::<NoteView>::empty() =~= note_views(notes@));
                assert(all =~= note_views(notes@));
                return;
            }
            if differs {
                push_note(
                    notes,
                    Note::VerticalDiffers {
                        file_a: input_files[c].clone(),
                        file_b: input_files[i].clone(),
                    },
                );
            }
        }
        let ghost now = note_views(notes@);
        if results[i].point_format_id != format {
            assert(all =~= now);
            return;
        }
        assert(all =~= now + vertical_notes(input_files@, results@, codes, i + 1));
        i = i + 1;
    }
    assert(all =~= note_views(notes@));
}

/// The text of a warning.
pub open spec fn note_str(n: NoteView) -> Seq<char> {
    match n {
        NoteView::VerticalDropped { horizontal } => {
            "Translating GeoTIFF CRS (EPSG:"@ + decimal(horizontal as nat)
                + ") to WKT for COPC output; vertical CRS will be dropped"@
        },
        NoteView::UnknownCode { horizontal } => {
            "GeoTIFF EPSG:"@ + decimal(horizontal as nat)
                + " not found in crs-definitions registry; output COPC will have no CRS"@
        },
        NoteView::VerticalDiffers { file_a, file_b } => {
            "Vertical CRS component differs between "@ + quoted(file_a) + " and "@ + quoted(file_b)
                + "; ignoring it"@
        },
        NoteView::StatsNotMerged(e) => {
            "Could not merge Extra Bytes stats, using reference file's stats as-is: "@ + (match e {
                MergeStatsError::BadLength { length } => {
                    "canonical VLR length "@ + decimal(length as nat)
                        + " not a multiple of descriptor size"@
                },
                MergeStatsError::FieldCount { expected, found } => {
                    "stat merge expected "@ + decimal(expected as nat)
                        + " fields per file but one has "@ + decimal(found as nat)
                },
            })
        },
    }
}

impl Note {
    /// The text of the warning.
    pub fn text(&self) -> (s: String)
        ensures
            s@ == note_str(self@),
    {
        let mut s = String::new();
        match self {
            Note::VerticalDropped { horizontal } => {
                push_text(&mut s, "Translating GeoTIFF CRS (EPSG:");
                push_decimal(&mut s, *horizontal as u64);
                push_text(&mut s, ") to WKT for COPC output; vertical CRS will be dropped");
            },
            Note::UnknownCode { horizontal } => {
                push_text(&mut s, "GeoTIFF EPSG:");
                push_decimal(&mut s, *horizontal as u64);
                push_text(
                    &mut s,
                    " not found in crs-definitions registry; output COPC will have no CRS",
                );
            },
            Note::VerticalDiffers { file_a, file_b } => {
                push_text(&mut s, "Vertical CRS component differs between ");
                let a = quote(file_a.as_str());
                push_text(&mut s, a.as_str());
                push_text(&mut s, " and ");
                let b = quote(file_b.as_str());
                push_text(&mut s, b.as_str());
                push_text(&mut s, "; ignoring it");
            },
            Note::StatsNotMerged(e) => {
                push_text(
                    &mut s,
                    "Could not merge Extra Bytes stats, using reference file's stats as-is: ",
                );
                match e {
                    MergeStatsError::BadLength { length } => {
                        push_text(&mut s, "canonical VLR length ");
                        push_decimal(&mut s, *length as u64);
                        push_text(&mut s, " not a multiple of descriptor size");
                    },
                    MergeStatsError::FieldCount { expected, found } => {
                        push_text(&mut s, "stat merge expected ");
                        push_decimal(&mut s, *expected as u64);
                        push_text(&mut s, " fields per file but one has ");
                        push_decimal(&mut s, *found as u64);
                    },
                }
            },
        }
        assert(s@ =~= note_str(self@));
        s
    }
}

} // verus!
