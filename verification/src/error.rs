//! Errors of the conversion.

use crate::schema_diff::{diff_str, is_renderer, shown, DiffView, SchemaDiff};
use crate::text::{
    decimal, join, joined, push_decimal, push_text, quote, quoted, text_views,
};
use vstd::prelude::*;

verus! {

/// One reason why the Extra Bytes of two files do not agree.
#[derive(Debug)]
pub enum MismatchLine {
    /// The bytes that trail each point are not as many.
    Width { reference: u16, other: u16 },
    /// The schemas differ.
    Schema(SchemaDiff),
    /// Only the reference file declares Extra Bytes.
    OnlyReference,
    /// Only the other file declares Extra Bytes.
    OnlyOther,
}

/// What a reason is.
pub enum LineView {
    Width { reference: u16, other: u16 },
    Schema(DiffView),
    OnlyReference,
    OnlyOther,
}

impl View for MismatchLine {
    type V = LineView;

    open spec fn view(&self) -> LineView {
        match *self {
            MismatchLine::Width { reference, other } => LineView::Width { reference, other },
            MismatchLine::Schema(d) => LineView::Schema(d@),
            MismatchLine::OnlyReference => LineView::OnlyReference,
            MismatchLine::OnlyOther => LineView::OnlyOther,
        }
    }
}

/// The views of several reasons.
pub open spec fn line_views(v: Seq<MismatchLine>) -> Seq<LineView> {
    v.map_values(|l: MismatchLine| l@)
}

/// Errors returned by the conversion pipeline. Files are named by their paths.
#[derive(Debug)]
pub enum Error {
    /// Input files have mismatched CRS.
    CrsMismatch { file_a: String, file_b: String },
    /// Input files have mismatched Extra Bytes schemas. Statistics never cause
    /// this error. `detail` holds every structural difference between the
    /// reference file (`file_a`, the first one with extras) and the offending
    /// file (`file_b`).
    ExtraBytesMismatch { file_a: String, file_b: String, detail: Vec<MismatchLine> },
    /// Input files have mismatched point formats.
    PointFormatMismatch { file_a: String, format_a: u8, file_b: String, format_b: u8 },
    /// Temporal index requested but point format lacks GPS time.
    NoGpsTime { format: u8 },
    /// Temporal index requested but with an invalid temporal stride.
    InvalidTemporalStride { stride: u32 },
    /// No LAZ/LAS files found in a directory.
    NoInputFiles { path: String },
    /// I/O or other internal error.
    Internal(String),
}

/// What an error is.
pub enum ErrorView {
    CrsMismatch { file_a: Seq<char>, file_b: Seq<char> },
    ExtraBytesMismatch { file_a: Seq<char>, file_b: Seq<char>, detail: Seq<LineView> },
    PointFormatMismatch { file_a: Seq<char>, format_a: u8, file_b: Seq<char>, format_b: u8 },
    NoGpsTime { format: u8 },
    InvalidTemporalStride { stride: u32 },
    NoInputFiles { path: Seq<char> },
    Internal(Seq<char>),
}

impl View for Error {
    type V = ErrorView;

    open spec fn view(&self) -> ErrorView {
        match *self {
            Error::CrsMismatch { file_a, file_b } => {
                ErrorView::CrsMismatch { file_a: file_a@, file_b: file_b@ }
            },
            Error::ExtraBytesMismatch { file_a, file_b, detail } => {
                ErrorView::ExtraBytesMismatch {
                    file_a: file_a@,
                    file_b: file_b@,
                    detail: line_views(detail@),
                }
            },
            Error::PointFormatMismatch { file_a, format_a, file_b, format_b } => {
                ErrorView::PointFormatMismatch {
                    file_a: file_a@,
                    format_a,
                    file_b: file_b@,
                    format_b,
                }
            },
            Error::NoGpsTime { format } => ErrorView::NoGpsTime { format },
            Error::InvalidTemporalStride { stride } => ErrorView::InvalidTemporalStride { stride },
            Error::NoInputFiles { path } => ErrorView::NoInputFiles { path: path@ },
            Error::Internal(m) => ErrorView::Internal(m@),
        }
    }
}

/// The text of a reason.
pub open spec fn line_str(l: LineView, show: spec_fn(u64) -> Seq<char>) -> Seq<char> {
    match l {
        LineView::Width { reference, other } => {
            "  - point trailing-byte width differs: reference declares "@ + decimal(
                reference as nat,
            ) + " bytes, other declares "@ + decimal(other as nat)
        },
        LineView::Schema(d) => "  - "@ + diff_str(d, show),
        LineView::OnlyReference => {
            "  - reference declares an Extra Bytes VLR, other declares none"@
        },
        LineView::OnlyOther => "  - other declares an Extra Bytes VLR, reference declares none"@,
    }
}

/// The text of all reasons, one per line.
pub open spec fn detail_str(lines: Seq<LineView>, show: spec_fn(u64) -> Seq<char>) -> Seq<char> {
    if lines.len() == 0 {
        "  - (no structural differences detected; schema hashes diverged for an unknown reason)"@
    } else {
        joined(lines.map_values(|l: LineView| line_str(l, show)), "\n"@)
    }
}

impl MismatchLine {
    /// The reason in words. `render` shows doubles.
    pub fn text<F: Fn(u64) -> String>(&self, render: &F) -> (s: String)
        requires
            is_renderer(*render),
        ensures
            s@ == line_str(self@, shown(*render)),
    {
        let mut s = String::new();
        match self {
            MismatchLine::Width { reference, other } => {
                push_text(
                    &mut s,
                    "  - point trailing-byte width differs: reference declares ",
                );
                push_decimal(&mut s, *reference as u64);
                push_text(&mut s, " bytes, other declares ");
                push_decimal(&mut s, *other as u64);
            },
            MismatchLine::Schema(d) => {
                push_text(&mut s, "  - ");
                let t = d.text(render);
                push_text(&mut s, t.as_str());
            },
            MismatchLine::OnlyReference => {
                push_text(
                    &mut s,
                    "  - reference declares an Extra Bytes VLR, other declares none",
                );
            },
            MismatchLine::OnlyOther => {
                push_text(
                    &mut s,
                    "  - other declares an Extra Bytes VLR, reference declares none",
                );
            },
        }
        assert(s@ =~= line_str(self@, shown(*render)));
        s
    }
}

/// Human-readable list of every structural difference, one per line.
pub fn detail_text<F: Fn(u64) -> String>(lines: &Vec<MismatchLine>, render: &F) -> (s: String)
    requires
        is_renderer(*render),
    ensures
        s@ == detail_str(line_views(lines@), shown(*render)),
{
    if lines.len() == 0 {
        return "  - (no structural differences detected; schema hashes diverged for an unknown reason)".to_owned();
    }
    let ghost show = shown(*render);
    let ghost want = line_views(lines@).map_values(|l: LineView| line_str(l, show));
    let mut texts: Vec<String> = Vec::new();
    let mut i: usize = 0;
    while i < lines.len()
        invariant
            i <= lines@.len(),
            is_renderer(*render),
            show == shown(*render),
            want == line_views(lines@).map_values(|l: LineView| line_str(l, show)),
            text_views(texts@) =~= want.take(i as int),
        decreases lines@.len() - i,
    {
        let t = lines[i].text(render);
        proof {
            assert(t@ == want[i as int]);
            assert(text_views(texts@.push(t)) =~= text_views(texts@).push(t@));
        }
        texts.push(t);
        i = i + 1;
    }
    assert(want.take(i as int) =~= want);
    join(&texts, "\n")
}

/// The text of an error.
pub open spec fn error_str(e: ErrorView, show: spec_fn(u64) -> Seq<char>) -> Seq<char> {
    match e {
        ErrorView::CrsMismatch { file_a, file_b } => {
            "CRS mismatch: "@ + quoted(file_a) + " has a different WKT CRS than "@ + quoted(file_b)
        },
        ErrorView::ExtraBytesMismatch { file_a, file_b, detail } => {
            "Extra Bytes schema mismatch between "@ + quoted(file_a) + " (reference) and "@
                + quoted(file_b) + ":\n"@ + detail_str(detail, show)
        },
        ErrorView::PointFormatMismatch { file_a, format_a, file_b, format_b } => {
            "Point format mismatch: "@ + quoted(file_a) + " has format "@ + decimal(
                format_a as nat,
            ) + " but "@ + quoted(file_b) + " has format "@ + decimal(format_b as nat)
        },
        ErrorView::NoGpsTime { format } => {
            "Temporal index requested but input point format "@ + decimal(format as nat)
                + " does not include GPS time"@
        },
        ErrorView::InvalidTemporalStride { stride } => {
            "Temporal index requested but with an invalid temporal stride of "@ + decimal(
                stride as nat,
            ) + "."@
        },
        ErrorView::NoInputFiles { path } => "No LAZ/LAS files found in "@ + quoted(path),
        ErrorView::Internal(m) => m,
    }
}

fn push_path(out: &mut String, path: &String)
    ensures
        final(out)@ == old(out)@ + quoted(path@),
{
    push_text(out, quote(path.as_str()).as_str());
}

impl Error {
    /// The error in words. `render` shows doubles.
    pub fn text<F: Fn(u64) -> String>(&self, render: &F) -> (s: String)
        requires
            is_renderer(*render),
        ensures
            s@ == error_str(self@, shown(*render)),
    {
        let mut s = String::new();
        match self {
            Error::CrsMismatch { file_a, file_b } => {
                push_text(&mut s, "CRS mismatch: ");
                push_path(&mut s, file_a);
                push_text(&mut s, " has a different WKT CRS than ");
                push_path(&mut s, file_b);
            },
            Error::ExtraBytesMismatch { file_a, file_b, detail } => {
                push_text(&mut s, "Extra Bytes schema mismatch between ");
                push_path(&mut s, file_a);
                push_text(&mut s, " (reference) and ");
                push_path(&mut s, file_b);
                push_text(&mut s, ":\n");
                let t = detail_text(detail, render);
                push_text(&mut s, t.as_str());
            },
            Error::PointFormatMismatch { file_a, format_a, file_b, format_b } => {
                push_text(&mut s, "Point format mismatch: ");
                push_path(&mut s, file_a);
                push_text(&mut s, " has format ");
                push_decimal(&mut s, *format_a as u64);
                push_text(&mut s, " but ");
                push_path(&mut s, file_b);
                push_text(&mut s, " has format ");
                push_decimal(&mut s, *format_b as u64);
            },
            Error::NoGpsTime { format } => {
                push_text(&mut s, "Temporal index requested but input point format ");
                push_decimal(&mut s, *format as u64);
                push_text(&mut s, " does not include GPS time");
            },
            Error::InvalidTemporalStride { stride } => {
                push_text(
                    &mut s,
                    "Temporal index requested but with an invalid temporal stride of ",
                );
                push_decimal(&mut s, *stride as u64);
                push_text(&mut s, ".");
            },
            Error::NoInputFiles { path } => {
                push_text(&mut s, "No LAZ/LAS files found in ");
                push_path(&mut s, path);
            },
            Error::Internal(m) => {
                push_text(&mut s, m.as_str());
            },
        }
        assert(s@ =~= error_str(self@, shown(*render)));
        s
    }
}

} // verus!
