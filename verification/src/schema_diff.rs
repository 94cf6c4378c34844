//! How two Extra Bytes schemas differ, and the text that says so.

use crate::extra_bytes::{
    code_name, data_type_name, field_views, FieldSchema, FieldView, ParsedExtraBytes,
};
use crate::fbits::{equal, num_eq};
use crate::text::{
    binary, decimal, join, joined, push_binary, push_decimal, push_text, quote, quoted,
    text_views,
};
use vstd::prelude::*;

verus! {

/// One structural difference between the schema of a reference file and that of
/// another file.
#[allow(inconsistent_fields)]
#[derive(Debug)]
pub enum SchemaDiff {
    FieldCount { reference: usize, reference_names: String, other: usize, other_names: String },
    Name { field: usize, reference: String, other: String },
    DataType { field: usize, name: String, reference: u8, other: u8 },
    Description { field: usize, name: String, reference: String, other: String },
    Options { field: usize, name: String, reference: u8, other: u8 },
    Scale { field: usize, name: String, reference: [u64; 3], other: [u64; 3] },
    Offset { field: usize, name: String, reference: [u64; 3], other: [u64; 3] },
    NoData { field: usize, name: String, reference: [u64; 3], other: [u64; 3] },
}

/// What a difference is.
#[allow(inconsistent_fields)]
pub enum DiffView {
    FieldCount {
        reference: nat,
        reference_names: Seq<char>,
        other: nat,
        other_names: Seq<char>,
    },
    Name { field: nat, reference: Seq<char>, other: Seq<char> },
    DataType { field: nat, name: Seq<char>, reference: u8, other: u8 },
    Description { field: nat, name: Seq<char>, reference: Seq<char>, other: Seq<char> },
    Options { field: nat, name: Seq<char>, reference: u8, other: u8 },
    Scale { field: nat, name: Seq<char>, reference: Seq<u64>, other: Seq<u64> },
    Offset { field: nat, name: Seq<char>, reference: Seq<u64>, other: Seq<u64> },
    NoData { field: nat, name: Seq<char>, reference: Seq<u64>, other: Seq<u64> },
}

impl View for SchemaDiff {
    type V = DiffView;

    open spec fn view(&self) -> DiffView {
        match *self {
            SchemaDiff::FieldCount { reference, reference_names, other, other_names } => {
                DiffView::FieldCount {
                    reference: reference as nat,
                    reference_names: reference_names@,
                    other: other as nat,
                    other_names: other_names@,
                }
            },
            SchemaDiff::Name { field, reference, other } => {
                DiffView::Name { field: field as nat, reference: reference@, other: other@ }
            },
            SchemaDiff::DataType { field, name, reference, other } => {
                DiffView::DataType { field: field as nat, name: name@, reference, other }
            },
            SchemaDiff::Description { field, name, reference, other } => {
                DiffView::Description {
                    field: field as nat,
                    name: name@,
                    reference: reference@,
                    other: other@,
                }
            },
            SchemaDiff::Options { field, name, reference, other } => {
                DiffView::Options { field: field as nat, name: name@, reference, other }
            },
            SchemaDiff::Scale { field, name, reference, other } => {
                DiffView::Scale {
                    field: field as nat,
                    name: name@,
                    reference: reference@,
                    other: other@,
                }
            },
            SchemaDiff::Offset { field, name, reference, other } => {
                DiffView::Offset {
                    field: field as nat,
                    name: name@,
                    reference: reference@,
                    other: other@,
                }
            },
            SchemaDiff::NoData { field, name, reference, other } => {
                DiffView::NoData {
                    field: field as nat,
                    name: name@,
                    reference: reference@,
                    other: other@,
                }
            },
        }
    }
}

/// The views of several differences.
pub open spec fn diff_views(d: Seq<SchemaDiff>) -> Seq<DiffView> {
    d.map_values(|x: SchemaDiff| x@)
}

/// One difference where there is one.
#[verifier::opaque]
pub open spec fn when(differs: bool, d: DiffView) -> Seq<DiffView> {
    if differs {
        seq![d]
    } else {
        Seq::empty()
    }
}

/// Whether three doubles are equal to three others, as numbers.
pub open spec fn same_numbers(a: Seq<u64>, b: Seq<u64>) -> bool {
    num_eq(a[0], b[0]) && num_eq(a[1], b[1]) && num_eq(a[2], b[2])
}

/// How field `i` differs.
pub open spec fn field_diffs(i: nat, r: FieldView, o: FieldView) -> Seq<DiffView> {
    when(
        r.name != o.name,
        DiffView::Name { field: i, reference: r.name, other: o.name },
    ) + when(
        r.data_type != o.data_type,
        DiffView::DataType {
            field: i,
            name: r.name,
            reference: r.data_type,
            other: o.data_type,
        },
    ) + when(
        r.description != o.description,
        DiffView::Description {
            field: i,
            name: r.name,
            reference: r.description,
            other: o.description,
        },
    ) + when(
        r.options_structural != o.options_structural,
        DiffView::Options {
            field: i,
            name: r.name,
            reference: r.options_structural,
            other: o.options_structural,
        },
    ) + when(
        !same_numbers(r.scale, o.scale),
        DiffView::Scale { field: i, name: r.name, reference: r.scale, other: o.scale },
    ) + when(
        !same_numbers(r.offset, o.offset),
        DiffView::Offset { field: i, name: r.name, reference: r.offset, other: o.offset },
    ) + when(
        r.no_data != o.no_data,
        DiffView::NoData { field: i, name: r.name, reference: r.no_data, other: o.no_data },
    )
}

/// How the first `n` fields differ.
pub open spec fn fields_diffs(r: Seq<FieldView>, o: Seq<FieldView>, n: nat) -> Seq<DiffView>
    decreases n,
{
    if n == 0 {
        Seq::empty()
    } else {
        fields_diffs(r, o, (n - 1) as nat) + field_diffs((n - 1) as nat, r[n - 1], o[n - 1])
    }
}

/// The name that a list of fields shows.
pub open spec fn shown_name(f: FieldView) -> Seq<char> {
    if f.name.len() == 0 {
        "<unnamed>"@
    } else {
        f.name
    }
}

/// The names of the fields.
pub open spec fn names_of(fields: Seq<FieldView>) -> Seq<char> {
    if fields.len() == 0 {
        "no fields"@
    } else {
        joined(fields.map_values(|f: FieldView| shown_name(f)), ", "@)
    }
}

/// How two schemas differ. Where the numbers of fields disagree, that is the
/// only difference, because it is not clear which fields to compare.
pub open spec fn schema_diffs(r: Seq<FieldView>, o: Seq<FieldView>) -> Seq<DiffView> {
    if r.len() != o.len() {
        seq![
            DiffView::FieldCount {
                reference: r.len(),
                reference_names: names_of(r),
                other: o.len(),
                other_names: names_of(o),
            },
        ]
    } else {
        fields_diffs(r, o, r.len())
    }
}

/// The names of the fields.
pub fn field_name_list(fields: &Vec<FieldSchema>) -> (s: String)
    ensures
        s@ == names_of(field_views(fields@)),
{
    if fields.len() == 0 {
        return "no fields".to_owned();
    }
    let ghost want = field_views(fields@).map_values(|f: FieldView| shown_name(f));
    let mut names: Vec<String> = Vec::new();
    let mut i: usize = 0;
    while i < fields.len()
        invariant
            i <= fields@.len(),
            want == field_views(fields@).map_values(|f: FieldView| shown_name(f)),
            text_views(names@) =~= want.take(i as int),
        decreases fields@.len() - i,
    {
        let name = if text_is_empty(&fields[i].name) {
            "<unnamed>".to_owned()
        } else {
            fields[i].name.clone()
        };
        proof {
            assert(name@ == want[i as int]);
            assert(text_views(names@.push(name)) =~= text_views(names@).push(name@));
        }
        names.push(name);
        i = i + 1;
    }
    assert(want.take(i as int) =~= want);
    join(&names, ", ")
}

fn text_is_empty(s: &String) -> (b: bool)
    ensures
        b == (s@.len() == 0),
{
    proof {
        vstd::utf8::encode_utf8_decode_utf8(s@);
        if s@.len() > 0 {
            vstd::utf8::encode_utf8_first_scalar(s@);
        }
    }
    s.as_str().as_bytes().len() == 0
}

fn numbers_equal(a: &[u64; 3], b: &[u64; 3]) -> (r: bool)
    ensures
        r == same_numbers(a@, b@),
{
    equal(a[0], b[0]) && equal(a[1], b[1]) && equal(a[2], b[2])
}

fn patterns_equal(a: &[u64; 3], b: &[u64; 3]) -> (r: bool)
    ensures
        r == (a@ == b@),
{
    let r = a[0] == b[0] && a[1] == b[1] && a[2] == b[2];
    proof {
        if r {
            assert(a@ =~= b@);
        }
    }
    r
}

/// Appends a difference.
fn push_diff(out: &mut Vec<SchemaDiff>, d: SchemaDiff)
    ensures
        diff_views(final(out)@) == diff_views(old(out)@).push(d@),
{
    out.push(d);
    assert(diff_views(out@) =~= diff_views(old(out)@).push(d@));
}

/// Appends a difference where there is one.
fn push_when(out: &mut Vec<SchemaDiff>, differs: bool, d: SchemaDiff)
    ensures
        diff_views(final(out)@) == diff_views(old(out)@) + when(differs, d@),
{
    reveal(when);
    if differs {
        push_diff(out, d);
        assert(diff_views(out@) =~= diff_views(old(out)@) + when(differs, d@));
    } else {
        assert(diff_views(out@) =~= diff_views(old(out)@) + when(differs, d@));
    }
}

/// Appends the differences of field `i`.
#[verifier::spinoff_prover]
fn push_field_diffs(out: &mut Vec<SchemaDiff>, i: usize, rf: &FieldSchema, of: &FieldSchema)
    ensures
        diff_views(final(out)@) == diff_views(old(out)@) + field_diffs(i as nat, rf@, of@),
{
    let ghost before = diff_views(out@);
    push_when(
        out,
        !(rf.name == of.name),
        SchemaDiff::Name { field: i, reference: rf.name.clone(), other: of.name.clone() },
    );
    let ghost s1 = diff_views(out@);
    push_when(
        out,
        rf.data_type != of.data_type,
        SchemaDiff::DataType {
            field: i,
            name: rf.name.clone(),
            reference: rf.data_type,
            other: of.data_type,
        },
    );
    let ghost s2 = diff_views(out@);
    push_when(
        out,
        !(rf.description == of.description),
        SchemaDiff::Description {
            field: i,
            name: rf.name.clone(),
            reference: rf.description.clone(),
            other: of.description.clone(),
        },
    );
    let ghost s3 = diff_views(out@);
    push_when(
        out,
        rf.options_structural != of.options_structural,
        SchemaDiff::Options {
            field: i,
            name: rf.name.clone(),
            reference: rf.options_structural,
            other: of.options_structural,
        },
    );
    let ghost s4 = diff_views(out@);
    push_when(
        out,
        !numbers_equal(&rf.scale, &of.scale),
        SchemaDiff::Scale {
            field: i,
            name: rf.name.clone(),
            reference: rf.scale,
            other: of.scale,
        },
    );
    let ghost s5 = diff_views(out@);
    push_when(
        out,
        !numbers_equal(&rf.offset, &of.offset),
        SchemaDiff::Offset {
            field: i,
            name: rf.name.clone(),
            reference: rf.offset,
            other: of.offset,
        },
    );
    let ghost s6 = diff_views(out@);
    push_when(
        out,
        !patterns_equal(&rf.no_data, &of.no_data),
        SchemaDiff::NoData {
            field: i,
            name: rf.name.clone(),
            reference: rf.no_data,
            other: of.no_data,
        },
    );
    let ghost s7 = diff_views(out@);
    proof {
        let r = rf@;
        let o = of@;
        let k = i as nat;
        let w1 = when(
            r.name != o.name,
            DiffView::Name { field: k, reference: r.name, other: o.name },
        );
        let w2 = when(
            r.data_type != o.data_type,
            DiffView::DataType {
                field: k,
                name: r.name,
                reference: r.data_type,
                other: o.data_type,
            },
        );
        let w3 = when(
            r.description != o.description,
            DiffView::Description {
                field: k,
                name: r.name,
                reference: r.description,
                other: o.description,
            },
        );
        let w4 = when(
            r.options_structural != o.options_structural,
            DiffView::Options {
                field: k,
                name: r.name,
                reference: r.options_structural,
                other: o.options_structural,
            },
        );
        let w5 = when(
            !same_numbers(r.scale, o.scale),
            DiffView::Scale { field: k, name: r.name, reference: r.scale, other: o.scale },
        );
        let w6 = when(
            !same_numbers(r.offset, o.offset),
            DiffView::Offset { field: k, name: r.name, reference: r.offset, other: o.offset },
        );
        let w7 = when(
            r.no_data != o.no_data,
            DiffView::NoData { field: k, name: r.name, reference: r.no_data, other: o.no_data },
        );
        assert(s1 == before + w1);
        assert(s2 == s1 + w2);
        assert(s3 == s2 + w3);
        assert(s4 == s3 + w4);
        assert(s5 == s4 + w5);
        assert(s6 == s5 + w6);
        assert(s7 == s6 + w7);
        lemma_regroup(before, w1, w2, w3, w4, w5, w6, w7);
    }
}

proof fn lemma_regroup(
    b: Seq<DiffView>,
    w1: Seq<DiffView>,
    w2: Seq<DiffView>,
    w3: Seq<DiffView>,
    w4: Seq<DiffView>,
    w5: Seq<DiffView>,
    w6: Seq<DiffView>,
    w7: Seq<DiffView>,
)
    ensures
        b + w1 + w2 + w3 + w4 + w5 + w6 + w7 == b + (w1 + w2 + w3 + w4 + w5 + w6 + w7),
{
    assert(b + w1 + w2 + w3 + w4 + w5 + w6 + w7 =~= b + (w1 + w2 + w3 + w4 + w5 + w6 + w7));
}

/// Describes every structural difference between two schemas. There is none
/// where the two are equivalent for merging.
pub fn diff_schemas(reference: &ParsedExtraBytes, other: &ParsedExtraBytes) -> (diffs: Vec<
    SchemaDiff,
>)
    ensures
        diff_views(diffs@) == schema_diffs(reference@.0, other@.0),
{
    let ghost r = reference@.0;
    let ghost o = other@.0;
    let mut diffs: Vec<SchemaDiff> = Vec::new();
    assert(diff_views(diffs@) =~= Seq::<DiffView>::empty());
    let n: usize = reference.fields.len();
    if n != other.fields.len() {
        push_diff(
            &mut diffs,
            SchemaDiff::FieldCount {
                reference: n,
                reference_names: field_name_list(&reference.fields),
                other: other.fields.len(),
                other_names: field_name_list(&other.fields),
            },
        );
        assert(diff_views(diffs@) =~= schema_diffs(r, o));
        return diffs;
    }
    let mut i: usize = 0;
    while i < n
        invariant
            i <= n,
            r == field_views(reference.fields@),
            o == field_views(other.fields@),
            n == reference.fields@.len() == other.fields@.len(),
            diff_views(diffs@) == fields_diffs(r, o, i as nat),
        decreases n - i,
    {
        push_field_diffs(&mut diffs, i, &reference.fields[i], &other.fields[i]);
        i = i + 1;
    }
    diffs
}

/// Schemas without differences agree in everything that decoding depends on,
/// doubles taken as numbers.
pub proof fn law_no_diffs_means_same_schema(r: Seq<FieldView>, o: Seq<FieldView>)
    requires
        schema_diffs(r, o).len() == 0,
    ensures
        r.len() == o.len(),
        forall|i: int|
            0 <= i < r.len() ==> {
                &&& (#[trigger] r[i]).name == o[i].name
                &&& r[i].data_type == o[i].data_type
                &&& r[i].description == o[i].description
                &&& r[i].options_structural == o[i].options_structural
                &&& same_numbers(r[i].scale, o[i].scale)
                &&& same_numbers(r[i].offset, o[i].offset)
                &&& r[i].no_data == o[i].no_data
            },
{
    assert forall|i: int| 0 <= i < r.len() implies {
        &&& (#[trigger] r[i]).name == o[i].name
        &&& r[i].data_type == o[i].data_type
        &&& r[i].description == o[i].description
        &&& r[i].options_structural == o[i].options_structural
        &&& same_numbers(r[i].scale, o[i].scale)
        &&& same_numbers(r[i].offset, o[i].offset)
        &&& r[i].no_data == o[i].no_data
    } by {
        reveal(when);
        lemma_prefix_diffs(r, o, r.len(), i);
    }
}

proof fn lemma_prefix_diffs(r: Seq<FieldView>, o: Seq<FieldView>, n: nat, i: int)
    requires
        0 <= i < n,
        fields_diffs(r, o, n).len() == 0,
    ensures
        field_diffs(i as nat, r[i], o[i]).len() == 0,
    decreases n,
{
    reveal(when);
    if i < n - 1 {
        lemma_prefix_diffs(r, o, (n - 1) as nat, i);
    }
}

// Text.
/// A function that shows the double with a given bit pattern, the same text each
/// time.
pub open spec fn is_renderer<F: Fn(u64) -> String>(f: F) -> bool {
    &&& forall|b: u64| #[trigger] f.requires((b,))
    &&& forall|b: u64, s: String, t: String|
        #[trigger] f.ensures((b,), s) && #[trigger] f.ensures((b,), t) ==> s@ == t@
}

/// The text that a renderer shows for each double.
pub open spec fn shown<F: Fn(u64) -> String>(f: F) -> spec_fn(u64) -> Seq<char> {
    |b: u64| (choose|s: String| #[trigger] f.ensures((b,), s))@
}

/// Three texts in brackets.
pub open spec fn bracketed(a: Seq<char>, b: Seq<char>, c: Seq<char>) -> Seq<char> {
    "["@ + a + ", "@ + b + ", "@ + c + "]"@
}

/// Three doubles.
pub open spec fn numbers_str(show: spec_fn(u64) -> Seq<char>, t: Seq<u64>) -> Seq<char> {
    bracketed(show(t[0]), show(t[1]), show(t[2]))
}

/// Three integers.
pub open spec fn integers_str(t: Seq<u64>) -> Seq<char> {
    bracketed(decimal(t[0] as nat), decimal(t[1] as nat), decimal(t[2] as nat))
}

/// Where a difference is: the field's number and its name in the reference.
pub open spec fn field_str(field: nat, name: Seq<char>) -> Seq<char> {
    "field "@ + decimal(field) + " "@ + quoted(name)
}

/// The text of a difference.
pub open spec fn diff_str(d: DiffView, show: spec_fn(u64) -> Seq<char>) -> Seq<char> {
    match d {
        DiffView::FieldCount { reference, reference_names, other, other_names } => {
            "field count differs: reference has "@ + decimal(reference) + " ("@ + reference_names
                + "), other has "@ + decimal(other) + " ("@ + other_names + ")"@
        },
        DiffView::Name { field, reference, other } => {
            "field "@ + decimal(field) + " name mismatch: reference "@ + quoted(reference)
                + ", other "@ + quoted(other)
        },
        DiffView::DataType { field, name, reference, other } => {
            field_str(field, name) + " data_type mismatch: reference "@ + decimal(
                reference as nat,
            ) + " ("@ + code_name(reference) + "), other "@ + decimal(other as nat) + " ("@
                + code_name(other) + ")"@
        },
        DiffView::Description { field, name, reference, other } => {
            field_str(field, name) + " description mismatch: reference "@ + quoted(reference)
                + ", other "@ + quoted(other)
        },
        DiffView::Options { field, name, reference, other } => {
            field_str(field, name) + " options (scale/offset bits) mismatch: reference 0b"@
                + binary(reference as nat, 8) + ", other 0b"@ + binary(other as nat, 8)
        },
        DiffView::Scale { field, name, reference, other } => {
            field_str(field, name) + " scale mismatch: reference "@ + numbers_str(show, reference)
                + ", other "@ + numbers_str(show, other)
        },
        DiffView::Offset { field, name, reference, other } => {
            field_str(field, name) + " offset mismatch: reference "@ + numbers_str(show, reference)
                + ", other "@ + numbers_str(show, other)
        },
        DiffView::NoData { field, name, reference, other } => {
            field_str(field, name) + " no_data mismatch: reference "@ + integers_str(reference)
                + ", other "@ + integers_str(other)
        },
    }
}

fn push_field(out: &mut String, field: usize, name: &String)
    ensures
        final(out)@ == old(out)@ + field_str(field as nat, name@),
{
    push_text(out, "field ");
    push_decimal(out, field as u64);
    push_text(out, " ");
    push_text(out, quote(name.as_str()).as_str());
    assert(out@ =~= old(out)@ + field_str(field as nat, name@));
}

fn push_quoted(out: &mut String, s: &String)
    ensures
        final(out)@ == old(out)@ + quoted(s@),
{
    push_text(out, quote(s.as_str()).as_str());
}

fn push_numbers<F: Fn(u64) -> String>(out: &mut String, t: &[u64; 3], render: &F)
    requires
        is_renderer(*render),
    ensures
        final(out)@ == old(out)@ + numbers_str(shown(*render), t@),
{
    let a = render(t[0]);
    let b = render(t[1]);
    let c = render(t[2]);
    push_text(out, "[");
    push_text(out, a.as_str());
    push_text(out, ", ");
    push_text(out, b.as_str());
    push_text(out, ", ");
    push_text(out, c.as_str());
    push_text(out, "]");
    assert(out@ =~= old(out)@ + numbers_str(shown(*render), t@));
}

fn push_integers(out: &mut String, t: &[u64; 3])
    ensures
        final(out)@ == old(out)@ + integers_str(t@),
{
    push_text(out, "[");
    push_decimal(out, t[0]);
    push_text(out, ", ");
    push_decimal(out, t[1]);
    push_text(out, ", ");
    push_decimal(out, t[2]);
    push_text(out, "]");
    assert(out@ =~= old(out)@ + integers_str(t@));
}

impl SchemaDiff {
    /// The difference in words. `render` shows doubles.
    pub fn text<F: Fn(u64) -> String>(&self, render: &F) -> (s: String)
        requires
            is_renderer(*render),
        ensures
            s@ == diff_str(self@, shown(*render)),
    {
        let mut s = String::new();
        match self {
            SchemaDiff::FieldCount { reference, reference_names, other, other_names } => {
                push_text(&mut s, "field count differs: reference has ");
                push_decimal(&mut s, *reference as u64);
                push_text(&mut s, " (");
                push_text(&mut s, reference_names.as_str());
                push_text(&mut s, "), other has ");
                push_decimal(&mut s, *other as u64);
                push_text(&mut s, " (");
                push_text(&mut s, other_names.as_str());
                push_text(&mut s, ")");
            },
            SchemaDiff::Name { field, reference, other } => {
                push_text(&mut s, "field ");
                push_decimal(&mut s, *field as u64);
                push_text(&mut s, " name mismatch: reference ");
                push_quoted(&mut s, reference);
                push_text(&mut s, ", other ");
                push_quoted(&mut s, other);
            },
            SchemaDiff::DataType { field, name, reference, other } => {
                push_field(&mut s, *field, name);
                push_text(&mut s, " data_type mismatch: reference ");
                push_decimal(&mut s, *reference as u64);
                push_text(&mut s, " (");
                push_text(&mut s, data_type_name(*reference));
                push_text(&mut s, "), other ");
                push_decimal(&mut s, *other as u64);
                push_text(&mut s, " (");
                push_text(&mut s, data_type_name(*other));
                push_text(&mut s, ")");
            },
            SchemaDiff::Description { field, name, reference, other } => {
                push_field(&mut s, *field, name);
                push_text(&mut s, " description mismatch: reference ");
                push_quoted(&mut s, reference);
                push_text(&mut s, ", other ");
                push_quoted(&mut s, other);
            },
            SchemaDiff::Options { field, name, reference, other } => {
                push_field(&mut s, *field, name);
                push_text(&mut s, " options (scale/offset bits) mismatch: reference 0b");
                push_binary(&mut s, *reference as u64, 8);
                push_text(&mut s, ", other 0b");
                push_binary(&mut s, *other as u64, 8);
            },
            SchemaDiff::Scale { field, name, reference, other } => {
                push_field(&mut s, *field, name);
                push_text(&mut s, " scale mismatch: reference ");
                push_numbers(&mut s, reference, render);
                push_text(&mut s, ", other ");
                push_numbers(&mut s, other, render);
            },
            SchemaDiff::Offset { field, name, reference, other } => {
                push_field(&mut s, *field, name);
                push_text(&mut s, " offset mismatch: reference ");
                push_numbers(&mut s, reference, render);
                push_text(&mut s, ", other ");
                push_numbers(&mut s, other, render);
            },
            SchemaDiff::NoData { field, name, reference, other } => {
                push_field(&mut s, *field, name);
                push_text(&mut s, " no_data mismatch: reference ");
                push_integers(&mut s, reference);
                push_text(&mut s, ", other ");
                push_integers(&mut s, other);
            },
        }
        assert(s@ =~= diff_str(self@, shown(*render)));
        s
    }
}

// Which differences are listed.
proof fn lemma_in_sum(a: Seq<DiffView>, b: Seq<DiffView>, d: DiffView)
    ensures
        (a + b).contains(d) <==> a.contains(d) || b.contains(d),
{
    let s = a + b;
    if a.contains(d) {
        let i = choose|i: int| 0 <= i < a.len() && a[i] == d;
        assert(s[i] == d);
    }
    if b.contains(d) {
        let i = choose|i: int| 0 <= i < b.len() && b[i] == d;
        assert(s[a.len() + i] == d);
    }
    if s.contains(d) {
        let i = choose|i: int| 0 <= i < s.len() && s[i] == d;
        if i < a.len() {
            assert(a[i] == d);
        } else {
            assert(b[i - a.len()] == d);
        }
    }
}

proof fn lemma_in_when(differs: bool, x: DiffView, d: DiffView)
    ensures
        (when(differs, x)).contains(d) <==> differs && d == x,
{
    reveal(when);
    if differs {
        assert(when(differs, x)[0] == x);
    }
}

/// The number of the field that a difference is about.
spec fn field_of(d: DiffView) -> Option<nat> {
    match d {
        DiffView::FieldCount { .. } => None,
        DiffView::Name { field, .. } => Some(field),
        DiffView::DataType { field, .. } => Some(field),
        DiffView::Description { field, .. } => Some(field),
        DiffView::Options { field, .. } => Some(field),
        DiffView::Scale { field, .. } => Some(field),
        DiffView::Offset { field, .. } => Some(field),
        DiffView::NoData { field, .. } => Some(field),
    }
}

/// A difference of field `i`, given the two fields.
spec fn is_difference(i: nat, r: FieldView, o: FieldView, d: DiffView) -> bool {
    match d {
        DiffView::FieldCount { .. } => false,
        DiffView::Name { field, reference, other } => field == i && reference == r.name && other
            == o.name && r.name != o.name,
        DiffView::DataType { field, name, reference, other } => field == i && name == r.name
            && reference == r.data_type && other == o.data_type && r.data_type != o.data_type,
        DiffView::Description { field, name, reference, other } => field == i && name == r.name
            && reference == r.description && other == o.description && r.description
            != o.description,
        DiffView::Options { field, name, reference, other } => field == i && name == r.name
            && reference == r.options_structural && other == o.options_structural
            && r.options_structural != o.options_structural,
        DiffView::Scale { field, name, reference, other } => field == i && name == r.name
            && reference == r.scale && other == o.scale && !same_numbers(r.scale, o.scale),
        DiffView::Offset { field, name, reference, other } => field == i && name == r.name
            && reference == r.offset && other == o.offset && !same_numbers(r.offset, o.offset),
        DiffView::NoData { field, name, reference, other } => field == i && name == r.name
            && reference == r.no_data && other == o.no_data && r.no_data != o.no_data,
    }
}

#[verifier::spinoff_prover]
proof fn lemma_in_field(i: nat, r: FieldView, o: FieldView, d: DiffView)
    ensures
        field_diffs(i, r, o).contains(d) <==> is_difference(i, r, o, d),
{
    let d1 = DiffView::Name { field: i, reference: r.name, other: o.name };
    let d2 = DiffView::DataType {
        field: i,
        name: r.name,
        reference: r.data_type,
        other: o.data_type,
    };
    let d3 = DiffView::Description {
        field: i,
        name: r.name,
        reference: r.description,
        other: o.description,
    };
    let d4 = DiffView::Options {
        field: i,
        name: r.name,
        reference: r.options_structural,
        other: o.options_structural,
    };
    let d5 = DiffView::Scale { field: i, name: r.name, reference: r.scale, other: o.scale };
    let d6 = DiffView::Offset { field: i, name: r.name, reference: r.offset, other: o.offset };
    let d7 = DiffView::NoData { field: i, name: r.name, reference: r.no_data, other: o.no_data };
    let w1 = when(r.name != o.name, d1);
    let w2 = when(r.data_type != o.data_type, d2);
    let w3 = when(r.description != o.description, d3);
    let w4 = when(r.options_structural != o.options_structural, d4);
    let w5 = when(!same_numbers(r.scale, o.scale), d5);
    let w6 = when(!same_numbers(r.offset, o.offset), d6);
    let w7 = when(r.no_data != o.no_data, d7);
    lemma_in_when(r.name != o.name, d1, d);
    lemma_in_when(r.data_type != o.data_type, d2, d);
    lemma_in_when(r.description != o.description, d3, d);
    lemma_in_when(r.options_structural != o.options_structural, d4, d);
    lemma_in_when(!same_numbers(r.scale, o.scale), d5, d);
    lemma_in_when(!same_numbers(r.offset, o.offset), d6, d);
    lemma_in_when(r.no_data != o.no_data, d7, d);
    lemma_in_sum(w1, w2, d);
    lemma_in_sum(w1 + w2, w3, d);
    lemma_in_sum(w1 + w2 + w3, w4, d);
    lemma_in_sum(w1 + w2 + w3 + w4, w5, d);
    lemma_in_sum(w1 + w2 + w3 + w4 + w5, w6, d);
    lemma_in_sum(w1 + w2 + w3 + w4 + w5 + w6, w7, d);
}

proof fn lemma_in_fields(r: Seq<FieldView>, o: Seq<FieldView>, n: nat, d: DiffView)
    ensures
        fields_diffs(r, o, n).contains(d) <==> exists|i: int|
            0 <= i < n && #[trigger] is_difference(i as nat, r[i], o[i], d),
    decreases n,
{
    if n > 0 {
        let m = (n - 1) as nat;
        lemma_in_fields(r, o, m, d);
        lemma_in_field(m, r[n - 1], o[n - 1], d);
        lemma_in_sum(fields_diffs(r, o, m), field_diffs(m, r[n - 1], o[n - 1]), d);
        if fields_diffs(r, o, n).contains(d) {
            if is_difference(m, r[n - 1], o[n - 1], d) {
                assert(is_difference((n - 1) as nat, r[n - 1], o[n - 1], d));
            } else {
                let i = choose|i: int|
                    0 <= i < m && #[trigger] is_difference(i as nat, r[i], o[i], d);
                assert(0 <= i < n && is_difference(i as nat, r[i], o[i], d));
            }
        }
    }
}

/// The list of differences is complete and says nothing that is not so: of field
/// `i` it has a line on the name, the data type, the description, the options,
/// the scale, the offset and the missing-data values exactly where the two files
/// differ there, with what the reference has and what the other has, in that
/// order. Scales and offsets are compared as numbers.
pub proof fn law_differences_listed(r: Seq<FieldView>, o: Seq<FieldView>, i: nat)
    requires
        r.len() == o.len(),
        i < r.len(),
    ensures
        ({
            let all = schema_diffs(r, o);
            let (a, b) = (r[i as int], o[i as int]);
            &&& all.contains(DiffView::Name { field: i, reference: a.name, other: b.name })
                <==> a.name != b.name
            &&& all.contains(
                DiffView::DataType {
                    field: i,
                    name: a.name,
                    reference: a.data_type,
                    other: b.data_type,
                },
            ) <==> a.data_type != b.data_type
            &&& all.contains(
                DiffView::Description {
                    field: i,
                    name: a.name,
                    reference: a.description,
                    other: b.description,
                },
            ) <==> a.description != b.description
            &&& all.contains(
                DiffView::Options {
                    field: i,
                    name: a.name,
                    reference: a.options_structural,
                    other: b.options_structural,
                },
            ) <==> a.options_structural != b.options_structural
            &&& all.contains(
                DiffView::Scale { field: i, name: a.name, reference: a.scale, other: b.scale },
            ) <==> !same_numbers(a.scale, b.scale)
            &&& all.contains(
                DiffView::Offset { field: i, name: a.name, reference: a.offset, other: b.offset },
            ) <==> !same_numbers(a.offset, b.offset)
            &&& all.contains(
                DiffView::NoData { field: i, name: a.name, reference: a.no_data, other: b.no_data },
            ) <==> a.no_data != b.no_data
        }),
{
    let (a, b) = (r[i as int], o[i as int]);
    lemma_listed(
        r,
        o,
        i,
        DiffView::Name { field: i, reference: a.name, other: b.name },
    );
    lemma_listed(
        r,
        o,
        i,
        DiffView::DataType {
            field: i,
            name: a.name,
            reference: a.data_type,
            other: b.data_type,
        },
    );
    lemma_listed(
        r,
        o,
        i,
        DiffView::Description {
            field: i,
            name: a.name,
            reference: a.description,
            other: b.description,
        },
    );
    lemma_listed(
        r,
        o,
        i,
        DiffView::Options {
            field: i,
            name: a.name,
            reference: a.options_structural,
            other: b.options_structural,
        },
    );
    lemma_listed(
        r,
        o,
        i,
        DiffView::Scale { field: i, name: a.name, reference: a.scale, other: b.scale },
    );
    lemma_listed(
        r,
        o,
        i,
        DiffView::Offset { field: i, name: a.name, reference: a.offset, other: b.offset },
    );
    lemma_listed(
        r,
        o,
        i,
        DiffView::NoData { field: i, name: a.name, reference: a.no_data, other: b.no_data },
    );
}

proof fn lemma_listed(r: Seq<FieldView>, o: Seq<FieldView>, i: nat, d: DiffView)
    requires
        r.len() == o.len(),
        i < r.len(),
        field_of(d) == Some(i),
    ensures
        schema_diffs(r, o).contains(d) <==> is_difference(i, r[i as int], o[i as int], d),
{
    lemma_in_fields(r, o, r.len(), d);
    if schema_diffs(r, o).contains(d) {
        let k = choose|k: int|
            0 <= k < r.len() && #[trigger] is_difference(k as nat, r[k], o[k], d);
        assert(k == i);
    }
    if is_difference(i, r[i as int], o[i as int], d) {
        let k = i as int;
        assert(is_difference(k as nat, r[k], o[k], d));
    }
}

} // verus!
