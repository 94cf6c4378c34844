//! What texts mean: numbers that are read back from their digits, sizes with
//! their units, and what messages name.

use crate::error::{detail_str, error_str, line_str, ErrorView, LineView};
use crate::extra_bytes::code_name;
use crate::notes::{note_str, NoteView};
use crate::schema_diff::{diff_str, field_str, integers_str, numbers_str, DiffView};
use crate::text::{binary, decimal, digit, joined, lacks, quoted, signed_decimal};
use crate::units::{
    bytes_str, count_parts, count_str, is_white, memory_parts, ratio_str, short_bytes_str, trimmed,
    trimmed_end, trimmed_start,
};
use vstd::arithmetic::div_mod::lemma_div_denominator;
use vstd::arithmetic::power::{lemma_pow0, lemma_pow_positive, pow};
use vstd::prelude::*;

verus! {

// Numbers.
/// The number that a text of decimal digits stands for.
pub open spec fn digits_value(s: Seq<char>) -> int
    decreases s.len(),
{
    if s.len() == 0 {
        0
    } else {
        10 * digits_value(s.drop_last()) + (s.last() as int - 48)
    }
}

/// A number in decimal consists of digits, stands for the number, and has no
/// leading zero unless it is zero.
pub proof fn law_decimal(n: nat)
    ensures
        decimal(n).len() > 0,
        forall|i: int| 0 <= i < decimal(n).len() ==> '0' <= #[trigger] decimal(n)[i] <= '9',
        digits_value(decimal(n)) == n,
        n > 0 ==> decimal(n)[0] != '0',
    decreases n,
{
    let s = decimal(n);
    if n >= 10 {
        law_decimal(n / 10);
        assert(s.drop_last() =~= decimal(n / 10));
        assert(s.last() == digit(n % 10));
    } else {
        assert(s.drop_last() =~= Seq::<char>::empty());
        assert(s.last() == digit(n));
        assert(digits_value(Seq::<char>::empty()) == 0);
    }
}

/// A negative number is a minus sign and its digits, any other its digits alone.
pub proof fn law_signed_decimal(n: int)
    ensures
        n >= 0 ==> digits_value(signed_decimal(n)) == n && lacks(signed_decimal(n), '-'),
        n < 0 ==> signed_decimal(n)[0] == '-' && digits_value(signed_decimal(n).skip(1)) == -n
            && lacks(signed_decimal(n).skip(1), '-'),
{
    let m = (if n < 0 {
        -n
    } else {
        n
    }) as nat;
    law_decimal(m);
    crate::text::lemma_decimal(m);
    if n < 0 {
        assert(signed_decimal(n).skip(1) =~= decimal(m));
    }
}

/// A number in binary has as many characters as asked for, and the character
/// `k` places from the end is a one exactly where bit `k` is set.
pub proof fn law_binary(n: nat, width: nat, k: nat)
    requires
        k < width,
    ensures
        binary(n, width).len() == width,
        binary(n, width)[width - 1 - k] == '1' <==> (n / (pow(2, k) as nat)) % 2 == 1,
        binary(n, width)[width - 1 - k] == '0' <==> (n / (pow(2, k) as nat)) % 2 == 0,
    decreases width,
{
    let w = (width - 1) as nat;
    lemma_binary_len(n, width);
    lemma_binary_len(n / 2, w);
    lemma_pow0(2);
    if k == 0 {
        assert(n / 1 == n);
    } else {
        let j = (k - 1) as nat;
        law_binary(n / 2, w, j);
        lemma_pow_positive(2, j);
        reveal_with_fuel(pow, 2);
        assert(pow(2, k) == 2 * pow(2, j));
        lemma_div_denominator(n as int, 2, pow(2, j));
        assert(n / (pow(2, k) as nat) == (n / 2) / (pow(2, j) as nat));
        assert(binary(n, width)[width - 1 - k] == binary(n / 2, w)[w - 1 - j]);
    }
}

proof fn lemma_binary_len(n: nat, width: nat)
    ensures
        binary(n, width).len() == width,
    decreases width,
{
    if width > 0 {
        lemma_binary_len(n / 2, (width - 1) as nat);
    }
}

/// Joining puts the separator between any two neighbours and nowhere else: texts
/// that are joined in two parts are joined with one separator between the parts.
pub proof fn law_joined(a: Seq<Seq<char>>, b: Seq<Seq<char>>, t: Seq<char>, sep: Seq<char>)
    requires
        a.len() > 0,
        b.len() > 0,
    ensures
        joined(a + b, sep) == joined(a, sep) + sep + joined(b, sep),
        joined(seq![t], sep) == t,
        joined(Seq::<Seq<char>>::empty(), sep) == Seq::<char>::empty(),
    decreases b.len(),
{
    let all = a + b;
    assert(all.drop_last() =~= a + b.drop_last());
    assert(all.last() == b.last());
    if b.len() == 1 {
        assert(all.drop_last() =~= a);
    } else {
        law_joined(a, b.drop_last(), t, sep);
        assert(joined(all, sep) =~= joined(a, sep) + sep + joined(b, sep));
    }
}

// Sizes and counts.
/// All characters are white space.
pub open spec fn all_white(s: Seq<char>) -> bool {
    forall|i: int| 0 <= i < s.len() ==> is_white(#[trigger] s[i])
}

/// Trimming cuts the white space at both ends and nothing else: what is left
/// starts and ends with something else, whatever stood around it.
pub proof fn law_trimmed(before: Seq<char>, text: Seq<char>, after: Seq<char>)
    requires
        all_white(before),
        all_white(after),
        text.len() > 0 ==> !is_white(text[0]) && !is_white(text.last()),
    ensures
        trimmed(before + text + after) == text,
{
    let s = before + text + after;
    if text.len() > 0 {
        lemma_trim_end(before + text, after);
        lemma_trim_start(before, text);
    } else {
        assert(s =~= Seq::<char>::empty() + (before + after));
        assert(all_white(before + after));
        lemma_trim_end(Seq::<char>::empty(), before + after);
        assert(text =~= Seq::<char>::empty());
    }
}

proof fn lemma_trim_end(s: Seq<char>, after: Seq<char>)
    requires
        all_white(after),
        s.len() > 0 ==> !is_white(s.last()),
    ensures
        trimmed_end(s + after) == s,
    decreases after.len(),
{
    if after.len() == 0 {
        assert(s + after =~= s);
    } else {
        let rest = after.drop_last();
        assert forall|i: int| 0 <= i < rest.len() implies is_white(#[trigger] rest[i]) by {
            assert(rest[i] == after[i]);
        }
        lemma_trim_end(s, rest);
        assert((s + after).drop_last() =~= s + rest);
        assert((s + after).last() == after[after.len() - 1]);
    }
}

proof fn lemma_trim_start(before: Seq<char>, s: Seq<char>)
    requires
        all_white(before),
        s.len() > 0 ==> !is_white(s[0]),
    ensures
        trimmed_start(before + s) == s,
    decreases before.len(),
{
    if before.len() == 0 {
        assert(before + s =~= s);
    } else {
        let rest = before.drop_first();
        assert forall|i: int| 0 <= i < rest.len() implies is_white(#[trigger] rest[i]) by {
            assert(rest[i] == before[i + 1]);
        }
        lemma_trim_start(rest, s);
        assert((before + s).drop_first() =~= rest + s);
        assert((before + s)[0] == before[0]);
    }
}

/// White space is what Unicode calls so: the tab and its neighbours, the space,
/// the next line, and the wider spaces.
pub proof fn law_white_space(c: char)
    ensures
        c == ' ' || c == '\t' || c == '\n' || c == '\r' ==> is_white(c),
        '!' <= c <= '~' ==> !is_white(c),
        is_white(c) ==> c <= '\u{3000}',
{
}

/// A size with a suffix is its number times the power of the unit: 1024 for
/// memory, 1000 for counts; once for K, twice for M and three times for G, in
/// either case of the letter. Without a suffix it is the number itself.
pub proof fn law_size_suffixes(number: Seq<char>, c: char)
    requires
        number.len() > 0,
        !is_white(number[0]),
        !is_white(number.last()),
    ensures
        c == 'K' || c == 'k' ==> memory_parts(number.push(c)) == (number, 1024u64) && count_parts(
            number.push(c),
        ) == (number, 1000u64),
        c == 'M' || c == 'm' ==> memory_parts(number.push(c)) == (number, 1_048_576u64)
            && count_parts(number.push(c)) == (number, 1_000_000u64),
        c == 'G' || c == 'g' ==> memory_parts(number.push(c)) == (number, 1_073_741_824u64)
            && count_parts(number.push(c)) == (number, 1_000_000_000u64),
        number.last() <= '9' ==> memory_parts(number) == (number, 1u64) && count_parts(number) == (
            number,
            1u64,
        ),
{
    let none = Seq::<char>::empty();
    law_trimmed(none, number, none);
    assert(none + number + none =~= number);
    if !is_white(c) {
        let s = number.push(c);
        law_trimmed(none, s, none);
        assert(none + s + none =~= s);
        assert(s.drop_last() =~= number);
    }
}

/// A count of a thousand or more is shown in the largest unit that it reaches:
/// the shown number is at least one and, but for billions, below a thousand. A
/// smaller count is shown in full.
pub proof fn law_count_units<F: Fn(u64, u64, u32) -> String>(f: F, n: u64, decimals: u32)
    ensures
        n < 1000 ==> count_str(f, n, decimals) == decimal(n as nat),
        1000 <= n < 1_000_000 ==> count_str(f, n, decimals) == ratio_str(f, n, 1000, 1) + "K"@,
        1_000_000 <= n < 1_000_000_000 ==> count_str(f, n, decimals) == ratio_str(
            f,
            n,
            1_000_000,
            decimals,
        ) + "M"@,
        1_000_000_000 <= n ==> count_str(f, n, decimals) == ratio_str(
            f,
            n,
            1_000_000_000,
            decimals,
        ) + "B"@,
{
}

/// A number of bytes is shown in the largest unit that it reaches, kilobytes at
/// least; units are powers of 1024. The short form starts with megabytes.
pub proof fn law_byte_units<F: Fn(u64, u64, u32) -> String>(f: F, b: u64)
    ensures
        b < 1_048_576 ==> bytes_str(f, b) == ratio_str(f, b, 1024, 0) + " KB"@,
        1_048_576 <= b < 1_073_741_824 ==> bytes_str(f, b) == ratio_str(f, b, 1_048_576, 0)
            + " MB"@,
        1_073_741_824 <= b ==> bytes_str(f, b) == ratio_str(f, b, 1_073_741_824, 2) + " GB"@,
        b < 1_073_741_824 ==> short_bytes_str(f, b) == ratio_str(f, b, 1_048_576, 0) + " MB"@,
        1_073_741_824 <= b ==> short_bytes_str(f, b) == ratio_str(f, b, 1_073_741_824, 1)
            + " GB"@,
{
}

// Messages.
/// The text stands somewhere in the message.
pub open spec fn says(message: Seq<char>, text: Seq<char>) -> bool {
    exists|i: int|
        0 <= i && i + text.len() <= message.len() && #[trigger] message.subrange(i, i + text.len())
            == text
}

proof fn lemma_says(a: Seq<char>, text: Seq<char>, b: Seq<char>)
    ensures
        says(a + text + b, text),
{
    let m = a + text + b;
    let n = a.len() as int;
    assert(m.subrange(n, n + text.len()) =~= text);
}

/// The message of a point format error gives each file its own format.
#[verifier::rlimit(40)]
pub proof fn law_format_message(
    a: Seq<char>,
    b: Seq<char>,
    x: u8,
    y: u8,
    show: spec_fn(u64) -> Seq<char>,
)
    ensures
        ({
            let e = error_str(
                ErrorView::PointFormatMismatch { file_a: a, format_a: x, file_b: b, format_b: y },
                show,
            );
            &&& says(e, quoted(a) + " has format "@ + decimal(x as nat))
            &&& says(e, quoted(b) + " has format "@ + decimal(y as nat))
        }),
{
    let none = Seq::<char>::empty();
    let e = error_str(
        ErrorView::PointFormatMismatch { file_a: a, format_a: x, file_b: b, format_b: y },
        show,
    );
    let first = quoted(a) + " has format "@ + decimal(x as nat);
    let second = quoted(b) + " has format "@ + decimal(y as nat);
    let head = "Point format mismatch: "@;
    let mid = " but "@;
    lemma_says(head, first, mid + second);
    assert(e =~= head + first + (mid + second));
    lemma_says(head + first + mid, second, none);
    assert(e =~= head + first + mid + second + none);
}

/// The message on a refused temporal index gives the format or the stride that
/// is at fault.
pub proof fn law_temporal_messages(x: u8, stride: u32, show: spec_fn(u64) -> Seq<char>)
    ensures
        says(
            error_str(ErrorView::NoGpsTime { format: x }, show),
            "point format "@ + decimal(x as nat),
        ),
        says(
            error_str(ErrorView::InvalidTemporalStride { stride }, show),
            "stride of "@ + decimal(stride as nat),
        ),
{
    let d = decimal(x as nat);
    let g = error_str(ErrorView::NoGpsTime { format: x }, show);
    lemma_gps_words();
    let head = "Temporal index requested but input "@;
    let short = "point format "@;
    let tail = " does not include GPS time"@;
    lemma_says(head, short + d, tail);
    assert(g =~= head + (short + d) + tail);
    let ds = decimal(stride as nat);
    let t = error_str(ErrorView::InvalidTemporalStride { stride }, show);
    lemma_stride_words();
    let head = "Temporal index requested but with an invalid temporal "@;
    let short = "stride of "@;
    lemma_says(head, short + ds, "."@);
    assert(t =~= head + (short + ds) + "."@);
}

proof fn lemma_gps_words()
    ensures
        "Temporal index requested but input point format "@
            == "Temporal index requested but input "@ + "point format "@,
{
    reveal_strlit("Temporal index requested but input point format ");
    reveal_strlit("Temporal index requested but input ");
    reveal_strlit("point format ");
    assert("Temporal index requested but input point format "@
        =~= "Temporal index requested but input "@ + "point format "@);
}

proof fn lemma_stride_words()
    ensures
        "Temporal index requested but with an invalid temporal stride of "@
            == "Temporal index requested but with an invalid temporal "@ + "stride of "@,
{
    reveal_strlit("Temporal index requested but with an invalid temporal stride of ");
    reveal_strlit("Temporal index requested but with an invalid temporal ");
    reveal_strlit("stride of ");
    assert("Temporal index requested but with an invalid temporal stride of "@
        =~= "Temporal index requested but with an invalid temporal "@ + "stride of "@);
}

/// The message on reference systems names the reference file first.
pub proof fn law_system_message(a: Seq<char>, b: Seq<char>, show: spec_fn(u64) -> Seq<char>)
    ensures
        says(
            error_str(ErrorView::CrsMismatch { file_a: a, file_b: b }, show),
            quoted(a) + " has a different WKT CRS than "@ + quoted(b),
        ),
{
    lemma_says_pair("CRS mismatch: "@, quoted(a), " has a different WKT CRS than "@, quoted(b));
}

proof fn lemma_says_pair(head: Seq<char>, a: Seq<char>, mid: Seq<char>, b: Seq<char>)
    ensures
        says(head + a + mid + b, a + mid + b),
{
    let part = a + mid + b;
    let all = head + a + mid + b;
    let n = head.len() as int;
    assert forall|i: int| 0 <= i < part.len() implies #[trigger] part[i] == all[n + i] by {
        if i < a.len() {
            assert(part[i] == (a + mid)[i] && all[n + i] == (head + a + mid)[n + i]);
        }
    }
    assert(all.subrange(n, n + part.len()) =~= part);
}

/// The message on missing inputs names the directory.
pub proof fn law_no_input_message(a: Seq<char>, show: spec_fn(u64) -> Seq<char>)
    ensures
        says(error_str(ErrorView::NoInputFiles { path: a }, show), quoted(a)),
{
    let none = Seq::<char>::empty();
    let head = "No LAZ/LAS files found in "@;
    lemma_says(head, quoted(a), none);
    assert(error_str(ErrorView::NoInputFiles { path: a }, show) =~= head + quoted(a) + none);
}

/// The message on Extra Bytes names the reference file first and ends with the
/// list of differences.
pub proof fn law_extra_bytes_message(
    a: Seq<char>,
    b: Seq<char>,
    detail: Seq<LineView>,
    show: spec_fn(u64) -> Seq<char>,
)
    ensures
        ({
            let e = error_str(
                ErrorView::ExtraBytesMismatch { file_a: a, file_b: b, detail },
                show,
            );
            &&& says(e, quoted(a) + " (reference) and "@ + quoted(b))
            &&& says(e, detail_str(detail, show))
        }),
{
    let none = Seq::<char>::empty();
    let head = "Extra Bytes schema mismatch between "@;
    let pair = quoted(a) + " (reference) and "@ + quoted(b);
    let lines = detail_str(detail, show);
    let e = error_str(ErrorView::ExtraBytesMismatch { file_a: a, file_b: b, detail }, show);
    lemma_says(head, pair, ":\n"@ + lines);
    assert(e =~= head + pair + (":\n"@ + lines));
    lemma_says(head + pair + ":\n"@, lines, none);
    assert(e =~= head + pair + ":\n"@ + lines + none);
}

/// The line on widths gives each file its own, and the line on a difference of
/// the schemas has its text.
pub proof fn law_mismatch_lines_say(x: u16, y: u16, d: DiffView, show: spec_fn(u64) -> Seq<char>)
    ensures
        says(
            line_str(LineView::Width { reference: x, other: y }, show),
            "reference declares "@ + decimal(x as nat),
        ),
        says(
            line_str(LineView::Width { reference: x, other: y }, show),
            "other declares "@ + decimal(y as nat),
        ),
        says(line_str(LineView::Schema(d), show), diff_str(d, show)),
{
    let none = Seq::<char>::empty();
    lemma_width_words();
    lemma_two_of_four(
        "  - point trailing-byte width differs: reference declares "@,
        decimal(x as nat),
        " bytes, other declares "@,
        decimal(y as nat),
        "  - point trailing-byte width differs: "@,
        "reference declares "@,
        " bytes, "@,
        "other declares "@,
    );
    lemma_says("  - "@, diff_str(d, show), none);
    assert(line_str(LineView::Schema(d), show) =~= "  - "@ + diff_str(d, show) + none);
}

proof fn lemma_two_of_four(
    a: Seq<char>,
    x: Seq<char>,
    b: Seq<char>,
    y: Seq<char>,
    head: Seq<char>,
    first: Seq<char>,
    mid: Seq<char>,
    second: Seq<char>,
)
    requires
        a == head + first,
        b == mid + second,
    ensures
        says(a + x + b + y, first + x),
        says(a + x + b + y, second + y),
{
    lemma_says(head, first + x, b + y);
    lemma_regroup(head, first, x);
    lemma_regroup(head + (first + x), b, y);
    lemma_ends(a + x + mid, second + y);
    lemma_regroup(a + x, mid, second);
    lemma_regroup(a + x + mid, second, y);
}

proof fn lemma_regroup(a: Seq<char>, b: Seq<char>, c: Seq<char>)
    ensures
        a + b + c == a + (b + c),
{
    assert(a + b + c =~= a + (b + c));
}

proof fn lemma_ends(a: Seq<char>, text: Seq<char>)
    ensures
        says(a + text, text),
{
    let m = a + text;
    let n = a.len() as int;
    assert(m.subrange(n, n + text.len()) =~= text);
}

proof fn lemma_width_words()
    ensures
        "  - point trailing-byte width differs: reference declares "@
            == "  - point trailing-byte width differs: "@ + "reference declares "@,
        " bytes, other declares "@ == " bytes, "@ + "other declares "@,
{
    reveal_strlit("  - point trailing-byte width differs: reference declares ");
    reveal_strlit("  - point trailing-byte width differs: ");
    reveal_strlit("reference declares ");
    reveal_strlit(" bytes, other declares ");
    reveal_strlit(" bytes, ");
    reveal_strlit("other declares ");
    assert("  - point trailing-byte width differs: reference declares "@
        =~= "  - point trailing-byte width differs: "@ + "reference declares "@);
    assert(" bytes, other declares "@ =~= " bytes, "@ + "other declares "@);
}

/// A text in which the reference's part stands behind "reference " and the other
/// file's part behind "other ".
pub open spec fn says_both(message: Seq<char>, reference: Seq<char>, other: Seq<char>) -> bool {
    says(message, "reference "@ + reference) && says(message, "other "@ + other)
}

#[verifier::rlimit(40)]
proof fn lemma_both(
    head: Seq<char>,
    first: Seq<char>,
    a: Seq<char>,
    mid: Seq<char>,
    b: Seq<char>,
    tail: Seq<char>,
    word: Seq<char>,
    comma: Seq<char>,
)
    requires
        first == word + "reference "@,
        mid == comma + "other "@,
    ensures
        says_both(head + first + a + mid + b + tail, a, b),
{
    let m = head + first + a + mid + b + tail;
    let r = "reference "@;
    let o = "other "@;
    lemma_says(head + word, r + a, mid + b + tail);
    assert(m =~= (head + word) + (r + a) + (mid + b + tail));
    lemma_says(head + first + a + comma, o + b, tail);
    assert(m =~= (head + first + a + comma) + (o + b) + tail);
}

proof fn lemma_difference_words()
    ensures
        " name mismatch: reference "@ == " name mismatch: "@ + "reference "@,
        " data_type mismatch: reference "@ == " data_type mismatch: "@ + "reference "@,
        " description mismatch: reference "@ == " description mismatch: "@ + "reference "@,
        " scale mismatch: reference "@ == " scale mismatch: "@ + "reference "@,
        " offset mismatch: reference "@ == " offset mismatch: "@ + "reference "@,
        " no_data mismatch: reference "@ == " no_data mismatch: "@ + "reference "@,
        ", other "@ == ", "@ + "other "@,
        "), other "@ == "), "@ + "other "@,
{
    reveal_strlit("reference ");
    reveal_strlit("other ");
    reveal_strlit(", ");
    reveal_strlit("), ");
    reveal_strlit(", other ");
    reveal_strlit("), other ");
    reveal_strlit(" name mismatch: reference ");
    reveal_strlit(" name mismatch: ");
    reveal_strlit(" data_type mismatch: reference ");
    reveal_strlit(" data_type mismatch: ");
    reveal_strlit(" description mismatch: reference ");
    reveal_strlit(" description mismatch: ");
    reveal_strlit(" scale mismatch: reference ");
    reveal_strlit(" scale mismatch: ");
    reveal_strlit(" offset mismatch: reference ");
    reveal_strlit(" offset mismatch: ");
    reveal_strlit(" no_data mismatch: reference ");
    reveal_strlit(" no_data mismatch: ");
    assert(" name mismatch: reference "@ =~= " name mismatch: "@ + "reference "@);
    assert(" data_type mismatch: reference "@ =~= " data_type mismatch: "@ + "reference "@);
    assert(" description mismatch: reference "@ =~= " description mismatch: "@ + "reference "@);
    assert(" scale mismatch: reference "@ =~= " scale mismatch: "@ + "reference "@);
    assert(" offset mismatch: reference "@ =~= " offset mismatch: "@ + "reference "@);
    assert(" no_data mismatch: reference "@ =~= " no_data mismatch: "@ + "reference "@);
    assert(", other "@ =~= ", "@ + "other "@);
    assert("), other "@ =~= "), "@ + "other "@);
}

/// The text of a difference gives the reference's value as the reference's and the
/// other file's as the other's: names and descriptions, data types with their
/// names, scales, offsets and missing-data values.
#[verifier::rlimit(40)]
pub proof fn law_difference_texts(
    f: nat,
    name: Seq<char>,
    a: Seq<char>,
    b: Seq<char>,
    x: u8,
    y: u8,
    s: Seq<u64>,
    t: Seq<u64>,
    show: spec_fn(u64) -> Seq<char>,
)
    ensures
        says_both(
            diff_str(DiffView::Name { field: f, reference: a, other: b }, show),
            quoted(a),
            quoted(b),
        ),
        says_both(
            diff_str(DiffView::DataType { field: f, name, reference: x, other: y }, show),
            decimal(x as nat) + " ("@ + code_name(x),
            decimal(y as nat) + " ("@ + code_name(y),
        ),
        says_both(
            diff_str(DiffView::Description { field: f, name, reference: a, other: b }, show),
            quoted(a),
            quoted(b),
        ),
        says_both(
            diff_str(DiffView::Scale { field: f, name, reference: s, other: t }, show),
            numbers_str(show, s),
            numbers_str(show, t),
        ),
        says_both(
            diff_str(DiffView::Offset { field: f, name, reference: s, other: t }, show),
            numbers_str(show, s),
            numbers_str(show, t),
        ),
        says_both(
            diff_str(DiffView::NoData { field: f, name, reference: s, other: t }, show),
            integers_str(s),
            integers_str(t),
        ),
{
    lemma_difference_words();
    let field = "field "@ + decimal(f);
    let at = field_str(f, name);
    lemma_plain_difference(
        field,
        " name mismatch: reference "@,
        quoted(a),
        quoted(b),
        " name mismatch: "@,
    );
    lemma_plain_difference(
        at,
        " description mismatch: reference "@,
        quoted(a),
        quoted(b),
        " description mismatch: "@,
    );
    lemma_plain_difference(
        at,
        " scale mismatch: reference "@,
        numbers_str(show, s),
        numbers_str(show, t),
        " scale mismatch: "@,
    );
    lemma_plain_difference(
        at,
        " offset mismatch: reference "@,
        numbers_str(show, s),
        numbers_str(show, t),
        " offset mismatch: "@,
    );
    lemma_plain_difference(
        at,
        " no_data mismatch: reference "@,
        integers_str(s),
        integers_str(t),
        " no_data mismatch: "@,
    );
    lemma_named_difference(
        at,
        " data_type mismatch: reference "@,
        decimal(x as nat),
        code_name(x),
        decimal(y as nat),
        code_name(y),
        " data_type mismatch: "@,
    );
}

proof fn lemma_plain_difference(
    head: Seq<char>,
    first: Seq<char>,
    a: Seq<char>,
    b: Seq<char>,
    word: Seq<char>,
)
    requires
        first == word + "reference "@,
    ensures
        says_both(head + first + a + ", other "@ + b, a, b),
{
    let none = Seq::<char>::empty();
    lemma_difference_words();
    lemma_both(head, first, a, ", other "@, b, none, word, ", "@);
    assert(head + first + a + ", other "@ + b + none =~= head + first + a + ", other "@ + b);
}

proof fn lemma_named_difference(
    head: Seq<char>,
    first: Seq<char>,
    a: Seq<char>,
    c: Seq<char>,
    b: Seq<char>,
    d: Seq<char>,
    word: Seq<char>,
)
    requires
        first == word + "reference "@,
    ensures
        says_both(
            head + first + a + " ("@ + c + "), other "@ + b + " ("@ + d + ")"@,
            a + " ("@ + c,
            b + " ("@ + d,
        ),
{
    lemma_difference_words();
    let x = a + " ("@ + c;
    let y = b + " ("@ + d;
    lemma_both(head, first, x, "), other "@, y, ")"@, word, "), "@);
    assert(head + first + x + "), other "@ + y + ")"@ =~= head + first + a + " ("@ + c
        + "), other "@ + b + " ("@ + d + ")"@);
}

/// A warning names the code or the files that it is about, the reference file
/// first.
pub proof fn law_warnings_name(h: u16, a: Seq<char>, b: Seq<char>)
    ensures
        says(note_str(NoteView::VerticalDropped { horizontal: h }), decimal(h as nat)),
        says(note_str(NoteView::UnknownCode { horizontal: h }), decimal(h as nat)),
        says(
            note_str(NoteView::VerticalDiffers { file_a: a, file_b: b }),
            quoted(a) + " and "@ + quoted(b),
        ),
{
    let d = decimal(h as nat);
    lemma_says(
        "Translating GeoTIFF CRS (EPSG:"@,
        d,
        ") to WKT for COPC output; vertical CRS will be dropped"@,
    );
    lemma_says(
        "GeoTIFF EPSG:"@,
        d,
        " not found in crs-definitions registry; output COPC will have no CRS"@,
    );
    let head = "Vertical CRS component differs between "@;
    let pair = quoted(a) + " and "@ + quoted(b);
    lemma_says(head, pair, "; ignoring it"@);
    assert(note_str(NoteView::VerticalDiffers { file_a: a, file_b: b }) =~= head + pair
        + "; ignoring it"@);
}

} // verus!
