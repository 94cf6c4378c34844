//! Coordinate reference systems: what files declare, and whether declarations
//! agree.

use crate::extra_bytes::bytes_hash;
use std::collections::hash_map::DefaultHasher;
use vstd::prelude::*;
use vstd::std_specs::hash::DefaultHasherAdditionalSpecFns;
use vstd::utf8::{decode_utf8, encode_utf8, valid_utf8};

verus! {

/// What a file declares as its reference system: small enough to hold once per
/// file.
#[derive(Debug, Clone, Copy, PartialEq, Eq)]
pub enum CrsKind {
    /// Hash of the WKT record.
    WktHash(u64),
    /// GeoTIFF EPSG codes: horizontal and optional vertical.
    GeoTiffEpsg(u16, Option<u16>),
}

/// An EPSG code with an optional vertical one.
pub type Epsg = (u16, Option<u16>);

/// The text that some bytes stand for, with replacement characters where they
/// are not valid UTF-8.
pub uninterp spec fn utf8_lossy(bytes: Seq<u8>) -> Seq<char>;

/// Calls `String::from_utf8_lossy`. Valid UTF-8 is taken as it is; what stands
/// for an invalid sequence is left to std.
#[verifier::external_body]
fn lossy_text(bytes: &[u8]) -> (s: String)
    ensures
        s@ == utf8_lossy(bytes@),
        valid_utf8(bytes@) ==> s@ == decode_utf8(bytes@),
{
    String::from_utf8_lossy(bytes).into_owned()
}

/// The WKT that the registry of reference systems has for an EPSG code.
pub uninterp spec fn registry_wkt(code: u16) -> Option<Seq<u8>>;

/// Calls `crs_definitions::from_code` and takes the WKT of the definition that
/// it finds. The registry is a fixed table, so the result depends on the code
/// alone.
#[verifier::external_body]
fn find_wkt(code: u16) -> (r: Option<Vec<u8>>)
    ensures
        match r {
            Some(w) => registry_wkt(code) == Some(w@),
            None => registry_wkt(code) is None,
        },
{
    crs_definitions::from_code(code).map(|d| d.wkt.as_bytes().to_vec())
}

/// The WKT of an EPSG code, where the registry has one.
pub fn wkt_for_epsg(code: u16) -> (r: Option<Vec<u8>>)
    ensures
        match r {
            Some(w) => registry_wkt(code) == Some(w@),
            None => registry_wkt(code) is None,
        },
{
    find_wkt(code)
}

/// Whether a byte is ASCII white space.
pub open spec fn is_blank(b: u8) -> bool {
    b == 0x20 || b == 0x09 || b == 0x0A || b == 0x0C || b == 0x0D
}

/// Whether a byte is an ASCII digit.
pub open spec fn is_digit(b: u8) -> bool {
    0x30 <= b <= 0x39
}

/// The bytes without white space at their end.
pub open spec fn trimmed(s: Seq<u8>) -> Seq<u8>
    decreases s.len(),
{
    if s.len() > 0 && is_blank(s.last()) {
        trimmed(s.drop_last())
    } else {
        s
    }
}

/// The last ten bytes, or all of them where there are fewer.
pub open spec fn last_ten(s: Seq<u8>) -> Seq<u8> {
    if s.len() <= 10 {
        s
    } else {
        s.skip(s.len() - 10)
    }
}

/// The bytes up to the last digit.
pub open spec fn upto_digit(s: Seq<u8>) -> Seq<u8>
    decreases s.len(),
{
    if s.len() > 0 && !is_digit(s.last()) {
        upto_digit(s.drop_last())
    } else {
        s
    }
}

/// How many digits stand at the end.
pub open spec fn run_length(s: Seq<u8>) -> nat
    decreases s.len(),
{
    if s.len() > 0 && is_digit(s.last()) {
        run_length(s.drop_last()) + 1
    } else {
        0
    }
}

/// The number that the last `n` digits form.
pub open spec fn run_value(s: Seq<u8>, n: nat) -> nat
    decreases n,
{
    if n == 0 || s.len() == 0 {
        0
    } else {
        10 * run_value(s.drop_last(), (n - 1) as nat) + (s.last() - 0x30) as nat
    }
}

/// The code that the text ends with: the last run of digits within its last ten
/// bytes, if it is a number of 16 bits.
pub open spec fn code_at_end(s: Seq<u8>) -> Option<u16> {
    let w = upto_digit(last_ten(trimmed(s)));
    let n = run_length(w);
    if n == 0 || run_value(w, n) > u16::MAX {
        None
    } else {
        Some(run_value(w, n) as u16)
    }
}

/// Where `pat` first occurs.
pub open spec fn occurs_at(s: Seq<u8>, pat: Seq<u8>, i: int) -> bool {
    0 <= i && i + pat.len() <= s.len() && s.subrange(i, i + pat.len()) == pat
}

/// The first occurrence of `pat` at `from` or behind it.
pub open spec fn first_from(s: Seq<u8>, pat: Seq<u8>, from: int) -> Option<int>
    decreases s.len() - from + 1,
{
    if from < 0 || from + pat.len() > s.len() {
        None
    } else if occurs_at(s, pat, from) {
        Some(from)
    } else {
        first_from(s, pat, from + 1)
    }
}

/// The keywords that introduce a vertical reference system.
pub open spec fn vertcrs() -> Seq<u8> {
    seq![86u8, 69, 82, 84, 67, 82, 83]
}

pub open spec fn verticalcrs() -> Seq<u8> {
    seq![86u8, 69, 82, 84, 73, 67, 65, 76, 67, 82, 83]
}

pub open spec fn vert_cs() -> Seq<u8> {
    seq![86u8, 69, 82, 84, 95, 67, 83]
}

/// The parts before and behind the first occurrence of `pat`.
pub open spec fn split_at_first(s: Seq<u8>, pat: Seq<u8>) -> Option<(Seq<u8>, Seq<u8>)> {
    match first_from(s, pat, 0) {
        Some(i) => Some((s.take(i), s.skip(i + pat.len()))),
        None => None,
    }
}

/// The horizontal part of a WKT text and the vertical part, if there is one.
pub open spec fn wkt_parts(s: Seq<u8>) -> (Seq<u8>, Option<Seq<u8>>) {
    match split_at_first(s, vertcrs()) {
        Some(p) => (p.0, Some(p.1)),
        None => match split_at_first(s, verticalcrs()) {
            Some(p) => (p.0, Some(p.1)),
            None => match split_at_first(s, vert_cs()) {
                Some(p) => (p.0, Some(p.1)),
                None => (s, None),
            },
        },
    }
}

/// Whether a number can be an EPSG code.
pub open spec fn plausible(code: u16) -> bool {
    1024 <= code < 32767
}

/// The EPSG codes of a WKT text.
pub open spec fn epsg_of(s: Seq<u8>) -> Option<Epsg> {
    let (h, v) = wkt_parts(s);
    match code_at_end(h) {
        None => None,
        Some(horizontal) => {
            if !plausible(horizontal) {
                None
            } else {
                let vertical = match v {
                    None => None,
                    Some(t) => match code_at_end(t) {
                        Some(c) => {
                            if plausible(c) {
                                Some(c)
                            } else {
                                None
                            }
                        },
                        None => None,
                    },
                };
                Some((horizontal, vertical))
            }
        },
    }
}

/// The code that the bytes from `from` to `to` end with.
fn trailing_code(s: &[u8], from: usize, to: usize) -> (r: Option<u16>)
    requires
        from <= to <= s@.len(),
    ensures
        r == code_at_end(s@.subrange(from as int, to as int)),
{
    let ghost part = s@.subrange(from as int, to as int);
    let mut end: usize = to;
    while end > from && (s[end - 1] == 0x20 || s[end - 1] == 0x09 || s[end - 1] == 0x0A || s[end
        - 1] == 0x0C || s[end - 1] == 0x0D)
        invariant
            from <= end <= to <= s@.len(),
            trimmed(part) == trimmed(s@.subrange(from as int, end as int)),
        decreases end,
    {
        assert(s@.subrange(from as int, end as int).drop_last() =~= s@.subrange(
            from as int,
            end - 1,
        ));
        end = end - 1;
    }
    let ghost text = s@.subrange(from as int, end as int);
    assert(trimmed(part) == text);
    let start: usize = if end - from > 10 {
        end - 10
    } else {
        from
    };
    let ghost window = s@.subrange(start as int, end as int);
    assert(last_ten(text) =~= window);
    while end > start && !(s[end - 1] >= 0x30 && s[end - 1] <= 0x39)
        invariant
            start <= end <= s@.len(),
            end - start <= 10,
            upto_digit(window) == upto_digit(s@.subrange(start as int, end as int)),
        decreases end,
    {
        assert(s@.subrange(start as int, end as int).drop_last() =~= s@.subrange(
            start as int,
            end - 1,
        ));
        end = end - 1;
    }
    let ghost w = s@.subrange(start as int, end as int);
    assert(upto_digit(window) == w);
    let stop: usize = end;
    let mut n: usize = 0;
    let mut code: u64 = 0;
    let mut power: u64 = 1;
    assert(w.take(w.len() as int) =~= w);
    while end > start && s[end - 1] >= 0x30 && s[end - 1] <= 0x39
        invariant
            start <= end <= stop <= s@.len(),
            from <= to <= s@.len(),
            upto_digit(last_ten(trimmed(s@.subrange(from as int, to as int)))) == w,
            end == stop - n,
            stop - start <= 10,
            power == pow10(n as nat),
            code < power,
            w == s@.subrange(start as int, stop as int),
            run_length(w) == n + run_length(w.take(end - start)),
            forall|m: nat|
                n <= m <= w.len() ==> #[trigger] run_value(w, m) == code + power * run_value(
                    w.take(end - start),
                    (m - n) as nat,
                ),
        decreases end,
    {
        let ghost here = w.take(end - start);
        proof {
            assert(here.drop_last() =~= w.take(end - start - 1));
            assert(here.last() == s@[end - 1]);
        }
        let d: u64 = (s[end - 1] - 0x30) as u64;
        proof {
            lemma_pow10(n as nat);
            assert(power * d <= 9_000_000_000) by (nonlinear_arith)
                requires
                    0 <= power <= 1_000_000_000,
                    0 <= d <= 9,
            ;
            assert(code + power * d < 10 * power) by (nonlinear_arith)
                requires
                    code < power,
                    d <= 9,
            ;
            assert forall|m: nat| n + 1 <= m <= w.len() implies #[trigger] run_value(w, m) == code
                + power * d + (10 * power) * run_value(
                w.take(end - start - 1),
                (m - n - 1) as nat,
            ) by {
                let rest = run_value(w.take(end - start - 1), (m - n - 1) as nat);
                assert(run_value(here, (m - n) as nat) == 10 * rest + d);
                assert(power * (10 * rest + d) == power * d + (10 * power) * rest)
                    by (nonlinear_arith);
            }
        }
        code = code + power * d;
        power = power * 10;
        n = n + 1;
        end = end - 1;
    }
    assert(run_length(w.take(end - start)) == 0);
    assert(run_value(w, n as nat) == code + power * run_value(w.take(end - start), 0));
    assert(power * 0 == 0) by (nonlinear_arith);
    if n == 0 || code > 0xFFFF {
        None
    } else {
        Some(code as u16)
    }
}

proof fn lemma_pow10(n: nat)
    requires
        n <= 9,
    ensures
        pow10(n) <= 1_000_000_000,
        pow10(n + 1) == 10 * pow10(n),
{
    reveal_with_fuel(pow10, 11);
}

/// Ten to the power `n`.
spec fn pow10(n: nat) -> nat
    decreases n,
{
    if n == 0 {
        1
    } else {
        10 * pow10((n - 1) as nat)
    }
}

/// The first occurrence of `pat`.
fn find_bytes(s: &[u8], pat: &[u8]) -> (r: Option<usize>)
    requires
        pat@.len() > 0,
    ensures
        match r {
            Some(i) => first_from(s@, pat@, 0) == Some(i as int) && i + pat@.len() <= s@.len(),
            None => first_from(s@, pat@, 0) is None,
        },
{
    let n: usize = pat.len();
    let mut i: usize = 0;
    while i <= s.len() && s.len() - i >= n
        invariant
            n == pat@.len() > 0,
            i <= s@.len(),
            first_from(s@, pat@, 0) == first_from(s@, pat@, i as int),
        decreases s@.len() - i,
    {
        assert(s.len() <= usize::MAX);
        let mut j: usize = 0;
        while j < n && s[i + j] == pat[j]
            invariant
                n == pat@.len(),
                i + n <= s@.len() <= usize::MAX,
                j <= n,
                forall|k: int| 0 <= k < j ==> s@[i + k] == #[trigger] pat@[k],
            decreases n - j,
        {
            j = j + 1;
        }
        if j == n {
            assert(s@.subrange(i as int, i + n) =~= pat@);
            return Some(i);
        }
        proof {
            assert(s@.subrange(i as int, i + n)[j as int] == s@[i + j]);
        }
        i = i + 1;
    }
    None
}

/// The EPSG codes of a WKT text: the horizontal code is what the text ends with,
/// or what stands before the keyword of a vertical reference system, whose code
/// is then what the text ends with. A code outside the range of EPSG codes
/// counts as none.
pub fn epsg_of_wkt(s: &[u8]) -> (r: Option<Epsg>)
    ensures
        r == epsg_of(s@),
{
    let n: usize = s.len();
    let p1: [u8; 7] = [86, 69, 82, 84, 67, 82, 83];
    let p2: [u8; 11] = [86, 69, 82, 84, 73, 67, 65, 76, 67, 82, 83];
    let p3: [u8; 7] = [86, 69, 82, 84, 95, 67, 83];
    assert(p1@ =~= vertcrs());
    assert(p2@ =~= verticalcrs());
    assert(p3@ =~= vert_cs());
    let mut cut: usize = n;
    let mut vertical_from: Option<usize> = None;
    match find_bytes(s, &p1) {
        Some(i) => {
            cut = i;
            vertical_from = Some(i + 7);
        },
        None => {
            match find_bytes(s, &p2) {
                Some(i) => {
                    cut = i;
                    vertical_from = Some(i + 11);
                },
                None => {
                    match find_bytes(s, &p3) {
                        Some(i) => {
                            cut = i;
                            vertical_from = Some(i + 7);
                        },
                        None => {},
                    }
                },
            }
        },
    }
    proof {
        let parts = wkt_parts(s@);
        assert(s@.subrange(0, cut as int) =~= parts.0);
        match vertical_from {
            Some(v) => {
                assert(s@.subrange(v as int, n as int) =~= s@.skip(v as int));
                assert(parts.1 == Some(s@.skip(v as int)));
            },
            None => {},
        }
    }
    let horizontal: u16 = match trailing_code(s, 0, cut) {
        Some(h) => h,
        None => {
            return None;
        },
    };
    if horizontal < 1024 || horizontal >= 32767 {
        return None;
    }
    let mut vertical: Option<u16> = None;
    match vertical_from {
        Some(v) => {
            match trailing_code(s, v, n) {
                Some(c) => {
                    if c >= 1024 && c < 32767 {
                        vertical = Some(c);
                    }
                },
                None => {},
            }
        },
        None => {},
    }
    Some((horizontal, vertical))
}

/// The EPSG codes of a WKT record.
pub open spec fn epsg_of_record(bytes: Seq<u8>) -> Option<Epsg> {
    epsg_of(encode_utf8(utf8_lossy(bytes)))
}

/// Best-effort parse of the EPSG codes of a WKT record. This is no WKT parser:
/// it returns nothing where it finds no plausible code, and leaves it to callers
/// to treat such records as inequivalent.
pub fn get_epsg_from_wkt_crs_bytes(bytes: &[u8]) -> (r: Option<Epsg>)
    ensures
        r == epsg_of_record(bytes@),
        valid_utf8(bytes@) ==> r == epsg_of(bytes@),
{
    let text = lossy_text(bytes);
    proof {
        if valid_utf8(bytes@) {
            vstd::utf8::decode_utf8_encode_utf8(bytes@);
        }
    }
    epsg_of_wkt(text.as_str().as_bytes())
}

/// What comparing two declarations says: whether they agree, and whether they
/// agree only if the vertical part is left aside.
pub open spec fn same_codes(a: Epsg, b: Epsg) -> (bool, bool) {
    (a.0 == b.0, a.0 == b.0 && a.1 != b.1)
}

/// How two declarations compare, where the WKT record has the given codes.
pub open spec fn compatible(a: CrsKind, b: CrsKind, wkt: Option<Epsg>) -> (bool, bool) {
    match (a, b) {
        (CrsKind::WktHash(x), CrsKind::WktHash(y)) => (x == y, false),
        (CrsKind::GeoTiffEpsg(h, v), CrsKind::GeoTiffEpsg(k, w)) => same_codes((h, v), (k, w)),
        (CrsKind::WktHash(_), CrsKind::GeoTiffEpsg(h, v)) => match wkt {
            Some(e) => same_codes(e, (h, v)),
            None => (false, false),
        },
        (CrsKind::GeoTiffEpsg(h, v), CrsKind::WktHash(_)) => match wkt {
            Some(e) => same_codes(e, (h, v)),
            None => (false, false),
        },
    }
}

fn codes_match(a: Epsg, b: Epsg) -> (r: (bool, bool))
    ensures
        r == same_codes(a, b),
{
    if a.0 != b.0 {
        return (false, false);
    }
    match (a.1, b.1) {
        (None, None) => (true, false),
        (Some(x), Some(y)) => (true, x != y),
        _ => (true, true),
    }
}

/// Compares two declarations. `wkt` holds the codes of the WKT record, which is
/// consulted where one of the two is a WKT record and the other is not.
pub fn compare_kinds(a: CrsKind, b: CrsKind, wkt: Option<Epsg>) -> (r: (bool, bool))
    ensures
        r == compatible(a, b, wkt),
{
    match (a, b) {
        (CrsKind::WktHash(x), CrsKind::WktHash(y)) => (x == y, false),
        (CrsKind::GeoTiffEpsg(h, v), CrsKind::GeoTiffEpsg(k, w)) => codes_match((h, v), (k, w)),
        (CrsKind::WktHash(_), CrsKind::GeoTiffEpsg(h, v)) => match wkt {
            Some(e) => codes_match(e, (h, v)),
            None => (false, false),
        },
        (CrsKind::GeoTiffEpsg(h, v), CrsKind::WktHash(_)) => match wkt {
            Some(e) => codes_match(e, (h, v)),
            None => (false, false),
        },
    }
}

/// The codes of an optional WKT record.
pub open spec fn record_codes(wkt: Option<Seq<u8>>) -> Option<Epsg> {
    match wkt {
        Some(w) => epsg_of_record(w),
        None => None,
    }
}

/// The view of an optional record.
pub open spec fn opt_bytes(v: Option<Vec<u8>>) -> Option<Seq<u8>> {
    match v {
        Some(b) => Some(b@),
        None => None,
    }
}

/// Compares two declarations, using the WKT record only where they are of
/// different kinds. Returns whether they are equal, and whether the vertical
/// components had to be ignored for that.
pub fn crs_kinds_compatible(a: CrsKind, b: CrsKind, canonical_wkt: &Option<Vec<u8>>) -> (r: (
    bool,
    bool,
))
    ensures
        r == compatible(a, b, record_codes(opt_bytes(*canonical_wkt))),
{
    let codes = match canonical_wkt {
        Some(w) => get_epsg_from_wkt_crs_bytes(w.as_slice()),
        None => None,
    };
    compare_kinds(a, b, codes)
}

/// What a file's GeoTIFF directory says about its reference system.
#[derive(Debug, Clone, Copy, PartialEq, Eq)]
pub struct GeoKeys {
    pub model_type: Option<u16>,
    pub projected: Option<u16>,
    pub geodetic: Option<u16>,
    pub vertical: Option<u16>,
}

/// The declaration that a GeoTIFF directory makes: the projected code for model
/// type 1, the geodetic code for model types 2 and 3, and none otherwise.
pub open spec fn geo_kind(k: GeoKeys) -> Option<CrsKind> {
    let horizontal = match k.model_type {
        Some(m) => {
            if m == 1 {
                k.projected
            } else if m == 2 || m == 3 {
                k.geodetic
            } else {
                None
            }
        },
        None => None,
    };
    match horizontal {
        Some(h) => Some(CrsKind::GeoTiffEpsg(h, k.vertical)),
        None => None,
    }
}

/// The declaration of a file: that of its WKT record if it has one, else that of
/// its GeoTIFF directory.
pub open spec fn file_kind(wkt: Option<Seq<u8>>, geo: Option<GeoKeys>) -> Option<CrsKind> {
    match wkt {
        Some(w) => Some(CrsKind::WktHash(DefaultHasher::spec_finish(seq![w]))),
        None => match geo {
            Some(k) => geo_kind(k),
            None => None,
        },
    }
}

/// The declaration of a file.
pub fn crs_of_file(wkt: &Option<Vec<u8>>, geo: Option<GeoKeys>) -> (r: Option<CrsKind>)
    ensures
        r == file_kind(opt_bytes(*wkt), geo),
{
    match wkt {
        Some(w) => Some(CrsKind::WktHash(bytes_hash(w.as_slice()))),
        None => match geo {
            Some(k) => {
                let horizontal: Option<u16> = match k.model_type {
                    Some(m) => {
                        if m == 1 {
                            k.projected
                        } else if m == 2 || m == 3 {
                            k.geodetic
                        } else {
                            None
                        }
                    },
                    None => None,
                };
                match horizontal {
                    Some(h) => Some(CrsKind::GeoTiffEpsg(h, k.vertical)),
                    None => None,
                }
            },
            None => None,
        },
    }
}

} // verus!
