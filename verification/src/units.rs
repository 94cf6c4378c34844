//! Sizes and counts as people write them.

use crate::text::{decimal, decimal_text, push_text};
use vstd::prelude::*;
use vstd::string::StrSliceExecFns;

verus! {

/// Whether a character is white space in Unicode.
pub open spec fn is_white(c: char) -> bool {
    ||| '\u{9}' <= c <= '\u{d}'
    ||| c == '\u{20}'
    ||| c == '\u{85}'
    ||| c == '\u{a0}'
    ||| c == '\u{1680}'
    ||| '\u{2000}' <= c <= '\u{200a}'
    ||| c == '\u{2028}'
    ||| c == '\u{2029}'
    ||| c == '\u{202f}'
    ||| c == '\u{205f}'
    ||| c == '\u{3000}'
}

/// A text without white space at its end.
pub open spec fn trimmed_end(s: Seq<char>) -> Seq<char>
    decreases s.len(),
{
    if s.len() > 0 && is_white(s.last()) {
        trimmed_end(s.drop_last())
    } else {
        s
    }
}

/// A text without white space at its start.
pub open spec fn trimmed_start(s: Seq<char>) -> Seq<char>
    decreases s.len(),
{
    if s.len() > 0 && is_white(s[0]) {
        trimmed_start(s.drop_first())
    } else {
        s
    }
}

/// A text without white space at either end.
pub open spec fn trimmed(s: Seq<char>) -> Seq<char> {
    trimmed_start(trimmed_end(s))
}

fn white(c: char) -> (b: bool)
    ensures
        b == is_white(c),
{
    ('\u{9}' <= c && c <= '\u{d}') || c == '\u{20}' || c == '\u{85}' || c == '\u{a0}' || c
        == '\u{1680}' || ('\u{2000}' <= c && c <= '\u{200a}') || c == '\u{2028}' || c == '\u{2029}'
        || c == '\u{202f}' || c == '\u{205f}' || c == '\u{3000}'
}

/// A text without white space at either end.
pub fn trim(s: &str) -> (r: String)
    ensures
        r@ == trimmed(s@),
{
    let mut end: usize = s.unicode_len();
    assert(s@.take(end as int) =~= s@);
    while end > 0 && white(s.get_char(end - 1))
        invariant
            end <= s@.len(),
            trimmed_end(s@) == trimmed_end(s@.take(end as int)),
        decreases end,
    {
        assert(s@.take(end as int).drop_last() =~= s@.take(end - 1));
        end = end - 1;
    }
    let ghost t = s@.take(end as int);
    let mut start: usize = 0;
    assert(t.skip(0) =~= t);
    while start < end && white(s.get_char(start))
        invariant
            start <= end <= s@.len(),
            t == s@.take(end as int),
            trimmed_start(t) == trimmed_start(t.skip(start as int)),
        decreases end - start,
    {
        assert(t.skip(start as int).drop_first() =~= t.skip(start + 1));
        start = start + 1;
    }
    let r = s.substring_char(start, end).to_owned();
    assert(r@ =~= t.skip(start as int));
    r
}

/// Which of three numbers a suffix stands for.
pub open spec fn suffix_unit(c: char, giga: u64, mega: u64, kilo: u64) -> Option<u64> {
    if c == 'G' || c == 'g' {
        Some(giga)
    } else if c == 'M' || c == 'm' {
        Some(mega)
    } else if c == 'K' || c == 'k' {
        Some(kilo)
    } else {
        None
    }
}

/// The number part of a size and what it is multiplied with.
pub open spec fn size_parts(s: Seq<char>, giga: u64, mega: u64, kilo: u64) -> (Seq<char>, u64) {
    let t = trimmed(s);
    if t.len() == 0 {
        (t, 1)
    } else {
        match suffix_unit(t.last(), giga, mega, kilo) {
            Some(m) => (trimmed(t.drop_last()), m),
            None => (t, 1),
        }
    }
}

/// Splits a size into its number part and what it is multiplied with.
fn split_size(s: &str, giga: u64, mega: u64, kilo: u64) -> (r: (String, u64))
    ensures
        (r.0@, r.1) == size_parts(s@, giga, mega, kilo),
{
    let t = trim(s);
    let n: usize = t.as_str().unicode_len();
    if n == 0 {
        return (t, 1);
    }
    let c = t.as_str().get_char(n - 1);
    let unit: Option<u64> = if c == 'G' || c == 'g' {
        Some(giga)
    } else if c == 'M' || c == 'm' {
        Some(mega)
    } else if c == 'K' || c == 'k' {
        Some(kilo)
    } else {
        None
    };
    match unit {
        Some(m) => {
            let head = t.as_str().substring_char(0, n - 1);
            assert(head@ =~= t@.drop_last());
            (trim(head), m)
        },
        None => (t, 1),
    }
}

/// The number part of a memory size and what it is multiplied with: suffixes
/// are powers of 1024.
pub open spec fn memory_parts(s: Seq<char>) -> (Seq<char>, u64) {
    size_parts(s, 0x4000_0000, 0x10_0000, 0x400)
}

/// The number part of a count and what it is multiplied with: suffixes are
/// powers of 1000.
pub open spec fn count_parts(s: Seq<char>) -> (Seq<char>, u64) {
    size_parts(s, 1_000_000_000, 1_000_000, 1_000)
}

/// Parses a human-readable memory size ("16G", "4096M", "512k") into bytes.
/// `scale` parses the number part and multiplies it; where it refuses the
/// number part, the whole is refused.
pub fn parse_memory_limit<F: Fn(&str, u64) -> Option<u64>>(s: &str, scale: &F) -> (r: Option<u64>)
    requires
        forall|n: &str, m: u64| #[trigger] scale.requires((n, m)),
    ensures
        exists|n: &str| n@ == memory_parts(s@).0 && #[trigger] scale.ensures(
            (n, memory_parts(s@).1),
            r,
        ),
{
    let (num_part, multiplier) = split_size(s, 0x4000_0000, 0x10_0000, 0x400);
    let text = num_part.as_str();
    let r = scale(text, multiplier);
    assert(scale.ensures((text, memory_parts(s@).1), r));
    r
}

/// Parses a count ("10M", "1G", "500K", or a plain number). `scale` parses the
/// number part and multiplies it.
pub fn parse_count<F: Fn(&str, u64) -> Option<u64>>(s: &str, scale: &F) -> (r: Option<u64>)
    requires
        forall|n: &str, m: u64| #[trigger] scale.requires((n, m)),
    ensures
        exists|n: &str| n@ == count_parts(s@).0 && #[trigger] scale.ensures(
            (n, count_parts(s@).1),
            r,
        ),
{
    let (num_part, multiplier) = split_size(s, 1_000_000_000, 1_000_000, 1_000);
    let text = num_part.as_str();
    let r = scale(text, multiplier);
    assert(scale.ensures((text, count_parts(s@).1), r));
    r
}

/// A function that shows `n / divisor` with a number of decimals, the same text
/// each time.
pub open spec fn is_ratio_renderer<F: Fn(u64, u64, u32) -> String>(f: F) -> bool {
    &&& forall|n: u64, d: u64, p: u32| #[trigger] f.requires((n, d, p))
    &&& forall|n: u64, d: u64, p: u32, s: String, t: String|
        #[trigger] f.ensures((n, d, p), s) && #[trigger] f.ensures((n, d, p), t) ==> s@ == t@
}

/// The text that a renderer shows.
pub open spec fn ratio_str<F: Fn(u64, u64, u32) -> String>(
    f: F,
    n: u64,
    d: u64,
    p: u32,
) -> Seq<char> {
    (choose|s: String| #[trigger] f.ensures((n, d, p), s))@
}

/// A count with a unit: billions, millions or thousands where it is large
/// enough. `decimals` is the number of decimals of billions and millions.
pub open spec fn count_str<F: Fn(u64, u64, u32) -> String>(f: F, n: u64, decimals: u32) -> Seq<
    char,
> {
    if n >= 1_000_000_000 {
        ratio_str(f, n, 1_000_000_000, decimals) + "B"@
    } else if n >= 1_000_000 {
        ratio_str(f, n, 1_000_000, decimals) + "M"@
    } else if n >= 1_000 {
        ratio_str(f, n, 1_000, 1) + "K"@
    } else {
        decimal(n as nat)
    }
}

/// A count with a unit.
pub fn human_count<F: Fn(u64, u64, u32) -> String>(n: u64, decimals: u32, render: &F) -> (s:
    String)
    requires
        is_ratio_renderer(*render),
    ensures
        s@ == count_str(*render, n, decimals),
{
    if n >= 1_000_000_000 {
        let mut s = render(n, 1_000_000_000, decimals);
        push_text(&mut s, "B");
        s
    } else if n >= 1_000_000 {
        let mut s = render(n, 1_000_000, decimals);
        push_text(&mut s, "M");
        s
    } else if n >= 1_000 {
        let mut s = render(n, 1_000, 1);
        push_text(&mut s, "K");
        s
    } else {
        decimal_text(n)
    }
}

/// A number of bytes with a unit: gigabytes, megabytes or kilobytes.
pub open spec fn bytes_str<F: Fn(u64, u64, u32) -> String>(f: F, b: u64) -> Seq<char> {
    if b >= 0x4000_0000 {
        ratio_str(f, b, 0x4000_0000, 2) + " GB"@
    } else if b >= 0x10_0000 {
        ratio_str(f, b, 0x10_0000, 0) + " MB"@
    } else {
        ratio_str(f, b, 0x400, 0) + " KB"@
    }
}

/// A number of bytes with a unit.
pub fn human_bytes<F: Fn(u64, u64, u32) -> String>(b: u64, render: &F) -> (s: String)
    requires
        is_ratio_renderer(*render),
    ensures
        s@ == bytes_str(*render, b),
{
    if b >= 0x4000_0000 {
        let mut s = render(b, 0x4000_0000, 2);
        push_text(&mut s, " GB");
        s
    } else if b >= 0x10_0000 {
        let mut s = render(b, 0x10_0000, 0);
        push_text(&mut s, " MB");
        s
    } else {
        let mut s = render(b, 0x400, 0);
        push_text(&mut s, " KB");
        s
    }
}

/// A number of bytes in a short line: gigabytes with one decimal, or megabytes.
pub open spec fn short_bytes_str<F: Fn(u64, u64, u32) -> String>(f: F, b: u64) -> Seq<char> {
    if b >= 0x4000_0000 {
        ratio_str(f, b, 0x4000_0000, 1) + " GB"@
    } else {
        ratio_str(f, b, 0x10_0000, 0) + " MB"@
    }
}

/// A number of bytes in a short line.
pub fn short_bytes<F: Fn(u64, u64, u32) -> String>(b: u64, render: &F) -> (s: String)
    requires
        is_ratio_renderer(*render),
    ensures
        s@ == short_bytes_str(*render, b),
{
    if b >= 0x4000_0000 {
        let mut s = render(b, 0x4000_0000, 1);
        push_text(&mut s, " GB");
        s
    } else {
        let mut s = render(b, 0x10_0000, 0);
        push_text(&mut s, " MB");
        s
    }
}

} // verus!
