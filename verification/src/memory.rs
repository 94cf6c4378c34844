//! How much memory the machine lets the converter use.

use crate::units::{trim, trimmed};
use vstd::prelude::*;
use vstd::string::StrSliceExecFns;

verus! {

/// Limits at or above this number stand for no limit.
pub const UNLIMITED: u64 = 0x7FFF_FFFF_FFFF_F000;

/// What is assumed where nothing can be found out: 16 GB.
pub const DEFAULT_MEMORY: u64 = 0x4_0000_0000;

/// The value of a decimal digit.
pub open spec fn digit_value(c: char) -> Option<nat> {
    if '0' <= c <= '9' {
        Some((c as u32 - '0' as u32) as nat)
    } else {
        None
    }
}

/// The number that a text of digits stands for.
pub open spec fn digits_value(s: Seq<char>) -> Option<nat>
    decreases s.len(),
{
    if s.len() == 0 {
        Some(0)
    } else {
        match (digits_value(s.drop_last()), digit_value(s.last())) {
            (Some(v), Some(d)) => Some(10 * v + d),
            _ => None,
        }
    }
}

/// The number that a text stands for: digits, with an optional plus sign before
/// them, whose number fits 64 bits.
pub open spec fn number_in(s: Seq<char>) -> Option<u64> {
    let t = if s.len() > 0 && s[0] == '+' {
        s.drop_first()
    } else {
        s
    };
    if t.len() == 0 {
        None
    } else {
        match digits_value(t) {
            Some(v) => {
                if v <= u64::MAX {
                    Some(v as u64)
                } else {
                    None
                }
            },
            None => None,
        }
    }
}

/// Longer digits mean larger numbers.
proof fn lemma_digits_prefix(s: Seq<char>, n: int)
    requires
        0 <= n <= s.len(),
    ensures
        digits_value(s) is Some ==> digits_value(s.take(n)) is Some && digits_value(s.take(n))->0
            <= digits_value(s)->0,
    decreases s.len() - n,
{
    if n < s.len() {
        lemma_digits_prefix(s, n + 1);
        assert(s.take(n + 1).drop_last() =~= s.take(n));
    } else {
        assert(s.take(n) =~= s);
    }
}

/// The characters of a text.
pub fn chars_of(s: &str) -> (v: Vec<char>)
    ensures
        v@ == s@,
{
    let n: usize = s.unicode_len();
    let mut v: Vec<char> = Vec::new();
    let mut i: usize = 0;
    while i < n
        invariant
            n == s@.len(),
            i <= n,
            v@ =~= s@.take(i as int),
        decreases n - i,
    {
        v.push(s.get_char(i));
        i = i + 1;
    }
    assert(s@.take(i as int) =~= s@);
    v
}

/// The number that a text stands for.
pub fn parse_number(s: &str) -> (r: Option<u64>)
    ensures
        r == number_in(s@),
{
    let v = chars_of(s);
    let mut i: usize = 0;
    if v.len() > 0 && v[0] == '+' {
        i = 1;
    }
    let ghost t = s@.skip(i as int);
    let start: usize = i;
    assert(i == 1 ==> t =~= s@.drop_first());
    assert(i == 0 ==> t =~= s@);
    if i == v.len() {
        return None;
    }
    let mut n: u64 = 0;
    assert(t.take(0) =~= Seq::<char>::empty());
    while i < v.len()
        invariant
            v@ == s@,
            start <= i <= v@.len(),
            t == s@.skip(start as int),
            number_in(s@) == (match digits_value(t) {
                Some(x) => if x <= u64::MAX {
                    Some(x as u64)
                } else {
                    None
                },
                None => None,
            }),
            digits_value(t.take(i - start)) == Some(n as nat),
        decreases v@.len() - i,
    {
        let c = v[i];
        proof {
            let next = t.take(i - start + 1);
            assert(next.drop_last() =~= t.take(i - start));
            assert(next.last() == c);
            lemma_digits_prefix(t, i - start + 1);
        }
        if !('0' <= c && c <= '9') {
            return None;
        }
        let d: u64 = c as u64 - '0' as u64;
        if n > 1844674407370955161 || (n == 1844674407370955161 && d > 5) {
            return None;
        }
        n = n * 10 + d;
        i = i + 1;
    }
    assert(t.take(i - start) =~= t);
    Some(n)
}

/// The limit that the newer control groups give: none for the word "max", or
/// where there is no number.
pub open spec fn group_limit(text: Seq<char>) -> Option<u64> {
    if trimmed(text) == "max"@ {
        None
    } else {
        number_in(trimmed(text))
    }
}

/// The limit that the older control groups give: none where it is a huge number.
pub open spec fn old_group_limit(text: Seq<char>) -> Option<u64> {
    match number_in(trimmed(text)) {
        Some(v) => if v < UNLIMITED {
            Some(v)
        } else {
            None
        },
        None => None,
    }
}

/// Where the line that starts at `from` ends.
pub open spec fn line_end(s: Seq<char>, from: int) -> int
    decreases s.len() - from,
{
    if from < 0 || from >= s.len() || s[from] == '\n' {
        from
    } else {
        line_end(s, from + 1)
    }
}

/// A text without the unit " kB" at its end.
pub open spec fn without_unit(s: Seq<char>) -> Seq<char>
    decreases s.len(),
{
    if s.len() >= 3 && s[s.len() - 3] == ' ' && s[s.len() - 2] == 'k' && s[s.len() - 1] == 'B' {
        without_unit(s.take(s.len() - 3))
    } else {
        s
    }
}

/// Whether a line gives the total memory.
pub open spec fn is_total_line(line: Seq<char>) -> bool {
    line.len() >= 9 && line.take(9) == seq!['M', 'e', 'm', 'T', 'o', 't', 'a', 'l', ':']
}

/// The number of kilobytes that a line of memory information gives.
pub open spec fn line_total(line: Seq<char>) -> Option<u64> {
    if is_total_line(line) {
        number_in(trimmed(without_unit(trimmed(line.skip(9)))))
    } else {
        None
    }
}

/// The total number of kilobytes that memory information gives, in the lines
/// from `from` on.
pub open spec fn total_kilobytes(s: Seq<char>, from: int) -> Option<u64>
    decreases s.len() - from,
{
    if from < 0 || from >= s.len() {
        None
    } else {
        let end = line_end(s, from);
        match line_total(s.subrange(from, end)) {
            Some(kb) => Some(kb),
            None => if end < from || end >= s.len() {
                None
            } else {
                total_kilobytes(s, end + 1)
            },
        }
    }
}

/// The limit that the newer control groups give.
pub fn parse_group_limit(text: &str) -> (r: Option<u64>)
    ensures
        r == group_limit(text@),
{
    let t = trim(text);
    let word = "max".to_owned();
    if t == word {
        None
    } else {
        parse_number(t.as_str())
    }
}

/// The limit that the older control groups give.
pub fn parse_old_group_limit(text: &str) -> (r: Option<u64>)
    ensures
        r == old_group_limit(text@),
{
    let t = trim(text);
    match parse_number(t.as_str()) {
        Some(v) => {
            if v < UNLIMITED {
                Some(v)
            } else {
                None
            }
        },
        None => None,
    }
}

/// Whether a line gives the total memory.
fn starts_total(v: &Vec<char>) -> (b: bool)
    ensures
        b == is_total_line(v@),
{
    let want: [char; 9] = ['M', 'e', 'm', 'T', 'o', 't', 'a', 'l', ':'];
    assert(want@ =~= seq!['M', 'e', 'm', 'T', 'o', 't', 'a', 'l', ':']);
    if v.len() < 9 {
        return false;
    }
    let mut i: usize = 0;
    while i < 9
        invariant
            i <= 9 <= v@.len(),
            want@ == seq!['M', 'e', 'm', 'T', 'o', 't', 'a', 'l', ':'],
            forall|k: int| 0 <= k < i ==> v@[k] == #[trigger] want@[k],
        decreases 9 - i,
    {
        if v[i] != want[i] {
            assert(v@.take(9)[i as int] != want@[i as int]);
            return false;
        }
        i = i + 1;
    }
    assert(v@.take(9) =~= want@);
    true
}

/// The number of kilobytes that a line of memory information gives.
fn parse_line(line: &str) -> (r: Option<u64>)
    ensures
        r == line_total(line@),
{
    let v = chars_of(line);
    if !starts_total(&v) {
        return None;
    }
    let rest = line.substring_char(9, v.len());
    assert(rest@ =~= line@.skip(9));
    let t = trim(rest);
    let w = chars_of(t.as_str());
    let mut n: usize = w.len();
    assert(t@.take(n as int) =~= t@);
    while n >= 3 && w[n - 3] == ' ' && w[n - 2] == 'k' && w[n - 1] == 'B'
        invariant
            w@ == t@,
            n <= t@.len(),
            without_unit(t@) == without_unit(t@.take(n as int)),
        decreases n,
    {
        assert(t@.take(n as int).take(n - 3) =~= t@.take(n - 3));
        n = n - 3;
    }
    let bare = t.as_str().substring_char(0, n);
    assert(bare@ =~= t@.take(n as int));
    let number = trim(bare);
    parse_number(number.as_str())
}

/// The total number of kilobytes that memory information gives.
pub fn parse_meminfo(text: &str) -> (r: Option<u64>)
    ensures
        r == total_kilobytes(text@, 0),
{
    let v = chars_of(text);
    let n: usize = v.len();
    let mut from: usize = 0;
    while from < n
        invariant
            v@ == text@,
            n == v@.len(),
            from <= n,
            total_kilobytes(text@, 0) == total_kilobytes(text@, from as int),
        decreases n - from,
    {
        let mut end: usize = from;
        while end < n && v[end] != '\n'
            invariant
                v@ == text@,
                n == v@.len(),
                from <= end <= n,
                line_end(text@, from as int) == line_end(text@, end as int),
            decreases n - end,
        {
            end = end + 1;
        }
        assert(line_end(text@, from as int) == end);
        let line = text.substring_char(from, end);
        match parse_line(line) {
            Some(kb) => {
                return Some(kb);
            },
            None => {},
        }
        if end >= n {
            return None;
        }
        from = end + 1;
    }
    None
}

/// The memory that the machine lets the converter use: the limit of its control
/// group, newer ones before older ones; else the total memory of the machine, as
/// the memory information gives it or the system does; else a default.
pub open spec fn available_memory(
    group: Option<Seq<char>>,
    old_group: Option<Seq<char>>,
    meminfo: Option<Seq<char>>,
    system: Option<u64>,
) -> nat {
    let first = match group {
        Some(t) => group_limit(t),
        None => None,
    };
    let second = match old_group {
        Some(t) => old_group_limit(t),
        None => None,
    };
    let third = match meminfo {
        Some(t) => total_kilobytes(t, 0),
        None => None,
    };
    match (first, second, third, system) {
        (Some(v), _, _, _) => v as nat,
        (None, Some(v), _, _) => v as nat,
        (None, None, Some(kb), _) => kb as nat * 1024,
        (None, None, None, Some(v)) => v as nat,
        (None, None, None, None) => DEFAULT_MEMORY as nat,
    }
}

/// The view of an optional text.
pub open spec fn opt_text(s: Option<String>) -> Option<Seq<char>> {
    match s {
        Some(t) => Some(t@),
        None => None,
    }
}

/// Detects the available memory. `group`, `old_group` and `meminfo` are what the
/// files of that kind hold, as far as they can be read; `system` is what the
/// operating system says of its memory, as far as it can be asked.
pub fn detect_available_memory(
    group: &Option<String>,
    old_group: &Option<String>,
    meminfo: &Option<String>,
    system: Option<u64>,
) -> (n: u64)
    requires
        available_memory(opt_text(*group), opt_text(*old_group), opt_text(*meminfo), system)
            <= u64::MAX,
    ensures
        n == available_memory(
            opt_text(*group),
            opt_text(*old_group),
            opt_text(*meminfo),
            system,
        ),
{
    let first: Option<u64> = match group {
        Some(t) => parse_group_limit(t.as_str()),
        None => None,
    };
    if let Some(v) = first {
        return v;
    }
    let second: Option<u64> = match old_group {
        Some(t) => parse_old_group_limit(t.as_str()),
        None => None,
    };
    if let Some(v) = second {
        return v;
    }
    let third: Option<u64> = match meminfo {
        Some(t) => parse_meminfo(t.as_str()),
        None => None,
    };
    if let Some(kb) = third {
        return kb * 1024;
    }
    match system {
        Some(v) => v,
        None => DEFAULT_MEMORY,
    }
}

} // verus!
