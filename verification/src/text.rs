//! Text: numbers in decimal and binary, and the parts of std's text handling
//! that messages and names need.

use vstd::prelude::*;
use vstd::utf8::{decode_utf8, valid_utf8};

verus! {

/// `String::push`: appends one character.
pub assume_specification[ String::push ](s: &mut String, c: char)
    ensures
        final(s)@ == old(s)@.push(c),
;

/// A text as std's `Debug` shows it: in quotes, with escapes.
pub uninterp spec fn quoted(s: Seq<char>) -> Seq<char>;

/// Calls std's formatting of a `str` with `{:?}`. What it returns is a function
/// of the text; which characters it escapes is left to std.
#[verifier::external_body]
pub(crate) fn quote(s: &str) -> (r: String)
    ensures
        r@ == quoted(s@),
{
    format!("{s:?}")
}

/// Calls `std::str::from_utf8`: the text that the bytes encode, or nothing where
/// they are not valid UTF-8.
#[verifier::external_body]
pub(crate) fn text_of_utf8(bytes: &[u8]) -> (r: Option<String>)
    ensures
        match r {
            Some(s) => valid_utf8(bytes@) && s@ == decode_utf8(bytes@),
            None => !valid_utf8(bytes@),
        },
{
    match std::str::from_utf8(bytes) {
        Ok(s) => Some(s.to_owned()),
        Err(_) => None,
    }
}

/// The character of a decimal digit.
pub open spec fn digit(d: nat) -> char {
    if d == 0 {
        '0'
    } else if d == 1 {
        '1'
    } else if d == 2 {
        '2'
    } else if d == 3 {
        '3'
    } else if d == 4 {
        '4'
    } else if d == 5 {
        '5'
    } else if d == 6 {
        '6'
    } else if d == 7 {
        '7'
    } else if d == 8 {
        '8'
    } else {
        '9'
    }
}

/// A number in decimal, without leading zeros.
pub open spec fn decimal(n: nat) -> Seq<char>
    decreases n,
{
    if n < 10 {
        seq![digit(n)]
    } else {
        decimal(n / 10).push(digit(n % 10))
    }
}

/// A number in decimal, with a minus sign where it is negative.
pub open spec fn signed_decimal(n: int) -> Seq<char> {
    if n < 0 {
        seq!['-'] + decimal((-n) as nat)
    } else {
        decimal(n as nat)
    }
}

/// The low `width` bits of a number, the highest first.
pub open spec fn binary(n: nat, width: nat) -> Seq<char>
    decreases width,
{
    if width == 0 {
        Seq::empty()
    } else {
        binary(n / 2, (width - 1) as nat).push(
            if n % 2 == 1 {
                '1'
            } else {
                '0'
            },
        )
    }
}

fn digit_char(d: u64) -> (c: char)
    requires
        d < 10,
    ensures
        c == digit(d as nat),
{
    if d == 0 {
        '0'
    } else if d == 1 {
        '1'
    } else if d == 2 {
        '2'
    } else if d == 3 {
        '3'
    } else if d == 4 {
        '4'
    } else if d == 5 {
        '5'
    } else if d == 6 {
        '6'
    } else if d == 7 {
        '7'
    } else if d == 8 {
        '8'
    } else {
        '9'
    }
}

/// Appends a number in decimal.
pub fn push_decimal(out: &mut String, n: u64)
    ensures
        final(out)@ == old(out)@ + decimal(n as nat),
    decreases n,
{
    if n >= 10 {
        push_decimal(out, n / 10);
    }
    out.push(digit_char(n % 10));
    assert(out@ =~= old(out)@ + decimal(n as nat));
}

/// Appends a number in decimal, with a minus sign where it is negative.
pub fn push_signed(out: &mut String, n: i64)
    ensures
        final(out)@ == old(out)@ + signed_decimal(n as int),
{
    if n < 0 {
        out.push('-');
        let m: u64 = if n == i64::MIN {
            0x8000_0000_0000_0000
        } else {
            (-n) as u64
        };
        push_decimal(out, m);
        assert(out@ =~= old(out)@ + signed_decimal(n as int));
    } else {
        push_decimal(out, n as u64);
    }
}

/// Appends the low `width` bits of a number.
pub fn push_binary(out: &mut String, n: u64, width: usize)
    ensures
        final(out)@ == old(out)@ + binary(n as nat, width as nat),
    decreases width,
{
    if width > 0 {
        push_binary(out, n / 2, width - 1);
        out.push(
            if n % 2 == 1 {
                '1'
            } else {
                '0'
            },
        );
    }
    assert(out@ =~= old(out)@ + binary(n as nat, width as nat));
}

/// Appends a text.
pub fn push_text(out: &mut String, s: &str)
    ensures
        final(out)@ == old(out)@ + s@,
{
    out.append(s);
}

/// A number in decimal.
pub fn decimal_text(n: u64) -> (s: String)
    ensures
        s@ == decimal(n as nat),
{
    let mut s = String::new();
    push_decimal(&mut s, n);
    assert(s@ =~= decimal(n as nat));
    s
}

/// Texts with a separator between them.
pub open spec fn joined(parts: Seq<Seq<char>>, sep: Seq<char>) -> Seq<char>
    decreases parts.len(),
{
    if parts.len() == 0 {
        Seq::empty()
    } else if parts.len() == 1 {
        parts[0]
    } else {
        joined(parts.drop_last(), sep) + sep + parts.last()
    }
}

/// The views of several texts.
pub open spec fn text_views(v: Seq<String>) -> Seq<Seq<char>> {
    v.map_values(|s: String| s@)
}

/// Joins texts with a separator between them.
pub fn join(parts: &Vec<String>, sep: &str) -> (r: String)
    ensures
        r@ == joined(text_views(parts@), sep@),
{
    let ghost views = text_views(parts@);
    let mut r = String::new();
    let mut i: usize = 0;
    assert(views.take(0) =~= Seq::<Seq<char>>::empty());
    assert(r@ =~= joined(views.take(0), sep@));
    while i < parts.len()
        invariant
            i <= parts@.len(),
            views == text_views(parts@),
            r@ == joined(views.take(i as int), sep@),
        decreases parts@.len() - i,
    {
        let ghost before = r@;
        proof {
            assert(views.take(i + 1).drop_last() =~= views.take(i as int));
            assert(views.take(i + 1).last() == parts@[i as int]@);
        }
        if i > 0 {
            push_text(&mut r, sep);
        }
        push_text(&mut r, parts[i].as_str());
        assert(r@ =~= joined(views.take(i + 1), sep@));
        i = i + 1;
    }
    assert(views.take(i as int) =~= views);
    r
}

/// A text holds none of the character `c`.
pub open spec fn lacks(s: Seq<char>, c: char) -> bool {
    forall|i: int| 0 <= i < s.len() ==> #[trigger] s[i] != c
}

/// A decimal number holds digits only, at least one, and no leading zero unless
/// it is zero.
pub proof fn lemma_decimal(n: nat)
    ensures
        decimal(n).len() > 0,
        lacks(decimal(n), '_'),
        lacks(decimal(n), '-'),
    decreases n,
{
    if n >= 10 {
        lemma_decimal(n / 10);
        let d = decimal(n / 10);
        assert forall|i: int| 0 <= i < decimal(n).len() implies #[trigger] decimal(n)[i] != '_'
            && decimal(n)[i] != '-' by {
            if i < d.len() {
                assert(decimal(n)[i] == d[i]);
            }
        }
    }
}

/// Different numbers have different digits.
pub proof fn lemma_decimal_injective(a: nat, b: nat)
    requires
        decimal(a) == decimal(b),
    ensures
        a == b,
    decreases a,
{
    lemma_decimal(a / 10);
    lemma_decimal(b / 10);
    if a >= 10 && b >= 10 {
        assert(decimal(a).drop_last() =~= decimal(a / 10));
        assert(decimal(b).drop_last() =~= decimal(b / 10));
        lemma_decimal_injective(a / 10, b / 10);
        assert(decimal(a).last() == digit(a % 10));
        assert(decimal(b).last() == digit(b % 10));
    } else if a >= 10 {
        assert(decimal(a).len() >= 2);
        assert(decimal(b).len() == 1);
    } else if b >= 10 {
        assert(decimal(b).len() >= 2);
        assert(decimal(a).len() == 1);
    } else {
        assert(decimal(a)[0] == digit(a));
        assert(decimal(b)[0] == digit(b));
    }
}

/// Different numbers are written differently, and never with an underscore.
pub proof fn lemma_signed_decimal(a: int, b: int)
    ensures
        lacks(signed_decimal(a), '_'),
        signed_decimal(a) == signed_decimal(b) ==> a == b,
{
    lemma_decimal(if a < 0 {
        (-a) as nat
    } else {
        a as nat
    });
    lemma_decimal(if b < 0 {
        (-b) as nat
    } else {
        b as nat
    });
    if signed_decimal(a) == signed_decimal(b) {
        let s = signed_decimal(a);
        if a < 0 && b < 0 {
            assert(s.skip(1) =~= decimal((-a) as nat));
            assert(s.skip(1) =~= decimal((-b) as nat));
            lemma_decimal_injective((-a) as nat, (-b) as nat);
        } else if a < 0 {
            assert(s[0] == '-');
            assert(decimal(b as nat)[0] != '-');
        } else if b < 0 {
            assert(s[0] == '-');
            assert(decimal(a as nat)[0] != '-');
        } else {
            lemma_decimal_injective(a as nat, b as nat);
        }
    }
}

/// Where texts without a separator are put before it, they can be told apart.
pub proof fn lemma_split_unique(
    a: Seq<char>,
    b: Seq<char>,
    s: Seq<char>,
    t: Seq<char>,
    sep: char,
)
    requires
        lacks(a, sep),
        lacks(b, sep),
        a + seq![sep] + s == b + seq![sep] + t,
    ensures
        a == b,
        s == t,
{
    let all = a + seq![sep] + s;
    let also = b + seq![sep] + t;
    assert(all[a.len() as int] == sep);
    assert(also[b.len() as int] == sep);
    if a.len() < b.len() {
        assert(also[a.len() as int] == b[a.len() as int]);
    } else if b.len() < a.len() {
        assert(all[b.len() as int] == a[b.len() as int]);
    }
    assert(a =~= b) by {
        assert forall|i: int| 0 <= i < a.len() implies a[i] == b[i] by {
            assert(all[i] == a[i]);
            assert(also[i] == b[i]);
        }
    }
    assert(a.len() == b.len());
    assert(s.len() == t.len()) by {
        assert(all.len() == a.len() + 1 + s.len());
        assert(also.len() == b.len() + 1 + t.len());
    }
    assert(s =~= t) by {
        assert forall|i: int| 0 <= i < s.len() implies s[i] == t[i] by {
            assert(all[a.len() + 1 + i] == s[i]);
            assert(also[b.len() + 1 + i] == t[i]);
        }
    }
}

} // verus!
