//! Building, comparing and searching text.

use vstd::prelude::*;
use vstd::string::{StrSliceExecFns, StringExecFns};

verus! {

/// A decimal digit.
pub open spec fn digit_text(d: nat) -> Seq<char> {
    seq![(('0' as u32) + d) as char]
}

/// A number in decimal, without leading zeros.
pub open spec fn decimal_text(n: nat) -> Seq<char>
    decreases n,
{
    if n < 10 {
        digit_text(n)
    } else {
        decimal_text(n / 10) + digit_text(n % 10)
    }
}

/// A number in decimal, with a leading zero where it has a single digit.
pub open spec fn two_digit_text(n: nat) -> Seq<char> {
    if n < 10 {
        digit_text(0) + digit_text(n)
    } else {
        decimal_text(n)
    }
}

/// `needle` occurs in `text`.
pub open spec fn contains_text(text: Seq<char>, needle: Seq<char>) -> bool {
    exists|i: int|
        0 <= i <= text.len() - needle.len() && #[trigger] text.subrange(i, i + needle.len())
            == needle
}

/// `a` comes before `b` in lexicographic order of code points.
pub open spec fn text_less(a: Seq<char>, b: Seq<char>) -> bool
    decreases a.len(),
{
    if b.len() == 0 {
        false
    } else if a.len() == 0 {
        true
    } else if a[0] != b[0] {
        a[0] < b[0]
    } else {
        text_less(a.drop_first(), b.drop_first())
    }
}

fn digit(d: u64) -> (r: &'static str)
    requires
        d < 10,
    ensures
        r@ == digit_text(d as nat),
{
    proof {
        reveal_strlit("0");
        reveal_strlit("1");
        reveal_strlit("2");
        reveal_strlit("3");
        reveal_strlit("4");
        reveal_strlit("5");
        reveal_strlit("6");
        reveal_strlit("7");
        reveal_strlit("8");
        reveal_strlit("9");
    }
    let r = match d {
        0 => "0",
        1 => "1",
        2 => "2",
        3 => "3",
        4 => "4",
        5 => "5",
        6 => "6",
        7 => "7",
        8 => "8",
        _ => "9",
    };
    proof {
        assert(r@ =~= digit_text(d as nat));
    }
    r
}

/// A number in decimal.
pub fn decimal(n: u64) -> (r: String)
    ensures
        r@ == decimal_text(n as nat),
    decreases n,
{
    if n < 10 {
        digit(n).to_owned()
    } else {
        let mut r = decimal(n / 10);
        r.append(digit(n % 10));
        r
    }
}

/// A number in decimal, of at least two digits.
pub fn two_digits(n: u32) -> (r: String)
    ensures
        r@ == two_digit_text(n as nat),
{
    if n < 10 {
        let mut r = digit(0).to_owned();
        r.append(digit(n as u64));
        r
    } else {
        decimal(n as u64)
    }
}

/// Three pieces of text, one after the other.
pub fn join_three(a: &str, b: &str, c: &str) -> (r: String)
    ensures
        r@ == a@ + b@ + c@,
{
    let mut r = a.to_owned();
    r.append(b);
    r.append(c);
    r
}

/// Whether two texts are the same.
pub fn is_same_text(a: &String, b: &str) -> (r: bool)
    ensures
        r == (a@ == b@),
{
    *a == b.to_owned()
}

/// Whether `needle` stands in `text` from the character numbered `from` on.
fn stands_at(text: &str, needle: &str, from: usize) -> (r: bool)
    requires
        from + needle@.len() <= text@.len() <= usize::MAX,
    ensures
        r == (text@.subrange(from as int, from + needle@.len()) == needle@),
{
    let ghost piece = text@.subrange(from as int, from + needle@.len());
    let length: usize = needle.unicode_len();
    for k in 0..length
        invariant
            length == needle@.len(),
            from + length <= text@.len() <= usize::MAX,
            piece == text@.subrange(from as int, from + needle@.len()),
            forall|i: int| 0 <= i < k ==> piece[i] == needle@[i],
    {
        if text.get_char(from + k) != needle.get_char(k) {
            proof {
                assert(piece[k as int] != needle@[k as int]);
            }
            return false;
        }
    }
    proof {
        assert(piece =~= needle@);
    }
    true
}

/// Whether `needle` occurs in `text`.
pub fn text_contains(text: &str, needle: &str) -> (r: bool)
    ensures
        r == contains_text(text@, needle@),
{
    let length: usize = text.unicode_len();
    let wanted: usize = needle.unicode_len();
    if wanted > length {
        return false;
    }
    let last: usize = length - wanted;
    let mut from: usize = 0;
    while from < last
        invariant
            length == text@.len(),
            wanted == needle@.len(),
            last == length - wanted,
            from <= last,
            forall|i: int|
                0 <= i < from ==> #[trigger] text@.subrange(i, i + needle@.len()) != needle@,
        decreases last - from,
    {
        if stands_at(text, needle, from) {
            return true;
        }
        from = from + 1;
    }
    stands_at(text, needle, last)
}

/// Whether `a` comes before `b` in lexicographic order of code points.
pub fn text_is_less(a: &str, b: &str) -> (r: bool)
    ensures
        r == text_less(a@, b@),
{
    let a_len: usize = a.unicode_len();
    let b_len: usize = b.unicode_len();
    let mut i: usize = 0;
    proof {
        assert(a@.skip(0) =~= a@);
        assert(b@.skip(0) =~= b@);
    }
    while i < a_len && i < b_len
        invariant
            a_len == a@.len(),
            b_len == b@.len(),
            i <= a_len,
            i <= b_len,
            text_less(a@, b@) == text_less(a@.skip(i as int), b@.skip(i as int)),
        decreases a_len - i,
    {
        let x = a.get_char(i);
        let y = b.get_char(i);
        if x != y {
            return x < y;
        }
        proof {
            assert(a@.skip(i as int).drop_first() =~= a@.skip(i + 1));
            assert(b@.skip(i as int).drop_first() =~= b@.skip(i + 1));
        }
        i = i + 1;
    }
    i < b_len
}

/// How the `Debug` form of a string reads, quotes and escapes included.
pub uninterp spec fn quoted_text(text: Seq<char>) -> Seq<char>;

/// The `Debug` form of a string, by std's `format!`. It depends on the string alone.
#[verifier::external_body]
pub(crate) fn quoted(text: &str) -> (r: String)
    ensures
        r@ == quoted_text(text@),
{
    format!("{text:?}")
}

/// A count of some unit of time, such as `2days`; nothing where the count is 0. Long units have a
/// plural.
pub open spec fn unit_text(count: u64, unit: Seq<char>, is_long: bool) -> Seq<char> {
    if count == 0 {
        Seq::empty()
    } else {
        decimal_text(count as nat) + unit + if is_long && count > 1 {
            "s"@
        } else {
            Seq::empty()
        }
    }
}

/// Two pieces of text with a space between them, or the one that is not empty.
pub open spec fn spaced(a: Seq<char>, b: Seq<char>) -> Seq<char> {
    if a.len() == 0 {
        b
    } else if b.len() == 0 {
        a
    } else {
        a + " "@ + b
    }
}

/// A number of seconds for people to read, such as `1day 1h`. A year has 365.25 days, and a month
/// 30.44.
pub open spec fn duration_text(secs: u64) -> Seq<char> {
    let in_year = secs % 31_557_600;
    let in_month = in_year % 2_630_016;
    let in_day = in_month % 86_400;
    let years = unit_text(secs / 31_557_600, "year"@, true);
    let months = unit_text(in_year / 2_630_016, "month"@, true);
    let days = unit_text(in_month / 86_400, "day"@, true);
    let hours = unit_text(in_day / 3_600, "h"@, false);
    let minutes = unit_text(in_day % 3_600 / 60, "m"@, false);
    let seconds = unit_text(in_day % 60, "s"@, false);
    if secs == 0 {
        "0s"@
    } else {
        spaced(spaced(spaced(spaced(spaced(years, months), days), hours), minutes), seconds)
    }
}

/// A number of seconds for people to read, by `humantime::format_duration`: the counts of years,
/// months, days, hours, minutes and seconds that are not 0, with spaces between them.
#[verifier::external_body]
pub(crate) fn duration(secs: u64) -> (r: String)
    ensures
        r@ == duration_text(secs),
{
    humantime::format_duration(std::time::Duration::from_secs(secs)).to_string()
}

/// Text is totally ordered: of two different texts exactly one comes before the other, and where
/// one does, a third follows the first or comes before the second.
pub proof fn law_text_order(a: Seq<char>, b: Seq<char>, c: Seq<char>)
    ensures
        text_less(a, b) ==> !text_less(b, a),
        a != b ==> text_less(a, b) || text_less(b, a),
        text_less(a, b) ==> text_less(a, c) || text_less(c, b),
    decreases a.len(),
{
    if a.len() > 0 && b.len() > 0 && a[0] == b[0] {
        if c.len() > 0 {
            law_text_order(a.drop_first(), b.drop_first(), c.drop_first());
        } else {
            law_text_order(a.drop_first(), b.drop_first(), c);
        }
        if a != b && a.drop_first() == b.drop_first() {
            assert(a =~= seq![a[0]] + a.drop_first());
            assert(b =~= seq![b[0]] + b.drop_first());
        }
    }
    if a.len() == 0 && b.len() == 0 {
        assert(a =~= b);
    }
}

/// Where two texts agree up to some place, the characters in that place decide which comes first;
/// and a text comes before every longer one that it begins.
pub proof fn law_first_difference_decides(
    start: Seq<char>,
    x: char,
    y: char,
    a: Seq<char>,
    b: Seq<char>,
)
    requires
        x != y,
    ensures
        text_less(start + seq![x] + a, start + seq![y] + b) <==> (x as u32) < (y as u32),
        text_less(start, start + seq![x] + a),
        !text_less(start + seq![x] + a, start),
        !text_less(start, start),
    decreases start.len(),
{
    let p = start + seq![x] + a;
    let q = start + seq![y] + b;
    if start.len() == 0 {
        assert(p[0] == x && q[0] == y);
    } else {
        let rest = start.drop_first();
        law_first_difference_decides(rest, x, y, a, b);
        assert(p.drop_first() =~= rest + seq![x] + a);
        assert(q.drop_first() =~= rest + seq![y] + b);
        assert(p[0] == start[0] && q[0] == start[0]);
    }
}

/// A text occurs in another exactly where the other is the text with something before and after it.
pub proof fn law_occurs_between_what_surrounds_it(text: Seq<char>, needle: Seq<char>)
    ensures
        contains_text(text, needle) <==> exists|before: Seq<char>, after: Seq<char>|
            #[trigger] (before + needle + after) == text,
{
    if contains_text(text, needle) {
        let i = choose|i: int|
            0 <= i <= text.len() - needle.len() && #[trigger] text.subrange(i, i + needle.len())
                == needle;
        let before = text.take(i);
        let after = text.skip(i + needle.len());
        assert(before + needle + after =~= text) by {
            assert forall|k: int| i <= k < i + needle.len() implies #[trigger] text[k] == needle[k
                - i] by {
                assert(text.subrange(i, i + needle.len())[k - i] == text[k]);
            }
        }
    }
    if exists|before: Seq<char>, after: Seq<char>| #[trigger] (before + needle + after) == text {
        let (before, after) = choose|before: Seq<char>, after: Seq<char>|
            #[trigger] (before + needle + after) == text;
        let i = before.len() as int;
        assert(text.subrange(i, i + needle.len()) =~= needle);
    }
}

/// A number reads as the number without its last digit, followed by that digit; a single digit reads
/// as itself.
pub proof fn law_digits_follow_each_other(n: nat, d: nat)
    requires
        d < 10,
    ensures
        decimal_text(d) == seq![(48 + d) as char],
        n > 0 ==> decimal_text(10 * n + d) == decimal_text(n).push((48 + d) as char),
        two_digit_text(d) == seq!['0', (48 + d) as char],
        n > 0 ==> two_digit_text(10 * n + d) == decimal_text(10 * n + d),
{
    assert((10 * n + d) / 10 == n && (10 * n + d) % 10 == d);
    assert(two_digit_text(d) =~= seq!['0', (48 + d) as char]);
    if n > 0 {
        assert(decimal_text(10 * n + d) =~= decimal_text(n).push((48 + d) as char));
    }
}

} // verus!
