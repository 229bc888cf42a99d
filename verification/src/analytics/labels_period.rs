//! Labels of comparison periods: `13 мар-19 мар` for weeks and custom spans,
//! `мар 2026` for months, `2026` for years.
use vstd::prelude::*;
use crate::analytics::types::AnalyticsTrendMode;
use crate::text::{concat2, concat3};
use vstd::utf8::{encode_utf8, decode_utf8, is_char_boundary, pop_first_scalar};

verus! {

/// The short Russian name of month `k` (0 for January).
pub open spec fn short_month(k: int) -> Seq<char> {
    if k == 0 {
        "янв"@
    } else if k == 1 {
        "фев"@
    } else if k == 2 {
        "мар"@
    } else if k == 3 {
        "апр"@
    } else if k == 4 {
        "май"@
    } else if k == 5 {
        "июн"@
    } else if k == 6 {
        "июл"@
    } else if k == 7 {
        "авг"@
    } else if k == 8 {
        "сен"@
    } else if k == 9 {
        "окт"@
    } else if k == 10 {
        "ноя"@
    } else {
        "дек"@
    }
}

fn short_month_text(k: usize) -> (r: String)
    requires
        k < 12,
    ensures
        r@ == short_month(k as int),
{
    if k == 0 {
        "янв".to_owned()
    } else if k == 1 {
        "фев".to_owned()
    } else if k == 2 {
        "мар".to_owned()
    } else if k == 3 {
        "апр".to_owned()
    } else if k == 4 {
        "май".to_owned()
    } else if k == 5 {
        "июн".to_owned()
    } else if k == 6 {
        "июл".to_owned()
    } else if k == 7 {
        "авг".to_owned()
    } else if k == 8 {
        "сен".to_owned()
    } else if k == 9 {
        "окт".to_owned()
    } else if k == 10 {
        "ноя".to_owned()
    } else {
        "дек".to_owned()
    }
}

/// Index of the first `-`, or the length when there is none.
pub open spec fn first_dash(s: Seq<char>) -> int
    decreases s.len(),
{
    if s.len() == 0 {
        0
    } else if s[0] == '-' {
        0
    } else {
        1 + first_dash(s.drop_first())
    }
}

/// The `k`-th piece of `s` split at `-`, empty when there are fewer pieces.
pub open spec fn date_part(s: Seq<char>, k: nat) -> Seq<char>
    decreases k,
{
    let i = first_dash(s);
    if k == 0 {
        s.take(i)
    } else if i >= s.len() {
        Seq::empty()
    } else {
        date_part(s.skip(i + 1), (k - 1) as nat)
    }
}

pub open spec fn is_digit(c: char) -> bool {
    '0' <= c && c <= '9'
}

pub open spec fn all_digits(ds: Seq<char>) -> bool {
    forall|i: int| 0 <= i < ds.len() ==> is_digit(#[trigger] ds[i])
}

pub open spec fn digits_value(ds: Seq<char>) -> int
    decreases ds.len(),
{
    if ds.len() == 0 {
        0
    } else {
        digits_value(ds.drop_last()) * 10 + (ds.last() as int - '0' as int)
    }
}

/// The month a text names when parsed as an unsigned integer (an optional
/// `+`, then digits), as an index from 0, if it is 1 to 12.
pub open spec fn month_index(t: Seq<char>) -> Option<int> {
    let ds = if t.len() > 0 && t[0] == '+' {
        t.drop_first()
    } else {
        t
    };
    if ds.len() > 0 && all_digits(ds) && 1 <= digits_value(ds) <= 12 {
        Some(digits_value(ds) - 1)
    } else {
        None
    }
}

/// `13 мар` for `2026-03-13`; the date itself when its month is not valid.
pub open spec fn short_day_label(date: Seq<char>) -> Seq<char> {
    match month_index(date_part(date, 1)) {
        Some(k) => date_part(date, 2) + " "@ + short_month(k),
        None => date,
    }
}

/// `мар 2026` for `2026-03-01`; the date itself when its month is not valid.
pub open spec fn month_label(date: Seq<char>) -> Seq<char> {
    match month_index(date_part(date, 1)) {
        Some(k) => short_month(k) + " "@ + date_part(date, 0),
        None => date,
    }
}

/// The text has four bytes of UTF-8 and a character ends at the fourth, so
/// that its first four bytes can be taken as text (`&date[..4]` panics
/// otherwise).
pub open spec fn year_slice_ok(date: Seq<char>) -> bool {
    is_char_boundary(encode_utf8(date), 4)
}

/// The text of the first four bytes of `date`.
pub open spec fn year_label(date: Seq<char>) -> Seq<char> {
    decode_utf8(encode_utf8(date).subrange(0, 4))
}

/// Where the first `k` characters are ASCII, a character ends at byte `k`.
pub proof fn lemma_ascii_prefix_char_boundary(t: Seq<char>, k: int)
    requires
        0 <= k <= t.len(),
        forall|i: int| 0 <= i < k ==> (#[trigger] t[i] as u32) < 128,
    ensures
        encode_utf8(t).len() >= k,
        is_char_boundary(encode_utf8(t), k),
    decreases k,
{
    broadcast use vstd::utf8::encode_utf8_valid_utf8;

    if k > 0 {
        let rest = t.drop_first();
        assert forall|i: int| 0 <= i < k - 1 implies (#[trigger] rest[i] as u32) < 128 by {
            assert(rest[i] == t[i + 1]);
        }
        lemma_ascii_prefix_char_boundary(rest, k - 1);
        vstd::utf8::encode_utf8_first_scalar(t);
        assert((t[0] as u32) < 128);
        let b = encode_utf8(t);
        assert(b == vstd::utf8::encode_scalar(t[0] as u32) + encode_utf8(rest));
        assert(pop_first_scalar(b) =~= encode_utf8(rest));
    }
}

pub open spec fn period_label(start: Seq<char>, end: Seq<char>, mode: AnalyticsTrendMode) -> Seq<char> {
    match mode {
        AnalyticsTrendMode::Month => month_label(start),
        AnalyticsTrendMode::Year => year_label(start),
        _ => short_day_label(start) + "-"@ + short_day_label(end),
    }
}

proof fn lemma_first_dash_at(s: Seq<char>, i: int)
    requires
        0 <= i <= s.len(),
        forall|j: int| 0 <= j < i ==> s[j] != '-',
        i == s.len() || s[i] == '-',
    ensures
        first_dash(s) == i,
    decreases i,
{
    if i > 0 {
        let d = s.drop_first();
        assert forall|j: int| 0 <= j < i - 1 implies d[j] != '-' by {
            assert(d[j] == s[j + 1]);
        }
        if i < s.len() {
            assert(d[i - 1] == s[i]);
        }
        lemma_first_dash_at(d, i - 1);
    }
}

fn first_dash_index(s: &str) -> (r: usize)
    ensures
        r as int == first_dash(s@),
        r <= s@.len(),
{
    let n = s.unicode_len();
    let mut i: usize = 0;
    while i < n && s.get_char(i) != '-'
        invariant
            0 <= i <= n,
            n == s@.len(),
            forall|j: int| 0 <= j < i ==> s@[j] != '-',
        decreases n - i,
    {
        i = i + 1;
    }
    proof {
        lemma_first_dash_at(s@, i as int);
    }
    i
}

/// The `k`-th piece of a date split at `-`.
pub fn date_part_text(s: &str, k: u32) -> (r: String)
    ensures
        r@ == date_part(s@, k as nat),
    decreases k,
{
    let i = first_dash_index(s);
    let n = s.unicode_len();
    if k == 0 {
        s.substring_char(0, i).to_owned()
    } else if i >= n {
        String::new()
    } else {
        let rest = s.substring_char(i + 1, n);
        proof {
            assert(rest@ =~= s@.skip(i + 1));
        }
        date_part_text(rest, k - 1)
    }
}

proof fn lemma_digits_grow(ds: Seq<char>)
    requires
        ds.len() > 0,
        all_digits(ds),
    ensures
        digits_value(ds) >= digits_value(ds.drop_last()),
        digits_value(ds) >= 0,
    decreases ds.len(),
{
    if ds.len() > 1 {
        let d = ds.drop_last();
        assert(all_digits(d)) by {
            assert forall|i: int| 0 <= i < d.len() implies is_digit(#[trigger] d[i]) by {
                assert(d[i] == ds[i]);
            }
        }
        lemma_digits_grow(d);
    }
    assert(is_digit(ds[ds.len() - 1]));
}

/// The month index of a text, as `month_index` says.
pub fn month_index_of(t: &str) -> (r: Option<usize>)
    ensures
        match r {
            Some(k) => month_index(t@) == Some(k as int),
            None => month_index(t@) is None,
        },
{
    let n = t.unicode_len();
    let start: usize = if n > 0 && t.get_char(0) == '+' {
        1
    } else {
        0
    };
    let ghost ds = if t@.len() > 0 && t@[0] == '+' {
        t@.drop_first()
    } else {
        t@
    };
    proof {
        assert(ds =~= t@.skip(start as int));
    }
    if start == n {
        return None;
    }
    let mut v: u64 = 0;
    let mut i: usize = start;
    while i < n
        invariant
            start <= i <= n,
            n == t@.len(),
            ds == t@.skip(start as int),
            ds == (if t@.len() > 0 && t@[0] == '+' {
                t@.drop_first()
            } else {
                t@
            }),
            all_digits(ds.take(i - start)),
            digits_value(ds.take(i - start)) <= 12 ==> v == digits_value(ds.take(i - start)),
            digits_value(ds.take(i - start)) > 12 ==> v == 13,
            v <= 13,
            digits_value(ds.take(i - start)) >= 0,
        decreases n - i,
    {
        let c = t.get_char(i);
        if !('0' <= c && c <= '9') {
            proof {
                assert(ds[i - start] == c);
                assert(!is_digit(ds[i - start]));
                assert(!all_digits(ds));
            }
            return None;
        }
        let ghost pre = ds.take(i - start);
        let ghost next = ds.take(i - start + 1);
        proof {
            assert(next.drop_last() =~= pre);
            assert(next.last() == c);
            assert(ds[i - start] == c);
            assert(all_digits(next)) by {
                assert forall|j: int| 0 <= j < next.len() implies is_digit(#[trigger] next[j]) by {
                    if j < pre.len() {
                        assert(next[j] == pre[j]);
                    }
                }
            }
            lemma_digits_grow(next);
        }
        let d: u64 = (c as u32 - '0' as u32) as u64;
        if v > 12 {
            v = 13;
        } else {
            let w = v * 10 + d;
            v = if w > 12 {
                13
            } else {
                w
            };
        }
        i = i + 1;
    }
    proof {
        assert(ds.take(n - start) =~= ds);
    }
    if v >= 1 && v <= 12 {
        Some((v - 1) as usize)
    } else {
        None
    }
}

/// `13 мар` for `2026-03-13`.
pub fn short_day_label_text(date: &str) -> (r: String)
    ensures
        r@ == short_day_label(date@),
{
    let month = date_part_text(date, 1);
    match month_index_of(month.as_str()) {
        Some(k) => {
            let day = date_part_text(date, 2);
            let name = short_month_text(k);
            concat3(day.as_str(), " ", name.as_str())
        },
        None => date.to_owned(),
    }
}

/// `мар 2026` for `2026-03-01`.
pub fn month_label_text(date: &str) -> (r: String)
    ensures
        r@ == month_label(date@),
{
    let month = date_part_text(date, 1);
    match month_index_of(month.as_str()) {
        Some(k) => {
            let year = date_part_text(date, 0);
            let name = short_month_text(k);
            concat3(name.as_str(), " ", year.as_str())
        },
        None => date.to_owned(),
    }
}

/// The label of a comparison period.
pub fn format_period_label(start: &str, end: &str, mode: AnalyticsTrendMode) -> (r: String)
    requires
        mode == AnalyticsTrendMode::Year ==> year_slice_ok(start@),
    ensures
        r@ == period_label(start@, end@, mode),
{
    match mode {
        AnalyticsTrendMode::Month => month_label_text(start),
        AnalyticsTrendMode::Year => {
            let (head, _) = start.split_at(4);
            proof {
                vstd::utf8::encode_utf8_decode_utf8(head@);
            }
            head.to_owned()
        },
        _ => {
            let a = short_day_label_text(start);
            let b = short_day_label_text(end);
            concat3(a.as_str(), "-", b.as_str())
        },
    }
}

} // verus!
