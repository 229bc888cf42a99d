//! Validation of user-supplied text: trimmed non-empty fields, optional
//! notes, ISO calendar dates and integer ids.
use vstd::prelude::*;
use vstd::utf8::{encode_utf8, is_char_boundary};
use crate::categories::{TaskCategoryNode, forest_has_id, category_tree_contains_id};
use crate::text::{trim, trim_str, lemma_trim_idempotent, concat2, concat3, int_decimal, i64_to_decimal};

verus! {

/// `"{field} cannot be empty"`.
pub open spec fn empty_field_message(field: Seq<char>) -> Seq<char> {
    field + " cannot be empty"@
}

/// `normalize_non_empty_text`: the trimmed text, or the empty-field error.
pub open spec fn spec_normalize_non_empty_text(raw: Seq<char>, field: Seq<char>) -> Result<
    Seq<char>,
    Seq<char>,
> {
    if trim(raw).len() == 0 {
        Err(empty_field_message(field))
    } else {
        Ok(trim(raw))
    }
}

pub open spec fn result_view(r: Result<String, String>) -> Result<Seq<char>, Seq<char>> {
    match r {
        Ok(v) => Ok(v@),
        Err(e) => Err(e@),
    }
}

/// Trims `raw_value`; an empty result is refused with `"{field} cannot be empty"`.
pub fn normalize_non_empty_text(raw_value: &str, field_name: &str) -> (r: Result<String, String>)
    ensures
        result_view(r) == spec_normalize_non_empty_text(raw_value@, field_name@),
{
    let normalized = trim_str(raw_value);
    if normalized.unicode_len() == 0 {
        let message = concat2(field_name, " cannot be empty");
        return Err(message);
    }
    Ok(normalized)
}

/// Absent or blank text becomes `None`; anything else is trimmed.
pub open spec fn spec_normalize_optional_text(raw: Option<Seq<char>>) -> Option<Seq<char>> {
    match raw {
        None => None,
        Some(v) => if trim(v).len() == 0 {
            None
        } else {
            Some(trim(v))
        },
    }
}

pub open spec fn option_view(o: Option<String>) -> Option<Seq<char>> {
    match o {
        Some(v) => Some(v@),
        None => None,
    }
}

pub fn normalize_optional_text(raw_value: Option<String>) -> (r: Option<String>)
    ensures
        option_view(r) == spec_normalize_optional_text(option_view(raw_value)),
{
    match raw_value {
        None => None,
        Some(value) => {
            let normalized = trim_str(value.as_str());
            if normalized.unicode_len() == 0 {
                None
            } else {
                Some(normalized)
            }
        },
    }
}

pub open spec fn is_ascii_digit(c: char) -> bool {
    '0' <= c <= '9'
}

pub open spec fn digit_value(c: char) -> int {
    (c as int) - ('0' as int)
}

/// Exactly ten characters `DDDD-DD-DD` with ASCII digits.
pub open spec fn is_iso_date_shape(t: Seq<char>) -> bool {
    &&& t.len() == 10
    &&& forall|k: int|
        0 <= k < 10 ==> if k == 4 || k == 7 {
            #[trigger] t[k] == '-'
        } else {
            is_ascii_digit(t[k])
        }
}

pub open spec fn iso_year(t: Seq<char>) -> int {
    1000 * digit_value(t[0]) + 100 * digit_value(t[1]) + 10 * digit_value(t[2]) + digit_value(t[3])
}

pub open spec fn iso_month(t: Seq<char>) -> int {
    10 * digit_value(t[5]) + digit_value(t[6])
}

pub open spec fn iso_day(t: Seq<char>) -> int {
    10 * digit_value(t[8]) + digit_value(t[9])
}

/// Gregorian leap years.
pub open spec fn spec_is_leap_year(year: int) -> bool {
    (year % 4 == 0 && year % 100 != 0) || year % 400 == 0
}

/// Number of days of `month` (1-based) in `year`.
pub open spec fn days_in_month(year: int, month: int) -> int {
    if month == 1 || month == 3 || month == 5 || month == 7 || month == 8 || month == 10 || month
        == 12 {
        31
    } else if month == 4 || month == 6 || month == 9 || month == 11 {
        30
    } else if month == 2 && spec_is_leap_year(year) {
        29
    } else if month == 2 {
        28
    } else {
        0
    }
}

pub open spec fn spec_is_valid_calendar_date(year: int, month: int, day: int) -> bool {
    1 <= month <= 12 && 1 <= day <= days_in_month(year, month)
}

/// The byte slicing that `normalize_iso_date` performs on a ten-byte input
/// whose fifth or eighth character is not one byte long hits a position
/// that is no character boundary, and Rust panics there.
pub open spec fn iso_date_slicing_panics(t: Seq<char>) -> bool {
    let b = encode_utf8(t);
    &&& b.len() == 10
    &&& is_char_boundary(b, 4)
    &&& is_char_boundary(b, 7)
    &&& (!is_char_boundary(b, 5) || (b[4] == 0x2du8 && !is_char_boundary(b, 8)))
}

pub open spec fn iso_format_message(field: Seq<char>, t: Seq<char>) -> Seq<char> {
    field + " must use YYYY-MM-DD format, got '"@ + t + "'"@
}

pub open spec fn iso_calendar_message(field: Seq<char>, t: Seq<char>) -> Seq<char> {
    field + " must be a valid calendar date, got '"@ + t + "'"@
}

/// `normalize_iso_date`: the trimmed `YYYY-MM-DD` text of a real calendar
/// day, or the first error among emptiness, shape and calendar validity.
pub open spec fn spec_normalize_iso_date(raw: Seq<char>, field: Seq<char>) -> Result<
    Seq<char>,
    Seq<char>,
> {
    let t = trim(raw);
    if t.len() == 0 {
        Err(empty_field_message(field))
    } else if !is_iso_date_shape(t) {
        Err(iso_format_message(field, t))
    } else if !spec_is_valid_calendar_date(iso_year(t), iso_month(t), iso_day(t)) {
        Err(iso_calendar_message(field, t))
    } else {
        Ok(t)
    }
}

/// Whether `normalize_iso_date` would panic on this input (see
/// `iso_date_slicing_panics`); callers outside the verified code test this
/// first.
pub fn normalize_iso_date_panics(date_value: &str) -> (r: bool)
    ensures
        r == iso_date_slicing_panics(trim(date_value@)),
{
    let t = trim_str(date_value);
    let s = t.as_str();
    let bytes = s.as_bytes();
    if bytes.len() != 10 || !s.is_char_boundary(4) || !s.is_char_boundary(7) {
        return false;
    }
    if !s.is_char_boundary(5) {
        return true;
    }
    bytes[4] == 0x2du8 && !s.is_char_boundary(8)
}

pub fn is_leap_year(year: i32) -> (r: bool)
    ensures
        r == spec_is_leap_year(year as int),
{
    (year % 4 == 0 && year % 100 != 0) || year % 400 == 0
}

pub fn is_valid_calendar_date(year: i32, month: u32, day: u32) -> (r: bool)
    ensures
        r == spec_is_valid_calendar_date(year as int, month as int, day as int),
{
    if month == 0 || month > 12 || day == 0 {
        return false;
    }
    let max_day: u32 = if month == 1 || month == 3 || month == 5 || month == 7 || month == 8
        || month == 10 || month == 12 {
        31
    } else if month == 4 || month == 6 || month == 9 || month == 11 {
        30
    } else if is_leap_year(year) {
        29
    } else {
        28
    };
    day <= max_day
}

fn digit_at(s: &str, i: usize) -> (d: u32)
    requires
        i < s@.len(),
        is_ascii_digit(s@[i as int]),
    ensures
        d as int == digit_value(s@[i as int]),
        d < 10,
{
    let c = s.get_char(i);
    (c as u32) - ('0' as u32)
}

/// Trims `date_value` and accepts it only as a real `YYYY-MM-DD` date.
pub fn normalize_iso_date(date_value: &str, field_name: &str) -> (r: Result<String, String>)
    requires
        !iso_date_slicing_panics(trim(date_value@)),
    ensures
        result_view(r) == spec_normalize_iso_date(date_value@, field_name@),
{
    let normalized = match normalize_non_empty_text(date_value, field_name) {
        Ok(v) => v,
        Err(e) => {
            return Err(e);
        },
    };
    let t = normalized.as_str();
    let n = t.unicode_len();
    let mut shape_ok = n == 10;
    if shape_ok {
        let mut k: usize = 0;
        while k < 10
            invariant
                n == 10,
                t@.len() == 10,
                0 <= k <= 10,
                shape_ok == (forall|j: int|
                    0 <= j < k ==> if j == 4 || j == 7 {
                        #[trigger] t@[j] == '-'
                    } else {
                        is_ascii_digit(t@[j])
                    }),
            decreases 10 - k,
        {
            let c = t.get_char(k);
            let ok = if k == 4 || k == 7 {
                c == '-'
            } else {
                '0' <= c && c <= '9'
            };
            if !ok {
                shape_ok = false;
            }
            k = k + 1;
        }
    }
    if !shape_ok {
        let message = concat3(field_name, " must use YYYY-MM-DD format, got '", t);
        let message = concat2(message.as_str(), "'");
        return Err(message);
    }
    let y0 = digit_at(t, 0);
    let y1 = digit_at(t, 1);
    let y2 = digit_at(t, 2);
    let y3 = digit_at(t, 3);
    let year: i32 = (1000 * y0 + 100 * y1 + 10 * y2 + y3) as i32;
    let month: u32 = 10 * digit_at(t, 5) + digit_at(t, 6);
    let day: u32 = 10 * digit_at(t, 8) + digit_at(t, 9);
    if !is_valid_calendar_date(year, month, day) {
        let message = concat3(field_name, " must be a valid calendar date, got '", t);
        let message = concat2(message.as_str(), "'");
        return Err(message);
    }
    Ok(normalized)
}

/// How parsing an integer can fail, in the words of `ParseIntError`'s `Display`.
pub enum ParseIntFailure {
    InvalidDigit,
    PosOverflow,
    NegOverflow,
}

pub open spec fn parse_failure_message(f: ParseIntFailure) -> Seq<char> {
    match f {
        ParseIntFailure::InvalidDigit => "invalid digit found in string"@,
        ParseIntFailure::PosOverflow => "number too large to fit in target type"@,
        ParseIntFailure::NegOverflow => "number too small to fit in target type"@,
    }
}

/// Left-to-right accumulation of decimal digits as `i64::from_str` does it:
/// at each character a non-digit fails first, then leaving the `i64` range.
pub open spec fn parse_digits(ds: Seq<char>, acc: int, positive: bool) -> Result<
    int,
    ParseIntFailure,
>
    decreases ds.len(),
{
    if ds.len() == 0 {
        Ok(acc)
    } else if !is_ascii_digit(ds[0]) {
        Err(ParseIntFailure::InvalidDigit)
    } else {
        let next = if positive {
            acc * 10 + digit_value(ds[0])
        } else {
            acc * 10 - digit_value(ds[0])
        };
        if next > i64::MAX {
            Err(ParseIntFailure::PosOverflow)
        } else if next < i64::MIN {
            Err(ParseIntFailure::NegOverflow)
        } else {
            parse_digits(ds.drop_first(), next, positive)
        }
    }
}

/// `str::parse::<i64>` on a non-empty text: an optional sign, then decimal
/// digits; a lone sign is an invalid digit.
pub open spec fn spec_parse_i64(t: Seq<char>) -> Result<int, ParseIntFailure> {
    if t.len() == 1 && (t[0] == '+' || t[0] == '-') {
        Err(ParseIntFailure::InvalidDigit)
    } else if t.len() > 0 && t[0] == '+' {
        parse_digits(t.drop_first(), 0, true)
    } else if t.len() > 0 && t[0] == '-' {
        parse_digits(t.drop_first(), 0, false)
    } else {
        parse_digits(t, 0, true)
    }
}

fn parse_i64_digits(t: &str, start: usize, positive: bool) -> (r: Result<i64, ParseIntFailure>)
    requires
        start <= t@.len(),
    ensures
        match r {
            Ok(v) => parse_digits(t@.skip(start as int), 0, positive) == Ok::<
                int,
                ParseIntFailure,
            >(v as int),
            Err(f) => parse_digits(t@.skip(start as int), 0, positive) == Err::<
                int,
                ParseIntFailure,
            >(f),
        },
{
    let n = t.unicode_len();
    let mut acc: i128 = 0;
    let mut i: usize = start;
    while i < n
        invariant
            n == t@.len(),
            start <= i <= n,
            i64::MIN <= acc <= i64::MAX,
            parse_digits(t@.skip(start as int), 0, positive) == parse_digits(
                t@.skip(i as int),
                acc as int,
                positive,
            ),
        decreases n - i,
    {
        let c = t.get_char(i);
        proof {
            assert(t@.skip(i as int)[0] == c);
            assert(t@.skip(i as int).drop_first() =~= t@.skip(i + 1));
        }
        if !('0' <= c && c <= '9') {
            return Err(ParseIntFailure::InvalidDigit);
        }
        let d = (c as u32 - '0' as u32) as i128;
        let next: i128 = if positive {
            acc * 10 + d
        } else {
            acc * 10 - d
        };
        if next > i64::MAX as i128 {
            return Err(ParseIntFailure::PosOverflow);
        }
        if next < i64::MIN as i128 {
            return Err(ParseIntFailure::NegOverflow);
        }
        acc = next;
        i = i + 1;
    }
    proof {
        assert(t@.skip(i as int).len() == 0);
    }
    Ok(acc as i64)
}

fn parse_i64(t: &str) -> (r: Result<i64, ParseIntFailure>)
    ensures
        match r {
            Ok(v) => spec_parse_i64(t@) == Ok::<int, ParseIntFailure>(v as int),
            Err(f) => spec_parse_i64(t@) == Err::<int, ParseIntFailure>(f),
        },
{
    let n = t.unicode_len();
    if n == 1 {
        let c = t.get_char(0);
        if c == '+' || c == '-' {
            return Err(ParseIntFailure::InvalidDigit);
        }
    }
    if n > 0 {
        let c = t.get_char(0);
        if c == '+' {
            proof {
                assert(t@.skip(1) =~= t@.drop_first());
            }
            return parse_i64_digits(t, 1, true);
        }
        if c == '-' {
            proof {
                assert(t@.skip(1) =~= t@.drop_first());
            }
            return parse_i64_digits(t, 1, false);
        }
    }
    proof {
        assert(t@.skip(0) =~= t@);
    }
    parse_i64_digits(t, 0, true)
}

fn parse_failure_text(f: &ParseIntFailure) -> (r: String)
    ensures
        r@ == parse_failure_message(*f),
{
    let r = match f {
        ParseIntFailure::InvalidDigit => "invalid digit found in string".to_owned(),
        ParseIntFailure::PosOverflow => "number too large to fit in target type".to_owned(),
        ParseIntFailure::NegOverflow => "number too small to fit in target type".to_owned(),
    };
    proof {
        reveal_strlit("invalid digit found in string");
        reveal_strlit("number too large to fit in target type");
        reveal_strlit("number too small to fit in target type");
    }
    r
}

pub open spec fn id_parse_message(field: Seq<char>, t: Seq<char>, f: ParseIntFailure) -> Seq<
    char,
> {
    "failed to parse "@ + field + " '"@ + t + "' as integer id: "@ + parse_failure_message(f)
}

/// `parse_optional_i64_id`: absent or blank input is no id; otherwise the
/// trimmed text must parse as an `i64`.
pub open spec fn spec_parse_optional_i64_id(raw: Option<Seq<char>>, field: Seq<char>) -> Result<
    Option<int>,
    Seq<char>,
> {
    match raw {
        None => Ok(None),
        Some(v) => {
            let t = trim(v);
            if t.len() == 0 {
                Ok(None)
            } else {
                match spec_parse_i64(t) {
                    Ok(n) => Ok(Some(n)),
                    Err(f) => Err(id_parse_message(field, t, f)),
                }
            }
        },
    }
}

pub open spec fn id_result_view(r: Result<Option<i64>, String>) -> Result<Option<int>, Seq<char>> {
    match r {
        Ok(Some(v)) => Ok(Some(v as int)),
        Ok(None) => Ok(None),
        Err(e) => Err(e@),
    }
}

pub fn parse_optional_i64_id(raw_value: Option<String>, field_name: &str) -> (r: Result<
    Option<i64>,
    String,
>)
    ensures
        id_result_view(r) == spec_parse_optional_i64_id(option_view(raw_value), field_name@),
{
    let raw_value = match raw_value {
        None => {
            return Ok(None);
        },
        Some(v) => v,
    };
    let normalized = trim_str(raw_value.as_str());
    if normalized.unicode_len() == 0 {
        return Ok(None);
    }
    match parse_i64(normalized.as_str()) {
        Ok(v) => Ok(Some(v)),
        Err(f) => {
            let m1 = concat3("failed to parse ", field_name, " '");
            let m2 = concat3(m1.as_str(), normalized.as_str(), "' as integer id: ");
            let reason = parse_failure_text(&f);
            let message = concat2(m2.as_str(), reason.as_str());
            Err(message)
        },
    }
}

pub open spec fn unknown_category_message(id: Seq<char>) -> Seq<char> {
    "category_id '"@ + id + "' does not exist in the current codificator"@
}

/// `validate_category_id_exists`: the trimmed id must be non-empty and name
/// a node of the current codificator; `current_tree` is the outcome of
/// loading that codificator, whose error is passed on.
pub open spec fn spec_validate_category_id(
    category_id: Seq<char>,
    current_tree: Result<Seq<TaskCategoryNode>, Seq<char>>,
) -> Result<(), Seq<char>> {
    match spec_normalize_non_empty_text(category_id, "category_id"@) {
        Err(e) => Err(e),
        Ok(id) => match current_tree {
            Err(e) => Err(e),
            Ok(tree) => if forest_has_id(tree, id) {
                Ok(())
            } else {
                Err(unknown_category_message(id))
            },
        },
    }
}

pub open spec fn tree_result_view(r: Result<Vec<TaskCategoryNode>, String>) -> Result<
    Seq<TaskCategoryNode>,
    Seq<char>,
> {
    match r {
        Ok(v) => Ok(v@),
        Err(e) => Err(e@),
    }
}

pub open spec fn unit_result_view(r: Result<(), String>) -> Result<(), Seq<char>> {
    match r {
        Ok(()) => Ok(()),
        Err(e) => Err(e@),
    }
}

pub fn validate_category_id_exists(
    category_id: &str,
    current_tree: &Result<Vec<TaskCategoryNode>, String>,
) -> (r: Result<(), String>)
    ensures
        unit_result_view(r) == spec_validate_category_id(
            category_id@,
            tree_result_view(*current_tree),
        ),
{
    let normalized = match normalize_non_empty_text(category_id, "category_id") {
        Ok(v) => v,
        Err(e) => {
            return Err(e);
        },
    };
    let tree = match current_tree {
        Ok(tree) => tree,
        Err(e) => {
            return Err(e.clone());
        },
    };
    if category_tree_contains_id(tree, normalized.as_str()) {
        return Ok(());
    }
    let message = concat3(
        "category_id '",
        normalized.as_str(),
        "' does not exist in the current codificator",
    );
    Err(message)
}

/// Normalising text that is already normalised gives it back unchanged.
pub proof fn law_normalize_non_empty_text_idempotent(raw: Seq<char>, field: Seq<char>)
    requires
        spec_normalize_non_empty_text(raw, field) is Ok,
    ensures
        spec_normalize_non_empty_text(spec_normalize_non_empty_text(raw, field)->Ok_0, field)
            == spec_normalize_non_empty_text(raw, field),
{
    lemma_trim_idempotent(raw);
}

/// A date that was accepted is accepted again, unchanged.
pub proof fn law_normalize_iso_date_idempotent(raw: Seq<char>, field: Seq<char>)
    requires
        spec_normalize_iso_date(raw, field) is Ok,
    ensures
        spec_normalize_iso_date(spec_normalize_iso_date(raw, field)->Ok_0, field)
            == spec_normalize_iso_date(raw, field),
{
    lemma_trim_idempotent(raw);
}

/// An accepted date is ten characters with dashes at the fifth and eighth
/// place, and names a day that exists in the Gregorian calendar.
pub proof fn law_accepted_dates_are_calendar_days(raw: Seq<char>, field: Seq<char>)
    requires
        spec_normalize_iso_date(raw, field) is Ok,
    ensures
        ({
            let t = spec_normalize_iso_date(raw, field)->Ok_0;
            &&& is_iso_date_shape(t)
            &&& 1 <= iso_month(t) <= 12
            &&& 1 <= iso_day(t) <= 31
            &&& iso_month(t) == 2 ==> iso_day(t) <= 29
            &&& (iso_month(t) == 2 && iso_day(t) == 29) ==> spec_is_leap_year(iso_year(t))
        }),
{
}

/// A well-shaped date is accepted exactly when it names a day of the
/// Gregorian calendar: a month from 1 to 12 and a day from 1 up to the
/// month's length (31 for January, March, May, July, August, October and
/// December, 30 for April, June, September and November, 28 for February,
/// 29 in leap years: every fourth year, but not every hundredth unless every
/// four hundredth), and then it comes back trimmed.
pub proof fn law_iso_date_accepted_exactly_on_calendar_days(raw: Seq<char>, field: Seq<char>)
    requires
        is_iso_date_shape(trim(raw)),
    ensures
        ({
            let t = trim(raw);
            let y = iso_year(t);
            let m = iso_month(t);
            let d = iso_day(t);
            let calendar_day = 1 <= d && (((m == 1 || m == 3 || m == 5 || m == 7 || m == 8 || m == 10
                || m == 12) && d <= 31) || ((m == 4 || m == 6 || m == 9 || m == 11) && d <= 30) || (m
                == 2 && d <= 28) || (m == 2 && d == 29 && ((y % 4 == 0 && y % 100 != 0) || y % 400
                == 0)));
            &&& (spec_normalize_iso_date(raw, field) is Ok) == calendar_day
            &&& calendar_day ==> spec_normalize_iso_date(raw, field) == Ok::<Seq<char>, Seq<char>>(t)
        }),
{
}

} // verus!
