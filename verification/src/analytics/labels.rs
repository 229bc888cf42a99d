//! Root-category labels: the fixed business order of the seven root
//! categories and their canonical spelling.
use vstd::prelude::*;
use crate::text::{trim, trim_end_char, lowercase, trim_str, trim_end_char_str, to_lowercase_str, str_eq};

verus! {

/// The label trimmed, then stripped of trailing `.`, then `!`, then `?`.
pub open spec fn root_label_stem(label: Seq<char>) -> Seq<char> {
    trim_end_char(trim_end_char(trim_end_char(trim(label), '.'), '!'), '?')
}

/// The lower-cased stem, by which root labels are recognised.
pub open spec fn root_label_key(label: Seq<char>) -> Seq<char> {
    lowercase(root_label_stem(label))
}

/// Position in the business order Деньги, Здоровье, Логика, Психика,
/// Отношения, Рутина, Система; any other label comes last (`usize::MAX`).
pub open spec fn spec_root_category_rank(label: Seq<char>) -> int {
    let k = root_label_key(label);
    if k == "деньги"@ {
        0
    } else if k == "здоровье"@ {
        1
    } else if k == "логика"@ {
        2
    } else if k == "психика"@ {
        3
    } else if k == "отношения"@ {
        4
    } else if k == "рутина"@ {
        5
    } else if k == "система"@ {
        6
    } else {
        usize::MAX as int
    }
}

/// The canonical spelling of a recognised root label, otherwise its stem.
pub open spec fn spec_normalize_root_label(label: Seq<char>) -> Seq<char> {
    let k = root_label_key(label);
    if k == "деньги"@ {
        "Деньги"@
    } else if k == "здоровье"@ {
        "Здоровье"@
    } else if k == "логика"@ {
        "Логика"@
    } else if k == "психика"@ {
        "Психика"@
    } else if k == "отношения"@ {
        "Отношения"@
    } else if k == "рутина"@ {
        "Рутина"@
    } else if k == "система"@ {
        "Система"@
    } else {
        root_label_stem(label)
    }
}

fn root_label_stem_text(label: &str) -> (r: String)
    ensures
        r@ == root_label_stem(label@),
{
    let t = trim_str(label);
    let a = trim_end_char_str(t.as_str(), '.');
    let b = trim_end_char_str(a.as_str(), '!');
    trim_end_char_str(b.as_str(), '?')
}

pub fn normalize_root_label_key(label: &str) -> (r: String)
    ensures
        r@ == root_label_key(label@),
{
    let stem = root_label_stem_text(label);
    to_lowercase_str(stem.as_str())
}

pub fn root_category_rank(label: &str) -> (r: usize)
    ensures
        r as int == spec_root_category_rank(label@),
{
    let k = normalize_root_label_key(label);
    let k = k.as_str();
    if str_eq(k, "деньги") {
        0
    } else if str_eq(k, "здоровье") {
        1
    } else if str_eq(k, "логика") {
        2
    } else if str_eq(k, "психика") {
        3
    } else if str_eq(k, "отношения") {
        4
    } else if str_eq(k, "рутина") {
        5
    } else if str_eq(k, "система") {
        6
    } else {
        usize::MAX
    }
}

pub fn normalize_root_label(label: &str) -> (r: String)
    ensures
        r@ == spec_normalize_root_label(label@),
{
    let key = normalize_root_label_key(label);
    let k = key.as_str();
    if str_eq(k, "деньги") {
        "Деньги".to_owned()
    } else if str_eq(k, "здоровье") {
        "Здоровье".to_owned()
    } else if str_eq(k, "логика") {
        "Логика".to_owned()
    } else if str_eq(k, "психика") {
        "Психика".to_owned()
    } else if str_eq(k, "отношения") {
        "Отношения".to_owned()
    } else if str_eq(k, "рутина") {
        "Рутина".to_owned()
    } else if str_eq(k, "система") {
        "Система".to_owned()
    } else {
        root_label_stem_text(label)
    }
}

} // verus!
