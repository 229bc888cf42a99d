//! Sums, counts and selections over the task rows of a range.
use vstd::prelude::*;
use crate::analytics::types::AnalyticsTaskRow;

verus! {

/// Sum of the minutes of the rows that satisfy `p`.
pub open spec fn filtered_minutes(rows: Seq<AnalyticsTaskRow>, p: spec_fn(AnalyticsTaskRow) -> bool) -> int
    decreases rows.len(),
{
    if rows.len() == 0 {
        0
    } else {
        filtered_minutes(rows.drop_last(), p) + if p(rows.last()) {
            rows.last().time_length as int
        } else {
            0
        }
    }
}

/// Number of rows that satisfy `p`.
pub open spec fn filtered_count(rows: Seq<AnalyticsTaskRow>, p: spec_fn(AnalyticsTaskRow) -> bool) -> int
    decreases rows.len(),
{
    if rows.len() == 0 {
        0
    } else {
        filtered_count(rows.drop_last(), p) + if p(rows.last()) {
            1int
        } else {
            0
        }
    }
}

/// The rows that satisfy `p`, in order.
pub open spec fn filtered_rows(rows: Seq<AnalyticsTaskRow>, p: spec_fn(AnalyticsTaskRow) -> bool) -> Seq<AnalyticsTaskRow>
    decreases rows.len(),
{
    if rows.len() == 0 {
        Seq::empty()
    } else if p(rows.last()) {
        filtered_rows(rows.drop_last(), p).push(rows.last())
    } else {
        filtered_rows(rows.drop_last(), p)
    }
}

/// Whether some row satisfies `p`.
pub open spec fn any_row(rows: Seq<AnalyticsTaskRow>, p: spec_fn(AnalyticsTaskRow) -> bool) -> bool {
    exists|k: int| 0 <= k < rows.len() && p(#[trigger] rows[k])
}

/// Sum of all minutes.
pub open spec fn sum_minutes(rows: Seq<AnalyticsTaskRow>) -> int {
    filtered_minutes(rows, |r: AnalyticsTaskRow| true)
}

/// Sum of the absolute values of all minutes.
pub open spec fn abs_minutes(rows: Seq<AnalyticsTaskRow>) -> int
    decreases rows.len(),
{
    if rows.len() == 0 {
        0
    } else {
        abs_minutes(rows.drop_last()) + if rows.last().time_length >= 0 {
            rows.last().time_length as int
        } else {
            -(rows.last().time_length as int)
        }
    }
}

/// The rows are few and short enough that every sum of minutes and every
/// count the analytics makes over them fits an `i64`.
pub open spec fn rows_fit(rows: Seq<AnalyticsTaskRow>) -> bool {
    abs_minutes(rows) + rows.len() <= i64::MAX
}

pub proof fn lemma_filtered_bounds(rows: Seq<AnalyticsTaskRow>, p: spec_fn(AnalyticsTaskRow) -> bool)
    ensures
        -abs_minutes(rows) <= filtered_minutes(rows, p) <= abs_minutes(rows),
        0 <= filtered_count(rows, p) <= rows.len(),
        abs_minutes(rows) >= 0,
        filtered_rows(rows, p).len() == filtered_count(rows, p),
        filtered_minutes(rows, p) == sum_minutes(filtered_rows(rows, p)),
        abs_minutes(filtered_rows(rows, p)) <= abs_minutes(rows),
    decreases rows.len(),
{
    if rows.len() > 0 {
        lemma_filtered_bounds(rows.drop_last(), p);
        let f = filtered_rows(rows.drop_last(), p);
        if p(rows.last()) {
            assert(f.push(rows.last()).drop_last() =~= f);
        }
    }
}

pub proof fn lemma_prefix_abs(rows: Seq<AnalyticsTaskRow>, i: int)
    requires
        0 <= i <= rows.len(),
    ensures
        abs_minutes(rows.take(i)) <= abs_minutes(rows),
        abs_minutes(rows.take(i)) >= 0,
    decreases rows.len() - i,
{
    if i < rows.len() {
        lemma_prefix_abs(rows, i + 1);
        assert(rows.take(i + 1).drop_last() =~= rows.take(i));
        lemma_abs_nonneg(rows.take(i));
    } else {
        assert(rows.take(i) =~= rows);
        lemma_abs_nonneg(rows);
    }
}

pub proof fn lemma_abs_nonneg(rows: Seq<AnalyticsTaskRow>)
    ensures
        abs_minutes(rows) >= 0,
    decreases rows.len(),
{
    if rows.len() > 0 {
        lemma_abs_nonneg(rows.drop_last());
    }
}

/// One more row of the prefix adds its share to each filtered measure.
pub proof fn lemma_filtered_step(rows: Seq<AnalyticsTaskRow>, i: int, p: spec_fn(AnalyticsTaskRow) -> bool)
    requires
        0 <= i < rows.len(),
    ensures
        filtered_minutes(rows.take(i + 1), p) == filtered_minutes(rows.take(i), p) + if p(rows[i]) {
            rows[i].time_length as int
        } else {
            0
        },
        filtered_count(rows.take(i + 1), p) == filtered_count(rows.take(i), p) + if p(rows[i]) {
            1int
        } else {
            0
        },
        filtered_rows(rows.take(i + 1), p) == if p(rows[i]) {
            filtered_rows(rows.take(i), p).push(rows[i])
        } else {
            filtered_rows(rows.take(i), p)
        },
        abs_minutes(rows.take(i + 1)) == abs_minutes(rows.take(i)) + if rows[i].time_length >= 0 {
            rows[i].time_length as int
        } else {
            -(rows[i].time_length as int)
        },
{
    assert(rows.take(i + 1).drop_last() =~= rows.take(i));
    assert(rows.take(i + 1).last() == rows[i]);
}

pub proof fn lemma_sum_append(a: Seq<AnalyticsTaskRow>, b: Seq<AnalyticsTaskRow>, p: spec_fn(AnalyticsTaskRow) -> bool)
    ensures
        filtered_minutes(a + b, p) == filtered_minutes(a, p) + filtered_minutes(b, p),
        filtered_count(a + b, p) == filtered_count(a, p) + filtered_count(b, p),
        abs_minutes(a + b) == abs_minutes(a) + abs_minutes(b),
        filtered_rows(a + b, p) == filtered_rows(a, p) + filtered_rows(b, p),
    decreases b.len(),
{
    if b.len() == 0 {
        assert(a + b =~= a);
        assert(filtered_rows(a, p) + filtered_rows(b, p) =~= filtered_rows(a, p));
    } else {
        lemma_sum_append(a, b.drop_last(), p);
        assert((a + b).drop_last() =~= a + b.drop_last());
        assert((a + b).last() == b.last());
        if p(b.last()) {
            assert(filtered_rows(a, p) + filtered_rows(b.drop_last(), p).push(b.last()) =~= (
            filtered_rows(a, p) + filtered_rows(b.drop_last(), p)).push(b.last()));
        }
    }
}

pub proof fn lemma_any_row_step(rows: Seq<AnalyticsTaskRow>, i: int, p: spec_fn(AnalyticsTaskRow) -> bool)
    requires
        0 <= i < rows.len(),
    ensures
        any_row(rows.take(i + 1), p) == (any_row(rows.take(i), p) || p(rows[i])),
{
    if any_row(rows.take(i + 1), p) {
        let k = choose|k: int| 0 <= k < rows.take(i + 1).len() && p(#[trigger] rows.take(i + 1)[k]);
        if k < i {
            assert(rows.take(i)[k] == rows.take(i + 1)[k]);
        }
    }
    if any_row(rows.take(i), p) {
        let k = choose|k: int| 0 <= k < rows.take(i).len() && p(#[trigger] rows.take(i)[k]);
        assert(rows.take(i + 1)[k] == rows.take(i)[k]);
    }
    if p(rows[i]) {
        assert(rows.take(i + 1)[i] == rows[i]);
    }
}

impl AnalyticsTaskRow {
    /// A field-by-field copy.
    pub fn duplicate(&self) -> (r: Self)
        ensures
            r == *self,
    {
        AnalyticsTaskRow {
            id: self.id.clone(),
            category_id: self.category_id.clone(),
            time_length: self.time_length,
            date: self.date.clone(),
            note: match &self.note {
                Some(n) => Some(n.clone()),
                None => None,
            },
            project_id: match &self.project_id {
                Some(n) => Some(n.clone()),
                None => None,
            },
            project_label: match &self.project_label {
                Some(n) => Some(n.clone()),
                None => None,
            },
            project_is_done: self.project_is_done,
            is_project_closing_task: self.is_project_closing_task,
        }
    }
}

/// Rows whose key is `k`.
pub open spec fn keyed(key: spec_fn(AnalyticsTaskRow) -> Seq<char>, k: Seq<char>) -> spec_fn(AnalyticsTaskRow) -> bool {
    |r: AnalyticsTaskRow| key(r) == k
}

/// The minutes of the rows of each key, summed over the keys.
pub open spec fn keyed_minutes(
    rows: Seq<AnalyticsTaskRow>,
    keys: Seq<Seq<char>>,
    key: spec_fn(AnalyticsTaskRow) -> Seq<char>,
) -> int
    decreases keys.len(),
{
    if keys.len() == 0 {
        0
    } else {
        keyed_minutes(rows, keys.drop_last(), key) + filtered_minutes(rows, keyed(key, keys.last()))
    }
}

/// The number of rows of each key, summed over the keys.
pub open spec fn keyed_count(
    rows: Seq<AnalyticsTaskRow>,
    keys: Seq<Seq<char>>,
    key: spec_fn(AnalyticsTaskRow) -> Seq<char>,
) -> int
    decreases keys.len(),
{
    if keys.len() == 0 {
        0
    } else {
        keyed_count(rows, keys.drop_last(), key) + filtered_count(rows, keyed(key, keys.last()))
    }
}

/// No key occurs twice.
pub open spec fn distinct_keys(keys: Seq<Seq<char>>) -> bool {
    forall|i: int, j: int| 0 <= i < j < keys.len() ==> keys[i] != keys[j]
}

proof fn lemma_keyed_push(
    rows: Seq<AnalyticsTaskRow>,
    x: AnalyticsTaskRow,
    keys: Seq<Seq<char>>,
    key: spec_fn(AnalyticsTaskRow) -> Seq<char>,
)
    requires
        distinct_keys(keys),
    ensures
        keyed_minutes(rows.push(x), keys, key) == keyed_minutes(rows, keys, key) + if keys.contains(key(x)) {
            x.time_length as int
        } else {
            0
        },
        keyed_count(rows.push(x), keys, key) == keyed_count(rows, keys, key) + if keys.contains(key(x)) {
            1int
        } else {
            0
        },
    decreases keys.len(),
{
    assert(rows.push(x).drop_last() =~= rows);
    if keys.len() > 0 {
        let d = keys.drop_last();
        assert(distinct_keys(d)) by {
            assert forall|i: int, j: int| 0 <= i < j < d.len() implies d[i] != d[j] by {
                assert(d[i] == keys[i] && d[j] == keys[j]);
            }
        }
        lemma_keyed_push(rows, x, d, key);
        if d.contains(key(x)) {
            let i = choose|i: int| 0 <= i < d.len() && d[i] == key(x);
            assert(keys[i] == key(x));
            assert(keys.contains(key(x)));
            assert(keys[keys.len() - 1] != keys[i]);
        } else if key(x) == keys.last() {
            assert(keys[keys.len() - 1] == key(x));
        } else {
            if keys.contains(key(x)) {
                let i = choose|i: int| 0 <= i < keys.len() && keys[i] == key(x);
                if i < keys.len() - 1 {
                    assert(d[i] == keys[i]);
                }
            }
        }
    }
}

/// Rows split by a key that takes each value of `keys` at most once in the
/// list add up to all the rows, when every row's key is listed.
pub proof fn lemma_keyed_partition(
    rows: Seq<AnalyticsTaskRow>,
    keys: Seq<Seq<char>>,
    key: spec_fn(AnalyticsTaskRow) -> Seq<char>,
)
    requires
        distinct_keys(keys),
        forall|k: int| 0 <= k < rows.len() ==> keys.contains(key(#[trigger] rows[k])),
    ensures
        keyed_minutes(rows, keys, key) == sum_minutes(rows),
        keyed_count(rows, keys, key) == rows.len(),
    decreases rows.len(),
{
    if rows.len() == 0 {
        lemma_keyed_empty(rows, keys, key);
    } else {
        let d = rows.drop_last();
        assert forall|k: int| 0 <= k < d.len() implies keys.contains(key(#[trigger] d[k])) by {
            assert(d[k] == rows[k]);
        }
        lemma_keyed_partition(d, keys, key);
        assert(rows =~= d.push(rows.last()));
        assert(keys.contains(key(rows[rows.len() - 1])));
        lemma_keyed_push(d, rows.last(), keys, key);
        assert(filtered_count(rows, |r: AnalyticsTaskRow| true) == rows.len()) by {
            lemma_count_all(rows);
        }
    }
}

proof fn lemma_keyed_empty(
    rows: Seq<AnalyticsTaskRow>,
    keys: Seq<Seq<char>>,
    key: spec_fn(AnalyticsTaskRow) -> Seq<char>,
)
    requires
        rows.len() == 0,
    ensures
        keyed_minutes(rows, keys, key) == 0,
        keyed_count(rows, keys, key) == 0,
    decreases keys.len(),
{
    if keys.len() > 0 {
        lemma_keyed_empty(rows, keys.drop_last(), key);
    }
}

proof fn lemma_count_all(rows: Seq<AnalyticsTaskRow>)
    ensures
        filtered_count(rows, |r: AnalyticsTaskRow| true) == rows.len(),
    decreases rows.len(),
{
    if rows.len() > 0 {
        lemma_count_all(rows.drop_last());
    }
}

/// Summing by distinct keys is filtering by membership in the keys.
pub proof fn lemma_keyed_filter(
    rows: Seq<AnalyticsTaskRow>,
    keys: Seq<Seq<char>>,
    key: spec_fn(AnalyticsTaskRow) -> Seq<char>,
)
    requires
        distinct_keys(keys),
    ensures
        keyed_minutes(rows, keys, key) == filtered_minutes(rows, |r: AnalyticsTaskRow| keys.contains(key(r))),
        keyed_count(rows, keys, key) == filtered_count(rows, |r: AnalyticsTaskRow| keys.contains(key(r))),
    decreases rows.len(),
{
    if rows.len() == 0 {
        lemma_keyed_empty(rows, keys, key);
    } else {
        let d = rows.drop_last();
        lemma_keyed_filter(d, keys, key);
        assert(rows =~= d.push(rows.last()));
        lemma_keyed_push(d, rows.last(), keys, key);
    }
}

/// Keys listed one after another sum part by part.
pub proof fn lemma_keyed_append(
    rows: Seq<AnalyticsTaskRow>,
    a: Seq<Seq<char>>,
    b: Seq<Seq<char>>,
    key: spec_fn(AnalyticsTaskRow) -> Seq<char>,
)
    ensures
        keyed_minutes(rows, a + b, key) == keyed_minutes(rows, a, key) + keyed_minutes(rows, b, key),
        keyed_count(rows, a + b, key) == keyed_count(rows, a, key) + keyed_count(rows, b, key),
    decreases b.len(),
{
    if b.len() == 0 {
        assert(a + b =~= a);
    } else {
        lemma_keyed_append(rows, a, b.drop_last(), key);
        assert((a + b).drop_last() =~= a + b.drop_last());
        assert((a + b).last() == b.last());
    }
}

/// The rows that satisfy `p` and those that do not make up all the rows.
pub proof fn lemma_filter_complement(rows: Seq<AnalyticsTaskRow>, p: spec_fn(AnalyticsTaskRow) -> bool)
    ensures
        filtered_minutes(rows, p) + filtered_minutes(rows, |r: AnalyticsTaskRow| !p(r)) == sum_minutes(rows),
        filtered_count(rows, p) + filtered_count(rows, |r: AnalyticsTaskRow| !p(r)) == rows.len(),
    decreases rows.len(),
{
    if rows.len() > 0 {
        lemma_filter_complement(rows.drop_last(), p);
    }
}

} // verus!
