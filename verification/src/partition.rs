//! Partitioning by date: which dates a column of keys holds, and which rows
//! belong to each.

use crate::dates::{date_of, date_prefix, has_date};
use crate::keys::{key_views, text_of, texts};
use vstd::hash_set::StringHashSet;
use vstd::prelude::*;
use vstd::seq_lib::lemma_seq_contains_after_push;

verus! {

/// A key column that cannot be partitioned.
#[derive(Debug, Clone, Copy, PartialEq, Eq, Structural)]
pub enum SchemaError {
    /// The row holds no key.
    MissingKey { row: usize },
    /// The row's key is too short to hold a date.
    ShortKey { row: usize },
}

/// One date of a key column with the rows that carry it.
#[derive(Debug)]
pub struct DateGroup {
    /// The date.
    pub date: String,
    /// For each row of the column, whether its key starts with the date.
    pub mask: Vec<bool>,
}

/// Whether row `i` has a key that starts with a date.
pub open spec fn dated(keys: Seq<Option<Seq<char>>>, i: int) -> bool {
    keys[i] is Some && has_date(keys[i]->0)
}

/// Whether every row has a key that starts with a date.
pub open spec fn all_dated(keys: Seq<Option<Seq<char>>>) -> bool {
    forall|i: int| 0 <= i < keys.len() ==> dated(keys, i)
}

/// The date of each row.
pub open spec fn key_dates(keys: Seq<Option<Seq<char>>>) -> Seq<Seq<char>> {
    keys.map_values(|key: Option<Seq<char>>| date_of(key->0))
}

/// The dates that occur among the first `n` rows, each once, in the order in
/// which they first occur.
pub open spec fn distinct_dates(dates: Seq<Seq<char>>, n: nat) -> Seq<Seq<char>>
    decreases n,
{
    if n == 0 {
        Seq::empty()
    } else if dates.take(n - 1).contains(dates[n - 1]) {
        distinct_dates(dates, (n - 1) as nat)
    } else {
        distinct_dates(dates, (n - 1) as nat).push(dates[n - 1])
    }
}

/// For each row, whether its date is `date`.
pub open spec fn date_mask(dates: Seq<Seq<char>>, date: Seq<char>) -> Seq<bool> {
    dates.map_values(|d: Seq<char>| d == date)
}

/// The rows among the first `n` whose mask is set, in order.
pub open spec fn selected<T>(rows: Seq<T>, mask: Seq<bool>, n: nat) -> Seq<T>
    decreases n,
{
    if n == 0 {
        Seq::empty()
    } else if mask[n - 1] {
        selected(rows, mask, (n - 1) as nat).push(rows[n - 1])
    } else {
        selected(rows, mask, (n - 1) as nat)
    }
}

/// The rows that a mask keeps.
pub open spec fn kept<T>(rows: Seq<T>, mask: Seq<bool>) -> Seq<T> {
    selected(rows, mask, rows.len())
}

/// How many of the first `n` rows the partitions of the dates `of` hold together.
pub open spec fn total_rows(dates: Seq<Seq<char>>, of: Seq<Seq<char>>, n: nat) -> nat
    decreases of.len(),
{
    if of.len() == 0 {
        0
    } else {
        total_rows(dates, of.drop_last(), n) + selected(dates, date_mask(dates, of.last()), n).len()
    }
}

/// Whether `groups` is the partition of a key column by date: one group for
/// each date that occurs, in the order of first occurrence, whose mask marks
/// exactly the rows of that date.
pub open spec fn is_plan_of(groups: Seq<DateGroup>, keys: Seq<Option<Seq<char>>>) -> bool {
    let dates = key_dates(keys);
    &&& groups.len() == distinct_dates(dates, dates.len()).len()
    &&& forall|p: int|
        0 <= p < groups.len() ==> (#[trigger] groups[p]).date@ == distinct_dates(
            dates,
            dates.len(),
        )[p] && groups[p].mask@ == date_mask(dates, groups[p].date@)
}

/// The row that an error names.
pub open spec fn fault_row(error: SchemaError) -> usize {
    match error {
        SchemaError::MissingKey { row } => row,
        SchemaError::ShortKey { row } => row,
    }
}

/// Whether `error` names the first row that has no key or too short a key.
pub open spec fn is_first_fault(error: SchemaError, keys: Seq<Option<Seq<char>>>) -> bool {
    match error {
        SchemaError::MissingKey { row } => {
            &&& row < keys.len()
            &&& keys[row as int] is None
            &&& forall|i: int| 0 <= i < row ==> dated(keys, i)
        },
        SchemaError::ShortKey { row } => {
            &&& row < keys.len()
            &&& keys[row as int] is Some
            &&& !has_date(keys[row as int]->0)
            &&& forall|i: int| 0 <= i < row ==> dated(keys, i)
        },
    }
}

/// Reads the date of every row, or reports the first row that has none.
pub fn row_dates(keys: &Vec<Option<String>>) -> (outcome: Result<Vec<String>, SchemaError>)
    ensures
        match outcome {
            Ok(dates) => all_dated(key_views(keys@))
                && texts(dates@) == key_dates(key_views(keys@)),
            Err(error) => is_first_fault(error, key_views(keys@)),
        },
{
    let ghost column = key_views(keys@);
    let mut dates: Vec<String> = Vec::new();
    let mut i: usize = 0;
    while i < keys.len()
        invariant
            i <= keys.len(),
            column == key_views(keys@),
            dates@.len() == i,
            forall|j: int| 0 <= j < i ==> dated(column, j),
            forall|j: int| 0 <= j < i ==> (#[trigger] dates@[j])@ == date_of(column[j]->0),
        decreases keys.len() - i,
    {
        assert(column[i as int] == text_of(keys@[i as int]));
        match &keys[i] {
            None => {
                return Err(SchemaError::MissingKey { row: i });
            },
            Some(key) => {
                match date_prefix(key.as_str()) {
                    None => {
                        return Err(SchemaError::ShortKey { row: i });
                    },
                    Some(date) => {
                        dates.push(date);
                    },
                }
            },
        }
        i = i + 1;
    }
    assert(texts(dates@) =~= key_dates(column));
    Ok(dates)
}

/// The dates that occur in `dates`, each once, in the order of first occurrence.
pub fn first_dates(dates: &Vec<String>) -> (firsts: Vec<String>)
    ensures
        texts(firsts@) == distinct_dates(texts(dates@), dates@.len()),
{
    let ghost all = texts(dates@);
    let mut seen = StringHashSet::new();
    let mut firsts: Vec<String> = Vec::new();
    let mut i: usize = 0;
    assert(seen@ =~= all.take(0).to_set());
    assert(texts(firsts@) =~= distinct_dates(all, 0));
    while i < dates.len()
        invariant
            i <= dates.len(),
            all == texts(dates@),
            seen@ == all.take(i as int).to_set(),
            texts(firsts@) == distinct_dates(all, i as nat),
        decreases dates.len() - i,
    {
        let date = &dates[i];
        assert(all[i as int] == date@);
        assert(all.take(i + 1) == all.take(i as int).push(date@));
        let ghost listed = texts(firsts@);
        if !seen.contains(date.as_str()) {
            seen.insert(date.clone());
            firsts.push(date.clone());
            assert(texts(firsts@) =~= listed.push(date@));
        }
        proof {
            let shorter = all.take(i as int);
            let longer = all.take(i + 1);
            assert forall|d: Seq<char>| longer.contains(d) <==> shorter.contains(d) || d
                == date@ by {
                lemma_seq_contains_after_push(shorter, date@, d);
            }
            assert(seen@ =~= longer.to_set());
        }
        i = i + 1;
    }
    firsts
}

/// For each row, whether its date is `date`.
pub fn rows_of_date(dates: &Vec<String>, date: &String) -> (mask: Vec<bool>)
    ensures
        mask@ == date_mask(texts(dates@), date@),
{
    let mut mask: Vec<bool> = Vec::new();
    let mut i: usize = 0;
    while i < dates.len()
        invariant
            i <= dates.len(),
            mask@.len() == i,
            forall|j: int| 0 <= j < i ==> mask@[j] == (dates@[j]@ == date@),
        decreases dates.len() - i,
    {
        mask.push(dates[i] == *date);
        i = i + 1;
    }
    assert(mask@ =~= date_mask(texts(dates@), date@));
    mask
}

/// Partitions a key column by date. Every row must hold a key of at least ten
/// characters; the first row that does not is reported.
pub fn plan_partitions(keys: &Vec<Option<String>>) -> (outcome: Result<Vec<DateGroup>, SchemaError>)
    ensures
        match outcome {
            Ok(groups) => all_dated(key_views(keys@))
                && is_plan_of(groups@, key_views(keys@)),
            Err(error) => is_first_fault(error, key_views(keys@)),
        },
{
    let dates = match row_dates(keys) {
        Ok(dates) => dates,
        Err(error) => {
            return Err(error);
        },
    };
    let firsts = first_dates(&dates);
    let ghost all = texts(dates@);
    let mut groups: Vec<DateGroup> = Vec::new();
    let mut p: usize = 0;
    while p < firsts.len()
        invariant
            p <= firsts.len(),
            all == texts(dates@),
            texts(firsts@) == distinct_dates(all, all.len()),
            groups@.len() == p,
            forall|q: int|
                0 <= q < p ==> (#[trigger] groups@[q]).date@ == distinct_dates(all, all.len())[q]
                    && groups@[q].mask@ == date_mask(all, groups@[q].date@),
        decreases firsts.len() - p,
    {
        let date = firsts[p].clone();
        assert(texts(firsts@)[p as int] == date@);
        let mask = rows_of_date(&dates, &date);
        groups.push(DateGroup { date, mask });
        p = p + 1;
    }
    Ok(groups)
}

/// Each date of the column is listed once.
pub proof fn lemma_distinct_dates(dates: Seq<Seq<char>>, n: nat)
    requires
        n <= dates.len(),
    ensures
        distinct_dates(dates, n).no_duplicates(),
        forall|d: Seq<char>| #[trigger]
            distinct_dates(dates, n).contains(d) <==> dates.take(n as int).contains(d),
    decreases n,
{
    if n > 0 {
        let m = (n - 1) as nat;
        let earlier = distinct_dates(dates, m);
        let out = distinct_dates(dates, n);
        let shorter = dates.take(m as int);
        let longer = dates.take(n as int);
        lemma_distinct_dates(dates, m);
        assert(longer == shorter.push(dates[m as int]));
        if !shorter.contains(dates[m as int]) {
            assert(out == earlier.push(dates[m as int]));
            assert forall|a: int, b: int| 0 <= a < b < out.len() implies out[a] != out[b] by {
                if b == earlier.len() {
                    assert(earlier[a] == out[a]);
                    assert(earlier.contains(out[a]));
                }
            }
        }
        assert forall|d: Seq<char>| #[trigger] out.contains(d) <==> longer.contains(d) by {
            lemma_seq_contains_after_push(shorter, dates[m as int], d);
            lemma_seq_contains_after_push(earlier, dates[m as int], d);
        }
    }
}

/// Every row that the mask of a date keeps carries a key of that date.
pub proof fn lemma_kept_rows_have_date(keys: Seq<Option<Seq<char>>>, date: Seq<char>, n: nat)
    requires
        n <= keys.len(),
        all_dated(keys),
    ensures
        forall|r: int|
            0 <= r < selected(keys, date_mask(key_dates(keys), date), n).len() ==> {
                let key = #[trigger] selected(keys, date_mask(key_dates(keys), date), n)[r];
                key is Some && has_date(key->0) && date_of(key->0) == date
            },
    decreases n,
{
    if n > 0 {
        lemma_kept_rows_have_date(keys, date, (n - 1) as nat);
        assert(dated(keys, n - 1));
    }
}

/// How many rows a mask keeps does not depend on what the rows hold.
pub proof fn lemma_kept_count<T, U>(rows: Seq<T>, others: Seq<U>, mask: Seq<bool>, n: nat)
    ensures
        selected(rows, mask, n).len() == selected(others, mask, n).len(),
    decreases n,
{
    if n > 0 {
        lemma_kept_count(rows, others, mask, (n - 1) as nat);
    }
}

/// A date that none of the first `n` rows carries keeps none of them.
proof fn lemma_absent_date_keeps_nothing(dates: Seq<Seq<char>>, date: Seq<char>, n: nat)
    requires
        n <= dates.len(),
        !dates.take(n as int).contains(date),
    ensures
        selected(dates, date_mask(dates, date), n).len() == 0,
    decreases n,
{
    if n > 0 {
        let m = (n - 1) as nat;
        assert(dates.take(n as int)[m as int] == dates[m as int]);
        assert forall|j: int| 0 <= j < m implies dates.take(m as int)[j] != date by {
            assert(dates.take(n as int)[j] == dates[j]);
        }
        lemma_absent_date_keeps_nothing(dates, date, m);
    }
}

/// One more row adds one to the partitions of a list of different dates where
/// its date is among them, and nothing where it is not.
proof fn lemma_total_rows_step(dates: Seq<Seq<char>>, of: Seq<Seq<char>>, n: nat)
    requires
        n < dates.len(),
        of.no_duplicates(),
    ensures
        total_rows(dates, of, n + 1) == total_rows(dates, of, n) + if of.contains(dates[n as int]) {
            1nat
        } else {
            0nat
        },
    decreases of.len(),
{
    if of.len() > 0 {
        let rest = of.drop_last();
        let x = dates[n as int];
        lemma_total_rows_step(dates, rest, n);
        assert(of.last() == of[of.len() - 1]);
        if rest.contains(x) {
            let q = choose|q: int| 0 <= q < rest.len() && rest[q] == x;
            assert(of[q] == x);
            assert(of.last() != x);
        } else if of.last() != x {
            if of.contains(x) {
                let q = choose|q: int| 0 <= q < of.len() && of[q] == x;
                assert(rest[q] == x);
            }
        }
    }
}

/// The partitions together hold as many rows as the column has, so that with
/// each row in the partition of its own date no row is left out and none is
/// held twice.
pub proof fn lemma_partitions_hold_every_row(dates: Seq<Seq<char>>, n: nat)
    requires
        n <= dates.len(),
    ensures
        total_rows(dates, distinct_dates(dates, n), n) == n,
    decreases n,
{
    if n > 0 {
        let m = (n - 1) as nat;
        let earlier = distinct_dates(dates, m);
        let x = dates[m as int];
        lemma_partitions_hold_every_row(dates, m);
        lemma_distinct_dates(dates, m);
        lemma_distinct_dates(dates, n);
        if dates.take(m as int).contains(x) {
            lemma_total_rows_step(dates, earlier, m);
        } else {
            let out = earlier.push(x);
            assert(out.drop_last() == earlier);
            lemma_total_rows_step(dates, earlier, m);
            lemma_absent_date_keeps_nothing(dates, x, m);
        }
    }
}

/// A key column has one partition by date: two plans of the same column list
/// the same dates in the same order with the same rows.
pub proof fn lemma_plan_is_determined(
    keys: Seq<Option<Seq<char>>>,
    first: Seq<DateGroup>,
    second: Seq<DateGroup>,
)
    requires
        is_plan_of(first, keys),
        is_plan_of(second, keys),
    ensures
        first.len() == second.len(),
        forall|p: int|
            0 <= p < first.len() ==> (#[trigger] first[p]).date@ == second[p].date@
                && first[p].mask@ == second[p].mask@,
{
}

} // verus!
