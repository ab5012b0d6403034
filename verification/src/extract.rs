//! Extraction of blocked-source events from the records of one log file.

use crate::clean::{clean_event_description, cleaned};
use crate::entries::{distinct, insert_entry, lemma_distinct, lemma_merged};
use crate::rows::{csv_rows, field, get_field, read_rows, row_views};
use crate::text::{free_of, join_fields, join_with, lemma_split_join, same_text, split_on};
use crate::time::{in_window, naive_local_now, parse_timestamp, stamp_of, Timestamp};
use vstd::prelude::*;

verus! {

/// Place of the priority in a log record.
pub const PRIORITY_FIELD: usize = 1;

/// Place of the event description in a log record.
pub const DESCRIPTION_FIELD: usize = 3;

/// Place of the date and time in a log record.
pub const TIMESTAMP_FIELD: usize = 4;

/// Place of the source address in a log record.
pub const SOURCE_FIELD: usize = 6;

/// Place of the blocked flag in a log record.
pub const BLOCKED_FIELD: usize = 11;

/// Place of the destination address in a log record.
pub const DESTINATION_FIELD: usize = 12;

/// The flag of a record whose source was blocked.
pub open spec fn blocked_mark() -> Seq<char> {
    seq!['1']
}

/// A record passes when its stamp parsed, lies strictly after `now - days`,
/// and its flag says that the source was blocked.
pub open spec fn passes(stamp: Option<(int, int)>, flag: Seq<char>, now: (int, int), days: int) -> bool {
    match stamp {
        Some(t) => in_window(t, now, days) && flag == blocked_mark(),
        None => false,
    }
}

/// Whether `row` is taken into the ledger.
pub open spec fn included(row: Seq<Seq<char>>, now: (int, int), days: int) -> bool {
    passes(
        stamp_of(field(row, TIMESTAMP_FIELD as int)),
        field(row, BLOCKED_FIELD as int),
        now,
        days,
    )
}

/// The five fields of the canonical entry of `row`: stamp, source,
/// destination, cleaned description, priority.
pub open spec fn entry_fields(row: Seq<Seq<char>>) -> Seq<Seq<char>> {
    seq![
        field(row, TIMESTAMP_FIELD as int),
        field(row, SOURCE_FIELD as int),
        field(row, DESTINATION_FIELD as int),
        cleaned(field(row, DESCRIPTION_FIELD as int)),
        field(row, PRIORITY_FIELD as int),
    ]
}

/// The canonical entry of `row`: its five fields joined by commas.
pub open spec fn entry_of(row: Seq<Seq<char>>) -> Seq<char> {
    join_with(entry_fields(row), ',')
}

/// The canonical entries of the included rows, in the order of the rows.
/// A record that could not be read contributes nothing.
pub open spec fn candidates(rows: Seq<Option<Seq<Seq<char>>>>, now: (int, int), days: int) -> Seq<
    Seq<char>,
>
    decreases rows.len(),
{
    if rows.len() == 0 {
        Seq::empty()
    } else {
        let rest = candidates(rows.drop_last(), now, days);
        match rows.last() {
            Some(row) => if included(row, now, days) {
                rest.push(entry_of(row))
            } else {
                rest
            },
            None => rest,
        }
    }
}

/// What extraction yields: each canonical entry of an included row, once.
pub open spec fn extracted(rows: Seq<Option<Seq<Seq<char>>>>, now: (int, int), days: int) -> Seq<
    Seq<char>,
> {
    distinct(candidates(rows, now, days))
}

/// A text is a candidate exactly when some readable, included row has it
/// as its canonical entry.
pub proof fn lemma_candidates(
    rows: Seq<Option<Seq<Seq<char>>>>,
    now: (int, int),
    days: int,
    e: Seq<char>,
)
    ensures
        candidates(rows, now, days).contains(e) <==> exists|i: int|
            0 <= i < rows.len() && (#[trigger] rows[i]) is Some && included(
                rows[i]->0,
                now,
                days,
            ) && entry_of(rows[i]->0) == e,
    decreases rows.len(),
{
    let c = candidates(rows, now, days);
    if rows.len() > 0 {
        let rest_rows = rows.drop_last();
        let rest = candidates(rest_rows, now, days);
        let n = rows.len() - 1;
        lemma_candidates(rest_rows, now, days, e);
        let added = rows[n] is Some && included(rows[n]->0, now, days);
        if c.contains(e) {
            let k = choose|k: int| 0 <= k < c.len() && c[k] == e;
            if added && k == rest.len() {
                assert(rows[n] is Some && entry_of(rows[n]->0) == e);
            } else {
                assert(rest[k] == e);
                let i = choose|i: int|
                    0 <= i < rest_rows.len() && (#[trigger] rest_rows[i]) is Some && included(
                        rest_rows[i]->0,
                        now,
                        days,
                    ) && entry_of(rest_rows[i]->0) == e;
                assert(rows[i] == rest_rows[i]);
            }
        }
        if exists|i: int|
            0 <= i < rows.len() && (#[trigger] rows[i]) is Some && included(rows[i]->0, now, days)
                && entry_of(rows[i]->0) == e {
            let i = choose|i: int|
                0 <= i < rows.len() && (#[trigger] rows[i]) is Some && included(
                    rows[i]->0,
                    now,
                    days,
                ) && entry_of(rows[i]->0) == e;
            if i == n {
                assert(c == rest.push(e));
                assert(c[rest.len() as int] == e);
            } else {
                assert(rest_rows[i] == rows[i]);
                let k = choose|k: int| 0 <= k < rest.len() && rest[k] == e;
                assert(c[k] == e);
            }
        }
    }
}

/// There are at most as many candidates as rows.
pub proof fn lemma_candidates_len(rows: Seq<Option<Seq<Seq<char>>>>, now: (int, int), days: int)
    ensures
        candidates(rows, now, days).len() <= rows.len(),
    decreases rows.len(),
{
    if rows.len() > 0 {
        lemma_candidates_len(rows.drop_last(), now, days);
    }
}

/// Every extracted entry comes from a readable row whose blocked flag is
/// `1` and whose stamp lies strictly inside the window: a row with another
/// flag yields no entry, whatever its date.
pub proof fn lemma_blocked_gate(
    rows: Seq<Option<Seq<Seq<char>>>>,
    now: (int, int),
    days: int,
    e: Seq<char>,
)
    requires
        extracted(rows, now, days).contains(e),
    ensures
        exists|i: int|
            0 <= i < rows.len() && (#[trigger] rows[i]) is Some && entry_of(rows[i]->0) == e
                && field(rows[i]->0, BLOCKED_FIELD as int) == blocked_mark() && stamp_of(
                field(rows[i]->0, TIMESTAMP_FIELD as int),
            ) is Some && in_window(
                stamp_of(field(rows[i]->0, TIMESTAMP_FIELD as int))->0,
                now,
                days,
            ),
{
    lemma_distinct(candidates(rows, now, days));
    lemma_candidates(rows, now, days, e);
    let i = choose|i: int|
        0 <= i < rows.len() && (#[trigger] rows[i]) is Some && included(rows[i]->0, now, days)
            && entry_of(rows[i]->0) == e;
    assert(rows[i] is Some);
}

/// Extraction yields no entry twice, every entry of an included row, and as
/// many entries as the included rows have distinct canonical entries, which
/// is never more than there are rows.
pub proof fn lemma_extracted(rows: Seq<Option<Seq<Seq<char>>>>, now: (int, int), days: int)
    ensures
        extracted(rows, now, days).no_duplicates(),
        extracted(rows, now, days).len() == candidates(rows, now, days).to_set().len(),
        extracted(rows, now, days).len() <= rows.len(),
        forall|i: int|
            0 <= i < rows.len() && (#[trigger] rows[i]) is Some && included(rows[i]->0, now, days)
                ==> extracted(rows, now, days).contains(entry_of(rows[i]->0)),
{
    lemma_distinct(candidates(rows, now, days));
    lemma_merged(Seq::empty(), candidates(rows, now, days));
    lemma_candidates_len(rows, now, days);
    assert forall|i: int|
        0 <= i < rows.len() && (#[trigger] rows[i]) is Some && included(
            rows[i]->0,
            now,
            days,
        ) implies extracted(rows, now, days).contains(entry_of(rows[i]->0)) by {
        lemma_candidates(rows, now, days, entry_of(rows[i]->0));
    }
}

/// Splitting a canonical entry at its commas gives back the five fields it
/// was built from, for every row of which none of these fields holds a
/// comma.
pub proof fn lemma_entry_fields_back(row: Seq<Seq<char>>)
    requires
        free_of(entry_fields(row), ','),
    ensures
        split_on(entry_of(row), ',') == entry_fields(row),
{
    lemma_split_join(entry_fields(row), ',');
}

/// Whether a record with this parsed stamp and this flag is taken.
pub fn passes_gate(stamp: Option<Timestamp>, flag: &str, now: &Timestamp, days_back: i64) -> (out:
    bool)
    ensures
        out == passes(
            match stamp {
                Some(t) => Some(t@),
                None => None,
            },
            flag@,
            now@,
            days_back as int,
        ),
{
    match stamp {
        Some(t) => {
            proof {
                reveal_strlit("1");
                assert("1"@ =~= blocked_mark());
            }
            t.within(now, days_back) && same_text(flag, "1")
        },
        None => false,
    }
}

/// Whether `row` is taken into the ledger.
pub fn is_included(row: &Vec<String>, now: &Timestamp, days_back: i64) -> (out: bool)
    ensures
        out == included(row.deep_view(), now@, days_back as int),
{
    let stamp = parse_timestamp(get_field(row, TIMESTAMP_FIELD));
    passes_gate(stamp, get_field(row, BLOCKED_FIELD), now, days_back)
}

/// Builds the canonical entry of `row`.
pub fn canonical_entry(row: &Vec<String>) -> (out: String)
    ensures
        out@ == entry_of(row.deep_view()),
{
    let mut fields: Vec<String> = Vec::new();
    fields.push(String::from_str(get_field(row, TIMESTAMP_FIELD)));
    fields.push(String::from_str(get_field(row, SOURCE_FIELD)));
    fields.push(String::from_str(get_field(row, DESTINATION_FIELD)));
    fields.push(clean_event_description(get_field(row, DESCRIPTION_FIELD)));
    fields.push(String::from_str(get_field(row, PRIORITY_FIELD)));
    proof {
        reveal_strlit(",");
        assert(fields.deep_view() =~= entry_fields(row.deep_view()));
    }
    join_fields(&fields, ",")
}

/// Extracts the entries of the rows of one file, for the clock reading
/// `now`.
pub fn extract_entries(rows: &Vec<Option<Vec<String>>>, now: &Timestamp, days_back: i64) -> (out:
    Vec<String>)
    ensures
        out.deep_view() == extracted(row_views(rows@), now@, days_back as int),
        out.deep_view().no_duplicates(),
        out.len() == candidates(row_views(rows@), now@, days_back as int).to_set().len(),
{
    let mut out: Vec<String> = Vec::new();
    let ghost all = row_views(rows@);
    let ghost days = days_back as int;
    assert(out.deep_view() =~= Seq::<Seq<char>>::empty());
    let mut i: usize = 0;
    while i < rows.len()
        invariant
            i <= rows.len(),
            all == row_views(rows@),
            days == days_back as int,
            out.deep_view() == extracted(all.take(i as int), now@, days),
        decreases rows.len() - i,
    {
        proof {
            let next = all.take(i + 1);
            assert(next.drop_last() =~= all.take(i as int));
            assert(next.last() == all[i as int]);
            let rest = candidates(all.take(i as int), now@, days);
            if all[i as int] is Some && included(all[i as int]->0, now@, days) {
                let e = entry_of(all[i as int]->0);
                assert(candidates(next, now@, days) == rest.push(e));
                assert(rest.push(e).drop_last() =~= rest);
            }
        }
        match &rows[i] {
            Some(row) => {
                if is_included(row, now, days_back) {
                    insert_entry(&mut out, canonical_entry(row));
                }
            },
            None => {},
        }
        i += 1;
    }
    proof {
        assert(all.take(rows.len() as int) =~= all);
        lemma_extracted(all, now@, days);
    }
    out
}

/// Extracts the entries of one log file from its bytes, for the clock
/// reading `now`.
pub fn process_csv_file_at(data: &[u8], now: &Timestamp, days_back: i64) -> (out: Vec<String>)
    ensures
        out.deep_view() == extracted(csv_rows(data@), now@, days_back as int),
        out.deep_view().no_duplicates(),
{
    let rows = read_rows(data);
    extract_entries(&rows, now, days_back)
}

/// Extracts the entries of one log file from its bytes. The clock is read
/// once, and the whole file is held against that one reading.
pub fn process_csv_file(data: &[u8], days_back: i64) -> (out: Vec<String>)
    ensures
        exists|now: (int, int)|
            out.deep_view() == #[trigger] extracted(csv_rows(data@), now, days_back as int),
        out.deep_view().no_duplicates(),
{
    let now = naive_local_now();
    let out = process_csv_file_at(data, &now, days_back);
    assert(out.deep_view() == extracted(csv_rows(data@), now@, days_back as int));
    out
}

} // verus!
