//! The ledger: appending entries as delimited records, and compaction to the
//! entries inside the retention window, each once, newest first.

use crate::rows::{csv_line, csv_rows, encode_row, read_rows, row_views};
use crate::text::{join_fields, join_with, split_fields, split_on};
use crate::time::{in_window, later, naive_local_now, parse_timestamp, stamp_of, Timestamp};
use vstd::prelude::*;

verus! {

/// Days that an entry stays in the ledger.
pub const RETENTION_DAYS: i64 = 15;

/// One line of the ledger with the stamp that its first field holds.
#[derive(Debug)]
pub struct LedgerEntry {
    pub stamp: Timestamp,
    pub text: String,
}

impl DeepView for LedgerEntry {
    type V = ((int, int), Seq<char>);

    open spec fn deep_view(&self) -> ((int, int), Seq<char>) {
        (self.stamp@, self.text@)
    }
}

/// Why a ledger could not be compacted.
#[derive(Debug, PartialEq, Eq)]
pub enum LedgerError {
    /// The record at this place, counted from 0, could not be read.
    MalformedRecord { index: usize },
}

/// The bytes of the records that the lines make: each line is split at its
/// commas and written as one record.
pub open spec fn encoded(lines: Seq<Seq<char>>) -> Seq<u8>
    decreases lines.len(),
{
    if lines.len() == 0 {
        Seq::empty()
    } else {
        encoded(lines.drop_last()) + csv_line(split_on(lines.last(), ','))
    }
}

/// The texts of stamped lines.
pub open spec fn texts(s: Seq<((int, int), Seq<char>)>) -> Seq<Seq<char>> {
    Seq::new(s.len(), |i: int| s[i].1)
}

/// Whether one of the stamped lines has this text.
pub open spec fn has_text(s: Seq<((int, int), Seq<char>)>, text: Seq<char>) -> bool {
    exists|k: int| 0 <= k < s.len() && (#[trigger] s[k]).1 == text
}

/// What a ledger row is kept as: its stamp and its fields joined by commas,
/// where the first field parses as a stamp strictly after `now - days`.
pub open spec fn kept(row: Seq<Seq<char>>, now: (int, int), days: int) -> Option<
    ((int, int), Seq<char>),
> {
    if row.len() > 0 {
        match stamp_of(row[0]) {
            Some(t) => if in_window(t, now, days) {
                Some((t, join_with(row, ',')))
            } else {
                None
            },
            None => None,
        }
    } else {
        None
    }
}

/// Whether `e` is what one of the rows is kept as.
pub open spec fn from_row(
    rows: Seq<Seq<Seq<char>>>,
    now: (int, int),
    days: int,
    e: ((int, int), Seq<char>),
) -> bool {
    exists|i: int| 0 <= i < rows.len() && kept(#[trigger] rows[i], now, days) == Some(e)
}

/// The kept rows in file order, each text once: of equal lines the first
/// stays.
pub open spec fn recent(rows: Seq<Seq<Seq<char>>>, now: (int, int), days: int) -> Seq<
    ((int, int), Seq<char>),
>
    decreases rows.len(),
{
    if rows.len() == 0 {
        Seq::empty()
    } else {
        let rest = recent(rows.drop_last(), now, days);
        match kept(rows.last(), now, days) {
            Some(e) => if has_text(rest, e.1) {
                rest
            } else {
                rest.push(e)
            },
            None => rest,
        }
    }
}

/// The place of `e` in a sequence sorted newest first: behind every entry
/// that is not older than `e`, found by a scan from position `i`.
pub open spec fn slot(s: Seq<((int, int), Seq<char>)>, e: ((int, int), Seq<char>), i: int) -> int
    decreases s.len() - i,
{
    if i < 0 || i >= s.len() || later(e.0, s[i].0) {
        i
    } else {
        slot(s, e, i + 1)
    }
}

/// `s` with `e` put at its place.
pub open spec fn placed(s: Seq<((int, int), Seq<char>)>, e: ((int, int), Seq<char>)) -> Seq<
    ((int, int), Seq<char>),
> {
    s.insert(slot(s, e, 0), e)
}

/// The entries of `s` sorted newest first; entries with equal stamps keep
/// the order in which `s` has them.
pub open spec fn newest_first(s: Seq<((int, int), Seq<char>)>) -> Seq<((int, int), Seq<char>)>
    decreases s.len(),
{
    if s.len() == 0 {
        Seq::empty()
    } else {
        placed(newest_first(s.drop_last()), s.last())
    }
}

/// No entry is later than one that stands before it.
pub open spec fn descending(s: Seq<((int, int), Seq<char>)>) -> bool {
    forall|i: int, j: int| 0 <= i < j < s.len() ==> !later(#[trigger] s[j].0, #[trigger] s[i].0)
}

/// What compaction leaves of the rows of a ledger.
pub open spec fn compacted(rows: Seq<Seq<Seq<char>>>, now: (int, int), days: int) -> Seq<
    ((int, int), Seq<char>),
> {
    newest_first(recent(rows, now, days))
}

/// The scan for the place of `e` stops between `i` and the end; it passes
/// only entries that are not older than `e`, and stops at one that is.
pub proof fn lemma_slot(s: Seq<((int, int), Seq<char>)>, e: ((int, int), Seq<char>), i: int)
    requires
        0 <= i <= s.len(),
    ensures
        i <= slot(s, e, i) <= s.len(),
        forall|k: int| i <= k < slot(s, e, i) ==> !later(e.0, #[trigger] s[k].0),
        slot(s, e, i) < s.len() ==> later(e.0, s[slot(s, e, i)].0),
    decreases s.len() - i,
{
    if i < s.len() && !later(e.0, s[i].0) {
        lemma_slot(s, e, i + 1);
    }
}

/// Putting an entry at its place keeps a sequence sorted newest first and
/// adds that entry to it, nothing else.
pub proof fn lemma_placed(s: Seq<((int, int), Seq<char>)>, e: ((int, int), Seq<char>))
    requires
        descending(s),
    ensures
        descending(placed(s, e)),
        placed(s, e).len() == s.len() + 1,
        placed(s, e).to_multiset() == s.to_multiset().insert(e),
        forall|text: Seq<char>| #[trigger]
            has_text(placed(s, e), text) <==> has_text(s, text) || text == e.1,
{
    let p = slot(s, e, 0);
    let r = placed(s, e);
    lemma_slot(s, e, 0);
    s.insert_ensures(p, e);
    vstd::seq_lib::to_multiset_insert(s, p, e);
    assert forall|i: int, j: int| 0 <= i < j < r.len() implies !later(
        #[trigger] r[j].0,
        #[trigger] r[i].0,
    ) by {
        if j < p {
            assert(r[i] == s[i] && r[j] == s[j]);
        } else if j == p {
            assert(r[i] == s[i]);
        } else if i < p {
            assert(r[i] == s[i] && r[j] == s[j - 1]);
        } else if i == p {
            assert(r[j] == s[j - 1]);
            if j - 1 > p {
                assert(!later(s[j - 1].0, s[p].0));
            }
        } else {
            assert(r[i] == s[i - 1] && r[j] == s[j - 1]);
        }
    }
    assert forall|text: Seq<char>| #[trigger]
        has_text(r, text) <==> has_text(s, text) || text == e.1 by {
        if has_text(r, text) {
            let k = choose|k: int| 0 <= k < r.len() && (#[trigger] r[k]).1 == text;
            if k < p {
                assert(s[k].1 == text);
            } else if k > p {
                assert(s[k - 1].1 == text);
            }
        }
        if has_text(s, text) {
            let k = choose|k: int| 0 <= k < s.len() && (#[trigger] s[k]).1 == text;
            if k < p {
                assert(r[k].1 == text);
            } else {
                assert(r[k + 1].1 == text);
            }
        }
        if text == e.1 {
            assert(r[p].1 == text);
        }
    }
}

/// Sorting newest first gives a sorted sequence with the same entries, each
/// as often as before.
pub proof fn lemma_newest_first(s: Seq<((int, int), Seq<char>)>)
    ensures
        descending(newest_first(s)),
        newest_first(s).len() == s.len(),
        newest_first(s).to_multiset() == s.to_multiset(),
        forall|text: Seq<char>| #[trigger] has_text(newest_first(s), text) <==> has_text(s, text),
    decreases s.len(),
{
    if s.len() == 0 {
        assert(newest_first(s) =~= s);
    } else {
        let rest = s.drop_last();
        let e = s.last();
        lemma_newest_first(rest);
        lemma_placed(newest_first(rest), e);
        assert(rest.push(e) =~= s);
        vstd::seq_lib::to_multiset_build(rest, e);
        assert forall|text: Seq<char>| #[trigger]
            has_text(newest_first(s), text) <==> has_text(s, text) by {
            if has_text(rest, text) {
                let k = choose|k: int| 0 <= k < rest.len() && (#[trigger] rest[k]).1 == text;
                assert(s[k].1 == text);
            }
            if has_text(s, text) {
                let k = choose|k: int| 0 <= k < s.len() && (#[trigger] s[k]).1 == text;
                if k < rest.len() {
                    assert(rest[k].1 == text);
                }
            }
            if text == e.1 {
                assert(s[s.len() - 1].1 == text);
            }
        }
    }
}

/// The kept rows keep no text twice; each of their entries is what some row
/// is kept as, and every row that is kept has its text among them.
pub proof fn lemma_recent(rows: Seq<Seq<Seq<char>>>, now: (int, int), days: int)
    ensures
        texts(recent(rows, now, days)).no_duplicates(),
        forall|k: int|
            0 <= k < recent(rows, now, days).len() ==> from_row(
                rows,
                now,
                days,
                #[trigger] recent(rows, now, days)[k],
            ),
        forall|i: int|
            0 <= i < rows.len() && kept(#[trigger] rows[i], now, days) is Some ==> has_text(
                recent(rows, now, days),
                (kept(rows[i], now, days)->0).1,
            ),
    decreases rows.len(),
{
    let r = recent(rows, now, days);
    if rows.len() > 0 {
        let rest_rows = rows.drop_last();
        let rest = recent(rest_rows, now, days);
        let n = rows.len() - 1;
        lemma_recent(rest_rows, now, days);
        assert(rest.is_prefix_of(r));
        assert forall|k: int| 0 <= k < r.len() implies from_row(rows, now, days, #[trigger] r[k]) by {
            if k < rest.len() {
                assert(r[k] == rest[k]);
                let i = choose|i: int|
                    0 <= i < rest_rows.len() && kept(#[trigger] rest_rows[i], now, days) == Some(
                        rest[k],
                    );
                assert(rows[i] == rest_rows[i]);
            } else {
                assert(kept(rows[n], now, days) == Some(r[k]));
            }
        }
        assert forall|i: int|
            0 <= i < rows.len() && kept(#[trigger] rows[i], now, days) is Some implies has_text(
            r,
            (kept(rows[i], now, days)->0).1,
        ) by {
            let text = (kept(rows[i], now, days)->0).1;
            if i < n {
                assert(rest_rows[i] == rows[i]);
                let k = choose|k: int| 0 <= k < rest.len() && (#[trigger] rest[k]).1 == text;
                assert(r[k].1 == text);
            } else if has_text(rest, text) {
                let k = choose|k: int| 0 <= k < rest.len() && (#[trigger] rest[k]).1 == text;
                assert(r[k].1 == text);
            } else {
                assert(r[rest.len() as int].1 == text);
            }
        }
        assert forall|a: int, b: int|
            0 <= a < texts(r).len() && 0 <= b < texts(r).len() && a != b implies texts(r)[a]
            != texts(r)[b] by {
            let lo = if a < b { a } else { b };
            let hi = if a < b { b } else { a };
            if hi < rest.len() {
                assert(texts(rest)[lo] != texts(rest)[hi]);
            } else {
                assert(rest[lo].1 == r[lo].1);
            }
        }
    }
}

/// After compaction every entry lies strictly inside the retention window,
/// no entry is later than one before it, no text occurs twice, each entry is
/// what some row of the ledger is kept as, and every row inside the window
/// has its line among the entries.
pub proof fn lemma_compacted(rows: Seq<Seq<Seq<char>>>, now: (int, int), days: int)
    ensures
        forall|k: int|
            0 <= k < compacted(rows, now, days).len() ==> in_window(
                (#[trigger] compacted(rows, now, days)[k]).0,
                now,
                days,
            ),
        descending(compacted(rows, now, days)),
        texts(compacted(rows, now, days)).no_duplicates(),
        compacted(rows, now, days).to_multiset() == recent(rows, now, days).to_multiset(),
        forall|k: int|
            0 <= k < compacted(rows, now, days).len() ==> from_row(
                rows,
                now,
                days,
                #[trigger] compacted(rows, now, days)[k],
            ),
        forall|i: int|
            0 <= i < rows.len() && kept(#[trigger] rows[i], now, days) is Some ==> has_text(
                compacted(rows, now, days),
                (kept(rows[i], now, days)->0).1,
            ),
{
    let r = recent(rows, now, days);
    let c = compacted(rows, now, days);
    lemma_recent(rows, now, days);
    lemma_newest_first(r);
    assert forall|k: int| 0 <= k < c.len() implies from_row(rows, now, days, #[trigger] c[k]) by {
        assert(c.contains(c[k]));
        vstd::seq_lib::to_multiset_contains(c, c[k]);
        vstd::seq_lib::to_multiset_contains(r, c[k]);
        let j = choose|j: int| 0 <= j < r.len() && r[j] == c[k];
        assert(from_row(rows, now, days, r[j]));
    }
    assert forall|k: int| 0 <= k < c.len() implies in_window((#[trigger] c[k]).0, now, days) by {
        let i = choose|i: int|
            0 <= i < rows.len() && kept(#[trigger] rows[i], now, days) == Some(c[k]);
    }
    lemma_texts_no_duplicates(r, c);
}

/// A rearrangement of stamped lines with pairwise different texts has
/// pairwise different texts.
pub proof fn lemma_texts_no_duplicates(
    r: Seq<((int, int), Seq<char>)>,
    c: Seq<((int, int), Seq<char>)>,
)
    requires
        texts(r).no_duplicates(),
        c.to_multiset() == r.to_multiset(),
    ensures
        texts(c).no_duplicates(),
{
    assert(r.no_duplicates()) by {
        assert forall|a: int, b: int| 0 <= a < r.len() && 0 <= b < r.len() && a != b implies r[a]
            != r[b] by {
            assert(texts(r)[a] != texts(r)[b]);
        }
    }
    r.lemma_multiset_has_no_duplicates();
    c.lemma_multiset_has_no_duplicates_conv();
    assert forall|a: int, b: int|
        0 <= a < texts(c).len() && 0 <= b < texts(c).len() && a != b implies texts(c)[a] != texts(
        c,
    )[b] by {
        assert(c[a] != c[b]);
        assert(c.contains(c[a]) && c.contains(c[b]));
        vstd::seq_lib::to_multiset_contains(c, c[a]);
        vstd::seq_lib::to_multiset_contains(c, c[b]);
        vstd::seq_lib::to_multiset_contains(r, c[a]);
        vstd::seq_lib::to_multiset_contains(r, c[b]);
        let x = choose|x: int| 0 <= x < r.len() && r[x] == c[a];
        let y = choose|y: int| 0 <= y < r.len() && r[y] == c[b];
        assert(texts(r)[x] != texts(r)[y]);
    }
}

/// The rows of a ledger whose records could all be read.
pub open spec fn all_read(rows: Seq<Option<Seq<Seq<char>>>>) -> Seq<Seq<Seq<char>>> {
    Seq::new(rows.len(), |i: int| rows[i]->0)
}

/// The place of the first record that could not be read, if there is one.
pub open spec fn first_unread(rows: Seq<Option<Seq<Seq<char>>>>, index: int) -> bool {
    &&& 0 <= index < rows.len()
    &&& rows[index] is None
    &&& forall|k: int| 0 <= k < index ==> (#[trigger] rows[k]) is Some
}

/// Every record could be read.
pub open spec fn readable(rows: Seq<Option<Seq<Seq<char>>>>) -> bool {
    forall|k: int| 0 <= k < rows.len() ==> (#[trigger] rows[k]) is Some
}

/// Hands out the rows of a ledger, or the place of the first record that
/// could not be read.
pub fn require_rows(rows: Vec<Option<Vec<String>>>) -> (out: Result<Vec<Vec<String>>, LedgerError>)
    ensures
        match out {
            Ok(read) => readable(row_views(rows@)) && read.deep_view() == all_read(
                row_views(rows@),
            ),
            Err(LedgerError::MalformedRecord { index }) => first_unread(
                row_views(rows@),
                index as int,
            ),
        },
{
    let ghost all = row_views(rows@);
    let mut read: Vec<Vec<String>> = Vec::new();
    for row in it: rows
        invariant
            it.seq() == rows@,
            all == row_views(rows@),
            read.len() == it.index(),
            forall|k: int| 0 <= k < it.index() ==> (#[trigger] all[k]) is Some,
            read.deep_view() == all_read(all).take(it.index()),
    {
        let ghost place = read.len();
        let ghost before = read;
        match row {
            Some(fields) => {
                read.push(fields);
                proof {
                    assert(rows@[place as int] == Some(fields));
                    assert(read@ == before@.push(fields));
                    assert(read.deep_view() =~= before.deep_view().push(fields.deep_view()));
                    assert(read.deep_view() =~= all_read(all).take(place + 1));
                }
            },
            None => {
                assert(all[place as int] is None);
                return Err(LedgerError::MalformedRecord { index: read.len() });
            },
        }
        assert(all[place as int] is Some);
    }
    assert(all_read(all).take(rows@.len() as int) =~= all_read(all));
    Ok(read)
}

/// Whether one of the entries has this text.
pub fn holds_text(entries: &Vec<LedgerEntry>, text: &String) -> (out: bool)
    ensures
        out == has_text(entries.deep_view(), text@),
{
    let mut i: usize = 0;
    while i < entries.len()
        invariant
            i <= entries.len(),
            forall|k: int| 0 <= k < i ==> (#[trigger] entries.deep_view()[k]).1 != text@,
        decreases entries.len() - i,
    {
        if entries[i].text == *text {
            assert(entries.deep_view()[i as int].1 == text@);
            return true;
        }
        i += 1;
    }
    false
}

/// What a ledger row is kept as, if it is kept.
pub fn keep_row(row: &Vec<String>, now: &Timestamp, days_back: i64) -> (out: Option<LedgerEntry>)
    ensures
        match out {
            Some(e) => kept(row.deep_view(), now@, days_back as int) == Some(e.deep_view()),
            None => kept(row.deep_view(), now@, days_back as int) is None,
        },
{
    if row.len() == 0 {
        return None;
    }
    match parse_timestamp(row[0].as_str()) {
        Some(stamp) => {
            if stamp.within(now, days_back) {
                proof {
                    reveal_strlit(",");
                }
                Some(LedgerEntry { stamp, text: join_fields(row, ",") })
            } else {
                None
            }
        },
        None => None,
    }
}

/// The kept rows in file order, each text once.
pub fn recent_entries(rows: &Vec<Vec<String>>, now: &Timestamp, days_back: i64) -> (out: Vec<
    LedgerEntry,
>)
    ensures
        out.deep_view() == recent(rows.deep_view(), now@, days_back as int),
{
    let mut out: Vec<LedgerEntry> = Vec::new();
    let ghost all = rows.deep_view();
    let ghost days = days_back as int;
    assert(out.deep_view() =~= Seq::<((int, int), Seq<char>)>::empty());
    let mut i: usize = 0;
    while i < rows.len()
        invariant
            i <= rows.len(),
            all == rows.deep_view(),
            days == days_back as int,
            out.deep_view() == recent(all.take(i as int), now@, days),
        decreases rows.len() - i,
    {
        proof {
            let next = all.take(i + 1);
            assert(next.drop_last() =~= all.take(i as int));
            assert(next.last() == rows[i as int].deep_view());
        }
        match keep_row(&rows[i], now, days_back) {
            Some(entry) => {
                if !holds_text(&out, &entry.text) {
                    let ghost before = out;
                    out.push(entry);
                    assert(out.deep_view() =~= before.deep_view().push(entry.deep_view()));
                }
            },
            None => {},
        }
        i += 1;
    }
    assert(all.take(rows.len() as int) =~= all);
    out
}

/// The entries sorted newest first; entries with equal stamps keep their
/// order.
pub fn sort_newest_first(entries: &Vec<LedgerEntry>) -> (out: Vec<LedgerEntry>)
    ensures
        out.deep_view() == newest_first(entries.deep_view()),
        descending(out.deep_view()),
        out.deep_view().to_multiset() == entries.deep_view().to_multiset(),
{
    let mut out: Vec<LedgerEntry> = Vec::new();
    let ghost all = entries.deep_view();
    assert(out.deep_view() =~= Seq::<((int, int), Seq<char>)>::empty());
    let mut i: usize = 0;
    while i < entries.len()
        invariant
            i <= entries.len(),
            all == entries.deep_view(),
            out.deep_view() == newest_first(all.take(i as int)),
        decreases entries.len() - i,
    {
        let entry = LedgerEntry { stamp: entries[i].stamp, text: entries[i].text.clone() };
        let ghost e = entry.deep_view();
        proof {
            let next = all.take(i + 1);
            assert(next.drop_last() =~= all.take(i as int));
            assert(next.last() == e);
            lemma_newest_first(all.take(i as int));
        }
        let mut place: usize = 0;
        while place < out.len() && !entry.stamp.is_after(&out[place].stamp)
            invariant
                place <= out.len(),
                e == entry.deep_view(),
                slot(out.deep_view(), e, 0) == slot(out.deep_view(), e, place as int),
            decreases out.len() - place,
        {
            assert(out.deep_view()[place as int].0 == out[place as int].stamp@);
            place += 1;
        }
        proof {
            if place < out.len() {
                assert(out.deep_view()[place as int].0 == out[place as int].stamp@);
            }
        }
        let ghost before = out;
        out.insert(place, entry);
        assert(out.deep_view() =~= before.deep_view().insert(place as int, e));
        i += 1;
    }
    proof {
        assert(all.take(entries.len() as int) =~= all);
        lemma_newest_first(all);
    }
    out
}

/// What compaction leaves of the rows of a ledger: the rows inside the
/// window, each line once, newest first.
pub fn compact_rows(rows: &Vec<Vec<String>>, now: &Timestamp, days_back: i64) -> (out: Vec<
    LedgerEntry,
>)
    ensures
        out.deep_view() == compacted(rows.deep_view(), now@, days_back as int),
        descending(out.deep_view()),
        texts(out.deep_view()).no_duplicates(),
        forall|k: int|
            0 <= k < out.len() ==> in_window(
                (#[trigger] out.deep_view()[k]).0,
                now@,
                days_back as int,
            ),
{
    let fresh = recent_entries(rows, now, days_back);
    proof {
        lemma_compacted(rows.deep_view(), now@, days_back as int);
    }
    sort_newest_first(&fresh)
}

/// Writes each entry as one delimited record: the entry is split at its
/// commas, and the fields are quoted where the format asks for it. The
/// bytes are what is to be appended to the ledger.
pub fn write_to_csv(entries: &Vec<String>) -> (out: Vec<u8>)
    ensures
        out@ == encoded(entries.deep_view()),
{
    let mut out: Vec<u8> = Vec::new();
    let ghost all = entries.deep_view();
    let mut i: usize = 0;
    while i < entries.len()
        invariant
            i <= entries.len(),
            all == entries.deep_view(),
            out@ == encoded(all.take(i as int)),
        decreases entries.len() - i,
    {
        proof {
            let next = all.take(i + 1);
            assert(next.drop_last() =~= all.take(i as int));
            assert(next.last() == entries[i as int]@);
        }
        let fields = split_fields(entries[i].as_str(), ',');
        let mut line = encode_row(&fields);
        out.append(&mut line);
        i += 1;
    }
    assert(all.take(entries.len() as int) =~= all);
    out
}

/// The texts of the entries, in order.
pub fn entry_texts(entries: &Vec<LedgerEntry>) -> (out: Vec<String>)
    ensures
        out.deep_view() == texts(entries.deep_view()),
{
    let mut out: Vec<String> = Vec::new();
    let mut i: usize = 0;
    while i < entries.len()
        invariant
            i <= entries.len(),
            out.len() == i,
            forall|k: int| 0 <= k < i ==> out.deep_view()[k] == entries.deep_view()[k].1,
        decreases entries.len() - i,
    {
        let ghost before = out;
        let text = entries[i].text.clone();
        out.push(text);
        assert(out.deep_view() =~= before.deep_view().push(text@));
        i += 1;
    }
    assert(out.deep_view() =~= texts(entries.deep_view()));
    out
}

/// The bytes of the compacted ledger for the rows that `csv` read from it.
pub open spec fn rewritten(rows: Seq<Option<Seq<Seq<char>>>>, now: (int, int), days: int) -> Seq<
    u8,
> {
    encoded(texts(compacted(all_read(rows), now, days)))
}

/// Compacts a ledger held as bytes, for the clock reading `now`: the new
/// content of the file, or the place of the first record that could not be
/// read, in which case the file is to stay as it is.
pub fn filter_csv_by_date_at(data: &[u8], now: &Timestamp, days_back: i64) -> (out: Result<
    Vec<u8>,
    LedgerError,
>)
    ensures
        match out {
            Ok(bytes) => readable(csv_rows(data@)) && bytes@ == rewritten(
                csv_rows(data@),
                now@,
                days_back as int,
            ),
            Err(LedgerError::MalformedRecord { index }) => first_unread(
                csv_rows(data@),
                index as int,
            ),
        },
{
    match require_rows(read_rows(data)) {
        Ok(rows) => {
            let entries = compact_rows(&rows, now, days_back);
            let lines = entry_texts(&entries);
            Ok(write_to_csv(&lines))
        },
        Err(e) => Err(e),
    }
}

/// Compacts a ledger held as bytes. The clock is read once, and the whole
/// ledger is held against that one reading.
pub fn filter_csv_by_date(data: &[u8], days_back: i64) -> (out: Result<Vec<u8>, LedgerError>)
    ensures
        match out {
            Ok(bytes) => readable(csv_rows(data@)) && exists|now: (int, int)|
                bytes@ == #[trigger] rewritten(csv_rows(data@), now, days_back as int),
            Err(LedgerError::MalformedRecord { index }) => first_unread(
                csv_rows(data@),
                index as int,
            ),
        },
{
    let now = naive_local_now();
    let out = filter_csv_by_date_at(data, &now, days_back);
    proof {
        if out is Ok {
            assert(out->Ok_0@ == rewritten(csv_rows(data@), now@, days_back as int));
        }
    }
    out
}

} // verus!
