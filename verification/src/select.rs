//! Selection of the log files to read: by the prefix of the name and by the
//! age of the last modification.

use crate::text::starts_with;
use crate::time::{day_secs, epoch_now};
use vstd::prelude::*;

verus! {

/// One directory entry as the selection needs it.
#[derive(Debug)]
pub struct FileEntry {
    /// The file name, without its directory.
    pub name: String,
    /// Seconds from the Unix epoch to the last modification, or `None`
    /// where the metadata could not be read.
    pub modified: Option<u64>,
}

impl DeepView for FileEntry {
    type V = (Seq<char>, Option<int>);

    open spec fn deep_view(&self) -> (Seq<char>, Option<int>) {
        (
            self.name@,
            match self.modified {
                Some(m) => Some(m as int),
                None => None,
            },
        )
    }
}

/// The prefix that the name of every rotated log file has.
pub open spec fn log_prefix() -> Seq<char> {
    "fwddmp.log.tmp"@
}

/// A file modified at `modified` is fresh when that is strictly later than
/// `now - days`; a file modified exactly then is not.
pub open spec fn fresh(modified: int, now: int, days: int) -> bool {
    modified > now - day_secs() * days
}

/// A directory entry is selected when its name has the prefix, its metadata
/// could be read, and it is fresh.
pub open spec fn selected(entry: (Seq<char>, Option<int>), now: int, days: int) -> bool {
    log_prefix().is_prefix_of(entry.0) && match entry.1 {
        Some(m) => fresh(m, now, days),
        None => false,
    }
}

/// The selected entries of a directory listing, in the order of the
/// listing.
pub open spec fn chosen(entries: Seq<(Seq<char>, Option<int>)>, now: int, days: int) -> Seq<
    (Seq<char>, Option<int>),
> {
    entries.filter(|e: (Seq<char>, Option<int>)| selected(e, now, days))
}

/// Whether a file modified at `modified` is fresh at `now`.
pub fn is_fresh(modified: u64, now: i64, days_back: i64) -> (out: bool)
    ensures
        out == fresh(modified as int, now as int, days_back as int),
{
    let limit: i128 = now as i128 - 86_400i128 * (days_back as i128);
    modified as i128 > limit
}

/// Whether a directory entry is selected at `now`.
pub fn is_selected(entry: &FileEntry, now: i64, days_back: i64) -> (out: bool)
    ensures
        out == selected(entry.deep_view(), now as int, days_back as int),
{
    starts_with(entry.name.as_str(), "fwddmp.log.tmp") && match entry.modified {
        Some(m) => is_fresh(m, now, days_back),
        None => false,
    }
}

/// The selected entries of a directory listing, for the clock reading
/// `now` in seconds from the Unix epoch.
pub fn filter_files_at(entries: &Vec<FileEntry>, now: i64, days_back: i64) -> (out: Vec<FileEntry>)
    ensures
        out.deep_view() == chosen(entries.deep_view(), now as int, days_back as int),
{
    let mut out: Vec<FileEntry> = Vec::new();
    let ghost all = entries.deep_view();
    let ghost pred = |e: (Seq<char>, Option<int>)| selected(e, now as int, days_back as int);
    proof {
        reveal(Seq::filter);
        assert(out.deep_view() =~= Seq::<(Seq<char>, Option<int>)>::empty());
    }
    let mut i: usize = 0;
    while i < entries.len()
        invariant
            i <= entries.len(),
            all == entries.deep_view(),
            pred == |e: (Seq<char>, Option<int>)| selected(e, now as int, days_back as int),
            out.deep_view() == all.take(i as int).filter(pred),
        decreases entries.len() - i,
    {
        proof {
            reveal(Seq::filter);
            let next = all.take(i + 1);
            assert(next.drop_last() =~= all.take(i as int));
            assert(next.last() == entries[i as int].deep_view());
        }
        if is_selected(&entries[i], now, days_back) {
            let ghost before = out;
            let entry = FileEntry { name: entries[i].name.clone(), modified: entries[i].modified };
            out.push(entry);
            assert(out.deep_view() =~= before.deep_view().push(entry.deep_view()));
        }
        i += 1;
    }
    assert(all.take(entries.len() as int) =~= all);
    out
}

/// The selected entries of a directory listing. The clock is read once, and
/// every entry is held against that one reading.
pub fn filter_files(entries: &Vec<FileEntry>, days_back: i64) -> (out: Vec<FileEntry>)
    ensures
        exists|now: int| out.deep_view() == #[trigger] chosen(entries.deep_view(), now, days_back as int),
{
    let now = epoch_now();
    let out = filter_files_at(entries, now, days_back);
    assert(out.deep_view() == chosen(entries.deep_view(), now as int, days_back as int));
    out
}

/// Selection keeps exactly the selected entries: each entry of the result
/// is selected, and each selected entry of the listing is in the result.
pub proof fn lemma_chosen(entries: Seq<(Seq<char>, Option<int>)>, now: int, days: int)
    ensures
        forall|k: int|
            0 <= k < chosen(entries, now, days).len() ==> selected(
                #[trigger] chosen(entries, now, days)[k],
                now,
                days,
            ),
        forall|i: int|
            0 <= i < entries.len() && selected(#[trigger] entries[i], now, days) ==> chosen(
                entries,
                now,
                days,
            ).contains(entries[i]),
        chosen(entries, now, days).len() <= entries.len(),
{
    let pred = |e: (Seq<char>, Option<int>)| selected(e, now, days);
    broadcast use vstd::seq_lib::group_filter_ensures;

    assert forall|k: int| 0 <= k < chosen(entries, now, days).len() implies selected(
        #[trigger] chosen(entries, now, days)[k],
        now,
        days,
    ) by {
        entries.lemma_filter_pred(pred, k);
    }
    assert forall|i: int|
        0 <= i < entries.len() && selected(#[trigger] entries[i], now, days) implies chosen(
        entries,
        now,
        days,
    ).contains(entries[i]) by {
        entries.lemma_filter_contains(pred, i);
    }
    entries.lemma_filter_len(pred);
}

} // verus!
