//! Sets of canonical entries, kept as vectors in which no text occurs twice
//! and the first occurrence decides the place.

use crate::text::lemma_deep_view_push;
use vstd::prelude::*;

verus! {

/// `set` with `x` behind it, unless `set` holds `x` already.
pub open spec fn with_entry(set: Seq<Seq<char>>, x: Seq<char>) -> Seq<Seq<char>> {
    if set.contains(x) {
        set
    } else {
        set.push(x)
    }
}

/// `set` followed by the texts of `more` that are new, each once, in the
/// order of their first occurrence.
pub open spec fn merged(set: Seq<Seq<char>>, more: Seq<Seq<char>>) -> Seq<Seq<char>>
    decreases more.len(),
{
    if more.len() == 0 {
        set
    } else {
        with_entry(merged(set, more.drop_last()), more.last())
    }
}

/// The texts of `s`, each once, in the order of their first occurrence.
pub open spec fn distinct(s: Seq<Seq<char>>) -> Seq<Seq<char>> {
    merged(Seq::empty(), s)
}

/// Merging keeps a set free of duplicates and adds exactly the texts of
/// `more` to what it holds.
pub proof fn lemma_merged(set: Seq<Seq<char>>, more: Seq<Seq<char>>)
    requires
        set.no_duplicates(),
    ensures
        merged(set, more).no_duplicates(),
        forall|x: Seq<char>| #[trigger]
            merged(set, more).contains(x) <==> set.contains(x) || more.contains(x),
        set.len() <= merged(set, more).len() <= set.len() + more.len(),
        set.is_prefix_of(merged(set, more)),
    decreases more.len(),
{
    if more.len() > 0 {
        let rest = more.drop_last();
        let last = more.last();
        let m = merged(set, rest);
        lemma_merged(set, rest);
        assert forall|x: Seq<char>| #[trigger]
            merged(set, more).contains(x) <==> set.contains(x) || more.contains(x) by {
            if more.contains(x) {
                let k = choose|k: int| 0 <= k < more.len() && more[k] == x;
                if k < rest.len() {
                    assert(rest[k] == x);
                }
            }
            if rest.contains(x) {
                let k = choose|k: int| 0 <= k < rest.len() && rest[k] == x;
                assert(more[k] == x);
            }
            assert(more[more.len() - 1] == last);
            if !m.contains(last) {
                assert(m.push(last)[m.len() as int] == last);
                if m.contains(x) {
                    let k = choose|k: int| 0 <= k < m.len() && m[k] == x;
                    assert(m.push(last)[k] == x);
                }
            }
        }
        assert(set.is_prefix_of(merged(set, more)));
    }
}

/// A deduplicated sequence has no duplicates, holds the texts of the
/// sequence it was made from and no others, and has as many entries as that
/// sequence has distinct texts.
pub proof fn lemma_distinct(s: Seq<Seq<char>>)
    ensures
        distinct(s).no_duplicates(),
        distinct(s).to_set() == s.to_set(),
        distinct(s).len() == s.to_set().len(),
        forall|x: Seq<char>| #[trigger] distinct(s).contains(x) <==> s.contains(x),
{
    lemma_merged(Seq::empty(), s);
    assert(distinct(s).to_set() =~= s.to_set());
    distinct(s).unique_seq_to_set();
}

/// A sequence without duplicates is its own deduplicated form.
pub proof fn lemma_distinct_fixed(s: Seq<Seq<char>>)
    requires
        s.no_duplicates(),
    ensures
        distinct(s) == s,
    decreases s.len(),
{
    if s.len() > 0 {
        let rest = s.drop_last();
        lemma_distinct_fixed(rest);
        if rest.contains(s.last()) {
            let k = choose|k: int| 0 <= k < rest.len() && rest[k] == s.last();
            assert(s[k] == s[s.len() - 1]);
        }
        assert(rest.push(s.last()) =~= s);
    } else {
        assert(distinct(s) =~= s);
    }
}

/// Whether `set` holds the text `x`.
pub fn holds(set: &Vec<String>, x: &String) -> (out: bool)
    ensures
        out == set.deep_view().contains(x@),
{
    let mut i: usize = 0;
    while i < set.len()
        invariant
            i <= set.len(),
            forall|k: int| 0 <= k < i ==> set.deep_view()[k] != x@,
        decreases set.len() - i,
    {
        if set[i] == *x {
            assert(set.deep_view()[i as int] == x@);
            return true;
        }
        i += 1;
    }
    false
}

/// Adds `x` to `set` unless it is there already.
pub fn insert_entry(set: &mut Vec<String>, x: String)
    ensures
        final(set).deep_view() == with_entry(old(set).deep_view(), x@),
{
    if !holds(set, &x) {
        let ghost before = *set;
        set.push(x);
        proof {
            lemma_deep_view_push(before, *set, x);
        }
    }
}

/// Adds the texts of `more` that `set` does not hold yet.
pub fn extend_entries(set: &mut Vec<String>, more: &Vec<String>)
    ensures
        final(set).deep_view() == merged(old(set).deep_view(), more.deep_view()),
{
    let mut i: usize = 0;
    while i < more.len()
        invariant
            i <= more.len(),
            set.deep_view() == merged(old(set).deep_view(), more.deep_view().take(i as int)),
        decreases more.len() - i,
    {
        proof {
            let next = more.deep_view().take(i + 1);
            assert(next.drop_last() =~= more.deep_view().take(i as int));
            assert(next.last() == more[i as int]@);
        }
        insert_entry(set, more[i].clone());
        i += 1;
    }
    assert(more.deep_view().take(more.len() as int) =~= more.deep_view());
}

/// The texts of `entries`, each once, in the order of their first
/// occurrence.
pub fn dedup(entries: &Vec<String>) -> (out: Vec<String>)
    ensures
        out.deep_view() == distinct(entries.deep_view()),
        out.deep_view().no_duplicates(),
        out.deep_view().len() == entries.deep_view().to_set().len(),
{
    let mut out: Vec<String> = Vec::new();
    assert(out.deep_view() =~= Seq::<Seq<char>>::empty());
    extend_entries(&mut out, entries);
    proof {
        lemma_distinct(entries.deep_view());
    }
    out
}

} // verus!
