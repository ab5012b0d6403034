//! Strings seen as sequences of characters: prefixes, splitting on a
//! separator and joining with one.

use vstd::prelude::*;

verus! {

/// The fields of `s` from position `start` on, where the scan stands at `i`
/// and has met no separator since `start`.
pub open spec fn split_from(s: Seq<char>, sep: char, start: int, i: int) -> Seq<Seq<char>>
    recommends
        0 <= start <= i,
    decreases s.len() - i,
{
    if i >= s.len() {
        seq![s.subrange(start, s.len() as int)]
    } else if s[i] == sep {
        seq![s.subrange(start, i)] + split_from(s, sep, i + 1, i + 1)
    } else {
        split_from(s, sep, start, i + 1)
    }
}

/// The fields of `s` between its separators. There is always at least one
/// field; the empty text has one empty field.
pub open spec fn split_on(s: Seq<char>, sep: char) -> Seq<Seq<char>> {
    split_from(s, sep, 0, 0)
}

/// The fields in order with one separator between neighbours.
pub open spec fn join_with(fields: Seq<Seq<char>>, sep: char) -> Seq<char>
    decreases fields.len(),
{
    if fields.len() == 0 {
        Seq::empty()
    } else if fields.len() == 1 {
        fields[0]
    } else {
        join_with(fields.drop_last(), sep) + seq![sep] + fields.last()
    }
}

/// No field holds the separator.
pub open spec fn free_of(fields: Seq<Seq<char>>, sep: char) -> bool {
    forall|i: int, j: int|
        0 <= i < fields.len() && 0 <= j < fields[i].len() ==> #[trigger] fields[i][j] != sep
}

/// The characters of `s`, in order.
pub fn to_chars(s: &str) -> (out: Vec<char>)
    ensures
        out@ == s@,
{
    let mut out: Vec<char> = Vec::new();
    let chars = s.chars();
    for c in it: chars
        invariant
            it.seq() == s@,
            out@ == it.seq().take(it.index()),
    {
        out.push(c);
    }
    out
}

/// Whether `text` begins with `prefix`.
pub fn starts_with(text: &str, prefix: &str) -> (out: bool)
    ensures
        out == prefix@.is_prefix_of(text@),
{
    let t = to_chars(text);
    let p = to_chars(prefix);
    if p.len() > t.len() {
        return false;
    }
    let mut i: usize = 0;
    while i < p.len()
        invariant
            i <= p.len() <= t.len(),
            t@ == text@,
            p@ == prefix@,
            forall|k: int| 0 <= k < i ==> p@[k] == t@[k],
        decreases p.len() - i,
    {
        if p[i] != t[i] {
            assert(text@.subrange(0, prefix@.len() as int)[i as int] != prefix@[i as int]);
            return false;
        }
        i += 1;
    }
    assert(prefix@ =~= text@.subrange(0, prefix@.len() as int));
    true
}

/// Whether `a` and `b` hold the same characters.
pub fn same_text(a: &str, b: &str) -> (out: bool)
    ensures
        out == (a@ == b@),
{
    let x = to_chars(a);
    let y = to_chars(b);
    if x.len() != y.len() {
        return false;
    }
    let mut i: usize = 0;
    while i < x.len()
        invariant
            i <= x.len(),
            x.len() == y.len(),
            x@ == a@,
            y@ == b@,
            forall|k: int| 0 <= k < i ==> x@[k] == y@[k],
        decreases x.len() - i,
    {
        if x[i] != y[i] {
            return false;
        }
        i += 1;
    }
    assert(a@ =~= b@);
    true
}

/// Pushing a string onto a vector pushes its characters onto the deep view.
pub proof fn lemma_deep_view_push(before: Vec<String>, after: Vec<String>, last: String)
    requires
        after@ == before@.push(last),
    ensures
        after.deep_view() == before.deep_view().push(last@),
{
    assert(after.deep_view() =~= before.deep_view().push(last@));
}

/// Splits `text` at every `sep`.
pub fn split_fields(text: &str, sep: char) -> (out: Vec<String>)
    ensures
        out.deep_view() == split_on(text@, sep),
{
    let chars = to_chars(text);
    let n = chars.len();
    let mut out: Vec<String> = Vec::new();
    let mut start: usize = 0;
    let mut i: usize = 0;
    assert(out.deep_view() =~= Seq::<Seq<char>>::empty());
    while i < n
        invariant
            chars@ == text@,
            n == chars.len(),
            start <= i <= n,
            split_on(text@, sep) == out.deep_view() + split_from(
                text@,
                sep,
                start as int,
                i as int,
            ),
        decreases n - i,
    {
        if chars[i] == sep {
            let piece = String::from_str(text.substring_char(start, i));
            let ghost before = out;
            out.push(piece);
            proof {
                lemma_deep_view_push(before, out, piece);
                assert(out.deep_view() + split_from(text@, sep, i + 1, i + 1) =~= before.deep_view()
                    + split_from(text@, sep, start as int, i as int));
            }
            start = i + 1;
        }
        i += 1;
    }
    let piece = String::from_str(text.substring_char(start, n));
    let ghost before = out;
    out.push(piece);
    proof {
        lemma_deep_view_push(before, out, piece);
        assert(out.deep_view() =~= before.deep_view() + split_from(
            text@,
            sep,
            start as int,
            i as int,
        ));
    }
    out
}

/// Joins `fields` with `sep` between neighbours.
pub fn join_fields(fields: &Vec<String>, sep: &str) -> (out: String)
    requires
        sep@.len() == 1,
    ensures
        out@ == join_with(fields.deep_view(), sep@[0]),
{
    let mut out = String::new();
    let mut i: usize = 0;
    while i < fields.len()
        invariant
            i <= fields.len(),
            sep@.len() == 1,
            out@ == join_with(fields.deep_view().take(i as int), sep@[0]),
        decreases fields.len() - i,
    {
        let ghost done = fields.deep_view().take(i as int);
        let ghost next = fields.deep_view().take(i + 1);
        proof {
            assert(next.drop_last() =~= done);
            assert(next.last() == fields[i as int]@);
            assert(sep@ =~= seq![sep@[0]]);
        }
        if i > 0 {
            out.append(sep);
        }
        out.append(fields[i].as_str());
        proof {
            if i == 0 {
                assert(out@ =~= next[0]);
            }
        }
        i += 1;
    }
    assert(fields.deep_view().take(fields.len() as int) =~= fields.deep_view());
    out
}

/// A scan of `a` followed by a separator and `b` yields the fields that the
/// scan of `a` alone yields, then the fields found behind that separator.
pub proof fn lemma_split_from_front(a: Seq<char>, b: Seq<char>, sep: char, start: int, i: int)
    requires
        0 <= start <= i <= a.len(),
    ensures
        split_from(a + seq![sep] + b, sep, start, i) == split_from(a, sep, start, i) + split_from(
            a + seq![sep] + b,
            sep,
            a.len() as int + 1,
            a.len() as int + 1,
        ),
    decreases a.len() - i,
{
    let s = a + seq![sep] + b;
    let tail = split_from(s, sep, a.len() as int + 1, a.len() as int + 1);
    if i == a.len() {
        assert(s[i] == sep);
        assert(s.subrange(start, i) =~= a.subrange(start, a.len() as int));
    } else {
        assert(s[i] == a[i]);
        if a[i] == sep {
            lemma_split_from_front(a, b, sep, i + 1, i + 1);
            assert(s.subrange(start, i) =~= a.subrange(start, i));
            assert(seq![a.subrange(start, i)] + (split_from(a, sep, i + 1, i + 1) + tail)
                =~= seq![a.subrange(start, i)] + split_from(a, sep, i + 1, i + 1) + tail);
        } else {
            lemma_split_from_front(a, b, sep, start, i + 1);
        }
    }
}

/// A scan that starts at or behind `k` goes by what stands from `k` on.
pub proof fn lemma_split_from_skip(s: Seq<char>, sep: char, k: int, start: int, i: int)
    requires
        0 <= k <= start <= i <= s.len(),
    ensures
        split_from(s, sep, start, i) == split_from(s.skip(k), sep, start - k, i - k),
    decreases s.len() - i,
{
    let t = s.skip(k);
    if i == s.len() {
        assert(s.subrange(start, s.len() as int) =~= t.subrange(start - k, t.len() as int));
    } else {
        assert(t[i - k] == s[i]);
        if s[i] == sep {
            lemma_split_from_skip(s, sep, k, i + 1, i + 1);
            assert(s.subrange(start, i) =~= t.subrange(start - k, i - k));
        } else {
            lemma_split_from_skip(s, sep, k, start, i + 1);
        }
    }
}

/// Splitting two texts with a separator between them gives the fields of
/// the first, then the fields of the second.
pub proof fn lemma_split_concat(a: Seq<char>, b: Seq<char>, sep: char)
    ensures
        split_on(a + seq![sep] + b, sep) == split_on(a, sep) + split_on(b, sep),
{
    let s = a + seq![sep] + b;
    lemma_split_from_front(a, b, sep, 0, 0);
    lemma_split_from_skip(s, sep, a.len() as int + 1, a.len() as int + 1, a.len() as int + 1);
    assert(s.skip(a.len() as int + 1) =~= b);
}

/// A text without separator is one field.
pub proof fn lemma_split_plain(s: Seq<char>, sep: char, i: int)
    requires
        0 <= i <= s.len(),
        forall|j: int| 0 <= j < s.len() ==> s[j] != sep,
    ensures
        split_from(s, sep, 0, i) == seq![s],
    decreases s.len() - i,
{
    if i < s.len() {
        lemma_split_plain(s, sep, i + 1);
    } else {
        assert(s.subrange(0, s.len() as int) =~= s);
    }
}

/// Joining fields that hold no separator and splitting the result gives the
/// fields back.
pub proof fn lemma_split_join(fields: Seq<Seq<char>>, sep: char)
    requires
        fields.len() >= 1,
        free_of(fields, sep),
    ensures
        split_on(join_with(fields, sep), sep) == fields,
    decreases fields.len(),
{
    let last = fields.last();
    assert forall|j: int| 0 <= j < last.len() implies last[j] != sep by {
        assert(fields[fields.len() - 1][j] != sep);
    }
    lemma_split_plain(last, sep, 0);
    if fields.len() == 1 {
        assert(seq![last] =~= fields);
    } else {
        let rest = fields.drop_last();
        assert(free_of(rest, sep)) by {
            assert forall|i: int, j: int|
                0 <= i < rest.len() && 0 <= j < rest[i].len() implies #[trigger] rest[i][j]
                != sep by {
                assert(fields[i][j] != sep);
            }
        }
        lemma_split_join(rest, sep);
        lemma_split_concat(join_with(rest, sep), last, sep);
        assert(rest + seq![last] =~= fields);
    }
}

} // verus!
