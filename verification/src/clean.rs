//! Normalisation of an event description: one leading bracketed tag, up to
//! its closing `>`, is removed together with the white space behind it.

use crate::text::to_chars;
use vstd::prelude::*;

verus! {

/// White space in the sense of Unicode's `White_Space` property.
pub open spec fn is_space(c: char) -> bool {
    let n = c as u32;
    (0x09 <= n <= 0x0D) || n == 0x20 || n == 0x85 || n == 0xA0 || n == 0x1680 || (0x2000 <= n
        <= 0x200A) || n == 0x2028 || n == 0x2029 || n == 0x202F || n == 0x205F || n == 0x3000
}

/// The position of the first `>` at or after `i` that no line feed
/// precedes, or -1 where a line feed or the end comes first.
pub open spec fn tag_close(s: Seq<char>, i: int) -> int
    decreases s.len() - i,
{
    if i < 0 || i >= s.len() {
        -1
    } else if s[i] == '>' {
        i
    } else if s[i] == '\n' {
        -1
    } else {
        tag_close(s, i + 1)
    }
}

/// The first position at or after `i` that holds no white space.
pub open spec fn skip_spaces(s: Seq<char>, i: int) -> int
    decreases s.len() - i,
{
    if 0 <= i < s.len() && is_space(s[i]) {
        skip_spaces(s, i + 1)
    } else {
        i
    }
}

/// `s` opens with a tag: a `[`, then a `>` on the same line.
pub open spec fn has_tag(s: Seq<char>) -> bool {
    s.len() > 0 && s[0] == '[' && tag_close(s, 1) >= 0
}

/// Where the text of `s` begins: behind the tag and its white space, or at 0.
pub open spec fn body_start(s: Seq<char>) -> int {
    if has_tag(s) {
        skip_spaces(s, tag_close(s, 1) + 1)
    } else {
        0
    }
}

/// The description without its leading tag.
pub open spec fn cleaned(s: Seq<char>) -> Seq<char> {
    s.subrange(body_start(s), s.len() as int)
}

/// `tag_close` answers -1 or a position from `i` on that holds `>`.
pub proof fn lemma_tag_close_bounds(s: Seq<char>, i: int)
    requires
        0 <= i,
    ensures
        tag_close(s, i) == -1 || (i <= tag_close(s, i) < s.len() && s[tag_close(s, i)] == '>'),
    decreases s.len() - i,
{
    if i < s.len() && s[i] != '>' && s[i] != '\n' {
        lemma_tag_close_bounds(s, i + 1);
    }
}

/// `skip_spaces` stays between `i` and the end.
pub proof fn lemma_skip_spaces_bounds(s: Seq<char>, i: int)
    requires
        0 <= i <= s.len(),
    ensures
        i <= skip_spaces(s, i) <= s.len(),
    decreases s.len() - i,
{
    if i < s.len() && is_space(s[i]) {
        lemma_skip_spaces_bounds(s, i + 1);
    }
}

/// The text begins inside `s`, and behind position 1 where there is a tag.
pub proof fn lemma_body_start_bounds(s: Seq<char>)
    ensures
        0 <= body_start(s) <= s.len(),
        has_tag(s) ==> body_start(s) >= 2,
{
    if has_tag(s) {
        lemma_tag_close_bounds(s, 1);
        lemma_skip_spaces_bounds(s, tag_close(s, 1) + 1);
    }
}

/// Cleaning leaves a text without tag as it is, and shortens any other.
pub proof fn lemma_cleaned_shape(s: Seq<char>)
    ensures
        !has_tag(s) ==> cleaned(s) == s,
        has_tag(s) ==> cleaned(s).len() + 2 <= s.len(),
{
    lemma_body_start_bounds(s);
    if !has_tag(s) {
        assert(cleaned(s) =~= s);
    }
}

/// Cleaning twice gives what cleaning once gives, for every description
/// whose cleaned form does not itself open with a tag.
pub proof fn lemma_clean_idempotent(s: Seq<char>)
    requires
        !has_tag(cleaned(s)),
    ensures
        cleaned(cleaned(s)) == cleaned(s),
{
    lemma_cleaned_shape(cleaned(s));
}

/// Cleaning is idempotent on exactly the descriptions whose cleaned form
/// opens with no tag: a second tag behind the first is removed by a second
/// pass only.
pub proof fn lemma_clean_twice(s: Seq<char>)
    ensures
        cleaned(cleaned(s)) == cleaned(s) <==> !has_tag(cleaned(s)),
{
    lemma_cleaned_shape(cleaned(s));
}

fn is_space_char(c: char) -> (out: bool)
    ensures
        out == is_space(c),
{
    let n: u32 = c as u32;
    (0x09 <= n && n <= 0x0D) || n == 0x20 || n == 0x85 || n == 0xA0 || n == 0x1680 || (0x2000
        <= n && n <= 0x200A) || n == 0x2028 || n == 0x2029 || n == 0x202F || n == 0x205F || n
        == 0x3000
}

/// Removes the leading tag of an event description, if it has one.
pub fn clean_event_description(event_description: &str) -> (out: String)
    ensures
        out@ == cleaned(event_description@),
{
    let chars = to_chars(event_description);
    let n = chars.len();
    let ghost s = event_description@;
    if n == 0 || chars[0] != '[' {
        assert(cleaned(s) =~= s);
        return String::from_str(event_description);
    }
    let mut i: usize = 1;
    while i < n && chars[i] != '>' && chars[i] != '\n'
        invariant
            chars@ == s,
            n == chars.len(),
            1 <= i <= n,
            tag_close(s, 1) == tag_close(s, i as int),
        decreases n - i,
    {
        i += 1;
    }
    if i >= n || chars[i] != '>' {
        assert(cleaned(s) =~= s);
        return String::from_str(event_description);
    }
    let mut j: usize = i + 1;
    while j < n && is_space_char(chars[j])
        invariant
            chars@ == s,
            n == chars.len(),
            i < j <= n,
            skip_spaces(s, i + 1) == skip_spaces(s, j as int),
        decreases n - j,
    {
        j += 1;
    }
    String::from_str(event_description.substring_char(j, n))
}

} // verus!
