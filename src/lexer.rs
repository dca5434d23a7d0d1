//! The tag lexer: finds `{{ ... }}` and `{% ... %}` placeholders in flat text.

use vstd::prelude::*;
use crate::text::{chars_of, string_of};

verus! {

/// Least `j >= from` at which the two characters `a b` occur in `s`, or -1.
pub open spec fn find_pair(s: Seq<char>, from: int, a: char, b: char) -> int
    decreases s.len() - from,
{
    if from < 0 || from + 1 >= s.len() {
        -1
    } else if s[from] == a && s[from + 1] == b {
        from
    } else {
        find_pair(s, from + 1, a, b)
    }
}

/// End (exclusive) of the placeholder that starts at `i`, or -1 when none does.
///
/// An expression tag runs from `{{` to the nearest following `}}`; a statement
/// tag from `{%` to the nearest following `%}`. The expression shape is tried
/// first. A closer never overlaps its own opener.
pub open spec fn tag_end(s: Seq<char>, i: int) -> int {
    if 0 <= i && i + 1 < s.len() && s[i] == '{' && s[i + 1] == '{' && find_pair(
        s,
        i + 2,
        '}',
        '}',
    ) >= 0 {
        find_pair(s, i + 2, '}', '}') + 2
    } else if 0 <= i && i + 1 < s.len() && s[i] == '{' && s[i + 1] == '%' && find_pair(
        s,
        i + 2,
        '%',
        '}',
    ) >= 0 {
        find_pair(s, i + 2, '%', '}') + 2
    } else {
        -1
    }
}

/// The placeholders of `s` at or after position `i`, left to right; the scan
/// resumes after the end of each match.
pub open spec fn tags_from(s: Seq<char>, i: int) -> Seq<Seq<char>>
    decreases s.len() - i,
{
    if i < 0 || i >= s.len() {
        Seq::empty()
    } else if i < tag_end(s, i) <= s.len() {
        seq![s.subrange(i, tag_end(s, i))] + tags_from(s, tag_end(s, i))
    } else {
        tags_from(s, i + 1)
    }
}

/// All placeholders of `s`, in order.
pub open spec fn tags_of(s: Seq<char>) -> Seq<Seq<char>> {
    tags_from(s, 0)
}

pub(crate) proof fn lemma_find_pair_bounds(s: Seq<char>, from: int, a: char, b: char)
    ensures
        find_pair(s, from, a, b) == -1 || (from <= find_pair(s, from, a, b) && find_pair(
            s,
            from,
            a,
            b,
        ) + 1 < s.len()),
    decreases s.len() - from,
{
    if from >= 0 && from + 1 < s.len() && !(s[from] == a && s[from + 1] == b) {
        lemma_find_pair_bounds(s, from + 1, a, b);
    }
}

/// Executable `find_pair`.
fn find_pair_exec(s: &Vec<char>, from: usize, a: char, b: char) -> (r: Option<usize>)
    ensures
        match r {
            Some(j) => j as int == find_pair(s@, from as int, a, b),
            None => find_pair(s@, from as int, a, b) == -1,
        },
{
    let mut j: usize = from;
    while j < s.len() && s.len() - j >= 2
        invariant
            from <= j,
            find_pair(s@, from as int, a, b) == find_pair(s@, j as int, a, b),
        decreases s.len() - j,
    {
        if s[j] == a && s[j + 1] == b {
            return Some(j);
        }
        j = j + 1;
    }
    None
}

/// Executable `tag_end`.
fn tag_end_exec(s: &Vec<char>, i: usize) -> (r: Option<usize>)
    requires
        i < s.len(),
    ensures
        match r {
            Some(e) => e as int == tag_end(s@, i as int) && i < e <= s.len(),
            None => tag_end(s@, i as int) == -1,
        },
{
    if i + 1 < s.len() && s[i] == '{' && s[i + 1] == '{' {
        proof { lemma_find_pair_bounds(s@, i + 2, '}', '}'); }
        if let Some(j) = find_pair_exec(s, i + 2, '}', '}') {
            return Some(j + 2);
        }
    }
    if i + 1 < s.len() && s[i] == '{' && s[i + 1] == '%' {
        proof { lemma_find_pair_bounds(s@, i + 2, '%', '}'); }
        if let Some(j) = find_pair_exec(s, i + 2, '%', '}') {
            return Some(j + 2);
        }
    }
    None
}

/// Extracts the template placeholders of `input`, in order of appearance.
///
/// Each result is exactly one `{{ ... }}` or `{% ... %}` substring (a dash may
/// follow `{%` or precede `%}`; it is part of the match). Matches are the
/// shortest possible, may span lines, and never overlap. Text without
/// placeholders gives an empty vector; this never fails.
pub fn extract_jinja2_tags(input: &str) -> (r: Vec<String>)
    ensures
        r@.map_values(|t: String| t@) == tags_of(input@),
{
    let s = chars_of(input);
    let mut r: Vec<String> = Vec::new();
    let mut i: usize = 0;
    while i < s.len()
        invariant
            s@ == input@,
            i <= s.len(),
            r@.map_values(|t: String| t@) + tags_from(s@, i as int) == tags_of(s@),
        decreases s.len() - i,
    {
        match tag_end_exec(&s, i) {
            Some(e) => {
                let t = string_of(&s, i, e);
                proof {
                    assert(r@.push(t).map_values(|t: String| t@) =~= r@.map_values(
                        |t: String| t@,
                    ).push(t@));
                    assert(seq![t@] + tags_from(s@, e as int) =~= tags_from(s@, i as int));
                    let m = r@.map_values(|t: String| t@);
                    assert(m.push(t@) + tags_from(s@, e as int) =~= m + (seq![t@] + tags_from(
                        s@,
                        e as int,
                    )));
                }
                r.push(t);
                i = e;
            },
            None => {
                i = i + 1;
            },
        }
    }
    proof {
        assert(r@.map_values(|t: String| t@) + Seq::<Seq<char>>::empty() =~= r@.map_values(
            |t: String| t@,
        ));
    }
    r
}

} // verus!
