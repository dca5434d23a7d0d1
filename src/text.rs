//! Character-level helpers shared by the lexer and the parser.

use vstd::prelude::*;

verus! {

/// Copies the characters of `s` into a vector, in order.
pub fn chars_of(s: &str) -> (r: Vec<char>)
    ensures
        r@ == s@,
{
    let mut r: Vec<char> = Vec::new();
    for c in it: s.chars()
        invariant
            r@ == it.seq().take(it.index() as int),
    {
        r.push(c);
    }
    r
}

/// Relies on `String::push`: the character is appended at the end.
pub assume_specification[ String::push ](s: &mut String, c: char)
    ensures
        final(s)@ == old(s)@.push(c),
;

/// Builds a string from the characters `v[from..to]`.
pub fn string_of(v: &Vec<char>, from: usize, to: usize) -> (r: String)
    requires
        from <= to <= v.len(),
    ensures
        r@ == v@.subrange(from as int, to as int),
{
    let mut r = String::new();
    let mut i: usize = from;
    while i < to
        invariant
            from <= i <= to <= v.len(),
            r@ == v@.subrange(from as int, i as int),
        decreases to - i,
    {
        r.push(v[i]);
        i = i + 1;
    }
    r
}

/// Unicode `White_Space`, the set that `str::trim` and `str::split_whitespace` use.
pub open spec fn is_ws(c: char) -> bool {
    ('\u{9}' <= c && c <= '\u{d}') || c == ' ' || c == '\u{85}' || c == '\u{a0}' || c == '\u{1680}'
        || ('\u{2000}' <= c && c <= '\u{200a}') || c == '\u{2028}' || c == '\u{2029}' || c
        == '\u{202f}' || c == '\u{205f}' || c == '\u{3000}'
}

/// Executable `is_ws`.
pub fn is_ws_exec(c: char) -> (r: bool)
    ensures
        r == is_ws(c),
{
    ('\u{9}' <= c && c <= '\u{d}') || c == ' ' || c == '\u{85}' || c == '\u{a0}' || c == '\u{1680}'
        || ('\u{2000}' <= c && c <= '\u{200a}') || c == '\u{2028}' || c == '\u{2029}' || c
        == '\u{202f}' || c == '\u{205f}' || c == '\u{3000}'
}

/// First index at or after `i` that does not hold whitespace (or the length).
pub open spec fn skip_ws(s: Seq<char>, i: int) -> int
    decreases s.len() - i,
{
    if 0 <= i < s.len() && is_ws(s[i]) {
        skip_ws(s, i + 1)
    } else {
        i
    }
}

/// Least `k <= j` such that `s[k..j]` is all whitespace.
pub open spec fn back_ws(s: Seq<char>, j: int) -> int
    decreases j,
{
    if 0 < j <= s.len() && is_ws(s[j - 1]) {
        back_ws(s, j - 1)
    } else {
        j
    }
}

/// `s` without leading and trailing whitespace.
pub open spec fn trim(s: Seq<char>) -> Seq<char> {
    let a = skip_ws(s, 0);
    let b = back_ws(s, s.len() as int);
    if a < b {
        s.subrange(a, b)
    } else {
        Seq::empty()
    }
}

proof fn lemma_skip_ws_bounds(s: Seq<char>, i: int)
    requires
        0 <= i <= s.len(),
    ensures
        i <= skip_ws(s, i) <= s.len(),
        skip_ws(s, i) < s.len() ==> !is_ws(s[skip_ws(s, i)]),
        forall|k: int| i <= k < skip_ws(s, i) ==> is_ws(#[trigger] s[k]),
    decreases s.len() - i,
{
    if i < s.len() && is_ws(s[i]) {
        lemma_skip_ws_bounds(s, i + 1);
    }
}

proof fn lemma_back_ws_bounds(s: Seq<char>, j: int)
    requires
        0 <= j <= s.len(),
    ensures
        0 <= back_ws(s, j) <= j,
        back_ws(s, j) > 0 ==> !is_ws(s[back_ws(s, j) - 1]),
        forall|k: int| back_ws(s, j) <= k < j ==> is_ws(#[trigger] s[k]),
    decreases j,
{
    if j > 0 && is_ws(s[j - 1]) {
        lemma_back_ws_bounds(s, j - 1);
    }
}

/// Copies `v[from..to]`.
pub fn sub_vec(v: &Vec<char>, from: usize, to: usize) -> (r: Vec<char>)
    requires
        from <= to <= v.len(),
    ensures
        r@ == v@.subrange(from as int, to as int),
{
    let mut r: Vec<char> = Vec::new();
    let mut i: usize = from;
    while i < to
        invariant
            from <= i <= to <= v.len(),
            r@ == v@.subrange(from as int, i as int),
        decreases to - i,
    {
        r.push(v[i]);
        i = i + 1;
    }
    r
}

/// Executable `trim`.
pub fn trim_exec(v: &Vec<char>) -> (r: Vec<char>)
    ensures
        r@ == trim(v@),
{
    let mut a: usize = 0;
    while a < v.len() && is_ws_exec(v[a])
        invariant
            a <= v.len(),
            skip_ws(v@, 0) == skip_ws(v@, a as int),
        decreases v.len() - a,
    {
        a = a + 1;
    }
    let mut b: usize = v.len();
    while b > 0 && is_ws_exec(v[b - 1])
        invariant
            b <= v.len(),
            back_ws(v@, v.len() as int) == back_ws(v@, b as int),
        decreases b,
    {
        b = b - 1;
    }
    if a < b {
        sub_vec(v, a, b)
    } else {
        Vec::new()
    }
}

/// Start of what is left of `s[i..]` after removing every leading repetition of `a b`.
pub open spec fn strip_pre(s: Seq<char>, i: int, a: char, b: char) -> int
    decreases s.len() - i,
{
    if 0 <= i && i + 1 < s.len() && s[i] == a && s[i + 1] == b {
        strip_pre(s, i + 2, a, b)
    } else {
        i
    }
}

/// End of what is left of `s[lo..j]` after removing every trailing repetition of `a b`.
pub open spec fn strip_suf(s: Seq<char>, lo: int, j: int, a: char, b: char) -> int
    decreases j,
{
    if 0 <= lo && lo <= j - 2 && j <= s.len() && s[j - 2] == a && s[j - 1] == b {
        strip_suf(s, lo, j - 2, a, b)
    } else {
        j
    }
}

/// `s` with every leading `o1 o2` and then every trailing `c1 c2` removed, then trimmed.
pub open spec fn inner_text(s: Seq<char>, o1: char, o2: char, c1: char, c2: char) -> Seq<char> {
    let p = strip_pre(s, 0, o1, o2);
    trim(s.subrange(p, strip_suf(s, p, s.len() as int, c1, c2)))
}

proof fn lemma_strip_pre_bounds(s: Seq<char>, i: int, a: char, b: char)
    requires
        0 <= i <= s.len(),
    ensures
        i <= strip_pre(s, i, a, b) <= s.len(),
    decreases s.len() - i,
{
    if i + 1 < s.len() && s[i] == a && s[i + 1] == b {
        lemma_strip_pre_bounds(s, i + 2, a, b);
    }
}

proof fn lemma_strip_suf_bounds(s: Seq<char>, lo: int, j: int, a: char, b: char)
    requires
        0 <= lo <= j <= s.len(),
    ensures
        lo <= strip_suf(s, lo, j, a, b) <= j,
    decreases j,
{
    if lo <= j - 2 && s[j - 2] == a && s[j - 1] == b {
        lemma_strip_suf_bounds(s, lo, j - 2, a, b);
    }
}

/// Executable `inner_text`.
pub fn inner_text_exec(v: &Vec<char>, o1: char, o2: char, c1: char, c2: char) -> (r: Vec<char>)
    ensures
        r@ == inner_text(v@, o1, o2, c1, c2),
{
    let mut p: usize = 0;
    while p < v.len() && v.len() - p >= 2 && v[p] == o1 && v[p + 1] == o2
        invariant
            p <= v.len(),
            strip_pre(v@, 0, o1, o2) == strip_pre(v@, p as int, o1, o2),
        decreases v.len() - p,
    {
        p = p + 2;
    }
    let mut q: usize = v.len();
    while q >= 2 && q - 2 >= p && v[q - 2] == c1 && v[q - 1] == c2
        invariant
            p <= q <= v.len(),
            strip_suf(v@, p as int, v.len() as int, c1, c2) == strip_suf(
                v@,
                p as int,
                q as int,
                c1,
                c2,
            ),
        decreases q,
    {
        q = q - 2;
    }
    let mid = sub_vec(v, p, q);
    trim_exec(&mid)
}

/// Least index `j >= i` with `s[j] == d`, or -1.
pub open spec fn find_char(s: Seq<char>, d: char, i: int) -> int
    decreases s.len() - i,
{
    if i < 0 || i >= s.len() {
        -1
    } else if s[i] == d {
        i
    } else {
        find_char(s, d, i + 1)
    }
}

proof fn lemma_find_char_bounds(s: Seq<char>, d: char, i: int)
    requires
        0 <= i,
    ensures
        find_char(s, d, i) == -1 || i <= find_char(s, d, i) < s.len(),
    decreases s.len() - i,
{
    if i < s.len() && s[i] != d {
        lemma_find_char_bounds(s, d, i + 1);
    }
}

/// The pieces of `s[i..]` between occurrences of `d`, as `str::split` gives them.
pub open spec fn split_from(s: Seq<char>, d: char, i: int) -> Seq<Seq<char>>
    decreases s.len() - i,
{
    let k = find_char(s, d, i);
    if i < 0 || i > s.len() {
        Seq::empty()
    } else if i <= k < s.len() {
        seq![s.subrange(i, k)] + split_from(s, d, k + 1)
    } else {
        seq![s.subrange(i, s.len() as int)]
    }
}

/// Executable `split_from(s, d, 0)`, each piece trimmed.
pub fn split_trimmed(v: &Vec<char>, d: char) -> (r: Vec<String>)
    ensures
        r@.map_values(|x: String| x@) == split_from(v@, d, 0).map_values(|p: Seq<char>| trim(p)),
{
    let mut r: Vec<String> = Vec::new();
    let mut start: usize = 0;
    let mut i: usize = 0;
    while i < v.len()
        invariant
            start <= i <= v.len(),
            find_char(v@, d, start as int) == find_char(v@, d, i as int),
            r@.map_values(|x: String| x@) + split_from(v@, d, start as int).map_values(
                |p: Seq<char>| trim(p),
            ) == split_from(v@, d, 0).map_values(|p: Seq<char>| trim(p)),
        decreases v.len() - i,
    {
        if v[i] == d {
            let piece = trim_exec(&sub_vec(v, start, i));
            let t = string_of(&piece, 0, piece.len());
            proof {
                assert(piece@.subrange(0, piece@.len() as int) =~= piece@);
                lemma_find_char_bounds(v@, d, i + 1);
                let m = r@.map_values(|x: String| x@);
                let rest = split_from(v@, d, i + 1).map_values(|p: Seq<char>| trim(p));
                assert(split_from(v@, d, start as int) == seq![v@.subrange(start as int, i as int)]
                    + split_from(v@, d, i + 1));
                assert(split_from(v@, d, start as int).map_values(|p: Seq<char>| trim(p))
                    =~= seq![t@] + rest);
                assert(r@.push(t).map_values(|x: String| x@) =~= m.push(t@));
                assert(m.push(t@) + rest =~= m + (seq![t@] + rest));
            }
            r.push(t);
            start = i + 1;
        }
        i = i + 1;
    }
    let piece = trim_exec(&sub_vec(v, start, v.len()));
    let t = string_of(&piece, 0, piece.len());
    proof {
        assert(piece@.subrange(0, piece@.len() as int) =~= piece@);
        let m = r@.map_values(|x: String| x@);
        assert(split_from(v@, d, start as int).map_values(|p: Seq<char>| trim(p)) =~= seq![t@]);
        assert(r@.push(t).map_values(|x: String| x@) =~= m.push(t@));
        assert(m.push(t@) =~= m + seq![t@]);
    }
    r.push(t);
    r
}

/// First index at or after `i` that holds whitespace (or the length).
pub open spec fn word_end(s: Seq<char>, i: int) -> int
    decreases s.len() - i,
{
    if 0 <= i < s.len() && !is_ws(s[i]) {
        word_end(s, i + 1)
    } else {
        i
    }
}

proof fn lemma_word_end_bounds(s: Seq<char>, i: int)
    requires
        0 <= i <= s.len(),
    ensures
        i <= word_end(s, i) <= s.len(),
    decreases s.len() - i,
{
    if i < s.len() && !is_ws(s[i]) {
        lemma_word_end_bounds(s, i + 1);
    }
}

/// The non-empty whitespace-separated words of `s[i..]`, as `str::split_whitespace` gives them.
pub open spec fn words_from(s: Seq<char>, i: int) -> Seq<Seq<char>>
    decreases s.len() - i,
{
    if i < 0 || i >= s.len() {
        Seq::empty()
    } else if is_ws(s[i]) {
        words_from(s, i + 1)
    } else if i < word_end(s, i) <= s.len() {
        seq![s.subrange(i, word_end(s, i))] + words_from(s, word_end(s, i))
    } else {
        Seq::empty()
    }
}

/// Executable `words_from(s, 0)`.
pub fn words_exec(v: &Vec<char>) -> (r: Vec<Vec<char>>)
    ensures
        r@.map_values(|x: Vec<char>| x@) == words_from(v@, 0),
{
    let mut r: Vec<Vec<char>> = Vec::new();
    let mut i: usize = 0;
    while i < v.len()
        invariant
            i <= v.len(),
            r@.map_values(|x: Vec<char>| x@) + words_from(v@, i as int) == words_from(v@, 0),
        decreases v.len() - i,
    {
        if is_ws_exec(v[i]) {
            i = i + 1;
        } else {
            let mut j: usize = i;
            while j < v.len() && !is_ws_exec(v[j])
                invariant
                    i <= j <= v.len(),
                    word_end(v@, i as int) == word_end(v@, j as int),
                decreases v.len() - j,
            {
                j = j + 1;
            }
            let w = sub_vec(v, i, j);
            proof {
                let m = r@.map_values(|x: Vec<char>| x@);
                let rest = words_from(v@, j as int);
                assert(words_from(v@, i as int) == seq![w@] + rest);
                assert(r@.push(w).map_values(|x: Vec<char>| x@) =~= m.push(w@));
                assert(m.push(w@) + rest =~= m + (seq![w@] + rest));
            }
            r.push(w);
            i = j;
        }
    }
    proof {
        assert(r@.map_values(|x: Vec<char>| x@) + Seq::<Seq<char>>::empty() =~= r@.map_values(
            |x: Vec<char>| x@,
        ));
    }
    r
}

/// Whether `p` occurs in `s` at position `i`.
pub open spec fn occurs_at(s: Seq<char>, p: Seq<char>, i: int) -> bool {
    0 <= i && i + p.len() <= s.len() && s.subrange(i, i + p.len()) == p
}

/// Whether `s` begins with `p`.
pub open spec fn starts_with(s: Seq<char>, p: Seq<char>) -> bool {
    occurs_at(s, p, 0)
}

/// Whether `s` ends with `p`.
pub open spec fn ends_with(s: Seq<char>, p: Seq<char>) -> bool {
    occurs_at(s, p, s.len() - p.len())
}

/// Executable `occurs_at`.
pub fn occurs_at_exec(s: &Vec<char>, p: &Vec<char>, i: usize) -> (r: bool)
    ensures
        r == occurs_at(s@, p@, i as int),
{
    if i > s.len() || s.len() - i < p.len() {
        return false;
    }
    let mut k: usize = 0;
    while k < p.len()
        invariant
            i + p.len() <= s.len(),
            k <= p.len(),
            forall|m: int| 0 <= m < k ==> s@[i + m] == p@[m],
        decreases p.len() - k,
    {
        if s[i + k] != p[k] {
            proof {
                assert(s@.subrange(i as int, i + p.len())[k as int] != p@[k as int]);
            }
            return false;
        }
        k = k + 1;
    }
    proof {
        assert(s@.subrange(i as int, i + p.len()) =~= p@);
    }
    true
}

/// Whether two character vectors hold the same characters.
pub fn same_chars(a: &Vec<char>, b: &Vec<char>) -> (r: bool)
    ensures
        r == (a@ == b@),
{
    if a.len() != b.len() {
        return false;
    }
    let r = occurs_at_exec(a, b, 0);
    proof {
        if r {
            assert(a@.subrange(0, b@.len() as int) =~= a@);
        } else {
            assert(a@.subrange(0, b@.len() as int) =~= a@);
        }
    }
    r
}

} // verus!
