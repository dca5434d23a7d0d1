//! The heading tree: rebuilds the outline of a document from its paragraphs.

use vstd::prelude::*;
use crate::text::chars_of;

verus! {

/// A paragraph of a document: its style identifier, if any, and its text.
#[derive(Debug, Clone)]
pub struct Paragraph {
    pub style: Option<String>,
    pub text: String,
}

/// A heading with the paragraphs it holds and its sub-headings.
#[derive(Debug)]
pub struct Node {
    pub level: usize,
    pub title: String,
    /// The plain paragraphs under this heading; `None` when there are none.
    pub contents: Option<Vec<String>>,
    pub children: Vec<Node>,
}

/// The outline of a document.
#[derive(Debug)]
pub struct Headings {
    /// The top-level headings, in document order.
    pub roots: Vec<Node>,
    /// The texts of the plain paragraphs that come before any heading.
    pub orphans: Vec<String>,
}

/// The mathematical value of a `Node`.
pub struct Outline {
    pub level: int,
    pub title: Seq<char>,
    pub contents: Option<Seq<Seq<char>>>,
    pub children: Seq<Outline>,
}

impl Node {
    pub open spec fn view(self) -> Outline
        decreases self,
    {
        Outline {
            level: self.level as int,
            title: self.title@,
            contents: match self.contents {
                Some(c) => Some(c@.map_values(|s: String| s@)),
                None => None,
            },
            children: Seq::new(
                self.children.len() as nat,
                |k: int|
                    if 0 <= k < self.children.len() {
                        self.children[k].view()
                    } else {
                        Outline { level: 0, title: Seq::empty(), contents: None, children: Seq::empty() }
                    },
            ),
        }
    }
}

/// The value of a string of ASCII digits.
pub open spec fn digits_value(d: Seq<char>) -> int
    decreases d.len(),
{
    if d.len() == 0 {
        0
    } else {
        digits_value(d.drop_last()) * 10 + (d.last() as int - '0' as int)
    }
}

pub open spec fn all_digits(d: Seq<char>) -> bool {
    forall|i: int| 0 <= i < d.len() ==> '0' <= #[trigger] d[i] <= '9'
}

/// The heading level a style identifier gives: the `usize` it reads as (an
/// optional `+`, then one or more ASCII digits) when that is positive, else 0.
pub open spec fn level_of(s: Seq<char>) -> int {
    let d = if s.len() > 0 && s[0] == '+' {
        s.drop_first()
    } else {
        s
    };
    if d.len() > 0 && all_digits(d) && 0 < digits_value(d) <= usize::MAX {
        digits_value(d)
    } else {
        0
    }
}

/// The level of paragraph `i`: positive for a heading, 0 for anything else.
pub open spec fn lvl(ps: Seq<Paragraph>, i: int) -> int {
    if 0 <= i < ps.len() {
        match ps[i].style {
            Some(s) => level_of(s@),
            None => 0,
        }
    } else {
        0
    }
}

pub open spec fn is_heading(ps: Seq<Paragraph>, i: int) -> bool {
    lvl(ps, i) > 0
}

/// A paragraph with no style identifier.
pub open spec fn is_plain(ps: Seq<Paragraph>, i: int) -> bool {
    0 <= i < ps.len() && ps[i].style is None
}

/// The last heading at or before `j` whose level is below `l`, or -1.
pub open spec fn lower_from(ps: Seq<Paragraph>, j: int, l: int) -> int
    decreases j + 1,
{
    if j < 0 {
        -1
    } else if is_heading(ps, j) && lvl(ps, j) < l {
        j
    } else {
        lower_from(ps, j - 1, l)
    }
}

/// The parent of heading `i`: the last earlier heading of a lower level, or -1 for a root.
pub open spec fn parent_of(ps: Seq<Paragraph>, i: int) -> int {
    lower_from(ps, i - 1, lvl(ps, i))
}

/// The last heading at or before `j`, or -1.
pub open spec fn last_head(ps: Seq<Paragraph>, j: int) -> int
    decreases j + 1,
{
    if j < 0 {
        -1
    } else if is_heading(ps, j) {
        j
    } else {
        last_head(ps, j - 1)
    }
}

/// The heading that plain paragraph `i` belongs to: the last earlier heading, or -1.
pub open spec fn owner_of(ps: Seq<Paragraph>, i: int) -> int {
    last_head(ps, i - 1)
}

/// The headings before `n` whose parent is `j`, in order.
pub open spec fn kids_upto(ps: Seq<Paragraph>, j: int, n: int) -> Seq<int>
    decreases n,
{
    if n <= 0 {
        Seq::empty()
    } else if is_heading(ps, n - 1) && parent_of(ps, n - 1) == j {
        kids_upto(ps, j, n - 1).push(n - 1)
    } else {
        kids_upto(ps, j, n - 1)
    }
}

/// The texts of the plain paragraphs before `n` that belong to `j`, in order.
pub open spec fn texts_upto(ps: Seq<Paragraph>, j: int, n: int) -> Seq<Seq<char>>
    decreases n,
{
    if n <= 0 {
        Seq::empty()
    } else if is_plain(ps, n - 1) && owner_of(ps, n - 1) == j {
        texts_upto(ps, j, n - 1).push(ps[n - 1].text@)
    } else {
        texts_upto(ps, j, n - 1)
    }
}

/// The outline rooted at heading `j`.
pub open spec fn outline_at(ps: Seq<Paragraph>, j: int) -> Outline
    decreases ps.len() - j,
{
    let kids = kids_upto(ps, j, ps.len() as int);
    let texts = texts_upto(ps, j, ps.len() as int);
    Outline {
        level: lvl(ps, j),
        title: if 0 <= j < ps.len() {
            ps[j].text@
        } else {
            Seq::empty()
        },
        contents: if texts.len() == 0 {
            None
        } else {
            Some(texts)
        },
        children: Seq::new(
            kids.len(),
            |k: int|
                if 0 <= k < kids.len() && j < kids[k] <= ps.len() {
                    outline_at(ps, kids[k])
                } else {
                    Outline { level: 0, title: Seq::empty(), contents: None, children: Seq::empty() }
                },
        ),
    }
}

/// The top-level outlines of a document.
pub open spec fn forest_of(ps: Seq<Paragraph>) -> Seq<Outline> {
    let roots = kids_upto(ps, -1, ps.len() as int);
    Seq::new(
        roots.len(),
        |k: int|
            if 0 <= k < roots.len() {
                outline_at(ps, roots[k])
            } else {
                Outline { level: 0, title: Seq::empty(), contents: None, children: Seq::empty() }
            },
    )
}

/// The texts of the plain paragraphs before the first heading.
pub open spec fn orphans_of(ps: Seq<Paragraph>) -> Seq<Seq<char>> {
    texts_upto(ps, -1, ps.len() as int)
}

proof fn lemma_digits_grow(d: Seq<char>, k: int)
    requires
        all_digits(d),
        0 <= k <= d.len(),
    ensures
        0 <= digits_value(d.subrange(0, k)) <= digits_value(d),
    decreases d.len(),
{
    if d.len() > 0 {
        let e = d.drop_last();
        assert(all_digits(e)) by {
            assert forall|i: int| 0 <= i < e.len() implies '0' <= #[trigger] e[i] <= '9' by {
                assert(e[i] == d[i]);
            }
        }
        assert('0' <= d[d.len() - 1] <= '9');
        if k == d.len() {
            assert(d.subrange(0, k) =~= d);
            lemma_digits_grow(e, e.len() as int);
            assert(e.subrange(0, e.len() as int) =~= e);
        } else {
            lemma_digits_grow(e, k);
            assert(e.subrange(0, k) =~= d.subrange(0, k));
            lemma_digits_grow(e, e.len() as int);
            assert(e.subrange(0, e.len() as int) =~= e);
        }
    } else {
        assert(d.subrange(0, k) =~= d);
    }
}

/// Reads a style identifier as a heading level, as `level_of` states (0: no heading).
pub fn parse_level(s: &String) -> (r: usize)
    ensures
        r as int == level_of(s@),
{
    let v = chars_of(s.as_str());
    assert(v@ == s@);
    let start: usize = if v.len() > 0 && v[0] == '+' {
        1
    } else {
        0
    };
    let ghost d = if v@.len() > 0 && v@[0] == '+' {
        v@.drop_first()
    } else {
        v@
    };
    proof {
        assert(d =~= v@.subrange(start as int, v@.len() as int));
    }
    if start >= v.len() {
        return 0;
    }
    let mut val: usize = 0;
    let mut i: usize = start;
    while i < v.len()
        invariant
            start <= i <= v.len(),
            v@ == s@,
            d == if v@.len() > 0 && v@[0] == '+' {
                v@.drop_first()
            } else {
                v@
            },
            d == v@.subrange(start as int, v@.len() as int),
            d.len() > 0,
            all_digits(v@.subrange(start as int, i as int)),
            val as int == digits_value(v@.subrange(start as int, i as int)),
        decreases v.len() - i,
    {
        let c = v[i];
        let ghost pre = v@.subrange(start as int, i as int);
        let ghost next = v@.subrange(start as int, i + 1);
        proof {
            assert(next.drop_last() =~= pre);
            assert(next.last() == c);
            assert(d[i - start] == c);
        }
        if !('0' <= c && c <= '9') {
            proof {
                assert(!all_digits(d));
                assert(level_of(s@) == 0);
            }
            return 0;
        }
        let digit = (c as u32 - '0' as u32) as usize;
        proof {
            assert(all_digits(next)) by {
                assert forall|k: int| 0 <= k < next.len() implies '0' <= #[trigger] next[k] <= '9' by {
                    if k < pre.len() {
                        assert(next[k] == pre[k]);
                    }
                }
            }
            assert(digits_value(next) == digits_value(pre) * 10 + digit);
        }
        let grown = match val.checked_mul(10) {
            Some(x) => x.checked_add(digit),
            None => None,
        };
        match grown {
            Some(y) => {
                val = y;
            },
            None => {
                proof {
                    if all_digits(d) {
                        lemma_digits_grow(d, i + 1 - start);
                        assert(d.subrange(0, i + 1 - start) =~= next);
                        assert(digits_value(d) > usize::MAX);
                    }
                    assert(level_of(s@) == 0);
                }
                return 0;
            },
        }
        i = i + 1;
    }
    proof {
        assert(v@.subrange(start as int, i as int) =~= d);
    }
    val
}

/// `Some(i)` for an index, `None` for -1.
pub open spec fn opt(i: int) -> Option<usize> {
    if i < 0 {
        None
    } else {
        Some(i as usize)
    }
}

/// Heading `j` is on the current path after the first `n` paragraphs: no later
/// heading before `n` has a level at or below its own.
pub open spec fn visible(ps: Seq<Paragraph>, j: int, n: int) -> bool {
    &&& 0 <= j < n
    &&& is_heading(ps, j)
    &&& forall|k: int| j < k < n && is_heading(ps, k) ==> lvl(ps, k) > lvl(ps, j)
}

pub(crate) proof fn lemma_lower_from(ps: Seq<Paragraph>, j: int, l: int)
    ensures
        lower_from(ps, j, l) == -1 || (0 <= lower_from(ps, j, l) <= j && is_heading(
            ps,
            lower_from(ps, j, l),
        ) && lvl(ps, lower_from(ps, j, l)) < l),
        forall|m: int|
            lower_from(ps, j, l) < m <= j ==> !(is_heading(ps, m) && lvl(ps, m) < l),
    decreases j + 1,
{
    if j >= 0 && !(is_heading(ps, j) && lvl(ps, j) < l) {
        lemma_lower_from(ps, j - 1, l);
    }
}

pub(crate) proof fn lemma_last_head(ps: Seq<Paragraph>, j: int)
    ensures
        last_head(ps, j) == -1 || (0 <= last_head(ps, j) <= j && is_heading(ps, last_head(ps, j))),
        forall|m: int| last_head(ps, j) < m <= j ==> !is_heading(ps, m),
    decreases j + 1,
{
    if j >= 0 && !is_heading(ps, j) {
        lemma_last_head(ps, j - 1);
    }
}

/// Per paragraph: its level, the parent of a heading and the owner of a plain
/// paragraph, as `lvl`, `parent_of` and `owner_of` give them.
pub open spec fn tables_ok(
    ps: Seq<Paragraph>,
    lv: Seq<usize>,
    parent: Seq<Option<usize>>,
    owner: Seq<Option<usize>>,
    n: int,
) -> bool {
    &&& lv.len() == n && parent.len() == n && owner.len() == n
    &&& forall|k: int| 0 <= k < n ==> #[trigger] lv[k] as int == lvl(ps, k)
    &&& forall|k: int| 0 <= k < n && is_heading(ps, k) ==> #[trigger] parent[k] == opt(parent_of(ps, k))
    &&& forall|k: int| 0 <= k < n && is_plain(ps, k) ==> #[trigger] owner[k] == opt(owner_of(ps, k))
}

/// The path stack: headings in increasing position and level, exactly those visible.
pub open spec fn stack_ok(ps: Seq<Paragraph>, st: Seq<usize>, n: int) -> bool {
    &&& forall|t: int| 0 <= t < st.len() ==> visible(ps, #[trigger] st[t] as int, n)
    &&& forall|t1: int, t2: int|
        0 <= t1 < t2 < st.len() ==> #[trigger] st[t1] < #[trigger] st[t2] && lvl(ps, st[t1] as int)
            < lvl(ps, st[t2] as int)
    &&& forall|j: int| #[trigger] visible(ps, j, n) ==> exists|t: int| 0 <= t < st.len() && st[t] == j
    &&& st.len() > 0 ==> st.last() as int == last_head(ps, n - 1)
    &&& st.len() == 0 ==> last_head(ps, n - 1) == -1
}

/// After popping every open heading of level `l` or more, the top of the stack
/// is the parent of a new heading of level `l` at `n`, and pushing it keeps the
/// stack exact.
proof fn lemma_push_heading(ps: Seq<Paragraph>, st: Seq<usize>, n: int)
    requires
        0 <= n < ps.len(),
        n < usize::MAX,
        is_heading(ps, n),
        forall|t: int| 0 <= t < st.len() ==> visible(ps, #[trigger] st[t] as int, n),
        forall|t1: int, t2: int|
            0 <= t1 < t2 < st.len() ==> #[trigger] st[t1] < #[trigger] st[t2] && lvl(ps, st[t1] as int)
                < lvl(ps, st[t2] as int),
        forall|j: int| #[trigger]
            visible(ps, j, n) ==> lvl(ps, j) >= lvl(ps, n) || exists|t: int|
                0 <= t < st.len() && st[t] == j,
        st.len() > 0 ==> lvl(ps, st.last() as int) < lvl(ps, n),
    ensures
        parent_of(ps, n) == if st.len() > 0 {
            st.last() as int
        } else {
            -1
        },
        stack_ok(ps, st.push(n as usize), n + 1),
{
    let l = lvl(ps, n);
    let r = lower_from(ps, n - 1, l);
    lemma_lower_from(ps, n - 1, l);
    if r >= 0 {
        assert(visible(ps, r, n));
        let t = choose|t: int| 0 <= t < st.len() && st[t] == r;
        let s = st.len() - 1;
        if t < s {
            assert(st[t] < st[s]);
        }
        assert(visible(ps, st[s] as int, n));
    }
    if st.len() > 0 {
        let s = st.len() - 1;
        assert(visible(ps, st[s] as int, n));
    }
    let st2 = st.push(n as usize);
    assert forall|t: int| 0 <= t < st2.len() implies visible(ps, #[trigger] st2[t] as int, n + 1) by {
        if t < st.len() {
            let s = st.len() - 1;
            if t < s {
                assert(st[t] < st[s]);
            }
            assert(visible(ps, st[s] as int, n));
            assert(visible(ps, st[t] as int, n));
            assert(st2[t] == st[t]);
        } else {
            assert(st2[t] as int == n);
        }
    }
    assert forall|t1: int, t2: int|
        0 <= t1 < t2 < st2.len() implies #[trigger] st2[t1] < #[trigger] st2[t2] && lvl(
            ps,
            st2[t1] as int,
        ) < lvl(ps, st2[t2] as int) by {
        assert(st2[t1] == st[t1]);
        if t2 == st.len() {
            let s = st.len() - 1;
            if t1 < s {
                assert(st[t1] < st[s]);
            }
            assert(visible(ps, st[t1] as int, n));
            assert(visible(ps, st[s] as int, n));
            assert(st2[t2] as int == n);
        } else {
            assert(st2[t2] == st[t2]);
        }
    }
    assert forall|j: int| #[trigger] visible(ps, j, n + 1) implies exists|t: int|
        0 <= t < st2.len() && st2[t] == j by {
        if j == n {
            assert(st2[st.len() as int] == j);
        } else {
            assert(visible(ps, j, n));
            assert(lvl(ps, j) < l);
            let t = choose|t: int| 0 <= t < st.len() && st[t] == j;
            assert(st2[t] == j);
        }
    }
    assert(last_head(ps, n) == n);
}

/// A paragraph that is no heading leaves the path unchanged.
proof fn lemma_step_other(ps: Seq<Paragraph>, st: Seq<usize>, n: int)
    requires
        0 <= n < ps.len(),
        !is_heading(ps, n),
        stack_ok(ps, st, n),
    ensures
        stack_ok(ps, st, n + 1),
{
    assert forall|j: int| #[trigger] visible(ps, j, n + 1) == visible(ps, j, n) by {
    }
    assert forall|t: int| 0 <= t < st.len() implies visible(ps, #[trigger] st[t] as int, n + 1) by {
        assert(visible(ps, st[t] as int, n));
    }
    assert forall|j: int| #[trigger] visible(ps, j, n + 1) implies exists|t: int|
        0 <= t < st.len() && st[t] == j by {
        assert(visible(ps, j, n));
    }
    assert(last_head(ps, n) == last_head(ps, n - 1));
}

/// One pass over the paragraphs with a stack of open headings: the level of each
/// paragraph, the parent of each heading, the owner of each plain paragraph, and
/// the orphans.
#[verifier::rlimit(30)]
fn link(ps: &Vec<Paragraph>) -> (r: (Vec<usize>, Vec<Option<usize>>, Vec<Option<usize>>, Vec<String>))
    ensures
        tables_ok(ps@, r.0@, r.1@, r.2@, ps.len() as int),
        r.3@.map_values(|s: String| s@) == orphans_of(ps@),
{
    let mut lv: Vec<usize> = Vec::new();
    let mut parent: Vec<Option<usize>> = Vec::new();
    let mut owner: Vec<Option<usize>> = Vec::new();
    let mut orphans: Vec<String> = Vec::new();
    let mut stack: Vec<usize> = Vec::new();
    let mut i: usize = 0;
    while i < ps.len()
        invariant
            i <= ps.len(),
            tables_ok(ps@, lv@, parent@, owner@, i as int),
            stack_ok(ps@, stack@, i as int),
            orphans@.map_values(|s: String| s@) == texts_upto(ps@, -1, i as int),
        decreases ps.len() - i,
    {
        let ghost psq = ps@;
        let ghost n = i as int;
        let l: usize = match &ps[i].style {
            Some(s) => parse_level(s),
            None => 0,
        };
        assert(l as int == lvl(psq, n));
        if l > 0 {
            while stack.len() > 0 && lv[stack[stack.len() - 1]] >= l
                invariant
                    tables_ok(psq, lv@, parent@, owner@, n),
                    forall|t: int| 0 <= t < stack@.len() ==> visible(psq, #[trigger] stack@[t] as int, n),
                    forall|t1: int, t2: int|
                        0 <= t1 < t2 < stack@.len() ==> #[trigger] stack@[t1] < #[trigger] stack@[t2]
                            && lvl(psq, stack@[t1] as int) < lvl(psq, stack@[t2] as int),
                    forall|j: int| #[trigger]
                        visible(psq, j, n) ==> lvl(psq, j) >= l || exists|t: int|
                            0 <= t < stack@.len() && stack@[t] == j,
                decreases stack.len(),
            {
                let ghost st0 = stack@;
                let top = stack.pop().unwrap();
                proof {
                    assert(visible(psq, st0[st0.len() - 1] as int, n));
                    assert(lv@[top as int] as int == lvl(psq, top as int));
                    assert forall|j: int| #[trigger]
                        visible(psq, j, n) implies lvl(psq, j) >= l || exists|t: int|
                            0 <= t < stack@.len() && stack@[t] == j by {
                        if lvl(psq, j) < l {
                            let t = choose|t: int| 0 <= t < st0.len() && st0[t] == j;
                            if t < stack@.len() {
                                assert(stack@[t] == j);
                            }
                        }
                    }
                }
            }
            proof {
                if stack@.len() > 0 {
                    let s = stack@.len() - 1;
                    assert(visible(psq, stack@[s] as int, n));
                    assert(lv@[stack@[s] as int] as int == lvl(psq, stack@[s] as int));
                }
                lemma_push_heading(psq, stack@, n);
            }
            let p = if stack.len() > 0 {
                Some(stack[stack.len() - 1])
            } else {
                None
            };
            stack.push(i);
            lv.push(l);
            parent.push(p);
            owner.push(None);
            proof {
                assert forall|k: int| 0 <= k < n + 1 implies #[trigger] lv@[k] as int == lvl(psq, k) by {
                }
                assert forall|k: int| 0 <= k < n + 1 && is_heading(psq, k) implies #[trigger] parent@[k]
                    == opt(parent_of(psq, k)) by {
                }
                assert forall|k: int| 0 <= k < n + 1 && is_plain(psq, k) implies #[trigger] owner@[k]
                    == opt(owner_of(psq, k)) by {
                    if k == n {
                        assert(!is_plain(psq, k));
                    }
                }
                assert(orphans@.map_values(|s: String| s@) == texts_upto(psq, -1, n + 1));
            }
        } else {
            let plain = ps[i].style.is_none();
            let o = if stack.len() > 0 {
                Some(stack[stack.len() - 1])
            } else {
                None
            };
            assert(plain ==> o == opt(owner_of(psq, n)));
            if plain && stack.len() == 0 {
                let ghost o0 = orphans@;
                orphans.push(ps[i].text.clone());
                proof {
                    assert(orphans@.map_values(|s: String| s@) =~= o0.map_values(|s: String| s@).push(
                        psq[n].text@,
                    ));
                }
            }
            lv.push(0);
            parent.push(None);
            owner.push(o);
            proof {
                lemma_step_other(psq, stack@, n);
                assert forall|k: int| 0 <= k < n + 1 implies #[trigger] lv@[k] as int == lvl(psq, k) by {
                }
                assert forall|k: int| 0 <= k < n + 1 && is_heading(psq, k) implies #[trigger] parent@[k]
                    == opt(parent_of(psq, k)) by {
                }
                assert forall|k: int| 0 <= k < n + 1 && is_plain(psq, k) implies #[trigger] owner@[k]
                    == opt(owner_of(psq, k)) by {
                }
            }
        }
        i = i + 1;
    }
    (lv, parent, owner, orphans)
}

/// The headings listed by `kids_upto(ps, j, n)` lie strictly between `j` and `n`.
proof fn lemma_kids_range(ps: Seq<Paragraph>, j: int, n: int)
    ensures
        forall|k: int|
            0 <= k < kids_upto(ps, j, n).len() ==> j < #[trigger] kids_upto(ps, j, n)[k] < n
                && is_heading(ps, kids_upto(ps, j, n)[k]),
    decreases n,
{
    if n > 0 {
        lemma_kids_range(ps, j, n - 1);
        lemma_lower_from(ps, n - 2, lvl(ps, n - 1));
        let prev = kids_upto(ps, j, n - 1);
        let ks = kids_upto(ps, j, n);
        assert forall|k: int| 0 <= k < ks.len() implies j < #[trigger] ks[k] < n && is_heading(
            ps,
            ks[k],
        ) by {
            if k < prev.len() {
                assert(ks[k] == prev[k]);
            }
        }
    }
}

/// No heading or plain paragraph at or before `j` belongs to `j`.
proof fn lemma_none_before(ps: Seq<Paragraph>, j: int, n: int)
    requires
        n <= j + 1,
    ensures
        kids_upto(ps, j, n).len() == 0,
        texts_upto(ps, j, n).len() == 0,
    decreases n,
{
    if n > 0 {
        lemma_none_before(ps, j, n - 1);
        lemma_lower_from(ps, n - 2, lvl(ps, n - 1));
        lemma_last_head(ps, n - 2);
    }
}

/// Builds the node of heading `j`, with its contents and, recursively, its children.
fn build_node(
    ps: &Vec<Paragraph>,
    lv: &Vec<usize>,
    parent: &Vec<Option<usize>>,
    owner: &Vec<Option<usize>>,
    j: usize,
) -> (r: Node)
    requires
        tables_ok(ps@, lv@, parent@, owner@, ps.len() as int),
        j < ps.len(),
        is_heading(ps@, j as int),
    ensures
        r.view() == outline_at(ps@, j as int),
    decreases ps.len() - j,
{
    let mut children: Vec<Node> = Vec::new();
    let mut contents: Vec<String> = Vec::new();
    let mut i: usize = j + 1;
    proof {
        lemma_none_before(ps@, j as int, j + 1);
        assert(children@.map_values(|n: Node| n.view()) =~= kids_upto(ps@, j as int, i as int).map_values(
            |k: int| outline_at(ps@, k),
        ));
        assert(contents@.map_values(|s: String| s@) =~= texts_upto(ps@, j as int, i as int));
    }
    while i < ps.len()
        invariant
            j < i <= ps.len(),
            tables_ok(ps@, lv@, parent@, owner@, ps.len() as int),
            children@.map_values(|n: Node| n.view()) == kids_upto(ps@, j as int, i as int).map_values(
                |k: int| outline_at(ps@, k),
            ),
            contents@.map_values(|s: String| s@) == texts_upto(ps@, j as int, i as int),
        decreases ps.len() - i,
    {
        let ghost c0 = children@;
        let ghost t0 = contents@;
        let ghost n = i as int;
        let is_kid = lv[i] > 0 && match parent[i] {
            Some(p) => p == j,
            None => false,
        };
        let is_text = ps[i].style.is_none() && match owner[i] {
            Some(o) => o == j,
            None => false,
        };
        proof {
            lemma_lower_from(ps@, n - 1, lvl(ps@, n));
            lemma_last_head(ps@, n - 1);
            assert(lv@[n] as int == lvl(ps@, n));
            if is_heading(ps@, n) {
                assert(parent@[n] == opt(parent_of(ps@, n)));
            }
            if is_plain(ps@, n) {
                assert(owner@[n] == opt(owner_of(ps@, n)));
            }
            assert(is_kid == (is_heading(ps@, n) && parent_of(ps@, n) == j));
            assert(is_text == (is_plain(ps@, n) && owner_of(ps@, n) == j));
        }
        if is_kid {
            let c = build_node(ps, lv, parent, owner, i);
            children.push(c);
            proof {
                assert(kids_upto(ps@, j as int, n + 1) == kids_upto(ps@, j as int, n).push(n));
                assert(kids_upto(ps@, j as int, n + 1).map_values(|k: int| outline_at(ps@, k))
                    =~= kids_upto(ps@, j as int, n).map_values(|k: int| outline_at(ps@, k)).push(
                    outline_at(ps@, n),
                ));
                assert(children@.map_values(|m: Node| m.view()) =~= c0.map_values(|m: Node| m.view()).push(
                    c.view(),
                ));
            }
        }
        if is_text {
            contents.push(ps[i].text.clone());
            proof {
                assert(contents@.map_values(|s: String| s@) =~= t0.map_values(|s: String| s@).push(
                    ps@[i as int].text@,
                ));
            }
        }
        i = i + 1;
    }
    let ghost kids = kids_upto(ps@, j as int, ps.len() as int);
    proof {
        lemma_kids_range(ps@, j as int, ps.len() as int);
    }
    let ghost cs = children;
    let contents = if contents.len() == 0 {
        None
    } else {
        Some(contents)
    };
    let r = Node { level: lv[j], title: ps[j].text.clone(), contents, children };
    proof {
        let o = outline_at(ps@, j as int);
        assert(r.view().children.len() == kids.len());
        assert forall|k: int| 0 <= k < kids.len() implies r.view().children[k] == o.children[k] by {
            assert(cs@.map_values(|n: Node| n.view())[k] == cs@[k].view());
        }
        assert(r.view().children =~= o.children);
    }
    r
}

/// Rebuilds the heading outline of a document from its paragraphs.
///
/// A paragraph whose style identifier reads as a positive integer is a heading
/// of that level; its parent is the nearest earlier heading of a lower level,
/// and a heading without one is a root. A paragraph without a style identifier
/// is content of the nearest earlier heading, or an orphan when there is none.
/// Other paragraphs are skipped. Everything keeps document order.
pub fn extract_docx_headings(paragraphs: &Vec<Paragraph>) -> (r: Headings)
    ensures
        r.roots@.map_values(|n: Node| n.view()) == forest_of(paragraphs@),
        r.orphans@.map_values(|s: String| s@) == orphans_of(paragraphs@),
{
    let ps = paragraphs;
    let (lv, parent, owner, orphans) = link(ps);
    let mut roots: Vec<Node> = Vec::new();
    let mut i: usize = 0;
    proof {
        assert(roots@.map_values(|n: Node| n.view()) =~= kids_upto(ps@, -1, 0).map_values(
            |k: int| outline_at(ps@, k),
        ));
    }
    while i < ps.len()
        invariant
            i <= ps.len(),
            tables_ok(ps@, lv@, parent@, owner@, ps.len() as int),
            roots@.map_values(|n: Node| n.view()) == kids_upto(ps@, -1, i as int).map_values(
                |k: int| outline_at(ps@, k),
            ),
        decreases ps.len() - i,
    {
        let ghost n = i as int;
        let ghost r0 = roots@;
        proof {
            lemma_lower_from(ps@, n - 1, lvl(ps@, n));
            assert(lv@[n] as int == lvl(ps@, n));
            if is_heading(ps@, n) {
                assert(parent@[n] == opt(parent_of(ps@, n)));
            }
        }
        if lv[i] > 0 && parent[i].is_none() {
            let c = build_node(ps, &lv, &parent, &owner, i);
            roots.push(c);
            proof {
                assert(kids_upto(ps@, -1, n + 1) == kids_upto(ps@, -1, n).push(n));
                assert(kids_upto(ps@, -1, n + 1).map_values(|k: int| outline_at(ps@, k))
                    =~= kids_upto(ps@, -1, n).map_values(|k: int| outline_at(ps@, k)).push(
                    outline_at(ps@, n),
                ));
                assert(roots@.map_values(|m: Node| m.view()) =~= r0.map_values(|m: Node| m.view()).push(
                    c.view(),
                ));
            }
        }
        i = i + 1;
    }
    proof {
        assert(roots@.map_values(|n: Node| n.view()) =~= forest_of(ps@));
    }
    Headings { roots, orphans }
}

} // verus!