//! Properties that relate several calls of the library.

use vstd::prelude::*;
use crate::headings::{
    Paragraph, is_heading, is_plain, last_head, lemma_last_head, lemma_lower_from, lvl, orphans_of,
    owner_of, parent_of, texts_upto,
};
use crate::extract::schema_of;
use crate::text::{find_char, inner_text, split_from, trim};
use crate::lexer::{find_pair, lemma_find_pair_bounds, tag_end, tags_from, tags_of};
use crate::parser::{Ast, ParseState, classify, parse_tags, run, step};
use crate::schema::{Shape, merge, obj_of, put_path, synth, synth_upto};

verus! {

/// Neither path is a prefix of the other (so, in particular, they differ).
pub open spec fn no_prefix(p: Seq<Seq<char>>, q: Seq<Seq<char>>) -> bool {
    &&& !(p.len() <= q.len() && q.subrange(0, p.len() as int) == p)
    &&& !(q.len() <= p.len() && p.subrange(0, q.len() as int) == q)
}

/// Non-empty paths, none a proper prefix of another (a path may repeat).
pub open spec fn conflict_free(ps: Seq<Seq<Seq<char>>>) -> bool {
    &&& forall|i: int| 0 <= i < ps.len() ==> #[trigger] ps[i].len() > 0
    &&& forall|i: int, j: int|
        0 <= i < ps.len() && 0 <= j < ps.len() && i != j ==> #[trigger] ps[i] == #[trigger] ps[j]
            || no_prefix(ps[i], ps[j])
}

/// One variable node per path, in order.
pub open spec fn vars_of(ps: Seq<Seq<Seq<char>>>) -> Seq<Ast> {
    ps.map_values(|p: Seq<Seq<char>>| Ast::Var(p))
}

/// The object built by setting the leaves at the first `n` paths, in order.
pub open spec fn fold_paths(ps: Seq<Seq<Seq<char>>>, n: int) -> Map<Seq<char>, Shape>
    decreases n,
{
    if n <= 0 || n > ps.len() {
        Map::empty()
    } else {
        put_path(fold_paths(ps, n - 1), ps[n - 1])
    }
}

/// Two paths that start alike and conflict in no prefix do not conflict after their first segment.
proof fn lemma_no_prefix_tail(p: Seq<Seq<char>>, q: Seq<Seq<char>>)
    requires
        p.len() > 1,
        q.len() > 1,
        p[0] == q[0],
        no_prefix(p, q),
    ensures
        no_prefix(p.drop_first(), q.drop_first()),
{
    let p_rest = p.drop_first();
    let q_rest = q.drop_first();
    if p_rest.len() <= q_rest.len() && q_rest.subrange(0, p_rest.len() as int) == p_rest {
        assert forall|i: int| 0 <= i < p.len() implies q.subrange(0, p.len() as int)[i] == p[i] by {
            if i > 0 {
                assert(q_rest.subrange(0, p_rest.len() as int)[i - 1] == p_rest[i - 1]);
            }
        }
        assert(q.subrange(0, p.len() as int) =~= p);
    }
    if q_rest.len() <= p_rest.len() && p_rest.subrange(0, q_rest.len() as int) == q_rest {
        assert forall|i: int| 0 <= i < q.len() implies p.subrange(0, q.len() as int)[i] == q[i] by {
            if i > 0 {
                assert(p_rest.subrange(0, q_rest.len() as int)[i - 1] == q_rest[i - 1]);
            }
        }
        assert(p.subrange(0, q.len() as int) =~= q);
    }
}

proof fn lemma_put_commute(m: Map<Seq<char>, Shape>, p: Seq<Seq<char>>, q: Seq<Seq<char>>)
    requires
        p.len() > 0,
        q.len() > 0,
        no_prefix(p, q),
    ensures
        put_path(put_path(m, p), q) == put_path(put_path(m, q), p),
    decreases p.len(),
{
    if p[0] != q[0] {
        let mp = put_path(m, p);
        let mq = put_path(m, q);
        assert(mp.contains_key(q[0]) == m.contains_key(q[0]));
        assert(mp.contains_key(q[0]) ==> mp[q[0]] == m[q[0]]);
        assert(mq.contains_key(p[0]) == m.contains_key(p[0]));
        assert(mq.contains_key(p[0]) ==> mq[p[0]] == m[p[0]]);
        assert(put_path(mp, q) =~= put_path(mq, p));
    } else {
        if p.len() == 1 {
            assert(q.subrange(0, 1) =~= p);
        }
        if q.len() == 1 {
            assert(p.subrange(0, 1) =~= q);
        }
        let k = p[0];
        let sub = if m.contains_key(k) {
            obj_of(m[k])
        } else {
            Map::empty()
        };
        let p_rest = p.drop_first();
        let q_rest = q.drop_first();
        lemma_no_prefix_tail(p, q);
        lemma_put_commute(sub, p_rest, q_rest);
        assert(put_path(put_path(m, p), q) =~= m.insert(
            k,
            Shape::Object(put_path(put_path(sub, p_rest), q_rest)),
        ));
        assert(put_path(put_path(m, q), p) =~= m.insert(
            k,
            Shape::Object(put_path(put_path(sub, q_rest), p_rest)),
        ));
    }
}

/// `fold_paths` reads only the first `n` paths.
proof fn lemma_fold_prefix(a: Seq<Seq<Seq<char>>>, b: Seq<Seq<Seq<char>>>, n: int)
    requires
        0 <= n <= a.len(),
        n <= b.len(),
        forall|i: int| 0 <= i < n ==> a[i] == b[i],
    ensures
        fold_paths(a, n) == fold_paths(b, n),
    decreases n,
{
    if n > 0 {
        lemma_fold_prefix(a, b, n - 1);
    }
}

/// Setting the leaf at `b[k]` can be moved after the later paths.
proof fn lemma_move_last(b: Seq<Seq<Seq<char>>>, k: int, n: int)
    requires
        conflict_free(b),
        0 <= k < n <= b.len(),
    ensures
        fold_paths(b, n) == put_path(fold_paths(b.remove(k), n - 1), b[k]),
    decreases n,
{
    let r = b.remove(k);
    if n == k + 1 {
        lemma_fold_prefix(b, r, k);
    } else {
        lemma_move_last(b, k, n - 1);
        assert(r[n - 2] == b[n - 1]);
        if b[k] != b[n - 1] {
            assert(no_prefix(b[k], b[n - 1]));
            lemma_put_commute(fold_paths(r, n - 2), b[k], b[n - 1]);
        }
    }
}

proof fn lemma_conflict_free_remove(b: Seq<Seq<Seq<char>>>, k: int)
    requires
        conflict_free(b),
        0 <= k < b.len(),
    ensures
        conflict_free(b.remove(k)),
{
    let r = b.remove(k);
    assert forall|i: int| 0 <= i < r.len() implies #[trigger] r[i].len() > 0 by {
        if i < k {
            assert(r[i] == b[i]);
        } else {
            assert(r[i] == b[i + 1]);
        }
    }
    assert forall|i: int, j: int|
        0 <= i < r.len() && 0 <= j < r.len() && i != j implies #[trigger] r[i] == #[trigger] r[j]
        || no_prefix(r[i], r[j]) by {
        let bi = if i < k {
            i
        } else {
            i + 1
        };
        let bj = if j < k {
            j
        } else {
            j + 1
        };
        assert(r[i] == b[bi]);
        assert(r[j] == b[bj]);
        assert(b[bi] == b[bj] || no_prefix(b[bi], b[bj]));
    }
}

proof fn lemma_fold_perm(a: Seq<Seq<Seq<char>>>, b: Seq<Seq<Seq<char>>>)
    requires
        conflict_free(a),
        conflict_free(b),
        a.to_multiset() == b.to_multiset(),
    ensures
        fold_paths(a, a.len() as int) == fold_paths(b, b.len() as int),
    decreases a.len(),
{
    broadcast use vstd::seq_lib::group_to_multiset_ensures;

    if a.len() == 0 {
        assert(b.to_multiset().len() == 0);
    } else {
        let x = a.last();
        let a1 = a.drop_last();
        assert(a.to_multiset().count(x) > 0);
        assert(b.contains(x));
        let k = b.index_of(x);
        let b1 = b.remove(k);
        assert(a =~= a1.push(x));
        assert(a1.to_multiset() =~= b1.to_multiset());
        lemma_conflict_free_remove(b, k);
        lemma_conflict_free_remove(a, a.len() - 1);
        assert(a.remove(a.len() - 1) =~= a1);
        lemma_fold_perm(a1, b1);
        lemma_fold_prefix(a, a1, a1.len() as int);
        lemma_move_last(b, k, b.len() as int);
    }
}

proof fn lemma_synth_vars(ps: Seq<Seq<Seq<char>>>, n: int)
    requires
        0 <= n <= ps.len(),
    ensures
        synth_upto(vars_of(ps), n) == fold_paths(ps, n),
    decreases n,
{
    if n > 0 {
        lemma_synth_vars(ps, n - 1);
        let v = vars_of(ps);
        assert(v.len() == ps.len());
        assert(v[n - 1] == Ast::Var(ps[n - 1]));
        assert(synth_upto(v, n) == merge(synth_upto(v, n - 1), v[n - 1]));
        assert(merge(fold_paths(ps, n - 1), Ast::Var(ps[n - 1])) == put_path(
            fold_paths(ps, n - 1),
            ps[n - 1],
        ));
    }
}

/// Placeholders with non-empty paths, none a proper prefix of another (repeats
/// allowed), give the same schema in whatever order they are written.
pub proof fn law_schema_order_free(a: Seq<Seq<Seq<char>>>, b: Seq<Seq<Seq<char>>>)
    requires
        conflict_free(a),
        conflict_free(b),
        a.to_multiset() == b.to_multiset(),
    ensures
        synth(vars_of(a)) == synth(vars_of(b)),
{
    broadcast use vstd::seq_lib::group_to_multiset_ensures;

    lemma_fold_perm(a, b);
    lemma_synth_vars(a, a.len() as int);
    lemma_synth_vars(b, b.len() as int);
}

/// The schema `m` holds the empty-string leaf at `p`, through objects.
pub open spec fn leaf_at(m: Map<Seq<char>, Shape>, p: Seq<Seq<char>>) -> bool
    decreases p.len(),
{
    if p.len() == 0 {
        false
    } else if p.len() == 1 {
        m.contains_key(p[0]) && m[p[0]] == Shape::Blank
    } else {
        m.contains_key(p[0]) && m[p[0]] is Object && leaf_at(obj_of(m[p[0]]), p.drop_first())
    }
}

proof fn lemma_leaf_put(m: Map<Seq<char>, Shape>, p: Seq<Seq<char>>)
    requires
        p.len() > 0,
    ensures
        leaf_at(put_path(m, p), p),
    decreases p.len(),
{
    if p.len() > 1 {
        let sub = if m.contains_key(p[0]) {
            obj_of(m[p[0]])
        } else {
            Map::empty()
        };
        lemma_leaf_put(sub, p.drop_first());
    }
}

proof fn lemma_leaf_empty(p: Seq<Seq<char>>)
    ensures
        !leaf_at(Map::<Seq<char>, Shape>::empty(), p),
{
}

/// Setting the leaf at `q` leaves what lies at a path that conflicts with no part of it.
proof fn lemma_leaf_keep(m: Map<Seq<char>, Shape>, p: Seq<Seq<char>>, q: Seq<Seq<char>>)
    requires
        p.len() > 0,
        q.len() > 0,
        no_prefix(p, q),
    ensures
        leaf_at(put_path(m, q), p) == leaf_at(m, p),
    decreases p.len(),
{
    if p[0] == q[0] {
        if p.len() == 1 {
            assert(q.subrange(0, 1) =~= p);
        }
        if q.len() == 1 {
            assert(p.subrange(0, 1) =~= q);
        }
        let p_rest = p.drop_first();
        let q_rest = q.drop_first();
        lemma_no_prefix_tail(p, q);
        let sub = if m.contains_key(q[0]) {
            obj_of(m[q[0]])
        } else {
            Map::empty()
        };
        lemma_leaf_keep(sub, p_rest, q_rest);
        lemma_leaf_empty(p_rest);
    }
}

/// A leaf after setting the leaf at `q` is that leaf or was there before.
proof fn lemma_leaf_source(m: Map<Seq<char>, Shape>, p: Seq<Seq<char>>, q: Seq<Seq<char>>)
    requires
        q.len() > 0,
        leaf_at(put_path(m, q), p),
    ensures
        p == q || leaf_at(m, p),
    decreases q.len(),
{
    if p.len() > 0 && p[0] == q[0] {
        if q.len() == 1 {
            if p.len() == 1 {
                assert(p =~= q);
            }
        } else if p.len() > 1 {
            let sub = if m.contains_key(q[0]) {
                obj_of(m[q[0]])
            } else {
                Map::empty()
            };
            let p_rest = p.drop_first();
            let q_rest = q.drop_first();
            lemma_leaf_source(sub, p_rest, q_rest);
            lemma_leaf_empty(p_rest);
            if p_rest == q_rest {
                assert forall|i: int| 0 <= i < p.len() implies p[i] == q[i] by {
                    if i > 0 {
                        assert(p[i] == p_rest[i - 1]);
                        assert(q[i] == q_rest[i - 1]);
                    }
                }
                assert(p =~= q);
            }
        }
    }
}

proof fn lemma_fold_leaves(a: Seq<Seq<Seq<char>>>, n: int, p: Seq<Seq<char>>)
    requires
        conflict_free(a),
        0 <= n <= a.len(),
    ensures
        leaf_at(fold_paths(a, n), p) <==> exists|i: int| 0 <= i < n && a[i] == p,
    decreases n,
{
    if n == 0 {
        lemma_leaf_empty(p);
    } else {
        lemma_fold_leaves(a, n - 1, p);
        let q = a[n - 1];
        assert(q.len() > 0);
        if leaf_at(fold_paths(a, n), p) {
            lemma_leaf_source(fold_paths(a, n - 1), p, q);
            if p == q {
                assert(a[n - 1] == p);
            }
        }
        if exists|i: int| 0 <= i < n && a[i] == p {
            let i = choose|i: int| 0 <= i < n && a[i] == p;
            if i == n - 1 {
                lemma_leaf_put(fold_paths(a, n - 1), q);
            } else {
                if q == p {
                    lemma_leaf_put(fold_paths(a, n - 1), q);
                } else {
                    assert(no_prefix(a[i], a[n - 1]));
                    lemma_leaf_keep(fold_paths(a, n - 1), p, q);
                }
            }
        }
    }
}

/// For placeholders with non-empty paths, none a proper prefix of another
/// (repeats allowed), the schema holds the empty-string leaf at exactly their paths.
pub proof fn law_schema_leaves(a: Seq<Seq<Seq<char>>>, p: Seq<Seq<char>>)
    requires
        conflict_free(a),
    ensures
        leaf_at(synth(vars_of(a)), p) <==> a.contains(p),
{
    lemma_synth_vars(a, a.len() as int);
    lemma_fold_leaves(a, a.len() as int, p);
}

/// The parser's state after reading `tags` from the state `st`.
pub open spec fn run_from(st: ParseState, tags: Seq<Seq<char>>) -> ParseState
    decreases tags.len(),
{
    if tags.len() == 0 {
        st
    } else {
        step(run_from(st, tags.drop_last()), tags.last())
    }
}

/// Reading `a` then `b` is reading `b` from the state `a` leaves.
proof fn lemma_run_split(a: Seq<Seq<char>>, b: Seq<Seq<char>>)
    ensures
        run(a + b) == run_from(run(a), b),
    decreases b.len(),
{
    if b.len() == 0 {
        assert(a + b =~= a);
    } else {
        lemma_run_split(a, b.drop_last());
        assert((a + b).drop_last() =~= a + b.drop_last());
        assert((a + b).last() == b.last());
    }
}

/// An end tag while no loop is open adds nothing: the forest, and the parser
/// state, are those without it, also for every tag that follows.
pub proof fn law_unmatched_end_dropped(before: Seq<Seq<char>>, t: Seq<char>, after: Seq<Seq<char>>)
    requires
        run(before).stack.len() == 0,
        classify(t) is Close,
    ensures
        run(before.push(t) + after) == run(before + after),
        parse_tags(before.push(t) + after) == parse_tags(before + after),
{
    assert(before.push(t).drop_last() =~= before);
    assert(run(before.push(t)) == run(before));
    lemma_run_split(before.push(t), after);
    lemma_run_split(before, after);
}

/// A plain paragraph is an orphan exactly when no heading comes before it.
pub proof fn law_orphans_precede_headings(ps: Seq<Paragraph>, i: int)
    requires
        is_plain(ps, i),
    ensures
        owner_of(ps, i) == -1 <==> forall|k: int| 0 <= k < i ==> !is_heading(ps, k),
{
    lemma_last_head_none(ps, i - 1);
}

/// A heading is a root exactly when no earlier heading has a lower level;
/// otherwise its parent is the last earlier heading of a lower level.
pub proof fn law_heading_parent(ps: Seq<Paragraph>, j: int)
    requires
        is_heading(ps, j),
    ensures
        parent_of(ps, j) == -1 <==> forall|i: int|
            0 <= i < j ==> !(is_heading(ps, i) && lvl(ps, i) < lvl(ps, j)),
        parent_of(ps, j) != -1 ==> 0 <= parent_of(ps, j) < j && is_heading(ps, parent_of(ps, j))
            && lvl(ps, parent_of(ps, j)) < lvl(ps, j) && forall|i: int|
            parent_of(ps, j) < i < j ==> !(is_heading(ps, i) && lvl(ps, i) < lvl(ps, j)),
{
    lemma_lower_from(ps, j - 1, lvl(ps, j));
}

/// Index of the first heading at or after `i`, or the length.
pub open spec fn first_heading_from(ps: Seq<Paragraph>, i: int) -> int
    decreases ps.len() - i,
{
    if i < 0 || i >= ps.len() {
        ps.len() as int
    } else if is_heading(ps, i) {
        i
    } else {
        first_heading_from(ps, i + 1)
    }
}

/// The texts of the plain paragraphs among the first `n`, in order.
pub open spec fn plain_texts(ps: Seq<Paragraph>, n: int) -> Seq<Seq<char>>
    decreases n,
{
    if n <= 0 {
        Seq::empty()
    } else if is_plain(ps, n - 1) {
        plain_texts(ps, n - 1).push(ps[n - 1].text@)
    } else {
        plain_texts(ps, n - 1)
    }
}

proof fn lemma_first_heading(ps: Seq<Paragraph>, i: int)
    requires
        0 <= i <= ps.len(),
    ensures
        i <= first_heading_from(ps, i) <= ps.len(),
        forall|k: int| i <= k < first_heading_from(ps, i) ==> !is_heading(ps, k),
        first_heading_from(ps, i) < ps.len() ==> is_heading(ps, first_heading_from(ps, i)),
    decreases ps.len() - i,
{
    if i < ps.len() && !is_heading(ps, i) {
        lemma_first_heading(ps, i + 1);
    }
}

proof fn lemma_orphans_upto(ps: Seq<Paragraph>, f: int, n: int)
    requires
        f == first_heading_from(ps, 0),
        0 <= n <= ps.len(),
    ensures
        n <= f ==> texts_upto(ps, -1, n) == plain_texts(ps, n),
        n > f ==> texts_upto(ps, -1, n) == texts_upto(ps, -1, f),
    decreases n,
{
    lemma_first_heading(ps, 0);
    if n > 0 {
        lemma_orphans_upto(ps, f, n - 1);
        let i = n - 1;
        lemma_last_head(ps, i - 1);
        if i < f {
            lemma_last_head_none(ps, i - 1);
        } else if i > f {
            assert(last_head(ps, i - 1) >= f);
        }
    }
}

/// The orphans are the texts of the plain paragraphs before the first heading
/// (all of them when there is none), in order.
pub proof fn law_orphans_list(ps: Seq<Paragraph>)
    ensures
        orphans_of(ps) == plain_texts(ps, first_heading_from(ps, 0)),
{
    let f = first_heading_from(ps, 0);
    lemma_first_heading(ps, 0);
    lemma_orphans_upto(ps, f, f);
    lemma_orphans_upto(ps, f, ps.len() as int);
}

proof fn lemma_last_head_none(ps: Seq<Paragraph>, j: int)
    ensures
        last_head(ps, j) == -1 <==> forall|k: int| 0 <= k <= j ==> !is_heading(ps, k),
    decreases j + 1,
{
    if j >= 0 {
        lemma_last_head_none(ps, j - 1);
    }
}

/// The dotted paths of expression tags.
pub open spec fn expr_paths(tags: Seq<Seq<char>>) -> Seq<Seq<Seq<char>>> {
    tags.map_values(|t: Seq<char>| classify(t)->Expr_0)
}

proof fn lemma_split_nonempty(s: Seq<char>, d: char, i: int)
    requires
        0 <= i <= s.len(),
    ensures
        split_from(s, d, i).len() >= 1,
    decreases s.len() - i,
{
    let k = find_char(s, d, i);
    if i <= k < s.len() {
        lemma_split_nonempty(s, d, k + 1);
    }
}

/// Tags that are all expressions parse to one variable per tag, in order, each
/// with a non-empty path, so their schema is that of their paths (see
/// `law_schema_leaves`, `law_schema_order_free` and `law_schema_prefixes`).
pub proof fn law_expr_tags_parse(tags: Seq<Seq<char>>)
    requires
        forall|i: int| 0 <= i < tags.len() ==> classify(#[trigger] tags[i]) is Expr,
    ensures
        run(tags).stack.len() == 0,
        parse_tags(tags) == vars_of(expr_paths(tags)),
        forall|i: int| 0 <= i < tags.len() ==> (#[trigger] expr_paths(tags)[i]).len() > 0,
    decreases tags.len(),
{
    assert forall|i: int| 0 <= i < tags.len() implies (#[trigger] expr_paths(tags)[i]).len() > 0 by {
        let t = trim(tags[i]);
        let inner = inner_text(t, '{', '{', '}', '}');
        lemma_split_nonempty(inner, '.', 0);
    }
    if tags.len() > 0 {
        let init = tags.drop_last();
        assert forall|i: int| 0 <= i < init.len() implies classify(#[trigger] init[i]) is Expr by {
            assert(init[i] == tags[i]);
        }
        law_expr_tags_parse(init);
        assert(classify(tags.last()) is Expr);
        assert(vars_of(expr_paths(tags)) =~= vars_of(expr_paths(init)).push(
            Ast::Var(classify(tags.last())->Expr_0),
        ));
    }
}

/// A loop stores, under its iterable, a one-element array holding the schema of
/// its body; a loop in that body nests the same way one level down, at any depth.
pub proof fn law_loop_nests(v: Seq<char>, it: Seq<char>, body: Seq<Ast>)
    ensures
        synth(seq![Ast::Loop(v, it, body)]) == Map::<Seq<char>, Shape>::empty().insert(
            it,
            Shape::List(Box::new(Shape::Object(synth(body)))),
        ),
{
    let f = seq![Ast::Loop(v, it, body)];
    assert(synth_upto(f, 0) == Map::<Seq<char>, Shape>::empty());
    assert(synth(f) == merge(synth_upto(f, 0), f[0]));
}

/// The schema `m` holds a key path `q`: each key of `q` is present, through objects.
pub open spec fn present(m: Map<Seq<char>, Shape>, q: Seq<Seq<char>>) -> bool
    decreases q.len(),
{
    if q.len() == 0 {
        false
    } else if q.len() == 1 {
        m.contains_key(q[0])
    } else {
        m.contains_key(q[0]) && m[q[0]] is Object && present(obj_of(m[q[0]]), q.drop_first())
    }
}

/// `q` is a prefix of `p`.
pub open spec fn is_prefix(q: Seq<Seq<char>>, p: Seq<Seq<char>>) -> bool {
    q.len() <= p.len() && p.subrange(0, q.len() as int) == q
}

proof fn lemma_present_source(m: Map<Seq<char>, Shape>, q: Seq<Seq<char>>, p: Seq<Seq<char>>)
    requires
        p.len() > 0,
        present(put_path(m, p), q),
    ensures
        present(m, q) || is_prefix(q, p),
    decreases p.len(),
{
    if q.len() > 0 && q[0] == p[0] {
        if q.len() == 1 {
            assert(p.subrange(0, 1) =~= q);
        } else if p.len() > 1 {
            let sub = if m.contains_key(p[0]) {
                obj_of(m[p[0]])
            } else {
                Map::empty()
            };
            let q_rest = q.drop_first();
            let p_rest = p.drop_first();
            lemma_present_source(sub, q_rest, p_rest);
            if is_prefix(q_rest, p_rest) {
                assert forall|i: int| 0 <= i < q.len() implies p.subrange(0, q.len() as int)[i]
                    == q[i] by {
                    if i > 0 {
                        assert(p_rest.subrange(0, q_rest.len() as int)[i - 1] == q_rest[i - 1]);
                    }
                }
                assert(p.subrange(0, q.len() as int) =~= q);
            }
            assert(!present(Map::<Seq<char>, Shape>::empty(), q_rest));
        }
    }
}

proof fn lemma_fold_present(a: Seq<Seq<Seq<char>>>, n: int, q: Seq<Seq<char>>)
    requires
        0 <= n <= a.len(),
        forall|i: int| 0 <= i < a.len() ==> #[trigger] a[i].len() > 0,
        present(fold_paths(a, n), q),
    ensures
        exists|i: int| 0 <= i < n && is_prefix(q, #[trigger] a[i]),
    decreases n,
{
    if n == 0 {
        assert(!present(Map::<Seq<char>, Shape>::empty(), q));
    } else {
        assert(a[n - 1].len() > 0);
        lemma_present_source(fold_paths(a, n - 1), q, a[n - 1]);
        if present(fold_paths(a, n - 1), q) {
            lemma_fold_present(a, n - 1, q);
        } else {
            assert(is_prefix(q, a[n - 1]));
        }
    }
}

/// Every key path the schema of placeholders holds is a prefix of one of their
/// (non-empty) paths: the schema holds nothing the placeholders do not imply.
pub proof fn law_schema_prefixes(a: Seq<Seq<Seq<char>>>, q: Seq<Seq<char>>)
    requires
        forall|i: int| 0 <= i < a.len() ==> #[trigger] a[i].len() > 0,
        present(synth(vars_of(a)), q),
    ensures
        exists|i: int| 0 <= i < a.len() && is_prefix(q, #[trigger] a[i]),
{
    lemma_synth_vars(a, a.len() as int);
    lemma_fold_present(a, a.len() as int, q);
}

/// A chain of loops, outermost first, around `inner`.
pub open spec fn nest(loops: Seq<(Seq<char>, Seq<char>)>, inner: Ast) -> Ast
    decreases loops.len(),
{
    if loops.len() == 0 {
        inner
    } else {
        Ast::Loop(loops[0].0, loops[0].1, seq![nest(loops.drop_first(), inner)])
    }
}

/// The schema of a chain of loops around `inner`: under each iterable, a
/// one-element array whose object holds the next level.
pub open spec fn nest_shape(loops: Seq<(Seq<char>, Seq<char>)>, m: Map<Seq<char>, Shape>) -> Map<
    Seq<char>,
    Shape,
>
    decreases loops.len(),
{
    if loops.len() == 0 {
        m
    } else {
        Map::<Seq<char>, Shape>::empty().insert(
            loops[0].1,
            Shape::List(Box::new(Shape::Object(nest_shape(loops.drop_first(), m)))),
        )
    }
}

/// Loops nest in the schema at any depth: each loop's array lies in the
/// single element object of the array of the loop around it.
pub proof fn law_loops_nest_any_depth(loops: Seq<(Seq<char>, Seq<char>)>, inner: Ast)
    ensures
        synth(seq![nest(loops, inner)]) == nest_shape(loops, synth(seq![inner])),
    decreases loops.len(),
{
    if loops.len() > 0 {
        law_loops_nest_any_depth(loops.drop_first(), inner);
        law_loop_nests(loops[0].0, loops[0].1, seq![nest(loops.drop_first(), inner)]);
    }
}

/// Placeholders written one after another.
pub open spec fn join(ts: Seq<Seq<char>>) -> Seq<char>
    decreases ts.len(),
{
    if ts.len() == 0 {
        Seq::empty()
    } else {
        ts[0] + join(ts.drop_first())
    }
}

proof fn lemma_find_shift(p: Seq<char>, r: Seq<char>, k: int, a: char, b: char)
    requires
        0 <= k,
    ensures
        find_pair(p + r, p.len() + k, a, b) == if find_pair(r, k, a, b) >= 0 {
            find_pair(r, k, a, b) + p.len()
        } else {
            -1
        },
    decreases r.len() - k,
{
    let s = p + r;
    if k + 1 < r.len() {
        assert(s[p.len() + k] == r[k]);
        assert(s[p.len() + k + 1] == r[k + 1]);
        if !(r[k] == a && r[k + 1] == b) {
            lemma_find_shift(p, r, k + 1, a, b);
        }
    }
}

proof fn lemma_tag_end_shift(p: Seq<char>, r: Seq<char>, k: int)
    requires
        0 <= k,
    ensures
        tag_end(p + r, p.len() + k) == if tag_end(r, k) >= 0 {
            tag_end(r, k) + p.len()
        } else {
            -1
        },
{
    let s = p + r;
    lemma_find_shift(p, r, k + 2, '}', '}');
    lemma_find_shift(p, r, k + 2, '%', '}');
    if k + 1 < r.len() {
        assert(s[p.len() + k] == r[k]);
        assert(s[p.len() + k + 1] == r[k + 1]);
    }
}

proof fn lemma_tags_shift(p: Seq<char>, r: Seq<char>, k: int)
    requires
        0 <= k,
    ensures
        tags_from(p + r, p.len() + k) == tags_from(r, k),
    decreases r.len() - k,
{
    let s = p + r;
    if k < r.len() {
        lemma_tag_end_shift(p, r, k);
        let e = tag_end(r, k);
        if k < e <= r.len() {
            lemma_tags_shift(p, r, e);
            assert(s.subrange(p.len() + k, p.len() + e) =~= r.subrange(k, e));
        } else {
            lemma_tags_shift(p, r, k + 1);
        }
    }
}

proof fn lemma_find_extend(t: Seq<char>, r: Seq<char>, k: int, a: char, b: char)
    requires
        0 <= k,
        find_pair(t, k, a, b) >= 0,
    ensures
        find_pair(t + r, k, a, b) == find_pair(t, k, a, b),
    decreases t.len() - k,
{
    let s = t + r;
    if k + 1 < t.len() {
        assert(s[k] == t[k]);
        assert(s[k + 1] == t[k + 1]);
        if !(t[k] == a && t[k + 1] == b) {
            lemma_find_extend(t, r, k + 1, a, b);
        }
    }
}

/// A complete placeholder stays one when more text follows it.
proof fn lemma_tag_extend(t: Seq<char>, r: Seq<char>)
    requires
        tag_end(t, 0) == t.len(),
    ensures
        tag_end(t + r, 0) == t.len(),
{
    let s = t + r;
    assert(t.len() >= 2);
    assert(s[0] == t[0] && s[1] == t[1]);
    if find_pair(t, 2, '}', '}') >= 0 {
        lemma_find_extend(t, r, 2, '}', '}');
    }
    if find_pair(t, 2, '%', '}') >= 0 {
        lemma_find_extend(t, r, 2, '%', '}');
    }
}

proof fn lemma_find_sub(s: Seq<char>, i: int, e: int, k: int, a: char, b: char)
    requires
        0 <= i <= k,
        find_pair(s, k, a, b) >= k,
        find_pair(s, k, a, b) + 2 <= e <= s.len(),
    ensures
        find_pair(s.subrange(i, e), k - i, a, b) == find_pair(s, k, a, b) - i,
    decreases e - k,
{
    let t = s.subrange(i, e);
    assert(t[k - i] == s[k]);
    assert(t[k - i + 1] == s[k + 1]);
    if !(s[k] == a && s[k + 1] == b) {
        lemma_find_pair_bounds(s, k + 1, a, b);
        lemma_find_sub(s, i, e, k + 1, a, b);
    }
}

/// Every placeholder the lexer returns is complete on its own.
proof fn lemma_tags_complete(s: Seq<char>, i: int)
    requires
        0 <= i,
    ensures
        forall|k: int|
            0 <= k < tags_from(s, i).len() ==> tag_end(#[trigger] tags_from(s, i)[k], 0)
                == tags_from(s, i)[k].len(),
    decreases s.len() - i,
{
    if i < s.len() {
        let e = tag_end(s, i);
        if i < e <= s.len() {
            lemma_tags_complete(s, e);
            lemma_find_pair_bounds(s, i + 2, '}', '}');
            lemma_find_pair_bounds(s, i + 2, '%', '}');
            let t = s.subrange(i, e);
            assert(t[0] == s[i] && t[1] == s[i + 1]);
            if s[i] == '{' && s[i + 1] == '{' && find_pair(s, i + 2, '}', '}') >= 0 {
                lemma_find_sub(s, i, e, i + 2, '}', '}');
            } else {
                lemma_find_sub(s, i, e, i + 2, '%', '}');
            }
            assert(tag_end(t, 0) == t.len());
            let rest = tags_from(s, e);
            assert forall|k: int| 0 <= k < tags_from(s, i).len() implies tag_end(
                #[trigger] tags_from(s, i)[k],
                0,
            ) == tags_from(s, i)[k].len() by {
                if k > 0 {
                    assert(tags_from(s, i)[k] == rest[k - 1]);
                } else {
                    assert(tags_from(s, i)[k] == t);
                }
            }
        } else {
            lemma_tags_complete(s, i + 1);
            assert(tags_from(s, i) == tags_from(s, i + 1));
        }
    }
}

proof fn lemma_join_tags(ts: Seq<Seq<char>>)
    requires
        forall|k: int| 0 <= k < ts.len() ==> tag_end(#[trigger] ts[k], 0) == ts[k].len(),
    ensures
        tags_of(join(ts)) == ts,
    decreases ts.len(),
{
    if ts.len() > 0 {
        let t = ts[0];
        let rest = ts.drop_first();
        assert forall|k: int| 0 <= k < rest.len() implies tag_end(#[trigger] rest[k], 0)
            == rest[k].len() by {
            assert(rest[k] == ts[k + 1]);
        }
        lemma_join_tags(rest);
        let j = join(ts);
        assert(j == t + join(rest));
        lemma_tag_extend(t, join(rest));
        lemma_tags_shift(t, join(rest), 0);
        assert(j.subrange(0, t.len() as int) =~= t);
        assert(tags_of(j) == seq![t] + tags_from(j, t.len() as int));
        assert(seq![t] + rest =~= ts);
    }
}

/// Extracting again from the placeholders already extracted, written one after
/// another, finds the same placeholders, and so gives the same schema.
pub proof fn law_reextraction_stable(s: Seq<char>)
    ensures
        tags_of(join(tags_of(s))) == tags_of(s),
        schema_of(join(tags_of(s))) == schema_of(s),
{
    lemma_tags_complete(s, 0);
    lemma_join_tags(tags_of(s));
}

} // verus!
