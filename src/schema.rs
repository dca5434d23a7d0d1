//! The schema synthesizer: merges a syntax forest into one nested object.

use vstd::prelude::*;
use crate::parser::{Ast, JinjaNode, lemma_loop_model, models};

verus! {

/// The mathematical value of a schema.
pub enum Shape {
    /// A mapping from key to value; key order carries no meaning.
    Object(Map<Seq<char>, Shape>),
    /// A one-element array: the shape of each repeated item.
    List(Box<Shape>),
    /// The empty-string placeholder.
    Blank,
}

/// The mapping held by a shape, empty for anything but an object.
pub open spec fn obj_of(s: Shape) -> Map<Seq<char>, Shape> {
    match s {
        Shape::Object(m) => m,
        _ => Map::empty(),
    }
}

/// Sets the leaf at `path`, creating objects along the way and replacing any
/// non-object found where an object is needed.
pub open spec fn put_path(m: Map<Seq<char>, Shape>, path: Seq<Seq<char>>) -> Map<Seq<char>, Shape>
    decreases path.len(),
{
    if path.len() == 0 {
        m
    } else if path.len() == 1 {
        m.insert(path[0], Shape::Blank)
    } else {
        let sub = if m.contains_key(path[0]) {
            obj_of(m[path[0]])
        } else {
            Map::empty()
        };
        m.insert(path[0], Shape::Object(put_path(sub, path.drop_first())))
    }
}

/// Merges one node into an object.
pub open spec fn merge(m: Map<Seq<char>, Shape>, n: Ast) -> Map<Seq<char>, Shape>
    decreases n, 0int,
{
    match n {
        Ast::Var(path) => put_path(m, path),
        Ast::Loop(_, it, body) => m.insert(
            it,
            Shape::List(Box::new(Shape::Object(synth_upto(body, body.len() as int)))),
        ),
    }
}

/// Merges the first `k` nodes, left to right, into an empty object.
pub open spec fn synth_upto(nodes: Seq<Ast>, k: int) -> Map<Seq<char>, Shape>
    decreases nodes, k,
{
    if k <= 0 || k > nodes.len() {
        Map::empty()
    } else {
        merge(synth_upto(nodes, k - 1), nodes[k - 1])
    }
}

/// The schema of a forest.
pub open spec fn synth(nodes: Seq<Ast>) -> Map<Seq<char>, Shape> {
    synth_upto(nodes, nodes.len() as int)
}

/// A synthesized schema value.
#[derive(Debug)]
pub enum SchemaValue {
    /// An object, as (key, value) entries; where a key repeats, its first entry counts.
    Object(Vec<(String, SchemaValue)>),
    /// A one-element array.
    Array(Box<SchemaValue>),
    /// The empty string `""`.
    EmptyString,
}

/// One entry of an object.
pub type Entry = (String, SchemaValue);

/// Least `j >= i` whose entry has key `k`, or -1.
pub open spec fn key_from(es: Seq<Entry>, k: Seq<char>, i: int) -> int
    decreases es.len() - i,
{
    if i < 0 || i >= es.len() {
        -1
    } else if es[i].0@ == k {
        i
    } else {
        key_from(es, k, i + 1)
    }
}

impl SchemaValue {
    pub open spec fn shape(self) -> Shape
        decreases self,
    {
        match self {
            SchemaValue::Object(es) => Shape::Object(
                Map::new(
                    |k: Seq<char>| key_from(es@, k, 0) >= 0,
                    |k: Seq<char>|
                        {
                            let j = key_from(es@, k, 0);
                            if 0 <= j < es.len() {
                                es[j].1.shape()
                            } else {
                                Shape::Blank
                            }
                        },
                ),
            ),
            SchemaValue::Array(b) => Shape::List(Box::new(b.shape())),
            SchemaValue::EmptyString => Shape::Blank,
        }
    }
}

/// The mapping that a list of entries stands for.
pub open spec fn entries_map(es: Vec<Entry>) -> Map<Seq<char>, Shape> {
    obj_of(SchemaValue::Object(es).shape())
}

/// No two entries share a key.
pub open spec fn keys_distinct(es: Seq<Entry>) -> bool {
    forall|i: int, j: int| 0 <= i < j < es.len() ==> (#[trigger] es[i]).0@ != (#[trigger] es[j]).0@
}

impl SchemaValue {
    /// Keys are unique in every object, at every depth.
    pub open spec fn wf(self) -> bool
        decreases self,
    {
        match self {
            SchemaValue::Object(es) => keys_distinct(es@) && forall|i: int|
                0 <= i < es.len() ==> (#[trigger] es[i]).1.wf(),
            SchemaValue::Array(b) => b.wf(),
            SchemaValue::EmptyString => true,
        }
    }
}

/// Unique keys in an entry list and in every value it holds.
pub open spec fn entries_wf(es: Vec<Entry>) -> bool {
    SchemaValue::Object(es).wf()
}

proof fn lemma_entries_wf(es: Vec<Entry>)
    ensures
        entries_wf(es) <==> (keys_distinct(es@) && forall|i: int|
            0 <= i < es.len() ==> (#[trigger] es@[i]).1.wf()),
{
}

proof fn lemma_key_from_bounds(es: Seq<Entry>, k: Seq<char>, i: int)
    requires
        0 <= i,
    ensures
        key_from(es, k, i) == -1 || (i <= key_from(es, k, i) < es.len() && es[key_from(
            es,
            k,
            i,
        )].0@ == k),
        key_from(es, k, i) == -1 ==> forall|j: int| i <= j < es.len() ==> es[j].0@ != k,
        forall|j: int| i <= j < key_from(es, k, i) ==> es[j].0@ != k,
    decreases es.len() - i,
{
    if i < es.len() && es[i].0@ != k {
        lemma_key_from_bounds(es, k, i + 1);
    }
}

/// `key_from` depends only on the keys of the entries.
proof fn lemma_key_from_same_keys(a: Seq<Entry>, b: Seq<Entry>, k: Seq<char>, i: int)
    requires
        0 <= i,
        a.len() == b.len(),
        forall|j: int| 0 <= j < a.len() ==> a[j].0@ == b[j].0@,
    ensures
        key_from(a, k, i) == key_from(b, k, i),
    decreases a.len() - i,
{
    if i < a.len() && a[i].0@ != k {
        lemma_key_from_same_keys(a, b, k, i + 1);
    }
}

/// Appending a missing key, or keeping the keys, is seen by `key_from` as expected.
proof fn lemma_key_from_push(es: Seq<Entry>, e: Entry, k: Seq<char>, i: int)
    requires
        0 <= i <= es.len(),
    ensures
        key_from(es.push(e), k, i) == if key_from(es, k, i) >= 0 {
            key_from(es, k, i)
        } else if e.0@ == k {
            es.len() as int
        } else {
            -1
        },
    decreases es.len() - i,
{
    if i < es.len() {
        assert(es.push(e)[i] == es[i]);
        if es[i].0@ != k {
            lemma_key_from_push(es, e, k, i + 1);
        }
    } else {
        assert(es.push(e)[i] == e);
        assert(key_from(es.push(e), k, i + 1) == -1);
    }
}

/// Appending an entry whose key is absent adds that key.
proof fn lemma_map_push(es: Vec<Entry>, ns: Vec<Entry>, e: Entry)
    requires
        key_from(es@, e.0@, 0) == -1,
        ns@ == es@.push(e),
    ensures
        entries_map(ns) == entries_map(es).insert(e.0@, e.1.shape()),
{
    let m1 = entries_map(ns);
    let m2 = entries_map(es).insert(e.0@, e.1.shape());
    assert forall|k: Seq<char>| #[trigger] m1.contains_key(k) == m2.contains_key(k) && (
    m1.contains_key(k) ==> m1[k] == m2[k]) by {
        lemma_key_from_push(es@, e, k, 0);
        lemma_key_from_bounds(es@, k, 0);
        let j = key_from(es@, k, 0);
        if j >= 0 {
            assert(ns@[j] == es@[j]);
        } else if e.0@ == k {
            assert(ns@[es.len() as int] == e);
        }
    }
    assert(m1 =~= m2);
}

/// Replacing the first entry of a key by another with the same key sets that key.
proof fn lemma_map_update(es: Vec<Entry>, ns: Vec<Entry>, j: int, e: Entry)
    requires
        0 <= j < es.len(),
        key_from(es@, e.0@, 0) == j,
        ns@ == es@.update(j, e),
    ensures
        entries_map(ns) == entries_map(es).insert(e.0@, e.1.shape()),
{
    lemma_key_from_bounds(es@, e.0@, 0);
    let m1 = entries_map(ns);
    let m2 = entries_map(es).insert(e.0@, e.1.shape());
    assert forall|k: Seq<char>| #[trigger] m1.contains_key(k) == m2.contains_key(k) && (
    m1.contains_key(k) ==> m1[k] == m2[k]) by {
        lemma_key_from_same_keys(ns@, es@, k, 0);
        lemma_key_from_bounds(es@, k, 0);
        let i = key_from(es@, k, 0);
        if i >= 0 && i != j {
            assert(ns@[i] == es@[i]);
        }
    }
    assert(m1 =~= m2);
}

proof fn lemma_map_empty(es: Vec<Entry>)
    requires
        es@.len() == 0,
    ensures
        entries_map(es) == Map::<Seq<char>, Shape>::empty(),
{
    assert(entries_map(es) =~= Map::<Seq<char>, Shape>::empty());
}

/// Index of the first entry with key `k`.
fn find_key(es: &Vec<Entry>, k: &String) -> (r: Option<usize>)
    ensures
        match r {
            Some(j) => j == key_from(es@, k@, 0) && j < es.len(),
            None => key_from(es@, k@, 0) == -1,
        },
{
    let mut j: usize = 0;
    while j < es.len()
        invariant
            j <= es.len(),
            key_from(es@, k@, 0) == key_from(es@, k@, j as int),
        decreases es.len() - j,
    {
        if es[j].0 == *k {
            return Some(j);
        }
        j = j + 1;
    }
    None
}

/// Sets key `k` to `v`: the first entry with that key is replaced, or one is appended.
fn set_entry(es: &mut Vec<Entry>, k: String, v: SchemaValue)
    requires
        entries_wf(*old(es)),
        v.wf(),
    ensures
        entries_map(*final(es)) == entries_map(*old(es)).insert(k@, v.shape()),
        entries_wf(*final(es)),
{
    proof {
        lemma_entries_wf(*es);
        lemma_key_from_bounds(es@, k@, 0);
    }
    let ghost e = (k, v);
    match find_key(es, &k) {
        Some(j) => {
            let ghost es0 = *es;
            es.remove(j);
            es.insert(j, (k, v));
            proof {
                assert(es@ =~= es0@.update(j as int, e));
                lemma_map_update(es0, *es, j as int, e);
                assert forall|a: int, b: int| 0 <= a < b < es@.len() implies (#[trigger] es@[a]).0@
                    != (#[trigger] es@[b]).0@ by {
                    assert(es0@[a].0@ != es0@[b].0@);
                }
                lemma_entries_wf(*es);
            }
        },
        None => {
            let ghost es0 = *es;
            es.push((k, v));
            proof {
                lemma_map_push(es0, *es, e);
                assert forall|a: int, b: int| 0 <= a < b < es@.len() implies (#[trigger] es@[a]).0@
                    != (#[trigger] es@[b]).0@ by {
                    if b < es0@.len() {
                        assert(es0@[a].0@ != es0@[b].0@);
                    } else {
                        assert(es0@[a].0@ != k@);
                    }
                }
                assert forall|i: int| 0 <= i < es@.len() implies (#[trigger] es@[i]).1.wf() by {
                    if i < es0@.len() {
                        assert(es@[i] == es0@[i]);
                    }
                }
                lemma_entries_wf(*es);
            }
        },
    }
}

/// Sets the leaf at `path[from..]` in the object `target`.
fn insert_path(target: &mut Vec<Entry>, path: &Vec<String>, from: usize)
    requires
        from < path.len(),
        entries_wf(*old(target)),
    ensures
        entries_wf(*final(target)),
        entries_map(*final(target)) == put_path(
            entries_map(*old(target)),
            path@.map_values(|p: String| p@).skip(from as int),
        ),
    decreases path.len() - from,
{
    let ghost p = path@.map_values(|p: String| p@).skip(from as int);
    let ghost m0 = entries_map(*target);
    let key = path[from].clone();
    proof {
        assert(p[0] == key@);
        assert(p.drop_first() =~= path@.map_values(|p: String| p@).skip(from + 1));
    }
    if from + 1 == path.len() {
        set_entry(target, key, SchemaValue::EmptyString);
        return;
    }
    match find_key(target, &key) {
        Some(j) => {
            let ghost t0 = *target;
            proof {
                lemma_entries_wf(t0);
                lemma_key_from_bounds(t0@, key@, 0);
            }
            let (k, v) = target.remove(j);
            proof {
                lemma_key_from_bounds(t0@, key@, 0);
                assert(m0.contains_key(key@));
                assert(m0[key@] == v.shape());
            }
            let mut sub = match v {
                SchemaValue::Object(es) => es,
                _ => Vec::new(),
            };
            proof {
                if !(v is Object) {
                    lemma_map_empty(sub);
                    lemma_entries_wf(sub);
                }
                assert(entries_map(sub) == obj_of(v.shape()));
                assert(t0@[j as int] == (k, v));
                assert(v.wf());
                assert(entries_wf(sub));
            }
            insert_path(&mut sub, path, from + 1);
            let ghost e = (k, SchemaValue::Object(sub));
            target.insert(j, (k, SchemaValue::Object(sub)));
            proof {
                assert(target@ =~= t0@.update(j as int, e));
                lemma_map_update(t0, *target, j as int, e);
                assert forall|a: int, b: int| 0 <= a < b < target@.len() implies (
                #[trigger] target@[a]).0@ != (#[trigger] target@[b]).0@ by {
                    assert(t0@[a].0@ != t0@[b].0@);
                }
                assert forall|i: int| 0 <= i < target@.len() implies (
                #[trigger] target@[i]).1.wf() by {
                    if i != j {
                        assert(target@[i] == t0@[i]);
                    }
                }
                lemma_entries_wf(*target);
            }
        },
        None => {
            let mut sub: Vec<Entry> = Vec::new();
            proof {
                lemma_map_empty(sub);
                lemma_entries_wf(sub);
                assert(!m0.contains_key(key@));
            }
            insert_path(&mut sub, path, from + 1);
            set_entry(target, key, SchemaValue::Object(sub));
        },
    }
}

/// Merges one node into the object `target`.
fn merge_value(target: &mut Vec<Entry>, node: &JinjaNode)
    requires
        entries_wf(*old(target)),
    ensures
        entries_wf(*final(target)),
        entries_map(*final(target)) == merge(entries_map(*old(target)), node.model()),
    decreases node,
{
    match node {
        JinjaNode::Variable { path } => {
            if path.len() > 0 {
                insert_path(target, path, 0);
                proof {
                    assert(path@.map_values(|p: String| p@).skip(0) =~= path@.map_values(
                        |p: String| p@,
                    ));
                }
            }
        },
        JinjaNode::ForLoop { loop_var, iterable, body } => {
            proof {
                lemma_loop_model(*loop_var, *iterable, *body);
            }
            let ghost bm = models(body@);
            let mut item: Vec<Entry> = Vec::new();
            proof {
                lemma_map_empty(item);
                lemma_entries_wf(item);
            }
            let mut i: usize = 0;
            while i < body.len()
                invariant
                    i <= body.len(),
                    bm == models(body@),
                    *node is ForLoop,
                    node->ForLoop_body == *body,
                    entries_wf(item),
                    entries_map(item) == synth_upto(bm, i as int),
                decreases body.len() - i,
            {
                proof {
                    vstd::std_specs::vec::axiom_vec_index_decreases(*body, i as int);
                    assert(decreases_to!(*node => node->ForLoop_body));
                    assert(decreases_to!(*node => body[i as int]));
                }
                merge_value(&mut item, &body[i]);
                i = i + 1;
            }
            let ghost it = item;
            set_entry(
                target,
                iterable.clone(),
                SchemaValue::Array(Box::new(SchemaValue::Object(item))),
            );
            proof {
                assert(SchemaValue::Object(it).shape() == Shape::Object(entries_map(it)));
            }
        },
    }
}

/// Synthesizes the schema of a syntax forest: one object into which the nodes
/// are merged left to right.
///
/// A variable sets the empty-string leaf at its path, creating objects along the
/// way (an existing object is reused; anything else there is replaced). A loop
/// stores, under its iterable, a one-element array holding the object
/// synthesized from its body. A later write to the same key replaces the earlier.
/// Keys are unique in every object of the result.
pub fn ast_to_json(ast: &Vec<JinjaNode>) -> (r: SchemaValue)
    ensures
        r.shape() == Shape::Object(synth(models(ast@))),
        r.wf(),
{
    let ghost am = models(ast@);
    let mut root: Vec<Entry> = Vec::new();
    proof {
        lemma_map_empty(root);
        lemma_entries_wf(root);
    }
    let mut i: usize = 0;
    while i < ast.len()
        invariant
            i <= ast.len(),
            am == models(ast@),
            entries_wf(root),
            entries_map(root) == synth_upto(am, i as int),
        decreases ast.len() - i,
    {
        merge_value(&mut root, &ast[i]);
        i = i + 1;
    }
    let ghost r0 = root;
    let r = SchemaValue::Object(root);
    proof {
        assert(r.shape() == Shape::Object(entries_map(r0)));
    }
    r
}

} // verus!
