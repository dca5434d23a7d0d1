//! The parser: turns the lexed tags into a forest of variables and loops.

use vstd::prelude::*;
use crate::text::{
    chars_of, ends_with, sub_vec, inner_text, inner_text_exec, occurs_at_exec,
    same_chars, split_from, split_trimmed, starts_with, string_of, trim, trim_exec, words_exec,
    words_from,
};

verus! {

/// A node of the template syntax tree.
#[derive(Debug)]
pub enum JinjaNode {
    /// A `{{ a.b.c }}` reference, as its dotted segments.
    Variable { path: Vec<String> },
    /// A `{% for loop_var in iterable %} ... {% endfor %}` block.
    ForLoop { loop_var: String, iterable: String, body: Vec<JinjaNode> },
}

/// The mathematical value of a `JinjaNode`.
pub enum Ast {
    Var(Seq<Seq<char>>),
    Loop(Seq<char>, Seq<char>, Seq<Ast>),
}

impl JinjaNode {
    pub open spec fn model(self) -> Ast
        decreases self,
    {
        match self {
            JinjaNode::Variable { path } => Ast::Var(path@.map_values(|p: String| p@)),
            JinjaNode::ForLoop { loop_var, iterable, body } => Ast::Loop(
                loop_var@,
                iterable@,
                Seq::new(
                    body.len() as nat,
                    |i: int|
                        if 0 <= i < body.len() {
                            body[i].model()
                        } else {
                            Ast::Var(Seq::empty())
                        },
                ),
            ),
        }
    }
}

/// The models of a sequence of nodes.
pub open spec fn models(v: Seq<JinjaNode>) -> Seq<Ast> {
    v.map_values(|n: JinjaNode| n.model())
}

/// What one tag means to the parser.
pub enum TagKind {
    /// `{{ ... }}`: the trimmed dotted segments.
    Expr(Seq<Seq<char>>),
    /// A well-formed loop header: the loop variable and the iterable.
    Open(Seq<char>, Seq<char>),
    /// A loop end.
    Close,
    /// A statement that names `for` and `in` but is no loop header; dropped.
    Malformed,
    /// Anything else; dropped.
    Other,
}

/// Index of the first `w` in `parts` at or after `i`, or -1.
pub open spec fn first_from(parts: Seq<Seq<char>>, w: Seq<char>, i: int) -> int
    decreases parts.len() - i,
{
    if i < 0 || i >= parts.len() {
        -1
    } else if parts[i] == w {
        i
    } else {
        first_from(parts, w, i + 1)
    }
}

pub open spec fn kw_for() -> Seq<char> {
    seq!['f', 'o', 'r']
}

pub open spec fn kw_in() -> Seq<char> {
    seq!['i', 'n']
}

pub open spec fn kw_endfor() -> Seq<char> {
    seq!['e', 'n', 'd', 'f', 'o', 'r']
}

/// The loop header read from the words of a statement tag, if they hold
/// `for <var> in <iterable>` at the first `for`, else `Malformed`. A missing
/// iterable is empty.
pub open spec fn loop_header(parts: Seq<Seq<char>>) -> TagKind {
    let f = first_from(parts, kw_for(), 0);
    if 0 <= f && f + 2 < parts.len() && parts[f + 2] == kw_in() {
        TagKind::Open(
            parts[f + 1],
            if f + 3 < parts.len() {
                parts[f + 3]
            } else {
                Seq::empty()
            },
        )
    } else {
        TagKind::Malformed
    }
}

/// `s` without one leading and one trailing `-`, the whitespace-control marks.
pub open spec fn undash(s: Seq<char>) -> Seq<char> {
    let a = if s.len() > 0 && s[0] == '-' {
        s.drop_first()
    } else {
        s
    };
    if a.len() > 0 && a.last() == '-' {
        a.drop_last()
    } else {
        a
    }
}

/// The whitespace-separated words of a statement tag, inside its delimiters
/// and whitespace-control marks.
pub open spec fn stmt_words(t: Seq<char>) -> Seq<Seq<char>> {
    words_from(undash(inner_text(t, '{', '%', '%', '}')), 0)
}

/// Whether `w` is one of `parts`.
pub open spec fn has_word(parts: Seq<Seq<char>>, w: Seq<char>) -> bool {
    first_from(parts, w, 0) >= 0
}

/// How the parser reads one raw tag.
///
/// The tag is trimmed. `{{ ... }}` is an expression: its inner text is split at
/// `.` and each segment trimmed. A `{% ... %}` statement that has the words
/// `for` and `in` is a loop header if its words have that shape, else
/// malformed; one that has the word `endfor` closes a loop. Anything else is
/// dropped.
pub open spec fn classify(raw: Seq<char>) -> TagKind {
    let t = trim(raw);
    if starts_with(t, seq!['{', '{']) && ends_with(t, seq!['}', '}']) {
        TagKind::Expr(
            split_from(inner_text(t, '{', '{', '}', '}'), '.', 0).map_values(
                |p: Seq<char>| trim(p),
            ),
        )
    } else if starts_with(t, seq!['{', '%']) {
        let parts = stmt_words(t);
        if has_word(parts, kw_for()) && has_word(parts, kw_in()) {
            loop_header(parts)
        } else if has_word(parts, kw_endfor()) {
            TagKind::Close
        } else {
            TagKind::Other
        }
    } else {
        TagKind::Other
    }
}

/// A loop whose end tag has not been seen yet.
pub struct OpenLoop {
    pub var: Seq<char>,
    pub iter: Seq<char>,
    pub body: Seq<Ast>,
}

/// The parser's state: the finished top-level forest and the stack of open loops.
pub struct ParseState {
    pub forest: Seq<Ast>,
    pub stack: Seq<OpenLoop>,
}

/// Appends a finished node to the innermost open loop, or to the forest.
pub open spec fn attach(st: ParseState, n: Ast) -> ParseState {
    if st.stack.len() == 0 {
        ParseState { forest: st.forest.push(n), stack: st.stack }
    } else {
        let top = st.stack.last();
        ParseState {
            forest: st.forest,
            stack: st.stack.drop_last().push(OpenLoop { body: top.body.push(n), ..top }),
        }
    }
}

/// One step of the parser on one tag.
pub open spec fn step(st: ParseState, tag: Seq<char>) -> ParseState {
    match classify(tag) {
        TagKind::Expr(path) => attach(st, Ast::Var(path)),
        TagKind::Open(v, it) => ParseState {
            forest: st.forest,
            stack: st.stack.push(OpenLoop { var: v, iter: it, body: Seq::empty() }),
        },
        TagKind::Close => if st.stack.len() == 0 {
            st
        } else {
            let top = st.stack.last();
            attach(
                ParseState { forest: st.forest, stack: st.stack.drop_last() },
                Ast::Loop(top.var, top.iter, top.body),
            )
        },
        TagKind::Malformed => st,
        TagKind::Other => st,
    }
}

/// The parser's state after reading `tags` from the start.
pub open spec fn run(tags: Seq<Seq<char>>) -> ParseState
    decreases tags.len(),
{
    if tags.len() == 0 {
        ParseState { forest: Seq::empty(), stack: Seq::empty() }
    } else {
        step(run(tags.drop_last()), tags.last())
    }
}

/// The forest parsed from `tags`. Loops still open at the end are dropped.
pub open spec fn parse_tags(tags: Seq<Seq<char>>) -> Seq<Ast> {
    run(tags).forest
}

/// Executable `TagKind`.
enum TagClass {
    Expr(Vec<String>),
    Open(String, String),
    Close,
    Malformed,
    Other,
}

impl TagClass {
    spec fn model(self) -> TagKind {
        match self {
            TagClass::Expr(p) => TagKind::Expr(p@.map_values(|x: String| x@)),
            TagClass::Open(v, it) => TagKind::Open(v@, it@),
            TagClass::Close => TagKind::Close,
            TagClass::Malformed => TagKind::Malformed,
            TagClass::Other => TagKind::Other,
        }
    }
}

fn loop_header_exec(parts: &Vec<Vec<char>>) -> (r: TagClass)
    ensures
        r.model() == loop_header(parts@.map_values(|x: Vec<char>| x@)),
{
    let ghost ps = parts@.map_values(|x: Vec<char>| x@);
    let kfor = vec!['f', 'o', 'r'];
    let kin = vec!['i', 'n'];
    proof {
        assert(kfor@ =~= kw_for());
        assert(kin@ =~= kw_in());
    }
    let mut f: usize = 0;
    let mut found = false;
    while f < parts.len() && !found
        invariant
            f <= parts.len(),
            ps == parts@.map_values(|x: Vec<char>| x@),
            kfor@ == kw_for(),
            first_from(ps, kw_for(), 0) == first_from(ps, kw_for(), f as int),
            found ==> f < parts.len() && parts@[f as int]@ == kw_for(),
        decreases parts.len() - f, if found { 0int } else { 1int },
    {
        if same_chars(&parts[f], &kfor) {
            found = true;
        } else {
            f = f + 1;
        }
    }
    proof {
        if f < parts.len() {
            assert(ps[f as int] == parts@[f as int]@);
            assert(first_from(ps, kw_for(), f as int) == f);
        } else {
            assert(first_from(ps, kw_for(), f as int) == -1);
        }
        if f + 2 < parts.len() {
            assert(ps[f + 2] == parts@[f + 2]@);
            assert(ps[f + 1] == parts@[f + 1]@);
        }
        if f + 3 < parts.len() {
            assert(ps[f + 3] == parts@[f + 3]@);
        }
    }
    if f < parts.len() && parts.len() - f > 2 && same_chars(&parts[f + 2], &kin) {
        let v = string_of(&parts[f + 1], 0, parts[f + 1].len());
        let it = if parts.len() - f > 3 {
            string_of(&parts[f + 3], 0, parts[f + 3].len())
        } else {
            String::new()
        };
        proof {
            assert(parts@[f + 1]@.subrange(0, parts@[f + 1]@.len() as int) =~= parts@[f + 1]@);
            if parts.len() - f > 3 {
                assert(parts@[f + 3]@.subrange(0, parts@[f + 3]@.len() as int) =~= parts@[f
                    + 3]@);
            }
        }
        TagClass::Open(v, it)
    } else {
        TagClass::Malformed
    }
}

/// Executable `has_word`.
fn has_word_exec(parts: &Vec<Vec<char>>, w: &Vec<char>) -> (r: bool)
    ensures
        r == has_word(parts@.map_values(|x: Vec<char>| x@), w@),
{
    let ghost ps = parts@.map_values(|x: Vec<char>| x@);
    let mut i: usize = 0;
    while i < parts.len()
        invariant
            i <= parts.len(),
            ps == parts@.map_values(|x: Vec<char>| x@),
            first_from(ps, w@, 0) == first_from(ps, w@, i as int),
        decreases parts.len() - i,
    {
        if same_chars(&parts[i], w) {
            proof {
                assert(ps[i as int] == parts@[i as int]@);
            }
            return true;
        }
        proof {
            assert(ps[i as int] == parts@[i as int]@);
        }
        i = i + 1;
    }
    false
}

/// Executable `undash`.
fn undash_exec(v: &Vec<char>) -> (r: Vec<char>)
    ensures
        r@ == undash(v@),
{
    let a: usize = if v.len() > 0 && v[0] == '-' {
        1
    } else {
        0
    };
    let b: usize = if v.len() > a && v[v.len() - 1] == '-' {
        v.len() - 1
    } else {
        v.len()
    };
    let r = sub_vec(v, a, b);
    proof {
        let s = v@;
        let x = if s.len() > 0 && s[0] == '-' {
            s.drop_first()
        } else {
            s
        };
        assert(x =~= s.subrange(a as int, s.len() as int));
        if x.len() > 0 && x.last() == '-' {
            assert(x.drop_last() =~= s.subrange(a as int, b as int));
        } else {
            assert(x =~= s.subrange(a as int, b as int));
        }
    }
    r
}

fn classify_exec(raw: &String) -> (r: TagClass)
    ensures
        r.model() == classify(raw@),
{
    let rv = chars_of(raw.as_str());
    let t = trim_exec(&rv);
    let open_expr = vec!['{', '{'];
    let close_expr = vec!['}', '}'];
    let open_stmt = vec!['{', '%'];
    let kfor = vec!['f', 'o', 'r'];
    let kin = vec!['i', 'n'];
    let kend = vec!['e', 'n', 'd', 'f', 'o', 'r'];
    proof {
        assert(open_expr@ =~= seq!['{', '{']);
        assert(close_expr@ =~= seq!['}', '}']);
        assert(open_stmt@ =~= seq!['{', '%']);
        assert(kfor@ =~= kw_for());
        assert(kin@ =~= kw_in());
        assert(kend@ =~= kw_endfor());
    }
    let ends = if t.len() >= 2 {
        occurs_at_exec(&t, &close_expr, t.len() - 2)
    } else {
        false
    };
    if occurs_at_exec(&t, &open_expr, 0) && ends {
        let inner = inner_text_exec(&t, '{', '{', '}', '}');
        TagClass::Expr(split_trimmed(&inner, '.'))
    } else if occurs_at_exec(&t, &open_stmt, 0) {
        let inner = undash_exec(&inner_text_exec(&t, '{', '%', '%', '}'));
        let parts = words_exec(&inner);
        if has_word_exec(&parts, &kfor) && has_word_exec(&parts, &kin) {
            loop_header_exec(&parts)
        } else if has_word_exec(&parts, &kend) {
            TagClass::Close
        } else {
            TagClass::Other
        }
    } else {
        TagClass::Other
    }
}

/// An open loop on the parser's stack: loop variable, iterable, body so far.
type Frame = (String, String, Vec<JinjaNode>);

spec fn frame_model(e: Frame) -> OpenLoop {
    OpenLoop { var: e.0@, iter: e.1@, body: models(e.2@) }
}

spec fn state_model(ast: Seq<JinjaNode>, stack: Seq<Frame>) -> ParseState {
    ParseState { forest: models(ast), stack: stack.map_values(|e: Frame| frame_model(e)) }
}

proof fn lemma_models_push(v: Seq<JinjaNode>, n: JinjaNode)
    ensures
        models(v.push(n)) == models(v).push(n.model()),
{
    assert(models(v.push(n)) =~= models(v).push(n.model()));
}

pub(crate) proof fn lemma_loop_model(v: String, it: String, body: Vec<JinjaNode>)
    ensures
        (JinjaNode::ForLoop { loop_var: v, iterable: it, body }).model() == Ast::Loop(
            v@,
            it@,
            models(body@),
        ),
{
    let n = JinjaNode::ForLoop { loop_var: v, iterable: it, body };
    if let Ast::Loop(_, _, b) = n.model() {
        assert(b =~= models(body@));
    }
}

fn attach_exec(ast: &mut Vec<JinjaNode>, stack: &mut Vec<Frame>, n: JinjaNode)
    ensures
        state_model(final(ast)@, final(stack)@) == attach(
            state_model(old(ast)@, old(stack)@),
            n.model(),
        ),
{
    let ghost st = state_model(ast@, stack@);
    if stack.len() == 0 {
        proof {
            lemma_models_push(ast@, n);
        }
        ast.push(n);
        proof {
            assert(state_model(ast@, stack@).stack =~= st.stack);
        }
    } else {
        let ghost s0 = stack@;
        let (v, it, mut body) = stack.pop().unwrap();
        proof {
            lemma_models_push(body@, n);
        }
        body.push(n);
        stack.push((v, it, body));
        proof {
            let top = st.stack.last();
            assert(frame_model(s0.last()) == top);
            assert(stack@.map_values(|e: Frame| frame_model(e)) =~= st.stack.drop_last().push(
                OpenLoop { body: top.body.push(n.model()), ..top },
            ));
        }
    }
}

/// Builds the syntax forest from the lexed tags, in order.
///
/// Expressions attach to the innermost open loop or, outside loops, to the
/// forest; a loop header opens a loop; an end tag closes the innermost loop and
/// attaches it likewise. An end tag with no open loop, a malformed header and
/// any other tag are dropped, as are loops never closed. This never fails.
pub fn parse_jinja2_ast(tags: &Vec<String>) -> (r: Vec<JinjaNode>)
    ensures
        models(r@) == parse_tags(tags@.map_values(|t: String| t@)),
{
    parse_with_diagnostics(tags).0
}

/// Whether tag `i` is dropped as malformed: an end tag while no loop is open,
/// or a statement that names `for` and `in` but is no loop header.
pub open spec fn dropped_at(tags: Seq<Seq<char>>, i: int) -> bool {
    classify(tags[i]) is Malformed || (classify(tags[i]) is Close && run(tags.take(i)).stack.len()
        == 0)
}

/// The indices before `n` of the tags dropped as malformed, in order.
pub open spec fn drops_upto(tags: Seq<Seq<char>>, n: int) -> Seq<int>
    decreases n,
{
    if n <= 0 {
        Seq::empty()
    } else if dropped_at(tags, n - 1) {
        drops_upto(tags, n - 1).push(n - 1)
    } else {
        drops_upto(tags, n - 1)
    }
}

/// Parses as `parse_jinja2_ast` does, and also reports the indices of the tags
/// dropped as malformed (see `dropped_at`), in order. Other statements, such as
/// conditionals, are not reported.
pub fn parse_with_diagnostics(tags: &Vec<String>) -> (r: (Vec<JinjaNode>, Vec<usize>))
    ensures
        models(r.0@) == parse_tags(tags@.map_values(|t: String| t@)),
        r.1@.map_values(|i: usize| i as int) == drops_upto(
            tags@.map_values(|t: String| t@),
            tags.len() as int,
        ),
{
    let mut dropped: Vec<usize> = Vec::new();
    let ghost ts = tags@.map_values(|t: String| t@);
    let mut ast: Vec<JinjaNode> = Vec::new();
    let mut stack: Vec<Frame> = Vec::new();
    let mut i: usize = 0;
    proof {
        assert(dropped@.map_values(|k: usize| k as int) =~= Seq::<int>::empty());
        assert(ts.take(0).len() == 0);
        assert(models(ast@) =~= Seq::<Ast>::empty());
        assert(stack@.map_values(|e: Frame| frame_model(e)) =~= Seq::<OpenLoop>::empty());
    }
    while i < tags.len()
        invariant
            i <= tags.len(),
            ts == tags@.map_values(|t: String| t@),
            state_model(ast@, stack@) == run(ts.take(i as int)),
            dropped@.map_values(|k: usize| k as int) == drops_upto(ts, i as int),
        decreases tags.len() - i,
    {
        let ghost st = state_model(ast@, stack@);
        let ghost d0 = dropped@;
        proof {
            assert(ts.take(i + 1).drop_last() =~= ts.take(i as int));
            assert(ts.take(i + 1).last() == tags@[i as int]@);
        }
        match classify_exec(&tags[i]) {
            TagClass::Expr(path) => {
                attach_exec(&mut ast, &mut stack, JinjaNode::Variable { path });
            },
            TagClass::Open(v, it) => {
                let ghost s0 = stack@;
                stack.push((v, it, Vec::new()));
                proof {
                    assert(models(Seq::<JinjaNode>::empty()) =~= Seq::<Ast>::empty());
                    assert(stack@.map_values(|e: Frame| frame_model(e)) =~= s0.map_values(
                        |e: Frame| frame_model(e),
                    ).push(OpenLoop { var: v@, iter: it@, body: Seq::empty() }));
                }
            },
            TagClass::Close => {
                if stack.len() > 0 {
                    let ghost s0 = stack@;
                    let (v, it, body) = stack.pop().unwrap();
                    proof {
                        lemma_loop_model(v, it, body);
                        assert(stack@.map_values(|e: Frame| frame_model(e)) =~= st.stack.drop_last());
                        assert(frame_model(s0.last()) == st.stack.last());
                    }
                    attach_exec(
                        &mut ast,
                        &mut stack,
                        JinjaNode::ForLoop { loop_var: v, iterable: it, body },
                    );
                } else {
                    dropped.push(i);
                    proof {
                        assert(dropped@.map_values(|k: usize| k as int) =~= d0.map_values(
                            |k: usize| k as int,
                        ).push(i as int));
                    }
                }
            },
            TagClass::Malformed => {
                dropped.push(i);
                proof {
                    assert(dropped@.map_values(|k: usize| k as int) =~= d0.map_values(
                        |k: usize| k as int,
                    ).push(i as int));
                }
            },
            TagClass::Other => {},
        }
        i = i + 1;
    }
    proof {
        assert(ts.take(tags.len() as int) =~= ts);
    }
    (ast, dropped)
}

} // verus!
