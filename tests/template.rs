use toolcraft::extract::text_to_schema;
use toolcraft::lexer::extract_jinja2_tags;
use toolcraft::parser::{parse_jinja2_ast, parse_with_diagnostics, JinjaNode};
use toolcraft::schema::{ast_to_json, SchemaValue};

fn to_json(v: &SchemaValue) -> serde_json::Value {
    match v {
        SchemaValue::Object(entries) => {
            let mut m = serde_json::Map::new();
            for (k, x) in entries {
                assert!(!m.contains_key(k), "repeated key {k}");
                m.insert(k.clone(), to_json(x));
            }
            serde_json::Value::Object(m)
        }
        SchemaValue::Array(x) => serde_json::Value::Array(vec![to_json(x)]),
        SchemaValue::EmptyString => serde_json::Value::String(String::new()),
    }
}

fn json(text: &str) -> serde_json::Value {
    serde_json::from_str(text).unwrap()
}

fn schema(text: &str) -> serde_json::Value {
    to_json(&text_to_schema(text))
}

fn tags(input: &str) -> Vec<String> {
    extract_jinja2_tags(input)
}

#[test]
fn lexer_finds_both_shapes_in_order() {
    assert_eq!(
        tags("Hi {{ user.name }}, {% for x in xs %}[{{ x }}]{% endfor %}!"),
        vec!["{{ user.name }}", "{% for x in xs %}", "{{ x }}", "{% endfor %}"]
    );
}

#[test]
fn lexer_without_tags_is_empty() {
    assert!(tags("plain text { } {{ unterminated").is_empty());
    assert!(tags("").is_empty());
}

#[test]
fn lexer_takes_shortest_match_across_lines() {
    assert_eq!(tags("{{ a\n}} }}"), vec!["{{ a\n}}"]);
    assert_eq!(tags("{%- if x -%}{%%}"), vec!["{%- if x -%}", "{%%}"]);
    assert_eq!(tags("{{}}}"), vec!["{{}}"]);
    assert_eq!(tags("{%}{{b}}"), vec!["{{b}}"]);
}

#[test]
fn lexer_handles_non_ascii() {
    assert_eq!(tags("名前: {{ 用户.名 }} é"), vec!["{{ 用户.名 }}"]);
}

#[test]
fn parser_builds_variables_and_loops() {
    let ast = parse_jinja2_ast(&tags("{{ a . b }}{% for i in xs %}{{ i.v }}{% endfor %}"));
    assert_eq!(ast.len(), 2);
    match &ast[0] {
        JinjaNode::Variable { path } => assert_eq!(path, &vec!["a".to_string(), "b".to_string()]),
        other => panic!("unexpected {other:?}"),
    }
    match &ast[1] {
        JinjaNode::ForLoop { loop_var, iterable, body } => {
            assert_eq!(loop_var, "i");
            assert_eq!(iterable, "xs");
            assert_eq!(body.len(), 1);
        }
        other => panic!("unexpected {other:?}"),
    }
}

#[test]
fn parser_drops_malformed_and_unclosed() {
    assert!(parse_jinja2_ast(&tags("{% for x of xs %}{{ a }}{% endfor %}")).len() == 1);
    assert!(parse_jinja2_ast(&tags("{% for x in xs %}{{ a }}")).is_empty());
    assert!(parse_jinja2_ast(&tags("{% if a %}{% endif %}")).is_empty());
}

#[test]
fn parser_reads_header_with_dashes_and_missing_iterable() {
    let ast = parse_jinja2_ast(&tags("{%- for row in rows -%}{%- endfor -%}{% for y in %}{% endfor %}"));
    assert_eq!(ast.len(), 2);
    match &ast[1] {
        JinjaNode::ForLoop { loop_var, iterable, .. } => {
            assert_eq!(loop_var, "y");
            assert_eq!(iterable, "");
        }
        other => panic!("unexpected {other:?}"),
    }
}

#[test]
fn schema_of_distinct_paths_ignores_order() {
    let expected = json(r#"{"a": {"b": "", "c": ""}, "d": {"e": ""}}"#);
    assert_eq!(schema("{{ a.b }} {{ d.e }} {{ a.c }}"), expected);
    assert_eq!(schema("{{ a.c }} {{ a.b }} {{ d.e }}"), expected);
    assert_eq!(schema("{{ d.e }}{{ a.c }}{{ a.b }}"), expected);
}

#[test]
fn schema_loop_round_trip() {
    assert_eq!(
        schema("{% for item in items %}{{ item.name }}{% endfor %}"),
        json(r#"{"items": [{"item": {"name": ""}}]}"#)
    );
}

#[test]
fn schema_unmatched_endfor_is_dropped() {
    assert_eq!(schema("{{ a }}{% endfor %}"), schema("{{ a }}"));
    assert_eq!(schema("{{ a }}{% endfor %}"), json(r#"{"a": ""}"#));
    assert!(parse_jinja2_ast(&tags("{% endfor %}")).is_empty());
}

#[test]
fn schema_nested_loops() {
    assert_eq!(
        schema("{% for outer in xs %}{% for inner in ys %}{{ inner.v }}{% endfor %}{% endfor %}"),
        json(r#"{"xs": [{"ys": [{"inner": {"v": ""}}]}]}"#)
    );
}

#[test]
fn schema_is_repeatable() {
    let text = "{{ a.b }}{% for x in xs %}{{ x.y }}{% endfor %}";
    assert_eq!(schema(text), schema(text));
    let flat: String = tags(text).concat();
    assert_eq!(schema(&flat), schema(text));
}

#[test]
fn schema_overwrites_on_repeat() {
    assert_eq!(schema("{{ a.b }}{{ a }}"), json(r#"{"a": ""}"#));
    assert_eq!(schema("{{ a }}{{ a.b }}"), json(r#"{"a": {"b": ""}}"#));
    assert_eq!(
        schema("{% for x in xs %}{{ p }}{% endfor %}{% for y in xs %}{{ q }}{% endfor %}"),
        json(r#"{"xs": [{"q": ""}]}"#)
    );
}

#[test]
fn schema_of_empty_text_is_empty_object() {
    assert_eq!(schema("no tags"), json("{}"));
    assert_eq!(to_json(&ast_to_json(&Vec::new())), json("{}"));
}

#[test]
fn diagnostics_report_unmatched_ends_and_malformed_headers() {
    let t = tags("{% endfor %}{% for x y in xs %}{% if a %}{% for y in ys %}{{ y }}{% endfor %}{% endfor %}");
    let (ast, dropped) = parse_with_diagnostics(&t);
    assert_eq!(ast.len(), 1);
    assert_eq!(dropped, vec![0, 1, 6]);
    assert_eq!(parse_jinja2_ast(&t).len(), 1);
}

#[test]
fn segments_are_trimmed_of_unicode_whitespace() {
    let ast = parse_jinja2_ast(&tags("{{\u{3000}a\u{a0}.\tb\u{2009}}}"));
    match &ast[0] {
        JinjaNode::Variable { path } => assert_eq!(path, &vec!["a".to_string(), "b".to_string()]),
        other => panic!("unexpected {other:?}"),
    }
    assert_eq!(schema("{{ }}"), json(r#"{"": ""}"#));
}

#[test]
fn unmatched_endfor_in_the_middle_changes_nothing_after_it() {
    assert_eq!(
        schema("{{ a }}{% endfor %}{% for x in xs %}{{ x.y }}{% endfor %}"),
        schema("{{ a }}{% for x in xs %}{{ x.y }}{% endfor %}")
    );
}

#[test]
fn repeated_paths_in_any_order() {
    let expected = json(r#"{"a": {"b": ""}, "c": {"d": ""}}"#);
    assert_eq!(schema("{{ a.b }}{{ c.d }}{{ a.b }}"), expected);
    assert_eq!(schema("{{ c.d }}{{ a.b }}{{ a.b }}"), expected);
}

#[test]
fn statements_are_read_by_whole_words() {
    let t = tags("{% if form.info %}{% include \"form.html\" %}{%-for x in xs-%}{{ x.a }}{%-endfor-%}");
    let (ast, dropped) = parse_with_diagnostics(&t);
    assert!(dropped.is_empty());
    assert_eq!(ast.len(), 1);
    assert_eq!(to_json(&ast_to_json(&ast)), json(r#"{"xs": [{"x": {"a": ""}}]}"#));
    assert!(parse_jinja2_ast(&tags("{% for x in xs %}{{ a }}{% endfors %}")).is_empty());
}
