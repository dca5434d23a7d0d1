use toolcraft::headings::{extract_docx_headings, parse_level, Node, Paragraph};

fn heading(level: &str, title: &str) -> Paragraph {
    Paragraph { style: Some(level.to_string()), text: title.to_string() }
}

fn plain(text: &str) -> Paragraph {
    Paragraph { style: None, text: text.to_string() }
}

fn shape(n: &Node) -> String {
    let kids: Vec<String> = n.children.iter().map(shape).collect();
    format!("{}{}[{}]", n.title, n.level, kids.join(","))
}

#[test]
fn heading_tree_siblings_and_roots() {
    let ps = vec![heading("1", "A"), heading("2", "B"), heading("2", "C"), heading("1", "D")];
    let h = extract_docx_headings(&ps);
    let roots: Vec<String> = h.roots.iter().map(shape).collect();
    assert_eq!(roots, vec!["A1[B2[],C2[]]", "D1[]"]);
    assert!(h.orphans.is_empty());
}

#[test]
fn heading_tree_deeper_levels_and_jumps() {
    let ps = vec![
        heading("1", "A"),
        heading("3", "B"),
        heading("2", "C"),
        heading("3", "D"),
        heading("1", "E"),
        heading("2", "F"),
    ];
    let h = extract_docx_headings(&ps);
    let roots: Vec<String> = h.roots.iter().map(shape).collect();
    assert_eq!(roots, vec!["A1[B3[],C2[D3[]]]", "E1[F2[]]"]);
}

#[test]
fn plain_paragraphs_before_any_heading_are_orphans() {
    let ps = vec![
        plain("intro"),
        plain("more"),
        heading("1", "A"),
        plain("a1"),
        heading("2", "B"),
        plain("b1"),
        plain("b2"),
        heading("1", "C"),
    ];
    let h = extract_docx_headings(&ps);
    assert_eq!(h.orphans, vec!["intro", "more"]);
    let a = &h.roots[0];
    assert_eq!(a.contents, Some(vec!["a1".to_string()]));
    assert_eq!(a.children[0].contents, Some(vec!["b1".to_string(), "b2".to_string()]));
    assert_eq!(h.roots[1].contents, None);
}

#[test]
fn non_numeric_styles_are_skipped() {
    let ps = vec![heading("Title", "T"), heading("1", "A"), heading("Normal", "x"), heading("0", "z")];
    let h = extract_docx_headings(&ps);
    assert_eq!(h.roots.len(), 1);
    assert_eq!(h.roots[0].contents, None);
    assert!(h.roots[0].children.is_empty());
    assert!(h.orphans.is_empty());
}

#[test]
fn empty_document_has_no_outline() {
    let h = extract_docx_headings(&Vec::new());
    assert!(h.roots.is_empty() && h.orphans.is_empty());
}

#[test]
fn style_levels_read_as_positive_integers() {
    assert_eq!(parse_level(&"3".to_string()), 3);
    assert_eq!(parse_level(&"+12".to_string()), 12);
    assert_eq!(parse_level(&"007".to_string()), 7);
    assert_eq!(parse_level(&"0".to_string()), 0);
    assert_eq!(parse_level(&"".to_string()), 0);
    assert_eq!(parse_level(&"+".to_string()), 0);
    assert_eq!(parse_level(&"-1".to_string()), 0);
    assert_eq!(parse_level(&"Heading1".to_string()), 0);
    assert_eq!(parse_level(&" 1".to_string()), 0);
    assert_eq!(parse_level(&usize::MAX.to_string()), usize::MAX);
    assert_eq!(parse_level(&"99999999999999999999999".to_string()), 0);
}
