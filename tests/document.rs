use std::io::Cursor;

use docx_rs::{Docx, Run, Table, TableCell, TableRow};
use toolcraft::headings::{extract_docx_headings, Headings, Paragraph};
use toolcraft::extract::docx_to_json;
use toolcraft::schema::SchemaValue;

fn package(paras: &[(Option<&str>, &str)]) -> Vec<u8> {
    let mut doc = Docx::new();
    for (style, text) in paras {
        let mut p = docx_rs::Paragraph::new().add_run(Run::new().add_text(*text));
        if let Some(s) = style {
            p = p.style(s);
        }
        doc = doc.add_paragraph(p);
    }
    let cell = TableCell::new().add_paragraph(docx_rs::Paragraph::new().add_run(Run::new().add_text("cell")));
    doc = doc.add_table(Table::new(vec![TableRow::new(vec![cell])]));
    let mut buf = Cursor::new(Vec::new());
    doc.build().pack(&mut buf).unwrap();
    buf.into_inner()
}

fn outline(bytes: &[u8]) -> Headings {
    let doc = docx_rs::read_docx(bytes).unwrap();
    let ps: Vec<Paragraph> = doc
        .document
        .children
        .iter()
        .filter_map(|c| match c {
            docx_rs::DocumentChild::Paragraph(p) => Some(Paragraph {
                style: p.property.style.as_ref().map(|s| s.val.clone()),
                text: p.raw_text(),
            }),
            _ => None,
        })
        .collect();
    extract_docx_headings(&ps)
}

#[test]
fn outline_of_a_real_package() {
    let bytes = package(&[
        (None, "intro"),
        (Some("1"), "A"),
        (Some("2"), "B"),
        (None, "b text"),
        (Some("1"), "C"),
    ]);
    let h = outline(&bytes);
    assert_eq!(h.orphans, vec!["intro"]);
    assert_eq!(h.roots.len(), 2);
    assert_eq!(h.roots[0].title, "A");
    assert_eq!(h.roots[0].children[0].title, "B");
    assert_eq!(h.roots[0].children[0].contents, Some(vec!["b text".to_string()]));
    assert_eq!(h.roots[1].title, "C");
    assert!(h.roots[1].children.is_empty());
}

#[test]
fn schema_of_a_real_package() {
    let bytes = package(&[(None, "Dear {{ user.name }}"), (Some("1"), "{% for r in rows %}{{ r.cell }}{% endfor %}")]);
    match docx_to_json(bytes) {
        Ok(SchemaValue::Object(entries)) => {
            let keys: Vec<&str> = entries.iter().map(|(k, _)| k.as_str()).collect();
            assert_eq!(keys, vec!["user", "rows"]);
        }
        other => panic!("unexpected {other:?}"),
    }
}
