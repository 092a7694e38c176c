use formatjson5::tree::is_sorted_array;
use formatjson5::{parse, Items, Node, Notes};

fn no_notes() -> Notes {
    Notes { leading: 0, trailing: false }
}

fn bare(literal: &str) -> Node {
    Node::Primitive { notes: no_notes(), literal: literal.as_bytes().to_vec() }
}

fn noted(literal: &str, leading: usize, trailing: bool) -> Node {
    Node::Primitive { notes: Notes { leading, trailing }, literal: literal.as_bytes().to_vec() }
}

fn items(nodes: Vec<Node>) -> Items {
    Items { nodes, closing: 0 }
}

fn array(nodes: Vec<Node>) -> Node {
    Node::Array { notes: no_notes(), items: items(nodes) }
}

fn object(nodes: Vec<Node>) -> Node {
    Node::Object { notes: no_notes(), items: items(nodes) }
}

fn outline(text: &str) -> Items {
    match parse(String::from(text), None) {
        Ok(document) => document.outline(),
        Err(failure) => panic!("the text was refused: {}", failure.describe()),
    }
}

#[test]
fn the_outline_of_a_primitive_holds_its_literal() {
    assert_eq!(outline("null"), items(vec![bare("null")]));
    assert_eq!(outline("'it'"), items(vec![bare("'it'")]));
    assert_eq!(outline("-0.50"), items(vec![bare("-0.50")]));
}

#[test]
fn the_outline_follows_the_nesting() {
    assert_eq!(
        outline("{ a: 1, b: [true, {}], c: { d: [] } }"),
        items(vec![object(vec![
            bare("1"),
            array(vec![bare("true"), object(vec![])]),
            object(vec![array(vec![])]),
        ])])
    );
}

#[test]
fn the_outline_counts_the_comments() {
    let text = "// top\n{ a: 1, // eol\n b: [true, /* in */ null]\n // end\n}";
    assert_eq!(
        outline(text),
        items(vec![Node::Object {
            notes: Notes { leading: 1, trailing: false },
            items: Items {
                nodes: vec![
                    noted("1", 0, true),
                    array(vec![bare("true"), noted("null", 1, false)]),
                ],
                closing: 1,
            },
        }])
    );
}

#[test]
fn the_outline_counts_comments_at_the_end_of_the_text() {
    assert_eq!(
        outline("[]\n// last\n\n// very last\n"),
        Items { nodes: vec![array(vec![])], closing: 3 }
    );
}

#[test]
fn an_array_of_bare_primitives_is_sorted() {
    assert!(is_sorted_array(&items(vec![bare("2"), bare("\"a\""), bare("null")])));
    assert!(is_sorted_array(&items(vec![])));
}

#[test]
fn an_array_with_a_comment_is_not_sorted() {
    assert!(!is_sorted_array(&items(vec![bare("2"), noted("1", 1, false)])));
    assert!(!is_sorted_array(&items(vec![noted("2", 0, true), bare("1")])));
    assert!(!is_sorted_array(&Items { nodes: vec![bare("2"), bare("1")], closing: 1 }));
}

#[test]
fn an_array_with_a_container_is_not_sorted() {
    assert!(!is_sorted_array(&items(vec![bare("2"), object(vec![])])));
    assert!(!is_sorted_array(&items(vec![array(vec![])])));
}

#[test]
fn an_array_of_numbers_in_any_form_is_sorted() {
    assert!(is_sorted_array(&items(vec![
        bare("2"),
        bare("1e3"),
        bare("0xFF"),
        bare("Infinity"),
        bare("NaN"),
        bare("1e1000000000000000001"),
        bare("0x1000000000000000"),
    ])));
}
