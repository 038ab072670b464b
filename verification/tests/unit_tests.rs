use scraper::html::Html;
use scraper::node::{Attribute, Node, QuirksMode};
use scraper::selector::{Selector, SelectorError};

fn attr(n: &str, v: &str) -> Attribute {
    Attribute { name: n.to_string(), value: v.to_string() }
}

#[test]
fn selector_parse_accepts_the_grammar() {
    assert!(Selector::parse("p").is_ok());
    assert!(Selector::parse("div > span").is_ok());
    assert!(Selector::parse(":scope > b").is_ok());
    assert!(Selector::parse("*").is_ok());
    assert!(Selector::parse("  a   b  ").is_ok());
}

#[test]
fn selector_parse_rejects_empty() {
    assert_eq!(Selector::parse("").unwrap_err(), SelectorError::EmptySelector);
    assert_eq!(Selector::parse("   ").unwrap_err(), SelectorError::EmptySelector);
}

#[test]
fn selector_parse_rejects_stray_combinators() {
    assert_eq!(Selector::parse("> a").unwrap_err(), SelectorError::StrayCombinator);
    assert_eq!(Selector::parse("a >").unwrap_err(), SelectorError::StrayCombinator);
    assert_eq!(Selector::parse("a > > b").unwrap_err(), SelectorError::StrayCombinator);
}

#[test]
fn selector_parse_rejects_bad_tokens() {
    assert_eq!(Selector::parse("a$b").unwrap_err(), SelectorError::InvalidToken);
    assert_eq!(Selector::parse(":hover").unwrap_err(), SelectorError::InvalidToken);
}

#[test]
fn descendant_and_child_combinators_differ() {
    let mut doc = Html::new_document();
    let html = doc.create_element("html".to_string(), Vec::new());
    doc.append_node(0, html);
    let div = doc.create_element("div".to_string(), Vec::new());
    doc.append_node(html, div);
    let mid = doc.create_element("span".to_string(), Vec::new());
    doc.append_node(div, mid);
    let deep = doc.create_element("b".to_string(), Vec::new());
    doc.append_node(mid, deep);

    // b is a descendant of div, but not a child of div
    let desc = Selector::parse("div b").unwrap();
    let child = Selector::parse("div > b").unwrap();
    assert_eq!(doc.select(&desc).next().unwrap().id, deep);
    assert!(doc.select(&child).next().is_none());
    let child_of_span = Selector::parse("span > b").unwrap();
    assert_eq!(doc.select(&child_of_span).next().unwrap().id, deep);
}

#[test]
fn universal_selector_matches_every_element() {
    let mut doc = Html::new_document();
    let html = doc.create_element("html".to_string(), Vec::new());
    doc.append_node(0, html);
    let p = doc.create_element("p".to_string(), Vec::new());
    doc.append_node(html, p);
    doc.append_text(p, "t".to_string());
    let star = Selector::parse("*").unwrap();
    let mut sel = doc.select(&star);
    assert_eq!(sel.next().unwrap().id, html);
    assert_eq!(sel.next().unwrap().id, p);
    assert!(sel.next().is_none());
}

#[test]
fn duplicate_attributes_first_occurrence_wins() {
    let mut doc = Html::new_document();
    let e = doc.create_element(
        "a".to_string(),
        vec![attr("href", "first"), attr("rel", "x"), attr("href", "second")],
    );
    doc.append_node(0, e);
    let root = doc.root_element();
    assert_eq!(root.attr(&doc, "href").unwrap(), "first");
    assert_eq!(root.attr(&doc, "rel").unwrap(), "x");
    assert!(root.attr(&doc, "missing").is_none());
}

#[test]
fn adjacent_text_nodes_coalesce() {
    let mut doc = Html::new_document();
    let html = doc.create_element("html".to_string(), Vec::new());
    doc.append_node(0, html);
    doc.append_text(html, "Hello, ".to_string());
    doc.append_text(html, "world!".to_string());
    let root = doc.root_element();
    let mut runs = root.text(&doc);
    assert_eq!(runs.next().unwrap(), "Hello, world!");
    assert!(runs.next().is_none());
    // an element between two texts keeps them apart
    let b = doc.create_element("b".to_string(), Vec::new());
    doc.append_node(html, b);
    doc.append_text(html, "again".to_string());
    let mut runs2 = doc.root_element().text(&doc);
    assert_eq!(runs2.next().unwrap(), "Hello, world!");
    assert_eq!(runs2.next().unwrap(), "again");
    assert!(runs2.next().is_none());
}

#[test]
fn insert_before_keeps_document_order() {
    let mut doc = Html::new_document();
    let html = doc.create_element("html".to_string(), Vec::new());
    doc.append_node(0, html);
    let late = doc.create_element("p".to_string(), Vec::new());
    doc.append_node(html, late);
    let early = doc.create_element("em".to_string(), Vec::new());
    doc.insert_node_before(late, early);
    assert_eq!(doc.root_element().inner_html(&doc), "<em></em><p></p>");
}

#[test]
fn quirks_mode_is_overwritten_once_set() {
    let mut doc = Html::new_document();
    assert_eq!(doc.quirks_mode, QuirksMode::NoQuirks);
    doc.set_quirks_mode(QuirksMode::Quirks);
    assert_eq!(doc.quirks_mode, QuirksMode::Quirks);
}

#[test]
fn processing_instruction_serializes() {
    let mut doc = Html::new_document();
    let pi = doc.create_pi("xml".to_string(), "version=\"1.0\"".to_string());
    doc.append_node(0, pi);
    assert_eq!(doc.html(), "<?xml version=\"1.0\">");
}

#[test]
fn new_document_and_fragment_start_empty() {
    let doc = Html::new_document();
    assert!(matches!(doc.tree.vals[0], Node::Document));
    assert_eq!(doc.errors.len(), 0);
    assert_eq!(doc.get_lang(), "");
    let frag = Html::new_fragment();
    assert!(matches!(frag.tree.vals[0], Node::Fragment));
}

#[test]
fn empty_document_serializes_to_empty_string() {
    let doc = Html::new_document();
    assert_eq!(doc.html(), "");
}
