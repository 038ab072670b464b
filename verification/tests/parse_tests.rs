use std::borrow::Cow;

use fast_html5ever::driver;
use fast_html5ever::interface::tree_builder::{ElementFlags, NodeOrText, QuirksMode, TreeSink};
use fast_html5ever::tendril::{StrTendril, TendrilSink};
use fast_html5ever::{Attribute, ExpandedName, LocalName, Namespace, QualName};

use scraper::html::Html;
use scraper::node;
use scraper::selector::Selector;

// A tree sink feeding the parser's events into the library's verified sink
// operations; handles are arena indices.
struct TestSink {
    doc: Html,
    names: Vec<Option<QualName>>,
}

impl TestSink {
    fn new(doc: Html) -> Self {
        TestSink { doc, names: vec![None] }
    }

    fn remember(&mut self, id: usize, name: Option<QualName>) {
        while self.names.len() <= id {
            self.names.push(None);
        }
        self.names[id] = name;
    }

    fn is_orphan_after(&self, parent: usize, child: usize) -> bool {
        parent < child
            && child < self.doc.tree.vals.len()
            && self.doc.tree.parents[child].is_none()
    }
}

impl TreeSink for TestSink {
    type Handle = usize;
    type Output = Html;

    fn finish(self) -> Html {
        self.doc
    }

    fn parse_error(&mut self, msg: Cow<'static, str>) {
        self.doc.parse_error(msg.into_owned());
    }

    fn get_document(&mut self) -> usize {
        0
    }

    fn elem_name<'a>(&'a self, target: &'a usize) -> ExpandedName<'a> {
        self.names[*target].as_ref().unwrap().expanded()
    }

    fn create_element(
        &mut self,
        name: QualName,
        attrs: Vec<Attribute>,
        _flags: ElementFlags,
    ) -> usize {
        let my_attrs: Vec<node::Attribute> = attrs
            .iter()
            .map(|a| node::Attribute {
                name: a.name.local.to_string(),
                value: a.value.to_string(),
            })
            .collect();
        let id = self.doc.create_element(name.local.to_string(), my_attrs);
        self.remember(id, Some(name));
        id
    }

    fn create_comment(&mut self, _text: StrTendril) {}

    fn create_pi(&mut self, target: StrTendril, data: StrTendril) -> usize {
        let id = self.doc.create_pi(target.to_string(), data.to_string());
        self.remember(id, None);
        id
    }

    fn append(&mut self, parent: &usize, child: NodeOrText<usize>) {
        match child {
            NodeOrText::AppendNode(n) => {
                if self.is_orphan_after(*parent, n) {
                    self.doc.append_node(*parent, n);
                } else {
                    self.doc.parse_error("out-of-order append".to_string());
                }
            }
            NodeOrText::AppendText(t) => {
                if *parent < self.doc.tree.vals.len() {
                    self.doc.append_text(*parent, t.to_string());
                }
            }
        }
    }

    fn append_based_on_parent_node(
        &mut self,
        element: &usize,
        prev_element: &usize,
        child: NodeOrText<usize>,
    ) {
        if self.doc.tree.parents[*element].is_some() {
            self.append_before_sibling(element, child);
        } else {
            self.append(prev_element, child);
        }
    }

    fn append_doctype_to_document(
        &mut self,
        name: StrTendril,
        public_id: StrTendril,
        system_id: StrTendril,
    ) {
        self.doc
            .append_doctype(name.to_string(), public_id.to_string(), system_id.to_string());
    }

    fn get_template_contents(&mut self, target: &usize) -> usize {
        *target
    }

    fn same_node(&self, x: &usize, y: &usize) -> bool {
        x == y
    }

    fn set_quirks_mode(&mut self, mode: QuirksMode) {
        let m = match mode {
            QuirksMode::Quirks => node::QuirksMode::Quirks,
            QuirksMode::LimitedQuirks => node::QuirksMode::LimitedQuirks,
            QuirksMode::NoQuirks => node::QuirksMode::NoQuirks,
        };
        self.doc.set_quirks_mode(m);
    }

    fn append_before_sibling(&mut self, sibling: &usize, new_node: NodeOrText<usize>) {
        let parent = self.doc.tree.parents[*sibling];
        match new_node {
            NodeOrText::AppendNode(n) => match parent {
                Some(p) if self.is_orphan_after(p, n) => {
                    self.doc.insert_node_before(*sibling, n);
                }
                _ => self.doc.parse_error("out-of-order insertion".to_string()),
            },
            NodeOrText::AppendText(t) => {
                if parent.is_some() {
                    self.doc.insert_text_before(*sibling, t.to_string());
                }
            }
        }
    }

    fn add_attrs_if_missing(&mut self, _target: &usize, _attrs: Vec<Attribute>) {}

    fn remove_from_parent(&mut self, target: &usize) {
        self.doc.remove_node(*target);
    }

    fn reparent_children(&mut self, _node: &usize, _new_parent: &usize) {
        self.doc.parse_error("reparenting not supported".to_string());
    }
}

fn parse_document(document: &str) -> Html {
    let parser = driver::parse_document(TestSink::new(Html::new_document()), Default::default());
    parser.one(document)
}

fn parse_fragment(fragment: &str) -> Html {
    let context = QualName::new(
        None,
        Namespace::from("http://www.w3.org/1999/xhtml"),
        LocalName::from("body"),
    );
    let parser = driver::parse_fragment(
        TestSink::new(Html::new_fragment()),
        Default::default(),
        context,
        Vec::new(),
    );
    parser.one(fragment)
}

#[test]
fn test_scope() {
    let html = r"
            <div>
                <b>1</b>
                <span>
                    <span><b>2</b></span>
                    <b>3</b>
                </span>
            </div>
        ";
    let fragment = parse_fragment(html);
    let sel1 = Selector::parse("div > span").unwrap();
    let sel2 = Selector::parse(":scope > b").unwrap();

    let element1 = fragment.select(&sel1).next().unwrap();
    let element2 = element1.select(&fragment, &sel2).next().unwrap();
    assert_eq!(element2.inner_html(&fragment), "3");
}

#[test]
fn test_text() {
    let fragment = parse_fragment(
        "<h1>Hello, <i>world!</i></h1><script>window.var = true</script><style>.main { background: white };</style>",
    );
    let selector = Selector::parse("h1").unwrap();

    let h1 = fragment.select(&selector).next().unwrap();
    let mut runs = h1.text(&fragment);
    let mut text: Vec<String> = Vec::new();
    while let Some(run) = runs.next() {
        text.push(run);
    }
    assert_eq!(vec!["Hello, ".to_string(), "world!".to_string()], text);
}

#[test]
fn root_element_fragment() {
    let html = parse_fragment(r#"<a href="http://github.com">1</a>"#);
    let root_ref = html.root_element();
    let href = root_ref
        .select(&html, &Selector::parse("a").unwrap())
        .next()
        .unwrap();
    assert_eq!(href.inner_html(&html), "1");
    assert_eq!(href.value(&html).attr("href").unwrap(), "http://github.com");
}

#[test]
fn root_element_document_doctype() {
    let html = parse_document("<!DOCTYPE html>\n<title>abc</title>");
    let root_ref = html.root_element();
    let title = root_ref
        .select(&html, &Selector::parse("title").unwrap())
        .next()
        .unwrap();
    assert_eq!(title.inner_html(&html), "abc");
}

#[test]
fn root_element_document_comment() {
    let html = parse_document("<!-- comment --><title>abc</title>");
    let root_ref = html.root_element();
    let title = root_ref
        .select(&html, &Selector::parse("title").unwrap())
        .next()
        .unwrap();
    assert_eq!(title.inner_html(&html), "abc");
}

#[test]
fn select_is_reversible() {
    let html = parse_document("<p>element1</p><p>element2</p><p>element3</p>");
    let selector = Selector::parse("p").unwrap();
    let mut sel = html.select(&selector);
    let mut result: Vec<String> = Vec::new();
    while let Some(e) = sel.next_back() {
        result.push(e.inner_html(&html));
    }
    assert_eq!(
        result,
        vec!["element3".to_string(), "element2".to_string(), "element1".to_string()]
    );
}

#[test]
fn malformed_input_still_parses() {
    let html = parse_document("<p><b>unclosed</p></b></i><div>ok</div>");
    // parsing never fails: the tree is still there and traversable
    let root = html.root_element();
    let div = Selector::parse("div").unwrap();
    let found = html.select(&div).next().unwrap();
    assert_eq!(found.inner_html(&html), "ok");
    assert!(root.id > 0);
    // and the defects were recorded
    assert!(!html.errors.is_empty());
}

#[test]
fn get_lang_derived_from_parsed_document() {
    let mut html = parse_document("<html lang=\"de\"><body>x</body></html>");
    assert_eq!(html.get_lang(), "de");
    html.set_language("en".to_string());
    assert_eq!(html.get_lang(), "en");
}
