use scraper::element_ref::ElementRef;
use scraper::html::Html;
use scraper::node::Attribute;
use scraper::selector::Selector;

fn element(doc: &mut Html, parent: usize, name: &str) -> usize {
    let id = doc.create_element(name.to_string(), Vec::new());
    doc.append_node(parent, id);
    id
}

fn element_with_attr(doc: &mut Html, parent: usize, name: &str, an: &str, av: &str) -> usize {
    let attrs = vec![Attribute { name: an.to_string(), value: av.to_string() }];
    let id = doc.create_element(name.to_string(), attrs);
    doc.append_node(parent, id);
    id
}

fn text(doc: &mut Html, parent: usize, t: &str) {
    doc.append_text(parent, t.to_string());
}

#[test]
fn scope_selection_on_built_tree() {
    // <div><b>1</b><span><span><b>2</b></span><b>3</b></span></div>
    let mut fragment = Html::new_fragment();
    let html = element(&mut fragment, 0, "html");
    let div = element(&mut fragment, html, "div");
    let b1 = element(&mut fragment, div, "b");
    text(&mut fragment, b1, "1");
    let span_outer = element(&mut fragment, div, "span");
    let span_inner = element(&mut fragment, span_outer, "span");
    let b2 = element(&mut fragment, span_inner, "b");
    text(&mut fragment, b2, "2");
    let b3 = element(&mut fragment, span_outer, "b");
    text(&mut fragment, b3, "3");

    let sel1 = Selector::parse("div > span").unwrap();
    let sel2 = Selector::parse(":scope > b").unwrap();

    let mut outer = fragment.select(&sel1);
    let element1 = outer.next().unwrap();
    let mut inner = element1.select(&fragment, &sel2);
    let element2 = inner.next().unwrap();
    assert_eq!(element2.inner_html(&fragment), "3");
    assert!(inner.next().is_none());
}

#[test]
fn text_extraction_on_built_tree() {
    // <h1>Hello, <i>world!</i></h1><script>...</script><style>...</style>
    let mut fragment = Html::new_fragment();
    let html = element(&mut fragment, 0, "html");
    let h1 = element(&mut fragment, html, "h1");
    text(&mut fragment, h1, "Hello, ");
    let i = element(&mut fragment, h1, "i");
    text(&mut fragment, i, "world!");
    let script = element(&mut fragment, html, "script");
    text(&mut fragment, script, "window.var = true");
    let style = element(&mut fragment, html, "style");
    text(&mut fragment, style, ".main { background: white };");

    let selector = Selector::parse("h1").unwrap();
    let mut sel = fragment.select(&selector);
    let h1_ref = sel.next().unwrap();
    let mut runs = h1_ref.text(&fragment);
    let mut collected: Vec<String> = Vec::new();
    while let Some(run) = runs.next() {
        collected.push(run);
    }
    assert_eq!(vec!["Hello, ".to_string(), "world!".to_string()], collected);
}

#[test]
fn text_skips_script_and_style_children() {
    let mut doc = Html::new_document();
    let html = element(&mut doc, 0, "html");
    text(&mut doc, html, "before");
    let script = element(&mut doc, html, "script");
    text(&mut doc, script, "hidden();");
    let em = element(&mut doc, html, "em");
    text(&mut doc, em, "after");

    let root = doc.root_element();
    let mut runs = root.text(&doc);
    assert_eq!(runs.next().unwrap(), "before");
    assert_eq!(runs.next().unwrap(), "after");
    assert!(runs.next().is_none());
}

#[test]
fn root_element_on_built_fragment() {
    // <a href="http://github.com">1</a>, wrapped in the fragment's html root
    let mut html = Html::new_fragment();
    let root = element(&mut html, 0, "html");
    let a = element_with_attr(&mut html, root, "a", "href", "http://github.com");
    text(&mut html, a, "1");

    let root_ref = html.root_element();
    let mut sel = root_ref.select(&html, &Selector::parse("a").unwrap());
    let href = sel.next().unwrap();
    assert_eq!(href.inner_html(&html), "1");
    assert_eq!(href.value(&html).attr("href").unwrap(), "http://github.com");
}

#[test]
fn root_element_built_after_doctype() {
    // <!DOCTYPE html>\n<title>abc</title>
    let mut html = Html::new_document();
    html.append_doctype("html".to_string(), String::new(), String::new());
    let root = element(&mut html, 0, "html");
    let head = element(&mut html, root, "head");
    let title = element(&mut html, head, "title");
    text(&mut html, title, "abc");

    let root_ref = html.root_element();
    let mut sel = root_ref.select(&html, &Selector::parse("title").unwrap());
    let title_ref = sel.next().unwrap();
    assert_eq!(title_ref.inner_html(&html), "abc");
}

#[test]
fn root_element_built_after_comment() {
    // <!-- comment --><title>abc</title>
    let mut html = Html::new_document();
    let comment = html.create_comment(" comment ".to_string());
    html.append_node(0, comment);
    let root = element(&mut html, 0, "html");
    let head = element(&mut html, root, "head");
    let title = element(&mut html, head, "title");
    text(&mut html, title, "abc");

    let root_ref = html.root_element();
    let mut sel = root_ref.select(&html, &Selector::parse("title").unwrap());
    let title_ref = sel.next().unwrap();
    assert_eq!(title_ref.inner_html(&html), "abc");
}

#[test]
fn select_reversible_on_built_tree() {
    // <p>element1</p><p>element2</p><p>element3</p>
    let mut html = Html::new_document();
    let root = element(&mut html, 0, "html");
    let body = element(&mut html, root, "body");
    for t in ["element1", "element2", "element3"] {
        let p = element(&mut html, body, "p");
        text(&mut html, p, t);
    }
    let selector = Selector::parse("p").unwrap();
    let mut sel = html.select(&selector);
    let mut result: Vec<String> = Vec::new();
    while let Some(e) = sel.next_back() {
        result.push(e.inner_html(&html));
    }
    assert_eq!(
        result,
        vec!["element3".to_string(), "element2".to_string(), "element1".to_string()]
    );
}

#[test]
fn forward_and_backward_agree() {
    let mut html = Html::new_document();
    let root = element(&mut html, 0, "html");
    for _ in 0..4 {
        element(&mut html, root, "p");
    }
    let selector = Selector::parse("p").unwrap();
    let mut fwd = html.select(&selector);
    let mut bwd = html.select(&selector);
    let mut forward: Vec<usize> = Vec::new();
    let mut backward: Vec<usize> = Vec::new();
    while let Some(e) = fwd.next() {
        forward.push(e.id);
    }
    while let Some(e) = bwd.next_back() {
        backward.push(e.id);
    }
    backward.reverse();
    assert_eq!(forward, backward);
}

#[test]
fn remove_node_detaches_subtree() {
    let mut html = Html::new_document();
    let root = element(&mut html, 0, "html");
    let keep = element(&mut html, root, "div");
    text(&mut html, keep, "kept");
    let gone = element(&mut html, root, "div");
    let inner = element(&mut html, gone, "b");
    text(&mut html, inner, "dropped");

    let div_sel = Selector::parse("div").unwrap();
    let b_sel = Selector::parse("b").unwrap();
    let mut before = html.select(&div_sel);
    let mut n_before = 0;
    while before.next().is_some() {
        n_before += 1;
    }
    assert_eq!(n_before, 2);

    html.remove_node(gone);

    let mut after = html.select(&div_sel);
    let first = after.next().unwrap();
    assert_eq!(first.id, keep);
    assert!(after.next().is_none());
    // descendants of the detached node are gone from selections too
    assert!(html.select(&b_sel).next().is_none());

    // removing a stale handle again is a no-op, not a failure
    html.remove_node(gone);
    html.remove_node(987_654);
    let mut again = html.select(&div_sel);
    assert_eq!(again.next().unwrap().id, keep);
}

#[test]
fn serialization_round_trips_inner_markup() {
    // <h1>Hello, <i>world!</i></h1> serialized back out of the tree
    let mut fragment = Html::new_fragment();
    let html = element(&mut fragment, 0, "html");
    let h1 = element(&mut fragment, html, "h1");
    text(&mut fragment, h1, "Hello, ");
    let i = element(&mut fragment, h1, "i");
    text(&mut fragment, i, "world!");

    let sel = Selector::parse("h1").unwrap();
    let mut matches = fragment.select(&sel);
    let h1_ref = matches.next().unwrap();
    assert_eq!(h1_ref.inner_html(&fragment), "Hello, <i>world!</i>");
    assert_eq!(h1_ref.html(&fragment), "<h1>Hello, <i>world!</i></h1>");
    assert_eq!(fragment.html(), "<html><h1>Hello, <i>world!</i></h1></html>");
}

#[test]
fn serialization_escapes_text_and_attributes() {
    let mut doc = Html::new_document();
    let root = element(&mut doc, 0, "html");
    let a = element_with_attr(&mut doc, root, "a", "title", "x \"y\" & z");
    text(&mut doc, a, "1 < 2 & 3 > 2");
    let root_ref = doc.root_element();
    assert_eq!(
        root_ref.inner_html(&doc),
        "<a title=\"x &quot;y&quot; &amp; z\">1 &lt; 2 &amp; 3 &gt; 2</a>"
    );
}

#[test]
fn void_elements_have_no_end_tag() {
    let mut doc = Html::new_document();
    let root = element(&mut doc, 0, "html");
    element_with_attr(&mut doc, root, "img", "src", "x.png");
    let root_ref = doc.root_element();
    assert_eq!(root_ref.inner_html(&doc), "<img src=\"x.png\">");
}

#[test]
fn script_text_is_not_escaped() {
    let mut doc = Html::new_document();
    let root = element(&mut doc, 0, "html");
    let script = element(&mut doc, root, "script");
    text(&mut doc, script, "if (a < b && c > d) {}");
    let root_ref = doc.root_element();
    assert_eq!(
        root_ref.inner_html(&doc),
        "<script>if (a < b && c > d) {}</script>"
    );
}

#[test]
fn doctype_and_comment_serialization() {
    let mut doc = Html::new_document();
    doc.append_doctype("html".to_string(), String::new(), String::new());
    let c = doc.create_comment(" note ".to_string());
    doc.append_node(0, c);
    let root = element(&mut doc, 0, "html");
    text(&mut doc, root, "x");
    assert_eq!(doc.html(), "<!DOCTYPE html><!-- note --><html>x</html>");
}

#[test]
fn get_lang_prefers_explicit_value() {
    let mut doc = Html::new_document();
    element_with_attr(&mut doc, 0, "html", "lang", "fr");
    assert_eq!(doc.get_lang(), "fr");
    doc.set_language("en".to_string());
    assert_eq!(doc.get_lang(), "en");
}

#[test]
fn get_lang_empty_without_attribute() {
    let mut doc = Html::new_document();
    element(&mut doc, 0, "html");
    assert_eq!(doc.get_lang(), "");
}

#[test]
fn wrap_rejects_non_elements() {
    let mut doc = Html::new_document();
    let root = element(&mut doc, 0, "html");
    text(&mut doc, root, "just text");
    // the text node got the next handle after the html element
    assert!(ElementRef::wrap(&doc, root).is_some());
    assert!(ElementRef::wrap(&doc, root + 1).is_none());
    assert!(ElementRef::wrap(&doc, 0).is_none());
}

#[test]
fn parse_errors_accumulate_without_failing() {
    let mut doc = Html::new_document();
    element(&mut doc, 0, "html");
    doc.parse_error("unclosed tag".to_string());
    doc.parse_error("stray end tag".to_string());
    assert_eq!(doc.errors.len(), 2);
    assert_eq!(doc.errors[0], "unclosed tag");
    // the tree is still traversable
    assert!(doc.root_element().id > 0);
}
