use blitz_dom::document::BaseDocument;
use blitz_dom::node::{Attribute, QualName};

const HTML: &str = "http://www.w3.org/1999/xhtml";

fn tree() -> (BaseDocument, usize) {
    let mut doc = BaseDocument::new();
    let html = doc.create_element(QualName::new(HTML, "html"), vec![]);
    let head = doc.create_element(QualName::new(HTML, "head"), vec![]);
    let body = doc.create_element(QualName::new(HTML, "body"), vec![]);
    let main = doc.create_element(QualName::new(HTML, "main"), vec![Attribute::new("id", "main")]);
    let div = doc.create_element(QualName::new(HTML, "div"), vec![Attribute::new("class", "arbitrary-class")]);
    doc.append_children(html, &[head, body]);
    doc.append_children(body, &[main]);
    doc.append_children(main, &[div]);
    (doc, html)
}

#[test]
fn outer_html_without_extra_white_space() {
    let (doc, html) = tree();
    assert_eq!(
        doc.outer_html(html),
        "<html><head /><body><main id=\"main\"><div class=\"arbitrary-class\" /></main></body></html>"
    );
}

#[test]
fn outer_html_pretty_indents_by_level() {
    let (doc, html) = tree();
    assert_eq!(
        doc.outer_html_pretty(html),
        "<html>\n  <head />\n  <body>\n    <main id=\"main\">\n      <div class=\"arbitrary-class\" />\n    </main>\n  </body>\n</html>\n"
    );
}

#[test]
fn attribute_values_are_escaped_text_is_not() {
    let mut doc = BaseDocument::new();
    let p = doc.create_element(QualName::new(HTML, "p"), vec![Attribute::new("title", "a<b & \"c\" 'd'")]);
    let text = doc.create_text_node("x < y");
    let comment = doc.create_comment_node("hidden");
    doc.append_children(p, &[text, comment]);
    assert_eq!(doc.outer_html(p), "<p title=\"a&lt;b &amp; &quot;c&quot; &#x27;d&#x27;\">x < y</p>");
}

#[test]
fn text_content_concatenates_descendant_text() {
    let mut doc = BaseDocument::new();
    let div = doc.create_element(QualName::new(HTML, "div"), vec![]);
    let a = doc.create_text_node("Hello, ");
    let b = doc.create_element(QualName::new(HTML, "b"), vec![]);
    let c = doc.create_text_node("world");
    let d = doc.create_comment_node("ignored");
    doc.append_children(b, &[c]);
    doc.append_children(div, &[a, b, d]);
    assert_eq!(doc.text_content(div), "Hello, world");
    assert_eq!(doc.text_content(c), "world");
    assert_eq!(doc.text_content(d), "");
}
