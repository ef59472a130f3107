use blitz_dom::document::BaseDocument;
use blitz_dom::node::{Attribute, QualName};

const HTML: &str = "http://www.w3.org/1999/xhtml";

#[test]
fn image_and_picture_elements_are_recognised() {
    let mut doc = BaseDocument::new();
    let img = doc.create_element(QualName::new(HTML, "img"), vec![]);
    let picture = doc.create_element(QualName::new(HTML, "picture"), vec![]);
    let text = doc.create_text_node("img");
    assert!(doc.is_img_node(img));
    assert!(!doc.is_img_node(picture));
    assert!(!doc.is_img_node(text));
    assert!(!doc.is_img_node(1000), "an id that names no node");
    assert!(doc.is_picture_node(picture));
    assert!(!doc.is_picture_node(img));
    assert!(!doc.is_picture_node(1000));
}

#[test]
fn srcset_or_a_picture_parent_makes_the_source_responsive() {
    let mut doc = BaseDocument::new();
    let root = doc.root_node_id();
    let plain = doc.create_element(QualName::new(HTML, "img"), vec![Attribute::new("src", "a.png")]);
    let with_srcset =
        doc.create_element(QualName::new(HTML, "img"), vec![Attribute::new("srcset", "a.png 2x")]);
    let picture = doc.create_element(QualName::new(HTML, "picture"), vec![]);
    let in_picture = doc.create_element(QualName::new(HTML, "img"), vec![]);
    doc.append_children(root, &[plain, with_srcset, picture]);
    doc.append_children(picture, &[in_picture]);
    assert!(!doc.use_srcset_or_picture(plain));
    assert!(doc.use_srcset_or_picture(with_srcset));
    assert!(doc.use_srcset_or_picture(in_picture));
    assert!(!doc.use_srcset_or_picture(picture));
    assert!(!doc.use_srcset_or_picture(1000));
}
