use blitz_dom::document::BaseDocument;
use blitz_dom::mutation_records::{contains_ascii_token, MutationRecords, SpecialOp};
use blitz_dom::node::{Attribute, CanvasData, NodeData, QualName, SpecialElementType};

const HTML: &str = "http://www.w3.org/1999/xhtml";

fn element(doc: &mut BaseDocument, tag: &str) -> usize {
    doc.create_element(QualName::new(HTML, tag), vec![])
}

fn set_special(doc: &mut BaseDocument, id: usize, special: SpecialElementType) {
    if let NodeData::Element(e) = &mut doc.nodes[id].data {
        e.special_data = special;
    }
}

#[test]
fn added_subtrees_queue_their_loads_in_tree_order() {
    let mut doc = BaseDocument::new();
    let div = element(&mut doc, "div");
    let title = element(&mut doc, "title");
    let img = element(&mut doc, "img");
    let section = element(&mut doc, "section");
    let link = element(&mut doc, "link");
    let style = element(&mut doc, "style");
    let input = element(&mut doc, "input");
    let canvas = element(&mut doc, "canvas");
    let text = doc.create_text_node("img");
    doc.append_children(section, &[link, style]);
    doc.append_children(div, &[title, img, section, input, canvas, text]);

    let mut records = MutationRecords::new();
    records.record_added_subtree(&doc, div);
    assert_eq!(
        records.eager_op_queue,
        vec![
            SpecialOp::LoadImage(img),
            SpecialOp::LoadStylesheet(link),
            SpecialOp::ProcessButtonInput(input),
            SpecialOp::LoadCustomPaintSource(canvas),
        ]
    );
    assert_eq!(records.title_node, Some(title));
    assert_eq!(records.style_nodes, vec![style]);
    assert_eq!(records.form_nodes, vec![input]);
    assert!(!records.recompute_is_animating);

    // Adding the same nodes again queues their loads again but records each node once.
    records.record_added_subtree(&doc, section);
    records.record_added_node(&doc.nodes[input], input);
    assert_eq!(records.eager_op_queue.len(), 6);
    assert_eq!(records.style_nodes, vec![style]);
    assert_eq!(records.form_nodes, vec![input]);

    let ops = records.take_eager_ops();
    assert_eq!(ops.len(), 6);
    assert!(records.eager_op_queue.is_empty());
    assert_eq!(records.title_node, Some(title));
}

#[test]
fn removed_subtrees_queue_their_unloads() {
    let mut doc = BaseDocument::new();
    let div = element(&mut doc, "div");
    let sheet = element(&mut doc, "style");
    let frame = element(&mut doc, "iframe");
    let canvas = element(&mut doc, "canvas");
    let img = element(&mut doc, "img");
    set_special(&mut doc, sheet, SpecialElementType::Stylesheet);
    set_special(&mut doc, frame, SpecialElementType::SubDocument);
    set_special(&mut doc, canvas, SpecialElementType::Canvas(CanvasData { custom_paint_source_id: 7 }));
    set_special(&mut doc, img, SpecialElementType::Image);
    doc.append_children(div, &[sheet, img, frame]);

    let mut records = MutationRecords::new();
    records.record_removed_subtree(&doc, div);
    assert_eq!(
        records.eager_op_queue,
        vec![SpecialOp::UnloadStylesheet(sheet), SpecialOp::UnloadSubDocument(frame)]
    );
    assert!(!records.recompute_is_animating);
    records.record_removed_node(&doc.nodes[canvas], canvas);
    assert!(records.recompute_is_animating);
    assert!(records.style_nodes.is_empty());
    assert_eq!(records.title_node, None);
}

#[test]
fn changed_titles_and_styles_are_recorded_again() {
    let mut doc = BaseDocument::new();
    let title = element(&mut doc, "title");
    let style = element(&mut doc, "style");
    let link = element(&mut doc, "link");
    let mut records = MutationRecords::new();
    records.maybe_record_node(&doc, None);
    records.maybe_record_node(&doc, Some(link));
    assert_eq!(records.title_node, None);
    assert!(records.style_nodes.is_empty());
    assert!(records.eager_op_queue.is_empty());
    records.maybe_record_node(&doc, Some(title));
    records.maybe_record_node(&doc, Some(style));
    records.maybe_record_node(&doc, Some(style));
    assert_eq!(records.title_node, Some(title));
    assert_eq!(records.style_nodes, vec![style]);
}

#[test]
fn rel_words_are_split_at_ascii_white_space() {
    assert!(contains_ascii_token("stylesheet", "stylesheet"));
    assert!(contains_ascii_token("alternate stylesheet", "stylesheet"));
    assert!(contains_ascii_token("\tstylesheet\nicon", "stylesheet"));
    assert!(contains_ascii_token("preload\u{c}stylesheet\r", "stylesheet"));
    assert!(!contains_ascii_token("stylesheets", "stylesheet"));
    assert!(!contains_ascii_token("style sheet", "stylesheet"));
    assert!(!contains_ascii_token("STYLESHEET", "stylesheet"));
    assert!(!contains_ascii_token("\u{a0}stylesheet", "stylesheet"), "no-break space is no ASCII white space");
    assert!(!contains_ascii_token("", "stylesheet"));
}

#[test]
fn stylesheet_links_need_rel_and_href_and_know_whether_they_are_in_the_head() {
    let mut doc = BaseDocument::new();
    let root = doc.root_node_id();
    let html = element(&mut doc, "html");
    let head = element(&mut doc, "head");
    let body = element(&mut doc, "body");
    let in_head = doc.create_element(
        QualName::new(HTML, "link"),
        vec![Attribute::new("rel", "stylesheet"), Attribute::new("href", "a.css")],
    );
    let in_body = doc.create_element(
        QualName::new(HTML, "link"),
        vec![Attribute::new("rel", "alternate stylesheet"), Attribute::new("href", "b.css")],
    );
    let icon = doc.create_element(
        QualName::new(HTML, "link"),
        vec![Attribute::new("rel", "icon"), Attribute::new("href", "c.png")],
    );
    let no_href = doc.create_element(QualName::new(HTML, "link"), vec![Attribute::new("rel", "stylesheet")]);
    doc.append_children(root, &[html]);
    doc.append_children(html, &[head, body]);
    doc.append_children(head, &[in_head, icon]);
    doc.append_children(body, &[in_body, no_href]);

    let first = doc.stylesheet_link(in_head).unwrap();
    assert_eq!(first.href, "a.css");
    assert!(first.in_head);
    let second = doc.stylesheet_link(in_body).unwrap();
    assert_eq!(second.href, "b.css");
    assert!(!second.in_head);
    assert!(doc.stylesheet_link(icon).is_none());
    assert!(doc.stylesheet_link(no_href).is_none());
    assert!(doc.stylesheet_link(head).is_none());
}

#[test]
fn canvases_take_the_paint_source_their_src_names() {
    let mut doc = BaseDocument::new();
    let canvas = doc.create_element(QualName::new(HTML, "canvas"), vec![Attribute::new("src", "+42")]);
    let bad = doc.create_element(QualName::new(HTML, "canvas"), vec![Attribute::new("src", "-1")]);
    let none = element(&mut doc, "canvas");
    let big = doc.create_element(
        QualName::new(HTML, "canvas"),
        vec![Attribute::new("src", "18446744073709551615")],
    );
    let too_big = doc.create_element(
        QualName::new(HTML, "canvas"),
        vec![Attribute::new("src", "18446744073709551616")],
    );
    let mut records = MutationRecords::new();
    doc.load_custom_paint_src(&mut records, bad);
    doc.load_custom_paint_src(&mut records, none);
    doc.load_custom_paint_src(&mut records, too_big);
    assert!(!records.recompute_is_animating);
    for id in [bad, none, too_big] {
        match &doc.nodes[id].data {
            NodeData::Element(e) => assert_eq!(e.special_data, SpecialElementType::NoData),
            _ => panic!("not an element"),
        }
    }
    doc.load_custom_paint_src(&mut records, canvas);
    assert!(records.recompute_is_animating);
    doc.load_custom_paint_src(&mut records, big);
    match (&doc.nodes[canvas].data, &doc.nodes[big].data) {
        (NodeData::Element(a), NodeData::Element(b)) => {
            assert_eq!(a.special_data, SpecialElementType::Canvas(CanvasData { custom_paint_source_id: 42 }));
            assert_eq!(b.special_data, SpecialElementType::Canvas(CanvasData { custom_paint_source_id: u64::MAX }));
        }
        _ => panic!("not elements"),
    }
}

fn qual(local: &str) -> QualName {
    QualName::new("", local)
}

#[test]
fn attribute_changes_in_the_document_queue_their_loads_and_unloads() {
    let mut doc = BaseDocument::new();
    let root = doc.root_node_id();
    let img = element(&mut doc, "img");
    let link = doc.create_element(QualName::new(HTML, "link"), vec![Attribute::new("href", "a.css")]);
    let frame = doc.create_element(QualName::new(HTML, "iframe"), vec![Attribute::new("srcdoc", "<p>")]);
    let canvas = doc.create_element(QualName::new(HTML, "canvas"), vec![Attribute::new("src", "3")]);
    let detached = element(&mut doc, "img");
    doc.append_children(root, &[img, link, frame, canvas]);

    let mut records = MutationRecords::new();
    doc.set_attribute_recorded(&mut records, detached, qual("src"), "x.png");
    assert!(records.eager_op_queue.is_empty(), "detached nodes load nothing");
    doc.set_attribute_recorded(&mut records, img, qual("src"), "y.png");
    doc.set_attribute_recorded(&mut records, img, qual("alt"), "y");
    doc.set_attribute_recorded(&mut records, link, qual("href"), "b.css");
    doc.set_attribute_recorded(&mut records, frame, qual("src"), "page.html");
    assert_eq!(
        records.eager_op_queue,
        vec![SpecialOp::LoadImage(img), SpecialOp::LoadStylesheet(link), SpecialOp::LoadIframe(frame)]
    );
    assert_eq!(doc.nodes[img].attr("src").map(|v| v.as_str()), Some("y.png"));

    let _ = records.take_eager_ops();
    doc.clear_attribute_recorded(&mut records, link, qual("rel"));
    assert!(records.eager_op_queue.is_empty(), "removing a missing attribute does nothing");
    doc.clear_attribute_recorded(&mut records, link, qual("href"));
    doc.clear_attribute_recorded(&mut records, frame, qual("srcdoc"));
    assert_eq!(records.eager_op_queue, vec![SpecialOp::UnloadStylesheet(link), SpecialOp::LoadIframe(frame)]);
    assert!(!records.recompute_is_animating);
    doc.clear_attribute_recorded(&mut records, canvas, qual("src"));
    assert!(records.recompute_is_animating);
    assert!(doc.nodes[canvas].attr("src").is_none());
}
