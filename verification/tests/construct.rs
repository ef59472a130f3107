use blitz_dom::construct::{ComplexItem, LayoutChildrenPlan};
use blitz_dom::document::BaseDocument;
use blitz_dom::flags::{IS_INLINE_ROOT, IS_TABLE_ROOT};
use blitz_dom::list_marker::{ListStylePosition, ListStyleType};
use blitz_dom::node::{
    Attribute, DisplayInside, DisplayOutside, ElementStyle, Float, NodeData, Position, QualName,
    SpecialElementType, WhiteSpaceCollapse,
};

const HTML: &str = "http://www.w3.org/1999/xhtml";

fn plain(doc: &mut BaseDocument, tag: &str) -> usize {
    doc.create_element(QualName::new(HTML, tag), vec![])
}

fn styled(doc: &mut BaseDocument, tag: &str, outside: DisplayOutside, inside: DisplayInside, position: Position) -> usize {
    let id = plain(doc, tag);
    if let NodeData::Element(e) = &mut doc.nodes[id].data {
        e.style = Some(ElementStyle {
            display_list_item: false,
            list_style_type: ListStyleType::disc(),
            list_style_position: ListStylePosition::Outside,
            position,
            float: Float::NoFloat,
            display_outside: outside,
            display_inside: inside,
            white_space_collapse: WhiteSpaceCollapse::Collapse,
            order: 0,
        });
    }
    id
}

fn block(doc: &mut BaseDocument) -> usize {
    styled(doc, "div", DisplayOutside::Block, DisplayInside::Flow, Position::Static)
}

#[test]
fn widgets_and_empty_containers_are_planned_first() {
    let mut doc = BaseDocument::new();
    let area = plain(&mut doc, "textarea");
    let text = plain(&mut doc, "input");
    let mail = doc.create_element(QualName::new(HTML, "input"), vec![Attribute::new("type", "email")]);
    let check = doc.create_element(QualName::new(HTML, "input"), vec![Attribute::new("type", "radio")]);
    let submit = doc.create_element(QualName::new(HTML, "input"), vec![Attribute::new("type", "submit")]);
    let svg = plain(&mut doc, "svg");
    let empty = block(&mut doc);
    assert_eq!(doc.plan_layout_children(area), LayoutChildrenPlan::TextEditor { multiline: true });
    assert_eq!(doc.plan_layout_children(text), LayoutChildrenPlan::TextEditor { multiline: false });
    assert_eq!(doc.plan_layout_children(mail), LayoutChildrenPlan::TextEditor { multiline: false });
    assert_eq!(doc.plan_layout_children(check), LayoutChildrenPlan::CheckboxInput);
    assert_eq!(doc.plan_layout_children(submit), LayoutChildrenPlan::NoChildren);
    assert_eq!(doc.plan_layout_children(svg), LayoutChildrenPlan::Svg);
    assert_eq!(doc.plan_layout_children(empty), LayoutChildrenPlan::NoChildren);
}

#[test]
fn flow_containers_choose_by_their_children() {
    let mut doc = BaseDocument::new();
    // Only inline content: an inline formatting context.
    let para = block(&mut doc);
    let words = doc.create_text_node("some words");
    let img = plain(&mut doc, "img");
    doc.append_children(para, &[words, img]);
    assert_eq!(doc.plan_layout_children(para), LayoutChildrenPlan::InlineRoot);

    // Only blocks (white space ignored): laid out as they are.
    let column = block(&mut doc);
    let a = block(&mut doc);
    let gap = doc.create_text_node("  \n ");
    let b = block(&mut doc);
    doc.append_children(column, &[a, gap, b]);
    assert_eq!(doc.plan_layout_children(column), LayoutChildrenPlan::NonWhitespaceChildren);

    // Blocks among inline text: anonymous blocks are needed.
    let mixed = block(&mut doc);
    let t = doc.create_text_node("text");
    let c = block(&mut doc);
    doc.append_children(mixed, &[t, c]);
    assert_eq!(doc.plan_layout_children(mixed), LayoutChildrenPlan::Complex { flex_or_grid: false });

    // Only out-of-flow children: laid out as they are.
    let holder = block(&mut doc);
    let abs = styled(&mut doc, "div", DisplayOutside::Block, DisplayInside::Flow, Position::Absolute);
    doc.append_children(holder, &[abs]);
    assert_eq!(doc.plan_layout_children(holder), LayoutChildrenPlan::NonWhitespaceChildren);

    // A flex container with text needs anonymous boxes; one with elements only does not.
    let flex = styled(&mut doc, "div", DisplayOutside::Block, DisplayInside::Flex, Position::Static);
    let item = block(&mut doc);
    doc.append_children(flex, &[item]);
    assert_eq!(doc.plan_layout_children(flex), LayoutChildrenPlan::NonWhitespaceChildren);
    let loose = doc.create_text_node("loose");
    doc.append_children(flex, &[loose]);
    assert_eq!(doc.plan_layout_children(flex), LayoutChildrenPlan::Complex { flex_or_grid: true });

    let contents = styled(&mut doc, "div", DisplayOutside::NoBox, DisplayInside::Contents, Position::Static);
    let hidden = styled(&mut doc, "div", DisplayOutside::NoBox, DisplayInside::NoBox, Position::Static);
    let table = styled(&mut doc, "table", DisplayOutside::Block, DisplayInside::Table, Position::Static);
    for id in [contents, hidden, table] {
        let kid = block(&mut doc);
        doc.append_children(id, &[kid]);
    }
    assert_eq!(doc.plan_layout_children(contents), LayoutChildrenPlan::Contents);
    assert_eq!(doc.plan_layout_children(hidden), LayoutChildrenPlan::NoBoxes);
    assert_eq!(doc.plan_layout_children(table), LayoutChildrenPlan::Table);
}

#[test]
fn collecting_layout_children_flags_inline_roots_and_queues_their_text() {
    let mut doc = BaseDocument::new();
    let para = block(&mut doc);
    let words = doc.create_text_node("words");
    let img = plain(&mut doc, "img");
    doc.append_children(para, &[words, img]);
    doc.nodes[para].flags.insert(IS_TABLE_ROOT);
    let mut out = Vec::new();
    let mut tasks = Vec::new();
    assert_eq!(doc.collect_layout_children(para, &mut out, &mut tasks), LayoutChildrenPlan::InlineRoot);
    assert_eq!(out, vec![img]);
    assert_eq!(tasks, vec![para]);
    assert!(doc.nodes[para].flags.contains(IS_INLINE_ROOT));
    assert!(!doc.nodes[para].flags.contains(IS_TABLE_ROOT));
    assert_eq!(doc.nodes[img].layout_parent, Some(para));

    // Once a block child joins, the container is no longer an inline root.
    let child = block(&mut doc);
    doc.append_children(para, &[child]);
    let mut out = Vec::new();
    let mut tasks = Vec::new();
    assert_eq!(
        doc.collect_layout_children(para, &mut out, &mut tasks),
        LayoutChildrenPlan::Complex { flex_or_grid: false }
    );
    assert!(out.is_empty() && tasks.is_empty());
    assert!(!doc.nodes[para].flags.contains(IS_INLINE_ROOT));

    let column = block(&mut doc);
    let a = block(&mut doc);
    let gap = doc.create_text_node(" ");
    doc.append_children(column, &[a, gap]);
    doc.nodes[column].before = Some(gap);
    let mut out = vec![99];
    assert_eq!(doc.collect_layout_children(column, &mut out, &mut tasks), LayoutChildrenPlan::NonWhitespaceChildren);
    assert_eq!(out, vec![99, gap, a], "pseudo-elements are kept, white-space children are not");
    let mut all = Vec::new();
    doc.push_children_and_pseudos(&mut all, column);
    assert_eq!(all, vec![gap, a, gap]);
}

#[test]
fn checkbox_inputs_take_their_checked_attribute_once() {
    let mut doc = BaseDocument::new();
    let on = doc.create_element(
        QualName::new(HTML, "input"),
        vec![Attribute::new("type", "checkbox"), Attribute::new("checked", "")],
    );
    let off = doc.create_element(QualName::new(HTML, "input"), vec![Attribute::new("type", "radio")]);
    let mut out = Vec::new();
    let mut tasks = Vec::new();
    assert_eq!(doc.collect_layout_children(on, &mut out, &mut tasks), LayoutChildrenPlan::CheckboxInput);
    assert_eq!(doc.collect_layout_children(off, &mut out, &mut tasks), LayoutChildrenPlan::CheckboxInput);
    assert!(out.is_empty() && tasks.is_empty());
    let state = |doc: &BaseDocument, id: usize| match &doc.nodes[id].data {
        NodeData::Element(e) => e.special_data,
        _ => panic!("not an element"),
    };
    assert_eq!(state(&doc, on), SpecialElementType::CheckboxInput(true));
    assert_eq!(state(&doc, off), SpecialElementType::CheckboxInput(false));
    // An existing state is kept.
    doc.set_attribute(off, QualName::new("", "checked"), "");
    doc.create_checkbox_input(off);
    assert_eq!(state(&doc, off), SpecialElementType::CheckboxInput(false));
}

#[test]
fn complex_containers_wrap_runs_of_inline_content() {
    let mut doc = BaseDocument::new();
    let container = block(&mut doc);
    let text = doc.create_text_node("loose text");
    let span = plain(&mut doc, "span");
    let div = block(&mut doc);
    let note = doc.create_comment_node("note");
    let contents = styled(&mut doc, "div", DisplayOutside::NoBox, DisplayInside::Contents, Position::Static);
    let holder = plain(&mut doc, "span");
    let inner = block(&mut doc);
    doc.append_children(holder, &[inner]);
    let gap = doc.create_text_node("  ");
    doc.append_children(container, &[text, span, div, note, contents, holder, gap]);
    assert_eq!(
        doc.complex_layout_items(container, false),
        vec![
            ComplexItem::Wrap(text),
            ComplexItem::Wrap(span),
            ComplexItem::Own(div),
            ComplexItem::Contents(contents),
            ComplexItem::Own(holder),
            ComplexItem::Wrap(gap),
        ]
    );
    // In a flex or grid container only text is wrapped, and white-space text is dropped.
    assert_eq!(
        doc.complex_layout_items(container, true),
        vec![
            ComplexItem::Wrap(text),
            ComplexItem::Own(span),
            ComplexItem::Own(div),
            ComplexItem::Contents(contents),
            ComplexItem::Own(holder),
        ]
    );
}
