use blitz_dom::list_marker::{
    build_alpha_marker, counter_style_name, font_for_bullet_style, marker_for_style, push_decimal,
    CounterStyle, ListStyleType, Marker, Symbol,
};

fn list_style(s: &str) -> ListStyleType {
    ListStyleType(CounterStyle::Name(s.to_string()))
}

#[test]
fn test_marker_for_disc() {
    let result = marker_for_style(ListStyleType::disc(), 0);
    assert_eq!(result, Some(Marker::Char('•')));
}

#[test]
fn test_marker_for_decimal() {
    let result_1 = marker_for_style(list_style("decimal"), 0);
    let result_2 = marker_for_style(list_style("decimal"), 1);
    assert_eq!(result_1, Some(Marker::String("1. ".to_string())));
    assert_eq!(result_2, Some(Marker::String("2. ".to_string())));
}

#[test]
fn test_marker_for_lower_alpha() {
    let result_1 = marker_for_style(list_style("lower-alpha"), 0);
    let result_2 = marker_for_style(list_style("lower-alpha"), 1);
    let result_extended_1 = marker_for_style(list_style("lower-alpha"), 26);
    let result_extended_2 = marker_for_style(list_style("lower-alpha"), 27);
    assert_eq!(result_1, Some(Marker::String("a. ".to_string())));
    assert_eq!(result_2, Some(Marker::String("b. ".to_string())));
    assert_eq!(result_extended_1, Some(Marker::String("aa. ".to_string())));
    assert_eq!(result_extended_2, Some(Marker::String("ab. ".to_string())));
}

#[test]
fn test_marker_for_upper_alpha() {
    let result_1 = marker_for_style(list_style("upper-alpha"), 0);
    let result_2 = marker_for_style(list_style("upper-alpha"), 1);
    let result_extended_1 = marker_for_style(list_style("upper-alpha"), 26);
    let result_extended_2 = marker_for_style(list_style("upper-alpha"), 27);
    assert_eq!(result_1, Some(Marker::String("A. ".to_string())));
    assert_eq!(result_2, Some(Marker::String("B. ".to_string())));
    assert_eq!(result_extended_1, Some(Marker::String("AA. ".to_string())));
    assert_eq!(result_extended_2, Some(Marker::String("AB. ".to_string())));
}

#[test]
fn alpha_markers_count_in_bijective_base_26() {
    let alpha = |i: usize| {
        let mut s = String::new();
        build_alpha_marker(i, &mut s);
        s
    };
    assert_eq!(alpha(25), "z");
    assert_eq!(alpha(26), "aa");
    assert_eq!(alpha(51), "az");
    assert_eq!(alpha(52), "ba");
    assert_eq!(alpha(701), "zz");
    assert_eq!(alpha(702), "aaa");
}

#[test]
fn decimal_digits() {
    let mut s = String::from("#");
    push_decimal(1207, &mut s);
    assert_eq!(s, "#1207");
}

#[test]
fn bullet_shapes_and_fallback() {
    assert_eq!(marker_for_style(list_style("circle"), 3), Some(Marker::Char('\u{25E6}')));
    assert_eq!(marker_for_style(list_style("square"), 3), Some(Marker::Char('\u{25AA}')));
    assert_eq!(marker_for_style(list_style("disclosure-open"), 0), Some(Marker::Char('\u{25BE}')));
    assert_eq!(marker_for_style(list_style("disclosure-closed"), 0), Some(Marker::Char('\u{25B8}')));
    assert_eq!(marker_for_style(list_style("hebrew"), 0), Some(Marker::Char('\u{25A1}')));
}

#[test]
fn none_strings_and_symbols() {
    assert_eq!(marker_for_style(ListStyleType(CounterStyle::NoneKeyword), 0), None);
    assert_eq!(
        marker_for_style(ListStyleType(CounterStyle::String("-> ".to_string())), 4),
        Some(Marker::String("-> ".to_string()))
    );
    let symbols = vec![Symbol::String("x".to_string()), Symbol::Ident("y".to_string())];
    assert_eq!(
        marker_for_style(ListStyleType(CounterStyle::Symbols(symbols.clone())), 3),
        Some(Marker::String("y".to_string()))
    );
    assert_eq!(
        marker_for_style(ListStyleType(CounterStyle::Symbols(Vec::new())), 3),
        Some(Marker::Char('•'))
    );
}

#[test]
fn named_styles_and_bullet_fonts() {
    assert_eq!(counter_style_name(&list_style("decimal")).map(|s| s.as_str()), Some("decimal"));
    assert_eq!(counter_style_name(&ListStyleType(CounterStyle::NoneKeyword)), None);
    assert_eq!(
        font_for_bullet_style(&ListStyleType::disc()).as_deref(),
        Some("Bullet, monospace, sans-serif")
    );
    assert_eq!(font_for_bullet_style(&list_style("decimal")), None);
}
