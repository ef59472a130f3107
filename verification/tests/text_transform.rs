use blitz_dom::text_transform::{
    ceil_char_boundary, CaseTransform, TextTransform, TextTransformer, MAX_CONTEXT_LEN,
};

fn transform(kind: TextTransform, lang: &str, texts: &[&str]) -> Vec<String> {
    let transform = CaseTransform::new(kind, lang);
    let mut transformer = TextTransformer::default();
    texts
        .iter()
        .map(|text| transformer.transform(text, &transform))
        .collect()
}

fn capitalize(texts: &[&str]) -> Vec<String> {
    transform(TextTransform::Capitalize, "und", texts)
}

#[test]
fn capitalize_words() {
    assert_eq!(capitalize(&["hello world"]), ["Hello World"]);
    assert_eq!(capitalize(&["foo-bar"]), ["Foo-Bar"]);
    assert_eq!(capitalize(&["john's apple"]), ["John's Apple"]);
    assert_eq!(capitalize(&["foo_bar"]), ["Foo_bar"]);
    assert_eq!(capitalize(&["cancel·lar"]), ["Cancel·lar"]);
    assert_eq!(capitalize(&["un·e député·e"]), ["Un·e Député·e"]);
    assert_eq!(capitalize(&["3rd place"]), ["3rd Place"]);
    assert_eq!(capitalize(&["aBC"]), ["ABC"]);
    // Circled letters are symbols, not letters
    assert_eq!(capitalize(&["ⓐⓐⓐ ⓑⓑⓑ"]), ["ⓐⓐⓐ ⓑⓑⓑ"]);
}

#[test]
fn capitalize_skips_leading_punctuation() {
    assert_eq!(
        capitalize(&["({[-–\"«'.<?!transform"]),
        ["({[-–\"«'.<?!Transform"]
    );
}

#[test]
fn capitalize_uses_titlecase() {
    assert_eq!(capitalize(&["ǆǆ"]), ["ǅǆ"]);
    assert_eq!(capitalize(&["ßa"]), ["Ssa"]);
    assert_eq!(capitalize(&["ᾳᾳ"]), ["ᾼᾳ"]);
}

#[test]
fn capitalize_across_text_nodes() {
    assert_eq!(
        capitalize(&["hel", "lo ", "world"]),
        ["Hel", "lo ", "World"]
    );
    assert_eq!(capitalize(&["don", "'t"]), ["Don", "'t"]);
    assert_eq!(capitalize(&["(", "abc"]), ["(", "Abc"]);
    assert_eq!(
        capitalize(&["hello ", " ", "world"]),
        ["Hello ", " ", "World"]
    );
}

#[test]
fn capitalize_mid_word_text_node() {
    let mut transformer = TextTransformer::default();
    let capitalize = CaseTransform::new(TextTransform::Capitalize, "und");
    assert_eq!(transformer.transform("a", &CaseTransform::none()), "a");
    assert_eq!(transformer.transform("b", &capitalize), "b");
    assert_eq!(transformer.transform("c", &CaseTransform::none()), "c");
}

#[test]
fn capitalize_after_word_break() {
    let mut transformer = TextTransformer::default();
    let capitalize = CaseTransform::new(TextTransform::Capitalize, "und");
    assert_eq!(transformer.transform("abc", &capitalize), "Abc");
    transformer.word_break();
    assert_eq!(transformer.transform("def", &capitalize), "Def");
}

#[test]
fn capitalize_long_words() {
    let long_word = "a".repeat(100);
    let output = capitalize(&[&long_word, "bc de"]);
    assert_eq!(output[1], "bc De");
}

#[test]
fn capitalize_language_sensitive() {
    assert_eq!(
        transform(TextTransform::Capitalize, "nl", &["ijsland"]),
        ["IJsland"]
    );
}

#[test]
fn uppercase_and_lowercase() {
    assert_eq!(
        transform(TextTransform::Uppercase, "und", &["straße"]),
        ["STRASSE"]
    );
    assert_eq!(transform(TextTransform::Uppercase, "tr", &["i"]), ["İ"]);
    assert_eq!(
        transform(TextTransform::Lowercase, "und", &["ABC"]),
        ["abc"]
    );
    assert_eq!(transform(TextTransform::Lowercase, "tr", &["I"]), ["ı"]);
}

#[test]
fn untransformed_text_is_returned_as_is() {
    assert_eq!(
        transform(TextTransform::Unchanged, "und", &["MiXeD", "case"]),
        ["MiXeD", "case"]
    );
}

#[test]
fn ceil_char_boundary_moves_past_continuation_bytes() {
    // "é" is two bytes: offset 1 is inside it.
    assert_eq!(ceil_char_boundary("aé", 2), 3);
    assert_eq!(ceil_char_boundary("aé", 1), 1);
    assert_eq!(ceil_char_boundary("aé", 3), 3);
    assert_eq!(ceil_char_boundary("€x", 1), 3);
}

#[test]
fn context_is_bounded_and_keeps_the_end() {
    let mut transformer = TextTransformer::default();
    let none = CaseTransform::none();
    let long_word = "b".repeat(40);
    transformer.transform(&long_word, &none);
    transformer.transform("cd", &none);
    // After 42 bytes of context, a word continuing it is still mid-word.
    let capitalize = CaseTransform::new(TextTransform::Capitalize, "und");
    assert_eq!(transformer.transform("ef gh", &capitalize), "ef Gh");
    assert_eq!(MAX_CONTEXT_LEN, 32);
}
