use umber::syntax::{lang_for_ext, merge_events, style_for_capture, Event, Lang, Span, Style, SyntaxSet};

#[test]
fn rust_keywords_and_strings_highlight() {
    let mut set = SyntaxSet::new();
    let src = "fn main() { let s = \"hi\"; // comment\n}";
    let spans = set.highlight(Lang::Rust, src);
    assert!(!spans.is_empty(), "expected spans for rust source");
    let styled = |style: Style| spans.iter().any(|s| s.style == style);
    assert!(styled(Style::Keyword), "fn/let should be keywords: {spans:?}");
    assert!(styled(Style::String), "\"hi\" should be a string");
    assert!(styled(Style::Comment), "// comment should be a comment");
    for w in spans.windows(2) {
        assert!(w[0].end <= w[1].start, "overlap: {w:?}");
    }
}

#[test]
fn toml_properties_highlight() {
    let mut set = SyntaxSet::new();
    let spans = set.highlight(Lang::Toml, "[package]\nname = \"umber\"\n");
    assert!(!spans.is_empty());
    assert!(spans.iter().any(|s| s.style == Style::String));
}

#[test]
fn unknown_ext_maps_to_none() {
    assert_eq!(lang_for_ext("rs"), Some(Lang::Rust));
    assert_eq!(lang_for_ext("lock"), Some(Lang::Toml));
    assert_eq!(lang_for_ext("xyz"), None);
}

#[test]
fn json_strings_highlight() {
    let mut set = SyntaxSet::new();
    let spans = set.highlight(Lang::Json, "{\"a\": \"b\", \"n\": 1}");
    assert!(spans.iter().any(|s| s.style == Style::String));
}

#[test]
fn the_keyword_is_where_it_stands() {
    let mut set = SyntaxSet::new();
    let spans = set.highlight(Lang::Rust, "  fn f() {}");
    assert_eq!(
        spans.first().map(|s| (s.start, s.end, s.style)),
        Some((2, 4, Style::Keyword))
    );
}

#[test]
fn adjoining_stretches_of_a_style_are_one() {
    let style = style_for_capture(0);
    assert_eq!(style, Style::Keyword);
    let events = vec![
        Event::Start(0),
        Event::Source { start: 0, end: 2 },
        Event::Source { start: 2, end: 5 },
        Event::End,
        Event::Source { start: 5, end: 6 },
        Event::Start(0),
        Event::Source { start: 6, end: 7 },
        Event::End,
    ];
    assert_eq!(
        merge_events(&events),
        vec![Span { start: 0, end: 5, style }, Span { start: 6, end: 7, style }]
    );
}

#[test]
fn nothing_counts_after_a_failure() {
    let events = vec![
        Event::Start(0),
        Event::Source { start: 0, end: 2 },
        Event::Failed,
        Event::Source { start: 2, end: 3 },
    ];
    assert_eq!(
        merge_events(&events),
        vec![Span { start: 0, end: 2, style: Style::Keyword }]
    );
}

#[test]
fn spans_end_within_the_text_and_are_merged() {
    let mut set = SyntaxSet::new();
    for text in ["fn f() { \"\u{e9}\u{e9}", "// \u{1f600}", "let x = 1;", "", "/* open"] {
        let spans = set.highlight(Lang::Rust, text);
        assert!(spans.iter().all(|s| s.start < s.end && s.end <= text.len()), "{text:?}: {spans:?}");
        assert!(spans.windows(2).all(|w| w[0].end < w[1].start || w[0].style != w[1].style));
    }
}
