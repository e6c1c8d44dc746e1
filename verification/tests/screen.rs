use umber::frame::{ScrollbarInfo, SelSpan};
use umber::git::LineChange;
use umber::latency::{banner, LatencyRing, LAT_RING_CAP};
use umber::overlay::OverlaySpec;
use umber::popout::{
    cell_at, resize_dir_at, segments, Edge, PopoutArea, PopoutQuad, PopoutSight, PopoutWindow, Segment,
};
use umber::renderer::{
    Area, Chrome, OverlayArea, Pass, Quad, Renderer, Sight, CHROME_VERTICES, GIT_MARK_MAX, QUAD_MAX,
};
use umber::strip::{lay_out, tab_at};
use umber::terminal::{Rgb, TerminalSpan};

fn names(all: &[&str]) -> Vec<String> {
    all.iter().map(|s| s.to_string()).collect()
}

fn sight(r: &Renderer) -> Sight {
    Sight {
        selection: vec![true; r.selection.len()],
        marks: vec![true; r.gutter_marks.len()],
        hover_word: true,
        cursor: true,
        visible: 10,
        rule: true,
        hover_line: true,
        term_cursor: true,
        highlight: true,
        sidebar: true,
    }
}

/// The percentiles as they are defined with floating point.
fn by_floats(samples: &[u32]) -> (u32, u32, u32) {
    let mut v = samples.to_vec();
    v.sort_unstable();
    let pick = |q: f32| v[(((v.len() - 1) as f32) * q).round() as usize];
    (pick(0.5), pick(0.99), *v.last().unwrap())
}

#[test]
fn percentiles_agree_with_floating_point() {
    let mut ring = LatencyRing::new();
    let mut all: Vec<u32> = Vec::new();
    assert_eq!(ring.percentiles(), None);
    for i in 0..300u32 {
        let us = (i * 7919) % 10007;
        ring.record(us as u128);
        all.push(us);
        assert_eq!(ring.percentiles(), Some(by_floats(&all)));
        assert_eq!(ring.percentiles_cached(), Some(by_floats(&all)));
    }
    assert_eq!(ring.count(), 300);
}

#[test]
fn the_oldest_samples_roll_off() {
    let mut ring = LatencyRing::new();
    ring.record(5_000_000);
    for _ in 0..LAT_RING_CAP {
        ring.record(1);
    }
    assert_eq!(ring.percentiles(), Some((1, 1, 1)));
    assert_eq!(ring.count(), LAT_RING_CAP as u64 + 1);
    ring.record(u128::MAX);
    assert_eq!(ring.percentiles(), Some((1, 1, u32::MAX)));
}

#[test]
fn the_summary_tells_the_verdict() {
    let mut ring = LatencyRing::new();
    assert_eq!(ring.summary(), "latency: no keystroke samples recorded");
    ring.record(8000);
    assert_eq!(
        ring.summary(),
        "latency: p50 8.00ms  p99 8.00ms  max 8.00ms  n=1  \u{2014} D4 approx (event\u{2192}GPU-submit, not event\u{2192}pixel) GO (p99 <= 8ms)"
    );
    ring.record(8001);
    ring.record(8001);
    assert!(ring.summary().ends_with("NO-GO (p99 > 8ms)"));
    for us in [0u32, 1, 5, 15, 999, 1005, 1015, 12_345, 67_891, 16_777_217] {
        let mut one = LatencyRing::new();
        one.record(us as u128);
        let shown = format!("p50 {:.2}ms", us as f32 / 1000.0);
        assert!(one.summary().contains(&shown), "{shown}");
    }
}

#[test]
fn the_banner_shows_the_latency_where_it_is_on() {
    let mut ring = LatencyRing::new();
    assert_eq!(banner("x", false, &mut ring), "x");
    assert_eq!(banner("", true, &mut ring), "lat p50 -ms p99 -ms n=0");
    ring.record(1234);
    assert_eq!(banner("x", true, &mut ring), "x    lat p50 1.2ms p99 1.2ms n=1");
}

#[test]
fn tabs_are_found_by_their_columns() {
    let (text, layout) = lay_out(&names(&["ab", "", "cde"]));
    assert_eq!(text, "ab        cde");
    assert_eq!(layout, vec![(0, 2), (6, 6), (10, 13)]);
    assert_eq!(tab_at(&layout, 1), Some(0));
    assert_eq!(tab_at(&layout, 2), None);
    assert_eq!(tab_at(&layout, 12), Some(2));
    assert_eq!(tab_at(&layout, 13), None);
}

#[test]
fn a_fresh_window_shows_its_frame() {
    let r = Renderer::new(0, 5);
    assert_eq!(r.size(), (1, 5));
    let plan = r.render(&sight(&r));
    assert_eq!(plan.areas, vec![Area::Banner, Area::Document]);
    assert_eq!(plan.chrome, vec![Chrome::Sidebar, Chrome::SideSeam, Chrome::TopSeam]);
    assert!(plan.quads.is_empty());
    assert_eq!(plan.passes, vec![Pass::Chrome(18), Pass::Text]);
    assert!(plan.overlay_areas.is_empty());
}

fn busy() -> Renderer {
    let mut r = Renderer::new(800, 600);
    r.set_selection(vec![SelSpan { line: 0, start_col: 0, end_col: Some(1) }; 400]);
    r.set_gutter_marks(vec![(0, LineChange::Added); 600]);
    r.set_scrollbar(Some(ScrollbarInfo { first_line: 0, total_lines: 100 }));
    r.set_gutter("1\n2", 1);
    r.set_hover_line(Some(1));
    r.set_hover_word(Some((1, 2, "word")));
    r.set_cursor(Some((0, 0)));
    r.set_terminal(true, true);
    r.set_terminal_text("$ ", Some((0, 2)));
    r.set_sidebar_tabs(&names(&["a", "b"]), 7);
    r.set_sidebar_hover(Some(0));
    r.set_tabs(&names(&["Palette", "Find"]), 1);
    r
}

#[test]
fn a_full_frame_fits_its_buffers() {
    let r = busy();
    let plan = r.render(&sight(&r));
    assert!(plan.quads.len() <= QUAD_MAX);
    assert_eq!(plan.quads.len(), 249 + 2 + 2 + 2);
    assert_eq!(plan.marks.len(), GIT_MARK_MAX);
    assert!(plan.chrome.len() * 6 <= CHROME_VERTICES);
    assert_eq!(
        plan.passes,
        vec![
            Pass::Quads(0, 1494),
            Pass::Chrome(54),
            Pass::Text,
            Pass::Quads(1494, 1506),
            Pass::Quads(1506, 1518),
            Pass::Quads(1518, 1530),
            Pass::Marks(3072),
        ]
    );
    assert_eq!(
        plan.areas,
        vec![
            Area::Sidebar,
            Area::Banner,
            Area::Strip,
            Area::Gutter,
            Area::Document,
            Area::Terminal,
            Area::HoverWord,
            Area::Cursor,
        ]
    );
    assert_eq!(r.sidebar.active, Some(1));
    assert!(plan.chrome.contains(&Chrome::StripActive(11, 15)));
}

#[test]
fn what_is_not_in_sight_is_not_drawn() {
    let r = busy();
    let mut s = sight(&r);
    s.selection = vec![false; 400];
    s.marks = vec![false; 600];
    s.visible = 100;
    s.rule = false;
    s.hover_line = false;
    s.term_cursor = false;
    let plan = r.render(&s);
    assert_eq!(plan.quads, vec![Quad::TermBorder(true)]);
    assert!(plan.marks.is_empty());
}

fn page() -> OverlaySpec {
    OverlaySpec {
        title: Some("Title".to_string()),
        input: Some("in".to_string()),
        rows: vec![
            ("a".to_string(), "1".to_string()),
            ("b".to_string(), "2".to_string()),
        ],
        left_color: Rgb { r: 1, g: 2, b: 3 },
        right_color: Rgb { r: 4, g: 5, b: 6 },
        split_percent: 70,
        selected: Some(1),
        hint: None,
    }
}

#[test]
fn a_page_hides_the_editor() {
    let mut r = busy();
    let texts = r.set_overlay(Some(page())).unwrap();
    assert_eq!(texts.left, "a\nb");
    assert_eq!(texts.right, "1\n2");
    assert_eq!(texts.input, Some("in\u{258f}".to_string()));
    let plan = r.render(&sight(&r));
    assert_eq!(
        plan.quads,
        vec![
            Quad::TermBorder(true),
            Quad::Dim,
            Quad::Panel,
            Quad::InputBox,
            Quad::Highlight(1),
        ]
    );
    assert!(plan.marks.is_empty());
    assert_eq!(
        plan.overlay_areas,
        vec![OverlayArea::Title, OverlayArea::Input, OverlayArea::Left, OverlayArea::Right]
    );
    assert_eq!(plan.passes.last(), Some(&Pass::OverlayText));
    assert!(r.set_overlay(None).is_none());
    assert!(r.render(&sight(&r)).overlay_areas.is_empty());
}

#[test]
fn texts_are_shaped_only_where_they_change() {
    let mut r = Renderer::new(8, 8);
    assert!(r.set_document("a"));
    assert!(!r.set_document("a"));
    assert!(r.set_gutter("1", 1));
    assert!(r.set_document("a"));
    assert!(!r.set_gutter("1", 1));
    assert!(r.set_hover_word(Some((0, 0, "w"))));
    assert!(!r.set_hover_word(None));
    assert!(!r.set_hover_word(Some((1, 1, "w"))));
    assert!(r.set_gutter_enabled(false));
    assert!(!r.set_gutter_enabled(false));
    assert!(r.set_terminal(true, false));
    assert!(!r.set_terminal(true, true));
    assert!(r.terminal_open() && r.terminal_focused() && !r.terminal_maximized());
    assert!(r.set_terminal_maximized(true));
    assert!(r.set_sidebar_hover(Some(2)));
    assert!(!r.set_sidebar_hover(Some(2)));
    assert!(!r.set_sidebar_expanded(true));
    assert!(r.set_sidebar_expanded(false) && !r.sidebar_expanded());
    assert!(r.set_tabs(&names(&["x"]), 0));
    assert_eq!(r.tabstrip_at(0), Some(0));
    assert_eq!(r.sidebar_tab_at(0), None);
    assert_eq!(r.overlay_row_at(3, 3), None);
}

#[test]
fn the_banner_is_composed_only_where_it_is_stale() {
    let mut r = Renderer::new(8, 8);
    assert!(r.compose_banner().is_some());
    assert!(r.compose_banner().is_none());
    r.set_stats_prefix("p".to_string());
    assert_eq!(r.compose_banner(), Some("p    lat p50 -ms p99 -ms n=0".to_string()));
    r.mark_keystroke(1000);
    r.mark_keystroke(2000);
    r.presented(3000);
    assert!(r.pending.is_empty());
    assert_eq!(r.compose_banner(), Some("p    lat p50 2.0ms p99 2.0ms n=2".to_string()));
    r.set_latency_hud(false);
    assert_eq!(r.compose_banner(), Some("p".to_string()));
    r.mark_keystroke(4000);
    r.dropped();
    r.presented(9000);
    assert!(r.latency_summary().contains("n=2"));
    r.resize(0, 9);
    assert_eq!(r.size(), (1, 9));
    assert!(r.compose_banner().is_some());
}

#[test]
fn corners_come_before_edges() {
    assert_eq!(resize_dir_at(true, false, true, false), Some(Edge::NorthWest));
    assert_eq!(resize_dir_at(true, true, false, true), Some(Edge::NorthEast));
    assert_eq!(resize_dir_at(false, true, true, false), Some(Edge::SouthWest));
    assert_eq!(resize_dir_at(false, false, false, true), Some(Edge::East));
    assert_eq!(resize_dir_at(false, false, false, false), None);
}

#[test]
fn a_drag_selects_and_a_press_does_not() {
    let mut w = PopoutWindow::new(100, 100);
    w.begin_selection(Some((2, 3)));
    assert!(!w.extend_selection(Some((2, 3))));
    assert!(w.end_selection());
    assert_eq!(w.selection(), None);
    w.begin_selection(Some((2, 3)));
    assert!(w.extend_selection(Some((1, 5))));
    assert!(!w.end_selection());
    assert_eq!(w.selection(), Some(((2, 3), (1, 5))));
    assert!(!w.extend_selection(Some((0, 0))));
    let s = PopoutSight { cols: 80, rows: vec![true, true], cursor: false, lit: [false, true, false] };
    let plan = w.render(&s);
    assert_eq!(
        plan.quads,
        vec![
            PopoutQuad::Border,
            PopoutQuad::Fill,
            PopoutQuad::Selection(1, 5, 79),
            PopoutQuad::Selection(2, 0, 3),
            PopoutQuad::ControlBorder,
            PopoutQuad::ControlFill,
            PopoutQuad::Button(0),
            PopoutQuad::Halo(1),
            PopoutQuad::Button(1),
            PopoutQuad::Button(2),
        ]
    );
    assert_eq!(plan.under, 4);
    assert_eq!(plan.areas, vec![PopoutArea::Terminal]);
    assert!(w.clear_selection());
    assert!(!w.clear_selection());
    w.begin_selection(None);
    assert!(!w.selecting);
}

#[test]
fn the_menu_is_drawn_with_its_rules() {
    let mut w = PopoutWindow::new(100, 100);
    let (text, most) = w.set_context_menu(&names(&["Copy", "Paste", "x"]));
    assert_eq!((text.as_str(), most), ("Copy\nPaste\nx", 5));
    w.set_context_separators(vec![1]);
    assert!(w.set_context_menu_hover(Some(2)));
    assert_eq!(w.context_menu_row_at(2), Some(2));
    assert_eq!(w.context_menu_row_at(3), None);
    w.set_overlay_text(true);
    w.cursor = Some((1, 2));
    let s = PopoutSight { cols: 80, rows: Vec::new(), cursor: true, lit: [false; 3] };
    let plan = w.render(&s);
    assert_eq!(
        plan.quads[..plan.under],
        [
            PopoutQuad::Border,
            PopoutQuad::Fill,
            PopoutQuad::Cursor(1, 2),
            PopoutQuad::MenuBorder,
            PopoutQuad::MenuFill,
            PopoutQuad::MenuHover(2),
            PopoutQuad::MenuRule(1),
            PopoutQuad::StripBorder,
            PopoutQuad::StripFill,
        ]
    );
    assert_eq!(plan.areas, vec![PopoutArea::Strip, PopoutArea::Menu, PopoutArea::Terminal]);
    assert!(w.clear_context_menu());
    assert!(!w.context_menu_active());
    assert_eq!(w.set_context_menu(&Vec::new()).1, 1);
    assert!(w.set_hover(Some(1)));
    assert!(!w.set_hover(Some(1)));
    w.resize(0, 7);
    assert_eq!((w.width, w.height), (1, 7));
    assert_eq!(cell_at(9, 90, 5, 80), (4, 79));
    assert_eq!(cell_at(1, 2, 0, 0), (0, 0));
}

fn styled(start: usize, end: usize) -> TerminalSpan {
    TerminalSpan { start, end, rgb: Rgb { r: 0, g: 0, b: 0 }, bold: false, italic: false }
}

#[test]
fn styles_cut_a_text_into_what_makes_it_up() {
    let text = "ab\u{e9}cd";
    let cut = segments(text, &vec![styled(0, 1), styled(2, 4)]);
    let pieces: Vec<(&str, Option<usize>)> =
        cut.iter().map(|s| (&text[s.from..s.to], s.style)).collect();
    assert_eq!(
        pieces,
        vec![("a", Some(0)), ("b", None), ("\u{e9}", Some(1)), ("cd", None)]
    );
    assert_eq!(segments("x", &Vec::new()), vec![Segment { from: 0, to: 1, style: None }]);
}

#[test]
fn styles_that_split_a_character_are_left_out() {
    let cut = segments("\u{e9}x", &vec![styled(0, 1)]);
    assert!(cut.is_empty());
}
