use umber::buffer::TextBuffer;
use umber::opening::{activity_labels, sidebar_tab_activate, Activity};
use umber::overlay::Page;
use umber::pages::active_action;
use umber::panel::{Opening, Panel};
use umber::tabs::{file_name, same_path, Document, SaveTo, Tabs};

fn doc(path: Option<&str>) -> Document {
    Document::open(TextBuffer::from_rope(ropey::Rope::from_str("x"), path.map(str::to_string)))
}

fn three() -> Tabs {
    let mut t = Tabs::new(doc(Some("/p/a.rs")));
    t.open_tab(doc(None));
    t.open_tab(doc(Some("/p/c.rs")));
    t
}

#[test]
fn names_are_those_of_files() {
    let mut t = three();
    assert_eq!(t.tab_name(0), "a.rs");
    assert_eq!(t.tab_name(1), "*scratch*");
    t.docs[1].remote_file = Some("srv/dir/r.txt".to_string());
    assert_eq!(t.tab_name(1), "*scratch*");
    t.switch_tab(1);
    assert_eq!(t.tab_name(1), "\u{21c5} r.txt");
    let d = &mut t.docs[1];
    d.history.replace(&mut d.buffer, &mut d.caret, "more");
    assert_eq!(
        t.labels(true),
        vec!["a.rs", "\u{2022} \u{21c5} r.txt", "c.rs", "\u{25b8} Terminal"]
    );
    assert_eq!(t.active_tab(false), 1);
    assert_eq!(t.active_tab(true), 3);
}

#[test]
fn paths_are_compared_by_their_parts() {
    assert_eq!(file_name("/a/b.rs/"), Some("b.rs".to_string()));
    assert_eq!(file_name("/a/.."), None);
    assert_eq!(file_name("/"), None);
    assert!(same_path("/a//b/./c", "/a/b/c/"));
    assert!(!same_path("./a", "a"));
    let t = three();
    assert_eq!(t.find_tab_by_path("/p//c.rs"), Some(2));
    assert_eq!(t.find_tab_by_path("/p/d.rs"), None);
    for (a, b) in [("/a//b/./c", "/a/b/c/"), ("./a", "a"), ("a", "a/."), ("/", "//"), ("..", "../")] {
        assert_eq!(same_path(a, b), std::path::Path::new(a) == std::path::Path::new(b));
    }
    for p in ["/a/b.rs/", "/a/..", "/", "a/.", ".", "", "x"] {
        let expected = std::path::Path::new(p).file_name().map(|n| n.to_string_lossy().into_owned());
        assert_eq!(file_name(p), expected);
    }
}

#[test]
fn tabs_are_gone_through_in_turn() {
    let mut t = three();
    assert_eq!(t.active, 2);
    assert!(t.next_tab());
    assert_eq!(t.active, 0);
    assert!(!t.switch_tab(0));
    assert!(!t.switch_tab(9));
    assert!(t.switch_tab(2));
    let mut one = Tabs::new(doc(None));
    assert!(!one.next_tab());
}

#[test]
fn one_tab_stays_open() {
    let mut t = three();
    assert!(t.close_active_tab());
    assert_eq!((t.docs.len(), t.active), (2, 1));
    t.switch_tab(0);
    assert!(t.close_active_tab());
    assert_eq!((t.docs.len(), t.active), (1, 0));
    assert_eq!(t.tab_name(0), "*scratch*");
    assert!(!t.close_active_tab());
    let mut t = three();
    assert!(t.close_tab(0));
    assert_eq!(t.active, 1);
    assert_eq!(t.tab_name(1), "c.rs");
    assert!(!t.close_tab(9));
    assert!(t.close_tab(1));
    assert_eq!(t.active, 0);
}

#[test]
fn the_terminal_is_shown_and_left() {
    let mut p = Panel::none();
    assert!(p.terminal_toggle());
    assert_eq!(p.open_terminal_session(false, false), Opening::Disabled);
    assert_eq!(p, Panel::none());
    assert_eq!(p.open_terminal_session(true, false), Opening::Start);
    p.started(true);
    assert!(p.activate_terminal_tab());
    assert!(p.open && p.focused && p.maximized && p.tab && p.live);
    assert!(!p.terminal_toggle());
    assert_eq!(p, Panel { live: true, ..Panel::none() });
    assert_eq!(p.open_terminal_session(true, false), Opening::Resize);
    assert_eq!(p.open_terminal_session(true, true), Opening::Start);
    p.started(false);
    assert!(!p.open && !p.live);
    assert!(!p.activate_terminal_tab());
}

#[test]
fn a_terminal_that_is_shown_can_fill_the_window() {
    let mut p = Panel::none();
    assert!(!p.terminal_toggle_max());
    assert!(!p.can_resize());
    p.open_terminal_session(true, false);
    p.started(true);
    assert!(p.can_resize());
    assert!(p.terminal_toggle_max());
    assert!(p.maximized && !p.can_resize());
    p.focus(false);
    assert!(!p.focused);
    assert!(p.kill_terminal());
    assert_eq!(p, Panel::none());
    assert!(!p.kill_terminal());
}

#[test]
fn the_strip_leads_to_the_pages() {
    assert_eq!(activity_labels(), vec!["Palette", "Find", "Agents", "Terminal", "Settings"]);
    assert_eq!(sidebar_tab_activate(0), Some(Activity::Palette));
    assert_eq!(sidebar_tab_activate(1), Some(Activity::Search));
    assert_eq!(sidebar_tab_activate(2), Some(Activity::Agents));
    assert_eq!(sidebar_tab_activate(3), Some(Activity::Terminal));
    assert_eq!(sidebar_tab_activate(4), Some(Activity::Settings));
    assert_eq!(sidebar_tab_activate(5), None);
    assert_eq!(active_action(Page::AgentPrompt, false), 2);
    assert_eq!(active_action(Page::Editor, true), 3);
    assert_eq!(active_action(Page::Help, true), usize::MAX);
}

#[test]
fn documents_are_saved_where_they_came_from() {
    let mut d = doc(Some("/p/a.rs"));
    assert_eq!(d.save_target(true), SaveTo::Local("/p/a.rs".to_string()));
    d.remote_file = Some("r".to_string());
    assert_eq!(d.save_target(true), SaveTo::Remote("r".to_string()));
    assert_eq!(d.save_target(false), SaveTo::Local("/p/a.rs".to_string()));
    assert_eq!(doc(None).save_target(true), SaveTo::Nowhere);
}
