use umber::buffer::TextBuffer;
use umber::caret::{delete_selection, edit_key, replace_selection_with, Caret, EditKey};
use umber::commands::fuzzy_score;
use umber::config::Config;
use umber::dashboard::{agents_move_sel, AgentsRow};
use umber::lsp::{did_change, did_open, encode_message, initialize_request, read_message};
use umber::search::subseq_match;
use umber::tabs::{Document, Tabs};
use umber::text::{join_lines, split_lines};
use umber::update::is_newer;

fn buffer(text: &str) -> TextBuffer {
    TextBuffer::from_rope(ropey::Rope::from_str(text), None)
}

fn whole(b: &TextBuffer) -> String {
    b.slice_chars(0, b.len_chars())
}

#[test]
fn backspace_takes_back_what_was_typed() {
    for at in 0..=7usize {
        let mut b = buffer("a\u{e9}\nb\r\nc");
        let mut c = Caret::start();
        c.place(&b, at.min(b.len_chars()));
        let before = (whole(&b), c.cursor);
        let key = EditKey::Character("x".to_string());
        edit_key(&mut b, &mut c, &key, false, false, Some("x"), 5);
        assert_ne!(whole(&b), before.0);
        edit_key(&mut b, &mut c, &EditKey::Backspace, false, false, None, 5);
        assert_eq!((whole(&b), c.cursor), before);
    }
}

#[test]
fn cutting_and_pasting_gives_the_text_back() {
    let text = "one\ntwo three";
    for from in 0..text.len() {
        for to in from + 1..=text.len() {
            let mut b = buffer(text);
            let mut c = Caret::start();
            c.place(&b, to);
            c.anchor = Some(from);
            let cut = b.slice_chars(from, to);
            assert!(delete_selection(&mut b, &mut c));
            assert_eq!(b.len_chars(), text.len() - (to - from));
            replace_selection_with(&mut b, &mut c, &cut);
            assert_eq!(whole(&b), text);
        }
    }
}

#[test]
fn what_scores_is_a_subsequence() {
    for hay in ["File: Save", "abc", "", "Some Awful Verbose Example"] {
        for need in ["fs", "abc", "cab", "save", "", "zz", "eee"] {
            let expected = subseq_match(&hay.to_lowercase(), need);
            assert_eq!(fuzzy_score(hay, need).is_some(), expected, "{hay} {need}");
        }
    }
}

#[test]
fn clamping_twice_is_clamping_once() {
    for x in [0.0f32, 6.0, 20.0, 1e9] {
        let mut once = Config::default();
        once.font_size = x.to_bits();
        once.scrollbar_linger_ms = x as u64;
        once.clamp();
        let mut twice = once;
        twice.clamp();
        assert_eq!(once, twice);
    }
}

#[test]
fn a_selection_does_not_rest_on_a_heading() {
    let model = vec![
        AgentsRow::Header,
        AgentsRow::Live,
        AgentsRow::Header,
        AgentsRow::Session(0),
        AgentsRow::Session(1),
        AgentsRow::Expander,
    ];
    assert_eq!(agents_move_sel(&model, 1, true, 1), 3);
    assert_eq!(agents_move_sel(&model, 3, false, 1), 1);
    assert_eq!(agents_move_sel(&model, 1, true, 9), 5);
    assert_eq!(agents_move_sel(&model, 99, false, 1), 4);
    for sel in 0..8usize {
        for by in 0..7usize {
            for down in [false, true] {
                let r = agents_move_sel(&model, sel, down, by);
                assert!(r < model.len() && !matches!(model[r], AgentsRow::Header));
            }
        }
    }
    assert_eq!(agents_move_sel(&Vec::new(), 4, true, 1), 4);
}

#[test]
fn what_is_sent_reads_back() {
    let sent = [
        initialize_request(1, "file:///r", 7),
        did_open("file:///x", "rust", 1, "fn main() {\n\t\"\u{e9}\\\"\n}"),
        did_change("file:///x", -3, "\u{1f600}\u{7}"),
    ];
    let mut wire = Vec::new();
    for m in &sent {
        wire.extend(encode_message(m));
    }
    let mut from = 0;
    for m in &sent {
        let (got, end) = read_message(&wire, from).unwrap().unwrap();
        assert_eq!(format!("{got:?}"), format!("{m:?}"));
        from = end;
    }
    assert!(read_message(&wire, from).unwrap().is_none());
}

#[test]
fn closing_the_tab_that_was_opened_gives_the_tabs_back() {
    let doc = |p: &str| Document::open(TextBuffer::from_rope(ropey::Rope::new(), Some(p.to_string())));
    let mut t = Tabs::new(doc("/a"));
    t.open_tab(doc("/b"));
    let names = |t: &Tabs| (0..t.docs.len()).map(|i| t.tab_name(i)).collect::<Vec<_>>();
    let before = names(&t);
    t.open_tab(doc("/c"));
    assert_eq!(t.tab_name(t.active), "c");
    assert!(t.close_active_tab());
    assert_eq!(names(&t), before);
}

#[test]
fn lines_that_are_joined_read_back() {
    let lines: Vec<String> = ["", "a", "b c", "\u{e9}"].iter().map(|s| s.to_string()).collect();
    let cs: Vec<char> = join_lines(&lines).chars().collect();
    let back: Vec<String> = split_lines(&cs).into_iter().map(|l| l.into_iter().collect()).collect();
    assert_eq!(back, lines);
}

#[test]
fn versions_are_strictly_ordered() {
    let all = ["v0.1.0", "0.1.9", "0.1.10", "1.0.0", "v1.0", "junk"];
    for a in all {
        assert!(!is_newer(a, a));
        for b in all {
            assert!(!(is_newer(a, b) && is_newer(b, a)));
            for c in all {
                assert!(!(is_newer(a, b) && is_newer(b, c)) || is_newer(a, c));
            }
        }
    }
}
