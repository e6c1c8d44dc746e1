use std::collections::HashMap;
use umber::buffer::TextBuffer;
use umber::caret::{
    chord, chord_named, delete_selection, edit_key, goto_hit, goto_line, replace_selection_with, Caret,
    Chord, EditKey,
};
use umber::frame::{apply_view, SelSpan};
use umber::git::LineChange;

fn buffer(text: &str) -> TextBuffer {
    TextBuffer::from_rope(ropey::Rope::from_str(text), None)
}

fn whole(b: &TextBuffer) -> String {
    b.slice_chars(0, b.len_chars())
}

fn press(b: &mut TextBuffer, c: &mut Caret, key: EditKey, ctrl: bool, shift: bool) -> bool {
    edit_key(b, c, &key, ctrl, shift, None, 10)
}

fn typed(b: &mut TextBuffer, c: &mut Caret, text: &str) -> bool {
    edit_key(b, c, &EditKey::Character(text.to_string()), false, false, Some(text), 10)
}

#[test]
fn lines_end_where_the_rope_says() {
    for text in [
        "", "a", "a\n", "a\r\nb", "a\rb", "a\u{b}b\u{c}c", "a\u{85}b\u{2028}c\u{2029}", "\r\n\r\n", "\n\r",
        "x\ny\nz", "\u{e9}\n\u{1f600}",
    ] {
        let b = buffer(text);
        let rope = ropey::Rope::from_str(text);
        assert_eq!(b.len_lines(), rope.len_lines());
        assert_eq!(b.len_chars(), text.chars().count());
        assert_eq!(b.len_bytes(), text.len());
        for i in 0..=b.len_chars() {
            assert_eq!(b.char_to_line(i), rope.char_to_line(i));
        }
        for l in 0..=b.len_lines() {
            assert_eq!(b.line_to_char(l), rope.line_to_char(l));
        }
        assert_eq!(b.visible_text(0, b.len_lines()), text);
    }
}

#[test]
fn line_ends_are_not_shown() {
    let b = buffer("abc\r\nde\nf");
    assert_eq!(b.visual_line_len_chars(0), 3);
    assert_eq!(b.visual_line_len_chars(1), 2);
    assert_eq!(b.visual_line_len_chars(2), 1);
    assert_eq!(b.visible_text(1, 1), "de\n");
    assert_eq!(b.visible_text(9, 1), "");
}

#[test]
fn windows_tile() {
    let b = buffer("a\nb\nc\nd");
    let two = b.visible_text(0, 2) + &b.visible_text(2, 2);
    assert_eq!(two, b.visible_text(0, 4));
}

#[test]
fn insertions_and_removals_keep_the_rest() {
    let mut b = TextBuffer::empty();
    b.insert_str(0, "hello");
    b.insert_str(2, "--");
    assert_eq!(whole(&b), "he--llo");
    b.remove_char_range(2, 4);
    assert_eq!(whole(&b), "hello");
    assert_eq!(b.path(), &None);
}

#[test]
fn typing_replaces_the_selection() {
    let mut b = buffer("hello world");
    let mut c = Caret::start();
    for _ in 0..5 {
        press(&mut b, &mut c, EditKey::Right, false, true);
    }
    assert_eq!(c.selection_range(), Some((0, 5)));
    assert!(typed(&mut b, &mut c, "bye"));
    assert_eq!(whole(&b), "bye world");
    assert_eq!(c.cursor, 3);
    assert_eq!(c.selection_range(), None);
}

#[test]
fn control_characters_are_not_typed() {
    let mut b = buffer("");
    let mut c = Caret::start();
    assert!(typed(&mut b, &mut c, "a\u{7}b"));
    assert_eq!(whole(&b), "ab");
    assert!(!typed(&mut b, &mut c, "\u{1b}"));
}

#[test]
fn keys_with_control_type_nothing() {
    let mut b = buffer("ab");
    let mut c = Caret::start();
    let key = EditKey::Character("x".to_string());
    assert!(!edit_key(&mut b, &mut c, &key, true, false, Some("x"), 10));
    assert_eq!(whole(&b), "ab");
}

#[test]
fn deleting_takes_one_character_or_the_selection() {
    let mut b = buffer("abcd");
    let mut c = Caret::start();
    assert!(!press(&mut b, &mut c, EditKey::Backspace, false, false));
    press(&mut b, &mut c, EditKey::Delete, false, false);
    assert_eq!(whole(&b), "bcd");
    press(&mut b, &mut c, EditKey::End, false, false);
    press(&mut b, &mut c, EditKey::Backspace, false, false);
    assert_eq!(whole(&b), "bc");
    c.select_all(&b);
    assert!(delete_selection(&mut b, &mut c));
    assert_eq!(whole(&b), "");
    assert!(!delete_selection(&mut b, &mut c));
}

#[test]
fn the_caret_keeps_to_its_column() {
    let mut b = buffer("abcdef\nab\nabcdef");
    let mut c = Caret::start();
    for _ in 0..5 {
        press(&mut b, &mut c, EditKey::Right, false, false);
    }
    press(&mut b, &mut c, EditKey::Down, false, false);
    assert_eq!(c.cursor, 9);
    press(&mut b, &mut c, EditKey::Down, false, false);
    assert_eq!(c.cursor, 15);
    press(&mut b, &mut c, EditKey::PageUp, false, false);
    assert_eq!(c.cursor, 5);
    press(&mut b, &mut c, EditKey::End, true, false);
    assert_eq!(c.cursor, b.len_chars());
    press(&mut b, &mut c, EditKey::Home, true, false);
    assert_eq!(c.cursor, 0);
}

#[test]
fn enter_and_tab_go_in() {
    let mut b = buffer("ab");
    let mut c = Caret::start();
    press(&mut b, &mut c, EditKey::Right, false, false);
    press(&mut b, &mut c, EditKey::Enter, false, false);
    press(&mut b, &mut c, EditKey::Tab, false, false);
    assert_eq!(whole(&b), "a\n\tb");
    assert_eq!((c.cursor, c.goal_col), (3, 1));
    replace_selection_with(&mut b, &mut c, "zz");
    assert_eq!(whole(&b), "a\n\tzzb");
}

#[test]
fn lines_are_gone_to_by_number() {
    let b = buffer("a\nbb\nccc");
    let mut c = Caret::start();
    goto_line(&b, &mut c, " 2 ");
    assert_eq!(c.cursor, 2);
    goto_line(&b, &mut c, "99");
    assert_eq!(c.cursor, 5);
    goto_line(&b, &mut c, "0");
    assert_eq!(c.cursor, 0);
    goto_line(&b, &mut c, "x");
    assert_eq!(c.cursor, 0);
    goto_hit(&b, &mut c, 3, 2);
    assert_eq!(c.cursor, 7);
    goto_hit(&b, &mut c, 2, 50);
    assert_eq!(c.cursor, 4);
}

#[test]
fn chords_are_told_apart() {
    assert_eq!(chord("P", true), Chord::Palette);
    assert_eq!(chord("p", false), Chord::Nothing);
    assert_eq!(chord("F", true), Chord::Search);
    assert_eq!(chord("f", false), Chord::Nothing);
    assert_eq!(chord("A", true), Chord::Agents);
    assert_eq!(chord("a", false), Chord::SelectAll);
    assert_eq!(chord("z", true), Chord::Redo);
    assert_eq!(chord("z", false), Chord::Undo);
    assert_eq!(chord("`", false), Chord::Terminal);
    assert_eq!(chord(",", false), Chord::Settings);
    assert_eq!(chord_named("s", false), Chord::Save);
}

#[test]
fn the_frame_shows_what_is_in_view() {
    let b = buffer("one\ntwo\nthree\nfour\nfive\n");
    let mut c = Caret::start();
    c.cursor = b.line_to_char(4);
    let mut git: HashMap<usize, LineChange> = HashMap::new();
    git.insert(4, LineChange::Added);
    let f = apply_view(&b, &mut c, true, 2, None, &git);
    assert_eq!(c.first_line, 3);
    assert_eq!(f.cursor, Some((1, 0)));
    assert!(f.text.starts_with("four\nfive\n"));
    assert!(f.numbers.starts_with("4\n5"));
    assert_eq!(f.digits, 1);
    assert_eq!(f.marks, vec![(0, LineChange::Added)]);
    assert!(f.spans.is_empty());
}

#[test]
fn a_selection_is_shown_line_by_line() {
    let b = buffer("one\ntwo\nthree\n");
    let mut c = Caret::start();
    c.anchor = Some(1);
    c.cursor = 9;
    let f = apply_view(&b, &mut c, true, 10, None, &HashMap::new());
    assert_eq!(
        f.spans,
        vec![
            SelSpan { line: 0, start_col: 1, end_col: None },
            SelSpan { line: 1, start_col: 0, end_col: None },
            SelSpan { line: 2, start_col: 0, end_col: Some(1) },
        ]
    );
}

#[test]
fn a_view_that_does_not_follow_stays() {
    let b = buffer("a\nb\nc\nd\ne\n");
    let mut c = Caret::start();
    c.first_line = 3;
    let f = apply_view(&b, &mut c, false, 2, None, &HashMap::new());
    assert_eq!(c.first_line, 3);
    assert_eq!(f.cursor, None);
}

#[test]
fn a_text_is_a_buffer_without_a_file() {
    let b = TextBuffer::from_text("a\nb\u{e9}");
    assert_eq!(b.slice_chars(0, b.len_chars()), "a\nb\u{e9}");
    assert_eq!(b.len_lines(), 2);
    assert_eq!(b.path(), &None);
}
