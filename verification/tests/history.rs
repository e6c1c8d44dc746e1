use umber::buffer::TextBuffer;
use umber::caret::{Caret, EditKey};
use umber::history::{History, Moment};

struct Text {
    history: History,
    buffer: TextBuffer,
    caret: Caret,
}

impl Text {
    fn new(text: &str) -> Text {
        Text {
            history: History::new(),
            buffer: TextBuffer::from_rope(ropey::Rope::from_str(text), Some("/f".to_string())),
            caret: Caret::start(),
        }
    }

    fn press(&mut self, key: EditKey, text: Option<&str>) {
        self.history
            .press(&mut self.buffer, &mut self.caret, &key, false, false, text, 10)
            .unwrap();
    }

    fn type_in(&mut self, text: &str) {
        for c in text.chars() {
            self.press(EditKey::Character(c.to_string()), Some(&c.to_string()));
        }
    }

    fn undo(&mut self) -> bool {
        self.history.undo(&mut self.buffer, &mut self.caret)
    }

    fn redo(&mut self) -> bool {
        self.history.redo(&mut self.buffer, &mut self.caret)
    }

    fn state(&self) -> (String, usize) {
        (self.buffer.slice_chars(0, self.buffer.len_chars()), self.caret.cursor)
    }
}

fn at(text: &str, cursor: usize) -> (String, usize) {
    (text.to_string(), cursor)
}

#[test]
fn redo_gives_back_what_undo_took() {
    let mut t = Text::new("x");
    t.type_in("ab");
    assert_eq!(t.state(), at("abx", 2));
    assert!(t.undo());
    assert_eq!(t.state(), at("x", 0));
    assert!(t.redo());
    assert_eq!(t.state(), at("abx", 2));
    assert!(!t.redo());
    assert_eq!(t.buffer.path(), &Some("/f".to_string()));
}

#[test]
fn typed_characters_are_one_group_until_the_caret_moves() {
    let mut t = Text::new("");
    t.type_in("ab");
    t.press(EditKey::Enter, Some("\r"));
    t.press(EditKey::Left, None);
    t.type_in("cd");
    assert_eq!(t.state(), at("abcd\n", 4));
    assert!(t.undo());
    assert_eq!(t.state(), at("ab\n", 2));
    assert!(t.undo());
    assert_eq!(t.state(), at("", 0));
    assert!(!t.undo());
}

#[test]
fn deletions_and_replacements_are_groups_of_their_own() {
    let mut t = Text::new("");
    t.type_in("abc");
    t.press(EditKey::Backspace, None);
    t.press(EditKey::Backspace, None);
    t.type_in("z");
    t.caret.anchor = Some(0);
    t.type_in("q");
    assert_eq!(t.state(), at("q", 1));
    for want in [at("az", 2), at("a", 1), at("ab", 2), at("abc", 3), at("", 0)] {
        assert!(t.undo());
        assert_eq!(t.state(), want);
    }
    t.history.replace(&mut t.buffer, &mut t.caret, "paste");
    t.type_in("d");
    assert!(t.undo());
    assert_eq!(t.state(), at("paste", 5));
    assert!(!t.history.delete(&mut t.buffer, &mut t.caret));
    t.caret.anchor = Some(4);
    assert!(t.history.delete(&mut t.buffer, &mut t.caret));
    assert_eq!(t.state(), at("past", 4));
    assert!(t.undo());
    assert_eq!(t.state(), at("paste", 5));
}

#[test]
fn an_edit_clears_what_could_be_redone() {
    let mut t = Text::new("");
    t.type_in("a");
    assert!(t.undo());
    t.type_in("b");
    assert!(!t.redo());
    assert_eq!(t.state(), at("b", 1));
}

#[test]
fn keys_that_write_nothing_are_not_recorded() {
    let mut t = Text::new("ab");
    t.press(EditKey::Backspace, None);
    t.press(EditKey::Right, None);
    t.press(EditKey::Escape, Some("\u{1b}"));
    assert!(!t.history.is_dirty());
    assert!(!t.undo());
    assert_eq!(t.state(), at("ab", 1));
}

#[test]
fn a_text_is_dirty_until_it_is_saved() {
    let mut t = Text::new("");
    t.type_in("a");
    assert!(t.history.is_dirty());
    t.history.mark_saved();
    assert!(!t.history.is_dirty());
    t.undo();
    assert!(t.history.is_dirty());
    let before = Moment::of(&t.buffer, &t.caret);
    t.history.mark_saved();
    t.history.record(before, false);
    assert!(t.history.is_dirty());
}

#[test]
fn text_behind_a_lost_selection_is_left_out() {
    let mut t = Text::new("ab");
    t.caret.cursor = 2;
    t.caret.anchor = Some(2);
    let r = t.history.press(
        &mut t.buffer,
        &mut t.caret,
        &EditKey::Backspace,
        false,
        false,
        Some("x"),
        10,
    );
    assert_eq!(r, None);
    assert_eq!(t.state(), at("a", 1));
}
