use umber::buffer::TextBuffer;
use umber::caret::Caret;
use umber::frame::ScrollbarInfo;
use umber::overlay::Page;
use umber::pointer::{
    drag_to, hover_rel_line, hover_shown, is_double, moved_within, pointer_button, pointer_moved,
    pointer_to_char, pointer_to_hover, scroll_by, scroll_page, scrollbar_info, text_press, BarPart, Button,
    Drags, Hits, Move, Press, Scrollbar, Shown,
};
use umber::words::HoverTarget;

fn buffer(text: &str) -> TextBuffer {
    TextBuffer::from_rope(ropey::Rope::from_str(text), None)
}

fn nothing() -> Hits {
    Hits {
        sidebar_edge: false,
        sidebar_tab: None,
        strip_tab: None,
        in_panel: true,
        row: None,
        at_border: false,
        below_border: false,
        bar: None,
        at: None,
    }
}

fn closed(docs: usize) -> Shown {
    Shown { open: false, maximized: false, docs }
}

fn left(page: Page, t: Shown, h: Hits) -> (Press, Drags) {
    let mut d = Drags::none();
    let p = pointer_button(Button::Left, true, page, t, h, &mut d);
    (p, d)
}

#[test]
fn presses_go_to_what_lies_on_top() {
    let all = Hits {
        sidebar_edge: true,
        sidebar_tab: Some(1),
        strip_tab: Some(2),
        in_panel: true,
        row: Some(3),
        at_border: true,
        below_border: true,
        bar: Some(BarPart::Thumb),
        at: Some(4),
    };
    let open = Shown { open: true, maximized: false, docs: 2 };
    let (p, d) = left(Page::Editor, open, all);
    assert_eq!(p, Press::HoldSidebar);
    assert!(d.sidebar);
    let h = Hits { sidebar_edge: false, ..all };
    assert_eq!(left(Page::Editor, open, h).0, Press::Tab(1));
    assert_eq!(left(Page::Editor, Shown { docs: 1, ..open }, h).0, Press::TerminalTab);
    let h = Hits { sidebar_tab: None, ..h };
    assert_eq!(left(Page::Editor, open, h).0, Press::Strip(2));
    let h = Hits { strip_tab: None, ..h };
    assert_eq!(left(Page::Help, open, h).0, Press::Row(3));
    assert_eq!(left(Page::Help, open, Hits { in_panel: false, ..h }).0, Press::ClosePage);
    let (p, d) = left(Page::Editor, open, h);
    assert_eq!(p, Press::HoldBorder);
    assert!(d.terminal);
    assert_eq!(left(Page::Editor, Shown { maximized: true, ..open }, h).0, Press::FocusTerminal);
    let (p, d) = left(Page::Editor, closed(2), h);
    assert_eq!(p, Press::HoldThumb);
    assert!(d.scrollbar);
    let h = Hits { bar: Some(BarPart::Above), ..h };
    assert_eq!(left(Page::Editor, closed(2), h).0, Press::PageUp);
    let h = Hits { bar: Some(BarPart::Below), ..h };
    assert_eq!(left(Page::Editor, closed(2), h).0, Press::PageDown);
    let h = Hits { bar: None, ..h };
    assert_eq!(left(Page::Editor, closed(2), h).0, Press::Text(4));
    assert_eq!(left(Page::Editor, closed(2), nothing()).0, Press::Elsewhere);
}

#[test]
fn releases_end_what_was_dragged() {
    let mut d = Drags { sidebar: true, terminal: true, scrollbar: true, selecting: true };
    let p = pointer_button(Button::Left, false, Page::Editor, closed(1), nothing(), &mut d);
    assert_eq!((p, d), (Press::EndDrag, Drags::none()));
    let mut d = Drags { sidebar: true, terminal: true, scrollbar: true, selecting: true };
    let p = pointer_button(Button::Left, false, Page::Help, closed(1), nothing(), &mut d);
    assert_eq!(p, Press::Nothing);
    assert!(!d.sidebar && d.scrollbar);
}

#[test]
fn the_middle_button_closes_tabs() {
    let mut d = Drags::none();
    let h = Hits { sidebar_tab: Some(1), ..nothing() };
    let mut middle = |docs| pointer_button(Button::Middle, true, Page::Editor, closed(docs), h, &mut d);
    assert_eq!(middle(2), Press::CloseTab(1));
    assert_eq!(middle(1), Press::KillTerminal);
    assert_eq!(
        pointer_button(Button::Other, true, Page::Editor, closed(2), h, &mut d),
        Press::Nothing
    );
}

#[test]
fn moves_go_to_what_is_dragged() {
    let d = Drags { sidebar: true, terminal: true, scrollbar: true, selecting: true };
    assert_eq!(pointer_moved(Page::Help, d, true), Move::ResizeSidebar);
    let d = Drags { sidebar: false, ..d };
    assert_eq!(pointer_moved(Page::Help, d, true), Move::Row);
    assert_eq!(pointer_moved(Page::Editor, d, true), Move::ResizeTerminal);
    let d = Drags { terminal: false, ..d };
    assert_eq!(pointer_moved(Page::Editor, d, true), Move::DragScrollbar);
    let d = Drags { scrollbar: false, ..d };
    assert_eq!(pointer_moved(Page::Editor, d, true), Move::Select);
    assert_eq!(pointer_moved(Page::Editor, Drags::none(), true), Move::ShowScrollbar);
    assert_eq!(pointer_moved(Page::Editor, Drags::none(), false), Move::Hover);
}

#[test]
fn the_second_of_two_presses_selects_the_word() {
    assert!(is_double(Some((100, 4)), 499, 4));
    assert!(!is_double(Some((100, 4)), 500, 4));
    assert!(!is_double(Some((100, 4)), 200, 5));
    assert!(!is_double(None, 200, 5));
    let b = buffer("one two\nthree four");
    let mut c = Caret::start();
    assert!(!text_press(&b, &mut c, 15, false, true));
    assert_eq!(c.selection_range(), Some((14, 18)));
    assert!(text_press(&b, &mut c, 3, false, true));
    assert_eq!(c.selection_range(), None);
    assert_eq!(c.cursor, 3);
}

#[test]
fn presses_with_shift_extend_the_selection() {
    let b = buffer("one two");
    let mut c = Caret::start();
    assert!(text_press(&b, &mut c, 5, true, false));
    assert_eq!(c.selection_range(), Some((0, 5)));
    assert!(text_press(&b, &mut c, 2, true, false));
    assert_eq!(c.selection_range(), Some((0, 2)));
    assert!(text_press(&b, &mut c, 4, false, false));
    assert!(drag_to(&b, &mut c, 6));
    assert!(!drag_to(&b, &mut c, 6));
    assert_eq!(c.selection_range(), Some((4, 6)));
}

#[test]
fn scrolling_stays_in_the_text() {
    let b = buffer("a\nb\nc\nd");
    let mut c = Caret::start();
    scroll_by(&b, &mut c, 2);
    assert_eq!(c.first_line, 2);
    scroll_by(&b, &mut c, 9);
    assert_eq!(c.first_line, 3);
    scroll_by(&b, &mut c, i64::MIN);
    assert_eq!(c.first_line, 0);
    scroll_page(&b, &mut c, false, 2);
    assert_eq!(c.first_line, 2);
    scroll_page(&b, &mut c, true, 0);
    assert_eq!(c.first_line, 1);
    assert_eq!(moved_within(5, -2, 9), 3);
    assert_eq!(moved_within(5, i64::MAX, 9), 9);
}

#[test]
fn the_pointer_is_over_words_and_lines() {
    let b = buffer("one two\n\nthree");
    assert_eq!(pointer_to_char(&b, 0, 0, 4), 4);
    assert_eq!(pointer_to_char(&b, 0, 0, 40), 7);
    assert_eq!(pointer_to_char(&b, 1, 9, 2), 11);
    assert_eq!(
        pointer_to_hover(&b, 0, 10, 0, 5),
        HoverTarget::Word { line: 0, start_col: 4, end_col: 7 }
    );
    assert_eq!(pointer_to_hover(&b, 0, 10, 0, 3), HoverTarget::Line(0));
    assert_eq!(pointer_to_hover(&b, 0, 10, 1, 0), HoverTarget::Line(1));
    assert_eq!(pointer_to_hover(&b, 0, 10, 3, 0), HoverTarget::Nothing);
    assert_eq!(pointer_to_hover(&b, 0, 1, 1, 0), HoverTarget::Nothing);
    assert_eq!(pointer_to_hover(&b, 0, 1, -1, 0), HoverTarget::Nothing);
}

#[test]
fn what_is_hovered_is_lit_up_where_it_is_in_view() {
    let b = buffer("one two\n\nthree");
    let word = HoverTarget::Word { line: 2, start_col: 0, end_col: 5 };
    assert_eq!(
        hover_shown(&b, 1, 5, word),
        (Some((1, 0, "three".to_string())), Some(1))
    );
    assert_eq!(hover_shown(&b, 0, 2, word), (None, None));
    assert_eq!(hover_shown(&b, 0, 2, HoverTarget::Line(1)), (None, Some(1)));
    assert_eq!(hover_shown(&b, 0, 2, HoverTarget::Nothing), (None, None));
    assert_eq!(hover_rel_line(3, 2, 5), None);
}

#[test]
fn the_scrollbar_lingers() {
    let mut s = Scrollbar { until: None, linger: 800 };
    assert!(!s.visible(false, 0));
    s.poke(false, 100);
    assert!(!s.visible(false, 100));
    s.poke(true, 100);
    assert!(s.visible(false, 899));
    assert!(!s.visible(false, 900));
    assert!(s.visible(true, 900));
    assert_eq!(
        scrollbar_info(Page::Editor, true, true, 3, 20, 10),
        Some(ScrollbarInfo { first_line: 3, total_lines: 20 })
    );
    assert_eq!(scrollbar_info(Page::Editor, true, true, 3, 10, 10), None);
    assert_eq!(scrollbar_info(Page::Help, true, true, 3, 20, 10), None);
}
