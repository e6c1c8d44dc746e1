use umber::panes::{DividerSlot, PaneContent, PaneSlot, PaneTree, SplitDir, Step, MIN_RATIO};

#[derive(Clone, Copy)]
struct Frac {
    x: f32,
    y: f32,
    w: f32,
    h: f32,
}

/// The part of the window that a way through the splits leads to.
fn rect(steps: &[Step]) -> Frac {
    let mut r = Frac { x: 0.0, y: 0.0, w: 1.0, h: 1.0 };
    for s in steps {
        let ratio = f32::from_bits(s.ratio);
        r = match (s.dir, s.second) {
            (SplitDir::Horizontal, false) => Frac { w: r.w * ratio, ..r },
            (SplitDir::Horizontal, true) => Frac { x: r.x + r.w * ratio, w: r.w - r.w * ratio, ..r },
            (SplitDir::Vertical, false) => Frac { h: r.h * ratio, ..r },
            (SplitDir::Vertical, true) => Frac { y: r.y + r.h * ratio, h: r.h - r.h * ratio, ..r },
        };
    }
    r
}

fn slot(l: &[PaneSlot], content: PaneContent) -> Frac {
    rect(&l.iter().find(|p| p.content == content).unwrap().steps)
}

fn divider_x(d: &DividerSlot) -> f32 {
    let r = rect(&d.steps);
    match d.dir {
        SplitDir::Horizontal => r.x + r.w * f32::from_bits(d.ratio),
        SplitDir::Vertical => r.x,
    }
}

fn focus_at(t: &mut PaneTree, x: f32, y: f32) -> u64 {
    let hit = t.layout().iter().find(|p| {
        let r = rect(&p.steps);
        x >= r.x && x < r.x + r.w && y >= r.y && y < r.y + r.h
    }).map(|p| p.id);
    if let Some(id) = hit {
        t.focused = id;
    }
    t.focused
}

#[test]
fn single_editor_layout_fills() {
    let t = PaneTree::new();
    assert!(t.is_single());
    let l = t.layout();
    assert_eq!(l.len(), 1);
    assert_eq!(l[0].content, PaneContent::Editor);
    assert_eq!(rect(&l[0].steps).w, 1.0);
    assert_eq!(rect(&l[0].steps).h, 1.0);
}

#[test]
fn split_right_then_down() {
    let mut t = PaneTree::new();
    let a = t.split(SplitDir::Horizontal, PaneContent::Terminal(1), false);
    assert_eq!(t.focused, a);
    let b = t.split(SplitDir::Vertical, PaneContent::Terminal(2), false);
    assert_eq!(t.focused, b);
    let l = t.layout();
    assert_eq!(l.len(), 3);
    let ed = slot(&l, PaneContent::Editor);
    assert!((ed.w - 0.5).abs() < 1e-6);
    assert!((ed.h - 1.0).abs() < 1e-6);
    let t1 = slot(&l, PaneContent::Terminal(1));
    let t2 = slot(&l, PaneContent::Terminal(2));
    assert!((t1.x - 0.5).abs() < 1e-6);
    assert!((t1.h - 0.5).abs() < 1e-6);
    assert!((t2.y - 0.5).abs() < 1e-6);
}

#[test]
fn close_merges_sibling_back() {
    let mut t = PaneTree::new();
    let a = t.split(SplitDir::Horizontal, PaneContent::Terminal(1), false);
    let closed = t.close(a);
    assert_eq!(closed, Some(PaneContent::Terminal(1)));
    assert!(t.is_single());
    assert_eq!(t.focused_content(), PaneContent::Editor);
}

#[test]
fn editor_pane_cannot_close() {
    let mut t = PaneTree::new();
    t.split(SplitDir::Horizontal, PaneContent::Terminal(1), false);
    assert_eq!(t.close(0), None);
    assert_eq!(t.layout().len(), 2);
}

#[test]
fn focus_at_picks_pane_under_point() {
    let mut t = PaneTree::new();
    t.split(SplitDir::Horizontal, PaneContent::Terminal(1), false);
    assert_eq!(focus_at(&mut t, 0.25, 0.5), 0);
    assert_eq!(t.focused_content(), PaneContent::Editor);
    let id = focus_at(&mut t, 0.75, 0.5);
    assert_eq!(t.focused_content(), PaneContent::Terminal(1));
    assert_eq!(t.focused, id);
}

#[test]
fn drag_moves_divider_clamped() {
    let mut t = PaneTree::new();
    t.split(SplitDir::Horizontal, PaneContent::Terminal(1), false);
    let divs = t.dividers();
    assert_eq!(divs.len(), 1);
    assert!((divider_x(&divs[0]) - 0.5).abs() < 1e-6);
    t.drag(divs[0].path, 0.7f32.to_bits());
    let divs = t.dividers();
    assert!((divider_x(&divs[0]) - 0.7).abs() < 1e-6);
    t.drag(divs[0].path, 0.01f32.to_bits());
    let divs = t.dividers();
    assert!((divider_x(&divs[0]) - f32::from_bits(MIN_RATIO)).abs() < 1e-6);
}

#[test]
fn nested_close_refocuses_first_leaf() {
    let mut t = PaneTree::new();
    let t1 = t.split(SplitDir::Horizontal, PaneContent::Terminal(1), false);
    t.focused = t1;
    let t2 = t.split(SplitDir::Vertical, PaneContent::Terminal(2), false);
    assert_eq!(t.layout().len(), 3);
    assert_eq!(t.close(t2), Some(PaneContent::Terminal(2)));
    assert!(t.contains(t1));
    assert_eq!(t.layout().len(), 2);
    assert!(t.contains(t.focused));
}

#[test]
fn doc_tiles_swap_and_remap() {
    let mut t = PaneTree::new();
    let d = t.split(SplitDir::Horizontal, PaneContent::Doc(2), false);
    t.set_content(0, PaneContent::Doc(0));
    t.set_content(d, PaneContent::Editor);
    assert_eq!(PaneTree::find(&t.root, d), Some(PaneContent::Editor));
    assert_eq!(PaneTree::find(&t.root, 0), Some(PaneContent::Doc(0)));
    t.set_content(0, PaneContent::Doc(3));
    let dead = t.remap_docs_after_close(1);
    assert!(dead.is_empty());
    assert_eq!(PaneTree::find(&t.root, 0), Some(PaneContent::Doc(2)));
    let dead = t.remap_docs_after_close(2);
    assert_eq!(dead, vec![0]);
}

#[test]
fn split_before_places_new_pane_first() {
    let mut t = PaneTree::new();
    t.split(SplitDir::Horizontal, PaneContent::Terminal(1), true);
    let l = t.layout();
    let term = slot(&l, PaneContent::Terminal(1));
    let ed = slot(&l, PaneContent::Editor);
    assert!(term.x.abs() < 1e-6);
    assert!((ed.x - 0.5).abs() < 1e-6);
    t.focused = l.iter().find(|p| p.content == PaneContent::Editor).unwrap().id;
    t.split(SplitDir::Vertical, PaneContent::Terminal(2), true);
    let l = t.layout();
    let t2 = slot(&l, PaneContent::Terminal(2));
    let ed = slot(&l, PaneContent::Editor);
    assert!(t2.y.abs() < 1e-6);
    assert!((t2.x - 0.5).abs() < 1e-6);
    assert!((ed.y - 0.5).abs() < 1e-6);
}

#[test]
fn lone_terminal_pane_is_not_plain_editor() {
    let mut t = PaneTree::new();
    let term = t.split(SplitDir::Horizontal, PaneContent::Terminal(1), false);
    assert_eq!(t.force_close(0), Some(PaneContent::Editor));
    assert!(t.is_single());
    assert!(!t.is_plain_editor());
    assert!(t.tiling_active());
    assert_eq!(t.editor_leaf(), None);
    assert_eq!(t.focused, term);
    assert_eq!(t.focused_content(), PaneContent::Terminal(1));
}

#[test]
fn editor_leaf_tracks_reopened_id() {
    let mut t = PaneTree::new();
    assert_eq!(t.editor_leaf(), Some(0));
    t.split(SplitDir::Horizontal, PaneContent::Terminal(1), false);
    assert_eq!(t.force_close(0), Some(PaneContent::Editor));
    assert_eq!(t.editor_leaf(), None);
    let reopened = t.split(SplitDir::Horizontal, PaneContent::Editor, true);
    assert_ne!(reopened, 0);
    assert_eq!(t.editor_leaf(), Some(reopened));
}

#[test]
fn closing_the_pane_that_was_split_off_gives_the_tree_back() {
    let mut t = PaneTree::new();
    t.split(SplitDir::Horizontal, PaneContent::Terminal(1), false);
    let before: Vec<u64> = t.layout().iter().map(|p| p.id).collect();
    let id = t.split(SplitDir::Vertical, PaneContent::Terminal(2), false);
    assert_eq!(t.layout().len(), before.len() + 1);
    t.close(id);
    let after: Vec<u64> = t.layout().iter().map(|p| p.id).collect();
    assert_eq!(before, after);
    assert!(t.has_editor());
    assert_eq!(t.content_of(0), Some(PaneContent::Editor));
    assert_eq!(t.edge_child_leaf(1, true), Some(0));
}

#[test]
fn a_split_halves_one_pane_and_leaves_the_others_where_they_are() {
    let mut t = PaneTree::new();
    t.split(SplitDir::Horizontal, PaneContent::Terminal(1), false);
    t.split(SplitDir::Vertical, PaneContent::Terminal(2), true);
    let focused = t.focused;
    let before: Vec<(u64, Vec<Step>)> =
        t.layout().into_iter().map(|p| (p.id, p.steps)).collect();
    let new = t.split(SplitDir::Horizontal, PaneContent::Terminal(3), false);
    let after: Vec<(u64, Vec<Step>)> =
        t.layout().into_iter().map(|p| (p.id, p.steps)).collect();
    for (id, steps) in &before {
        let now = &after.iter().find(|p| p.0 == *id).unwrap().1;
        if *id == focused {
            assert_eq!(now[..steps.len()], steps[..]);
            let last = now[steps.len()];
            assert_eq!((last.dir, f32::from_bits(last.ratio), last.second), (SplitDir::Horizontal, 0.5, false));
        } else {
            assert_eq!(now, steps);
        }
    }
    assert!(after.iter().any(|p| p.0 == new));
    assert_eq!(t.dividers().len() + 1, after.len());
}

#[test]
fn a_share_that_is_no_number_becomes_the_least() {
    let mut t = PaneTree::new();
    t.split(SplitDir::Horizontal, PaneContent::Terminal(1), false);
    t.drag(1, f32::NAN.to_bits());
    assert_eq!(t.dividers()[0].ratio, MIN_RATIO);
}

#[test]
fn panes_share_the_window() {
    let mut t = PaneTree::new();
    t.split(SplitDir::Horizontal, PaneContent::Terminal(1), false);
    t.split(SplitDir::Vertical, PaneContent::Terminal(2), true);
    t.drag(1, 0.3f32.to_bits());
    let rects: Vec<Frac> = t.layout().iter().map(|p| rect(&p.steps)).collect();
    let total: f32 = rects.iter().map(|r| r.w * r.h).sum();
    assert!((total - 1.0).abs() < 1e-5);
    for i in 0..40 {
        for j in 0..40 {
            let (x, y) = ((i as f32 + 0.5) / 40.0, (j as f32 + 0.5) / 40.0);
            let inside = |r: &&Frac| r.x <= x && x < r.x + r.w && r.y <= y && y < r.y + r.h;
            assert_eq!(rects.iter().filter(inside).count(), 1);
        }
    }
}
