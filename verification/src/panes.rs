//! Tiling: a binary tree of splits over the content area.
//!
//! A leaf shows the editor, a terminal or a document; an inner node splits its area in two at
//! a ratio that can be dragged. The tree says what stands where: each leaf and each divider
//! comes with the way to it, the direction, ratio and side of each split that it passes.

use vstd::prelude::*;
use vstd::arithmetic::power2::{lemma2_to64, pow2};
use crate::single::{clamp, clamped};

verus! {

/// The bits of the least share that a pane keeps on either side of a divider, 0.15.
pub const MIN_RATIO: u32 = 0x3e19_999a;

/// The bits of the greatest share, 0.85.
pub const MAX_RATIO: u32 = 0x3f59_999a;

/// The bits of an even split, 0.5.
pub const HALF: u32 = 0x3f00_0000;

/// How a split divides its area.
#[derive(Clone, Copy, Debug, PartialEq, Eq, Structural)]
pub enum SplitDir {
    /// Side by side.
    Horizontal,
    /// One above the other.
    Vertical,
}

/// What a pane shows.
#[derive(Clone, Copy, Debug, PartialEq, Eq, Structural)]
pub enum PaneContent {
    /// The live editor.
    Editor,
    /// A terminal.
    Terminal(u64),
    /// A document at its place in the sidebar.
    Doc(usize),
}

/// A leaf or a split.
#[derive(Debug)]
pub enum PaneNode {
    Leaf { id: u64, content: PaneContent },
    /// The share of `a` is the single-precision number with the bits `ratio`.
    Split { dir: SplitDir, ratio: u32, a: Box<PaneNode>, b: Box<PaneNode> },
}

/// The leaves, left and upper ones first.
pub open spec fn leaves(n: PaneNode) -> Seq<(u64, PaneContent)>
    decreases n,
{
    match n {
        PaneNode::Leaf { id, content } => seq![(id, content)],
        PaneNode::Split { dir, ratio, a, b } => leaves(*a) + leaves(*b),
    }
}

/// What the first leaf with an id shows.
pub open spec fn content_at(n: PaneNode, id: u64) -> Option<PaneContent>
    decreases n,
{
    match n {
        PaneNode::Leaf { id: i, content } => if i == id {
            Some(content)
        } else {
            None
        },
        PaneNode::Split { dir, ratio, a, b } => match content_at(*a, id) {
            Some(c) => Some(c),
            None => content_at(*b, id),
        },
    }
}

/// The id of the first leaf that shows the editor.
pub open spec fn editor_at(n: PaneNode) -> Option<u64>
    decreases n,
{
    match n {
        PaneNode::Leaf { id, content } => if content is Editor {
            Some(id)
        } else {
            None
        },
        PaneNode::Split { dir, ratio, a, b } => match editor_at(*a) {
            Some(i) => Some(i),
            None => editor_at(*b),
        },
    }
}

/// The tree with the first leaf of an id split: the new leaf takes the first half or the
/// second.
pub open spec fn split_at(
    n: PaneNode,
    target: u64,
    dir: SplitDir,
    content: PaneContent,
    new_id: u64,
    before: bool,
) -> PaneNode
    decreases n,
{
    match n {
        PaneNode::Leaf { id, content: _ } => if id == target {
            let fresh = PaneNode::Leaf { id: new_id, content };
            if before {
                PaneNode::Split { dir, ratio: HALF, a: Box::new(fresh), b: Box::new(n) }
            } else {
                PaneNode::Split { dir, ratio: HALF, a: Box::new(n), b: Box::new(fresh) }
            }
        } else {
            n
        },
        PaneNode::Split { dir: d, ratio, a, b } => if content_at(*a, target) is Some {
            PaneNode::Split {
                dir: d,
                ratio,
                a: Box::new(split_at(*a, target, dir, content, new_id, before)),
                b,
            }
        } else {
            PaneNode::Split {
                dir: d,
                ratio,
                a,
                b: Box::new(split_at(*b, target, dir, content, new_id, before)),
            }
        },
    }
}

/// Whether a node is the leaf with an id.
pub open spec fn is_leaf(n: PaneNode, target: u64) -> bool {
    n matches PaneNode::Leaf { id, content: _ } && id == target
}

/// What the closed leaf showed, and the tree in which its sibling takes the place of their
/// split; `None` where no split has the leaf.
pub open spec fn close_at(n: PaneNode, target: u64) -> Option<(PaneContent, PaneNode)>
    decreases n,
{
    match n {
        PaneNode::Leaf { .. } => None,
        PaneNode::Split { dir, ratio, a, b } => if is_leaf(*a, target) {
            Some((a->content, *b))
        } else if is_leaf(*b, target) {
            Some((b->content, *a))
        } else {
            match close_at(*a, target) {
                Some((c, rest)) => Some((c, PaneNode::Split { dir, ratio, a: Box::new(rest), b })),
                None => match close_at(*b, target) {
                    Some((c, rest)) => Some(
                        (c, PaneNode::Split { dir, ratio, a, b: Box::new(rest) }),
                    ),
                    None => None,
                },
            }
        },
    }
}

/// The pane in focus after some pane went: the one that was, or the first where that is gone.
pub open spec fn refocused(n: PaneNode, focused: u64) -> u64 {
    if content_at(n, focused) is Some {
        focused
    } else {
        leaves(n)[0].0
    }
}

/// The tree with another content in the first leaf of an id.
pub open spec fn content_set(n: PaneNode, target: u64, content: PaneContent) -> PaneNode
    decreases n,
{
    match n {
        PaneNode::Leaf { id, content: _ } => if id == target {
            PaneNode::Leaf { id, content }
        } else {
            n
        },
        PaneNode::Split { dir, ratio, a, b } => if content_at(*a, target) is Some {
            PaneNode::Split { dir, ratio, a: Box::new(content_set(*a, target, content)), b }
        } else {
            PaneNode::Split { dir, ratio, a, b: Box::new(content_set(*b, target, content)) }
        },
    }
}

/// What a pane shows after the document at `closed` is gone: later documents move up.
pub open spec fn shifted(c: PaneContent, closed: usize) -> PaneContent {
    match c {
        PaneContent::Doc(i) => if i > closed {
            PaneContent::Doc((i - 1) as usize)
        } else {
            c
        },
        _ => c,
    }
}

/// The tree after the document at `closed` is gone.
pub open spec fn docs_shifted(n: PaneNode, closed: usize) -> PaneNode
    decreases n,
{
    match n {
        PaneNode::Leaf { id, content } => PaneNode::Leaf { id, content: shifted(content, closed) },
        PaneNode::Split { dir, ratio, a, b } => PaneNode::Split {
            dir,
            ratio,
            a: Box::new(docs_shifted(*a, closed)),
            b: Box::new(docs_shifted(*b, closed)),
        },
    }
}

/// The ids of the leaves that show the document at `closed`.
pub open spec fn showing(n: PaneNode, closed: usize) -> Seq<u64>
    decreases n,
{
    match n {
        PaneNode::Leaf { id, content } => if content == PaneContent::Doc(closed) {
            seq![id]
        } else {
            Seq::empty()
        },
        PaneNode::Split { dir, ratio, a, b } => showing(*a, closed) + showing(*b, closed),
    }
}

/// The node that a path leads to: 1 is the root, and twice a path, or one more, leads on to
/// the first side of its split, or to the second. Leading nowhere is `None`.
pub open spec fn node_at(n: PaneNode, path: nat) -> Option<PaneNode>
    decreases path,
{
    if path <= 1 {
        Some(n)
    } else {
        match node_at(n, path / 2) {
            Some(PaneNode::Split { dir, ratio, a, b }) => if path % 2 == 0 {
                Some(*a)
            } else {
                Some(*b)
            },
            _ => None,
        }
    }
}

/// The pane on one side of the split at a path, where it is a single pane.
pub open spec fn edge_child(n: PaneNode, path: nat, first: bool) -> Option<u64> {
    match node_at(n, path) {
        Some(PaneNode::Split { dir, ratio, a, b }) => match (if first {
            *a
        } else {
            *b
        }) {
            PaneNode::Leaf { id, content } => Some(id),
            PaneNode::Split { .. } => None,
        },
        _ => None,
    }
}

/// The path of the first side of the split at a path.
pub open spec fn first_path(path: u32) -> u32 {
    path << 1u32
}

/// The path of the second side of the split at a path.
pub open spec fn second_path(path: u32) -> u32 {
    (path << 1u32) | 1u32
}

/// Whether some split of the tree, whose root has the path `path`, has the path `target`.
pub open spec fn has_split(n: PaneNode, path: u32, target: u32) -> bool
    decreases n,
{
    match n {
        PaneNode::Leaf { .. } => false,
        PaneNode::Split { dir, ratio, a, b } => path == target || has_split(*a, first_path(path), target)
            || has_split(*b, second_path(path), target),
    }
}

/// The tree with another ratio in the first split at a path.
pub open spec fn ratio_set(n: PaneNode, path: u32, target: u32, bits: u32) -> PaneNode
    decreases n,
{
    match n {
        PaneNode::Leaf { .. } => n,
        PaneNode::Split { dir, ratio, a, b } => if path == target {
            PaneNode::Split { dir, ratio: clamped(bits, MIN_RATIO, MAX_RATIO), a, b }
        } else if has_split(*a, first_path(path), target) {
            PaneNode::Split {
                dir,
                ratio,
                a: Box::new(ratio_set(*a, first_path(path), target, bits)),
                b,
            }
        } else {
            PaneNode::Split {
                dir,
                ratio,
                a,
                b: Box::new(ratio_set(*b, second_path(path), target, bits)),
            }
        },
    }
}

/// Every ratio leaves both sides their least share.
pub open spec fn ratios_fair(n: PaneNode) -> bool
    decreases n,
{
    match n {
        PaneNode::Leaf { .. } => true,
        PaneNode::Split { dir, ratio, a, b } => MIN_RATIO <= ratio <= MAX_RATIO && ratios_fair(*a)
            && ratios_fair(*b),
    }
}

/// One split on the way to a leaf or a divider, and the side that the way takes.
#[derive(Clone, Copy, Debug, PartialEq, Eq, Structural)]
pub struct Step {
    pub dir: SplitDir,
    pub ratio: u32,
    pub second: bool,
}

/// A leaf with the way to it.
#[derive(Debug)]
pub struct PaneSlot {
    pub id: u64,
    pub content: PaneContent,
    pub steps: Vec<Step>,
}

/// What a [`PaneSlot`] says.
pub struct Slot {
    pub id: u64,
    pub content: PaneContent,
    pub steps: Seq<Step>,
}

/// What a list of slots says.
pub open spec fn slot_views(v: Seq<PaneSlot>) -> Seq<Slot> {
    Seq::new(v.len(), |i: int| Slot { id: v[i].id, content: v[i].content, steps: v[i].steps@ })
}

/// The leaves with the ways to them.
pub open spec fn slots(n: PaneNode, steps: Seq<Step>) -> Seq<Slot>
    decreases n,
{
    match n {
        PaneNode::Leaf { id, content } => seq![Slot { id, content, steps }],
        PaneNode::Split { dir, ratio, a, b } => slots(*a, steps.push(Step { dir, ratio, second: false }))
            + slots(*b, steps.push(Step { dir, ratio, second: true })),
    }
}

/// A divider with the way to its split.
#[derive(Debug)]
pub struct DividerSlot {
    pub path: u32,
    pub dir: SplitDir,
    pub ratio: u32,
    pub steps: Vec<Step>,
}

/// What a [`DividerSlot`] says.
pub struct Divider {
    pub path: u32,
    pub dir: SplitDir,
    pub ratio: u32,
    pub steps: Seq<Step>,
}

/// What a list of dividers says.
pub open spec fn divider_views(v: Seq<DividerSlot>) -> Seq<Divider> {
    Seq::new(
        v.len(),
        |i: int| Divider { path: v[i].path, dir: v[i].dir, ratio: v[i].ratio, steps: v[i].steps@ },
    )
}

/// The dividers with the ways to their splits, each before those inside it.
pub open spec fn dividers_in(n: PaneNode, path: u32, steps: Seq<Step>) -> Seq<Divider>
    decreases n,
{
    match n {
        PaneNode::Leaf { .. } => Seq::empty(),
        PaneNode::Split { dir, ratio, a, b } => seq![Divider { path, dir, ratio, steps }]
            + dividers_in(*a, first_path(path), steps.push(Step { dir, ratio, second: false }))
            + dividers_in(*b, second_path(path), steps.push(Step { dir, ratio, second: true })),
    }
}

/// The ids of a tree's leaves.
pub open spec fn ids(n: PaneNode) -> Seq<u64> {
    Seq::new(leaves(n).len(), |i: int| leaves(n)[i].0)
}

impl PaneNode {
    fn find(&self, id: u64) -> (r: Option<PaneContent>)
        ensures
            r == content_at(*self, id),
        decreases *self,
    {
        match self {
            PaneNode::Leaf { id: i, content } => if *i == id {
                Some(*content)
            } else {
                None
            },
            PaneNode::Split { dir: _, ratio: _, a, b } => match a.find(id) {
                Some(c) => Some(c),
                None => b.find(id),
            },
        }
    }

    fn editor(&self) -> (r: Option<u64>)
        ensures
            r == editor_at(*self),
        decreases *self,
    {
        match self {
            PaneNode::Leaf { id, content } => match content {
                PaneContent::Editor => Some(*id),
                _ => None,
            },
            PaneNode::Split { dir: _, ratio: _, a, b } => match a.editor() {
                Some(i) => Some(i),
                None => b.editor(),
            },
        }
    }

    fn first_leaf(&self) -> (r: u64)
        ensures
            leaves(*self).len() > 0,
            r == leaves(*self)[0].0,
        decreases *self,
    {
        match self {
            PaneNode::Leaf { id, content: _ } => *id,
            PaneNode::Split { dir: _, ratio: _, a, b } => {
                let r = a.first_leaf();
                r
            },
        }
    }

    fn split_leaf(
        self,
        target: u64,
        dir: SplitDir,
        content: PaneContent,
        new_id: u64,
        before: bool,
    ) -> (r: PaneNode)
        ensures
            r == split_at(self, target, dir, content, new_id, before),
        decreases self,
    {
        match self {
            PaneNode::Leaf { id, content: own } => {
                let leaf = PaneNode::Leaf { id, content: own };
                if id != target {
                    return leaf;
                }
                let fresh = PaneNode::Leaf { id: new_id, content };
                if before {
                    PaneNode::Split { dir, ratio: HALF, a: Box::new(fresh), b: Box::new(leaf) }
                } else {
                    PaneNode::Split { dir, ratio: HALF, a: Box::new(leaf), b: Box::new(fresh) }
                }
            },
            PaneNode::Split { dir: d, ratio, a, b } => if a.find(target).is_some() {
                let a = Box::new((*a).split_leaf(target, dir, content, new_id, before));
                PaneNode::Split { dir: d, ratio, a, b }
            } else {
                let b = Box::new((*b).split_leaf(target, dir, content, new_id, before));
                PaneNode::Split { dir: d, ratio, a, b }
            },
        }
    }

    fn leaf_content(&self, target: u64) -> (r: Option<PaneContent>)
        ensures
            match r {
                Some(c) => is_leaf(*self, target) && self->content == c,
                None => !is_leaf(*self, target),
            },
    {
        match self {
            PaneNode::Leaf { id, content } => if *id == target {
                Some(*content)
            } else {
                None
            },
            PaneNode::Split { .. } => None,
        }
    }

    /// The tree without the leaf, and what it showed; the tree as it is where no split has it.
    fn close_leaf(self, target: u64) -> (r: (PaneNode, Option<PaneContent>))
        ensures
            match close_at(self, target) {
                Some((c, rest)) => r == (rest, Some(c)),
                None => r == (self, None::<PaneContent>),
            },
        decreases self,
    {
        match self {
            PaneNode::Leaf { id, content } => (PaneNode::Leaf { id, content }, None),
            PaneNode::Split { dir, ratio, a, b } => {
                if let Some(c) = a.leaf_content(target) {
                    return (*b, Some(c));
                }
                if let Some(c) = b.leaf_content(target) {
                    return (*a, Some(c));
                }
                let (a, found) = (*a).close_leaf(target);
                if found.is_some() {
                    return (PaneNode::Split { dir, ratio, a: Box::new(a), b }, found);
                }
                let (b, found) = (*b).close_leaf(target);
                (PaneNode::Split { dir, ratio, a: Box::new(a), b: Box::new(b) }, found)
            },
        }
    }

    fn set_leaf(self, target: u64, content: PaneContent) -> (r: PaneNode)
        ensures
            r == content_set(self, target, content),
        decreases self,
    {
        match self {
            PaneNode::Leaf { id, content: own } => if id == target {
                PaneNode::Leaf { id, content }
            } else {
                PaneNode::Leaf { id, content: own }
            },
            PaneNode::Split { dir, ratio, a, b } => if a.find(target).is_some() {
                PaneNode::Split { dir, ratio, a: Box::new((*a).set_leaf(target, content)), b }
            } else {
                PaneNode::Split { dir, ratio, a, b: Box::new((*b).set_leaf(target, content)) }
            },
        }
    }

    fn shift_docs(self, closed: usize, dead: &mut Vec<u64>) -> (r: PaneNode)
        ensures
            r == docs_shifted(self, closed),
            final(dead)@ == old(dead)@ + showing(self, closed),
        decreases self,
    {
        match self {
            PaneNode::Leaf { id, content } => {
                let ghost before = dead@;
                let next = match content {
                    PaneContent::Doc(i) => {
                        if i == closed {
                            dead.push(id);
                            assert(dead@ =~= before + seq![id]);
                        } else {
                            assert(before + Seq::<u64>::empty() =~= before);
                        }
                        if i > closed {
                            PaneContent::Doc(i - 1)
                        } else {
                            content
                        }
                    },
                    _ => {
                        assert(before + Seq::<u64>::empty() =~= before);
                        content
                    },
                };
                PaneNode::Leaf { id, content: next }
            },
            PaneNode::Split { dir, ratio, a, b } => {
                let ghost before = dead@;
                let ghost in_a = showing(*a, closed);
                let ghost in_b = showing(*b, closed);
                let a = Box::new((*a).shift_docs(closed, dead));
                let b = Box::new((*b).shift_docs(closed, dead));
                assert(dead@ =~= before + (in_a + in_b));
                PaneNode::Split { dir, ratio, a, b }
            },
        }
    }

    fn finds_split(&self, path: u32, target: u32) -> (r: bool)
        ensures
            r == has_split(*self, path, target),
        decreases *self,
    {
        match self {
            PaneNode::Leaf { .. } => false,
            PaneNode::Split { dir: _, ratio: _, a, b } => path == target || a.finds_split(
                path << 1u32,
                target,
            ) || b.finds_split((path << 1u32) | 1u32, target),
        }
    }

    fn set_ratio(self, path: u32, target: u32, bits: u32) -> (r: PaneNode)
        ensures
            r == ratio_set(self, path, target, bits),
        decreases self,
    {
        match self {
            PaneNode::Leaf { id, content } => PaneNode::Leaf { id, content },
            PaneNode::Split { dir, ratio, a, b } => if path == target {
                PaneNode::Split { dir, ratio: clamp(bits, MIN_RATIO, MAX_RATIO), a, b }
            } else if a.finds_split(path << 1u32, target) {
                let a = Box::new((*a).set_ratio(path << 1u32, target, bits));
                PaneNode::Split { dir, ratio, a, b }
            } else {
                let b = Box::new((*b).set_ratio((path << 1u32) | 1u32, target, bits));
                PaneNode::Split { dir, ratio, a, b }
            },
        }
    }

    fn at(&self, path: u32) -> (r: Option<&PaneNode>)
        ensures
            match r {
                Some(n) => node_at(*self, path as nat) == Some(*n),
                None => node_at(*self, path as nat) is None,
            },
        decreases path,
    {
        if path <= 1 {
            return Some(self);
        }
        match self.at(path / 2) {
            Some(PaneNode::Split { dir: _, ratio: _, a, b }) => if path % 2 == 0 {
                Some(&**a)
            } else {
                Some(&**b)
            },
            _ => None,
        }
    }
}

/// The panes, and the one in focus.
#[derive(Debug)]
pub struct PaneTree {
    pub root: PaneNode,
    /// The id that the next pane gets.
    pub next_id: u64,
    pub focused: u64,
}

impl PaneTree {
    /// No two panes have the same id, and the next id is new.
    pub open spec fn wf(&self) -> bool {
        &&& ids(self.root).no_duplicates()
        &&& forall|i: int| 0 <= i < ids(self.root).len() ==> #[trigger] ids(self.root)[i] < self.next_id
    }

    /// The pane in focus is there.
    pub open spec fn focus_valid(&self) -> bool {
        content_at(self.root, self.focused) is Some
    }

    /// The editor alone, in focus.
    pub fn new() -> (r: Self)
        ensures
            r.wf(),
            r.root == (PaneNode::Leaf { id: 0, content: PaneContent::Editor }),
            r.next_id == 1,
            r.focused == 0,
            r.focus_valid(),
            ratios_fair(r.root),
    {
        PaneTree {
            root: PaneNode::Leaf { id: 0, content: PaneContent::Editor },
            next_id: 1,
            focused: 0,
        }
    }

    /// Whether there is a single pane, whatever it shows.
    pub fn is_single(&self) -> (r: bool)
        ensures
            r == (self.root is Leaf),
    {
        match self.root {
            PaneNode::Leaf { .. } => true,
            _ => false,
        }
    }

    /// Whether the editor is the only pane.
    pub open spec fn plain(&self) -> bool {
        self.root matches PaneNode::Leaf { id: _, content } && content is Editor
    }

    /// Whether the editor is the only pane.
    pub fn is_plain_editor(&self) -> (r: bool)
        ensures
            r == self.plain(),
    {
        match &self.root {
            PaneNode::Leaf { id: _, content } => match content {
                PaneContent::Editor => true,
                _ => false,
            },
            _ => false,
        }
    }

    /// Whether the panes own the content area: there is a split, or the only pane is not the
    /// editor.
    pub fn tiling_active(&self) -> (r: bool)
        ensures
            r == !self.plain(),
    {
        !self.is_plain_editor()
    }

    /// The pane that shows the editor.
    pub fn editor_leaf(&self) -> (r: Option<u64>)
        ensures
            r == editor_at(self.root),
    {
        self.root.editor()
    }

    /// Whether some pane shows the editor.
    pub fn has_editor(&self) -> (r: bool)
        ensures
            r == (editor_at(self.root) is Some),
    {
        self.root.editor().is_some()
    }

    /// Splits the pane in focus, with `content` in a new pane that takes the first half or the
    /// second, and focuses the new pane, whose id is returned.
    pub fn split(&mut self, dir: SplitDir, content: PaneContent, before: bool) -> (r: u64)
        requires
            old(self).next_id < u64::MAX,
        ensures
            r == old(self).next_id,
            final(self).next_id == r + 1,
            final(self).focused == r,
            final(self).root == split_at(old(self).root, old(self).focused, dir, content, r, before),
            old(self).wf() ==> final(self).wf(),
            old(self).focus_valid() ==> final(self).focus_valid(),
            old(self).wf() ==> content_at(old(self).root, r) is None,
            old(self).wf() && old(self).focus_valid() ==> content_at(final(self).root, r) == Some(content),
            old(self).wf() ==> forall|id: u64|
                id != r ==> #[trigger] content_at(final(self).root, id) == content_at(old(self).root, id),
            ratios_fair(old(self).root) ==> ratios_fair(final(self).root),
    {
        let new_id: u64 = self.next_id;
        self.next_id = self.next_id + 1;
        let mut root = PaneNode::Leaf { id: 0, content: PaneContent::Editor };
        std::mem::swap(&mut self.root, &mut root);
        proof {
            lemma_split(root, self.focused, dir, content, new_id, before);
            if old(self).wf() {
                lemma_found(root, new_id);
                let m = split_at(root, self.focused, dir, content, new_id, before);
                assert forall|id: u64| id != new_id implies #[trigger] content_at(m, id) == content_at(
                    root,
                    id,
                ) by {
                    split_keeps_the_contents(root, self.focused, dir, content, new_id, before, id);
                }
                split_keeps_the_contents(root, self.focused, dir, content, new_id, before, new_id);
            }
        }
        self.root = root.split_leaf(self.focused, dir, content, new_id, before);
        self.focused = new_id;
        new_id
    }

    fn drop_leaf(&mut self, id: u64) -> (r: Option<PaneContent>)
        ensures
            final(self).next_id == old(self).next_id,
            match close_at(old(self).root, id) {
                Some((c, rest)) => {
                    &&& r == Some(c)
                    &&& final(self).root == rest
                    &&& final(self).focused == refocused(rest, old(self).focused)
                    &&& final(self).focus_valid()
                },
                None => r is None && *final(self) == *old(self),
            },
            old(self).wf() ==> final(self).wf(),
            ratios_fair(old(self).root) ==> ratios_fair(final(self).root),
    {
        let mut root = PaneNode::Leaf { id: 0, content: PaneContent::Editor };
        std::mem::swap(&mut self.root, &mut root);
        proof {
            lemma_close(root, id);
        }
        let (root, closed) = root.close_leaf(id);
        self.root = root;
        if closed.is_some() && self.root.find(self.focused).is_none() {
            self.focused = self.root.first_leaf();
            proof {
                lemma_first_found(self.root);
            }
        }
        closed
    }

    /// Closes a pane: its sibling takes the room of both. The pane that shows the editor stays,
    /// and so does the only pane. What the pane showed is returned. Where the pane in focus is
    /// gone, the first pane is focused.
    pub fn close(&mut self, id: u64) -> (r: Option<PaneContent>)
        ensures
            final(self).next_id == old(self).next_id,
            content_at(old(self).root, id) is None || content_at(old(self).root, id) == Some(
                PaneContent::Editor,
            ) ==> r is None && *final(self) == *old(self),
            content_at(old(self).root, id) is Some && content_at(old(self).root, id) != Some(
                PaneContent::Editor,
            ) ==> match close_at(old(self).root, id) {
                Some((c, rest)) => {
                    &&& r == Some(c)
                    &&& final(self).root == rest
                    &&& final(self).focused == refocused(rest, old(self).focused)
                    &&& final(self).focus_valid()
                },
                None => r is None && *final(self) == *old(self),
            },
            old(self).wf() ==> final(self).wf(),
            old(self).focus_valid() ==> final(self).focus_valid(),
            ratios_fair(old(self).root) ==> ratios_fair(final(self).root),
    {
        match self.root.find(id) {
            None => None,
            Some(PaneContent::Editor) => None,
            Some(_) => self.drop_leaf(id),
        }
    }

    /// Closes a pane, though it show the editor; only the last pane stays.
    pub fn force_close(&mut self, id: u64) -> (r: Option<PaneContent>)
        ensures
            final(self).next_id == old(self).next_id,
            match close_at(old(self).root, id) {
                Some((c, rest)) => {
                    &&& r == Some(c)
                    &&& final(self).root == rest
                    &&& final(self).focused == refocused(rest, old(self).focused)
                    &&& final(self).focus_valid()
                },
                None => r is None && *final(self) == *old(self),
            },
            old(self).wf() ==> final(self).wf(),
            old(self).focus_valid() ==> final(self).focus_valid(),
            ratios_fair(old(self).root) ==> ratios_fair(final(self).root),
    {
        self.drop_leaf(id)
    }

    /// Shows something else in a pane.
    pub fn set_content(&mut self, id: u64, content: PaneContent)
        ensures
            final(self).root == content_set(old(self).root, id, content),
            final(self).next_id == old(self).next_id,
            final(self).focused == old(self).focused,
            old(self).wf() ==> final(self).wf(),
            old(self).focus_valid() ==> final(self).focus_valid(),
            ratios_fair(old(self).root) ==> ratios_fair(final(self).root),
    {
        let mut root = PaneNode::Leaf { id: 0, content: PaneContent::Editor };
        std::mem::swap(&mut self.root, &mut root);
        proof {
            lemma_set(root, id, content);
            lemma_same_ids(root, content_set(root, id, content), self.focused);
        }
        self.root = root.set_leaf(id, content);
    }

    /// The document at `closed` is gone: panes that show a later one follow it to its new place.
    /// The panes that showed it are returned.
    pub fn remap_docs_after_close(&mut self, closed: usize) -> (r: Vec<u64>)
        ensures
            r@ == showing(old(self).root, closed),
            final(self).root == docs_shifted(old(self).root, closed),
            final(self).next_id == old(self).next_id,
            final(self).focused == old(self).focused,
            old(self).wf() ==> final(self).wf(),
            old(self).focus_valid() ==> final(self).focus_valid(),
            ratios_fair(old(self).root) ==> ratios_fair(final(self).root),
    {
        let mut dead: Vec<u64> = Vec::new();
        let mut root = PaneNode::Leaf { id: 0, content: PaneContent::Editor };
        std::mem::swap(&mut self.root, &mut root);
        proof {
            lemma_shift(root, closed);
            lemma_same_ids(root, docs_shifted(root, closed), self.focused);
        }
        self.root = root.shift_docs(closed, &mut dead);
        assert(dead@ =~= showing(old(self).root, closed));
        dead
    }

    /// Whether a pane is there.
    pub fn contains(&self, id: u64) -> (r: bool)
        ensures
            r == (content_at(self.root, id) is Some),
    {
        self.root.find(id).is_some()
    }

    /// What a pane shows.
    pub fn content_of(&self, id: u64) -> (r: Option<PaneContent>)
        ensures
            r == content_at(self.root, id),
    {
        self.root.find(id)
    }

    /// What a pane of a tree shows.
    pub fn find(node: &PaneNode, id: u64) -> (r: Option<PaneContent>)
        ensures
            r == content_at(*node, id),
    {
        node.find(id)
    }

    /// The pane on one side of the split at `path`, where it is a single pane.
    pub fn edge_child_leaf(&self, path: u32, first: bool) -> (r: Option<u64>)
        ensures
            r == edge_child(self.root, path as nat, first),
    {
        match self.root.at(path) {
            Some(PaneNode::Split { dir: _, ratio: _, a, b }) => {
                let child: &PaneNode = if first {
                    &**a
                } else {
                    &**b
                };
                match child {
                    PaneNode::Leaf { id, content: _ } => Some(*id),
                    PaneNode::Split { .. } => None,
                }
            },
            _ => None,
        }
    }

    /// What the pane in focus shows; the editor where it is not there.
    pub fn focused_content(&self) -> (r: PaneContent)
        ensures
            r == match content_at(self.root, self.focused) {
                Some(c) => c,
                None => PaneContent::Editor,
            },
    {
        match self.root.find(self.focused) {
            Some(c) => c,
            None => PaneContent::Editor,
        }
    }

    /// The panes with the ways to them.
    pub fn layout(&self) -> (r: Vec<PaneSlot>)
        ensures
            slot_views(r@) == slots(self.root, Seq::empty()),
            ratios_fair(self.root) ==> shared_by(whole(), slot_views(r@)),
    {
        proof {
            if ratios_fair(self.root) {
                panes_share_the_area(self.root);
            }
        }
        let mut out: Vec<PaneSlot> = Vec::new();
        let steps: Vec<Step> = Vec::new();
        push_slots(&self.root, &steps, &mut out);
        assert(slot_views(out@) =~= slots(self.root, Seq::empty()));
        out
    }

    /// The dividers with the ways to their splits.
    pub fn dividers(&self) -> (r: Vec<DividerSlot>)
        ensures
            divider_views(r@) == dividers_in(self.root, 1, Seq::empty()),
    {
        let mut out: Vec<DividerSlot> = Vec::new();
        let steps: Vec<Step> = Vec::new();
        push_dividers(&self.root, 1, &steps, &mut out);
        assert(divider_views(out@) =~= dividers_in(self.root, 1, Seq::empty()));
        out
    }

    /// Moves the divider of the split at `path`, so that its first side has the share with the
    /// bits `ratio`, as far as both sides keep their least share.
    pub fn drag(&mut self, path: u32, ratio: u32)
        ensures
            final(self).root == ratio_set(old(self).root, 1, path, ratio),
            final(self).next_id == old(self).next_id,
            final(self).focused == old(self).focused,
            old(self).wf() ==> final(self).wf(),
            old(self).focus_valid() ==> final(self).focus_valid(),
            ratios_fair(old(self).root) ==> ratios_fair(final(self).root),
    {
        let mut root = PaneNode::Leaf { id: 0, content: PaneContent::Editor };
        std::mem::swap(&mut self.root, &mut root);
        proof {
            lemma_ratio(root, 1, path, ratio);
            lemma_same_ids(root, ratio_set(root, 1, path, ratio), self.focused);
        }
        self.root = root.set_ratio(1, path, ratio);
    }
}

fn with_step(steps: &Vec<Step>, step: Step) -> (r: Vec<Step>)
    ensures
        r@ == steps@.push(step),
{
    let mut out: Vec<Step> = Vec::new();
    for i in 0..steps.len()
        invariant
            out@ == steps@.take(i as int),
    {
        out.push(steps[i]);
        assert(out@ =~= steps@.take(i + 1));
    }
    assert(steps@.take(steps@.len() as int) =~= steps@);
    out.push(step);
    out
}

fn copy_steps(steps: &Vec<Step>) -> (r: Vec<Step>)
    ensures
        r@ == steps@,
{
    let mut out: Vec<Step> = Vec::new();
    for i in 0..steps.len()
        invariant
            out@ == steps@.take(i as int),
    {
        out.push(steps[i]);
        assert(out@ =~= steps@.take(i + 1));
    }
    assert(steps@.take(steps@.len() as int) =~= steps@);
    out
}

fn push_slots(n: &PaneNode, steps: &Vec<Step>, out: &mut Vec<PaneSlot>)
    ensures
        slot_views(final(out)@) == slot_views(old(out)@) + slots(*n, steps@),
    decreases *n,
{
    let ghost before = slot_views(out@);
    match n {
        PaneNode::Leaf { id, content } => {
            out.push(PaneSlot { id: *id, content: *content, steps: copy_steps(steps) });
            assert(slot_views(out@) =~= before + slots(*n, steps@));
        },
        PaneNode::Split { dir, ratio, a, b } => {
            let left = with_step(steps, Step { dir: *dir, ratio: *ratio, second: false });
            let right = with_step(steps, Step { dir: *dir, ratio: *ratio, second: true });
            push_slots(a, &left, out);
            push_slots(b, &right, out);
            assert(slot_views(out@) =~= before + slots(*n, steps@));
        },
    }
}

fn push_dividers(n: &PaneNode, path: u32, steps: &Vec<Step>, out: &mut Vec<DividerSlot>)
    ensures
        divider_views(final(out)@) == divider_views(old(out)@) + dividers_in(*n, path, steps@),
    decreases *n,
{
    let ghost before = divider_views(out@);
    match n {
        PaneNode::Leaf { .. } => {
            assert(before + dividers_in(*n, path, steps@) =~= before);
        },
        PaneNode::Split { dir, ratio, a, b } => {
            out.push(DividerSlot { path, dir: *dir, ratio: *ratio, steps: copy_steps(steps) });
            let ghost own = seq![Divider { path, dir: *dir, ratio: *ratio, steps: steps@ }];
            assert(divider_views(out@) =~= before + own);
            let left = with_step(steps, Step { dir: *dir, ratio: *ratio, second: false });
            let right = with_step(steps, Step { dir: *dir, ratio: *ratio, second: true });
            push_dividers(a, path << 1u32, &left, out);
            push_dividers(b, (path << 1u32) | 1u32, &right, out);
            assert(divider_views(out@) =~= before + dividers_in(*n, path, steps@));
        },
    }
}

// --- what the operations keep ---

/// A pane is found exactly where a leaf has its id.
proof fn lemma_found(n: PaneNode, id: u64)
    ensures
        content_at(n, id) is Some <==> ids(n).contains(id),
        leaves(n).len() > 0,
    decreases n,
{
    match n {
        PaneNode::Leaf { id: i, content } => {
            assert(ids(n) =~= seq![i]);
            assert(ids(n)[0] == i);
        },
        PaneNode::Split { dir, ratio, a, b } => {
            lemma_found(*a, id);
            lemma_found(*b, id);
            assert(ids(n) =~= ids(*a) + ids(*b));
            lemma_contains_concat(ids(*a), ids(*b), id);
        },
    }
}

proof fn lemma_contains_concat(x: Seq<u64>, y: Seq<u64>, id: u64)
    ensures
        (x + y).contains(id) <==> x.contains(id) || y.contains(id),
{
    if x.contains(id) {
        let i = choose|i: int| 0 <= i < x.len() && x[i] == id;
        assert((x + y)[i] == id);
    }
    if y.contains(id) {
        let i = choose|i: int| 0 <= i < y.len() && y[i] == id;
        assert((x + y)[x.len() + i] == id);
    }
    if (x + y).contains(id) {
        let i = choose|i: int| 0 <= i < (x + y).len() && (x + y)[i] == id;
        if i < x.len() {
            assert(x[i] == id);
        } else {
            assert(y[i - x.len()] == id);
        }
    }
}

proof fn lemma_first_found(n: PaneNode)
    ensures
        leaves(n).len() > 0,
        content_at(n, leaves(n)[0].0) is Some,
{
    lemma_found(n, leaves(n)[0].0);
    assert(ids(n)[0] == leaves(n)[0].0);
}

/// Trees with the same ids find the same panes.
proof fn lemma_same_ids(n: PaneNode, m: PaneNode, id: u64)
    requires
        ids(n) == ids(m),
    ensures
        content_at(n, id) is Some <==> content_at(m, id) is Some,
{
    lemma_found(n, id);
    lemma_found(m, id);
}

proof fn lemma_set(n: PaneNode, target: u64, content: PaneContent)
    ensures
        ids(content_set(n, target, content)) == ids(n),
        ratios_fair(n) ==> ratios_fair(content_set(n, target, content)),
    decreases n,
{
    let m = content_set(n, target, content);
    match n {
        PaneNode::Leaf { id, content: c } => {
            assert(ids(m) =~= ids(n));
        },
        PaneNode::Split { dir, ratio, a, b } => {
            lemma_set(*a, target, content);
            lemma_set(*b, target, content);
            assert(ids(n) =~= ids(*a) + ids(*b));
            if content_at(*a, target) is Some {
                assert(ids(m) =~= ids(content_set(*a, target, content)) + ids(*b));
            } else {
                assert(ids(m) =~= ids(*a) + ids(content_set(*b, target, content)));
            }
        },
    }
}

proof fn lemma_shift(n: PaneNode, closed: usize)
    ensures
        ids(docs_shifted(n, closed)) == ids(n),
        ratios_fair(n) ==> ratios_fair(docs_shifted(n, closed)),
    decreases n,
{
    let m = docs_shifted(n, closed);
    match n {
        PaneNode::Leaf { id, content } => {
            assert(ids(m) =~= ids(n));
        },
        PaneNode::Split { dir, ratio, a, b } => {
            lemma_shift(*a, closed);
            lemma_shift(*b, closed);
            assert(ids(n) =~= ids(*a) + ids(*b));
            assert(ids(m) =~= ids(docs_shifted(*a, closed)) + ids(docs_shifted(*b, closed)));
        },
    }
}

proof fn lemma_ratio(n: PaneNode, path: u32, target: u32, bits: u32)
    ensures
        ids(ratio_set(n, path, target, bits)) == ids(n),
        leaves(ratio_set(n, path, target, bits)) == leaves(n),
        ratios_fair(n) ==> ratios_fair(ratio_set(n, path, target, bits)),
    decreases n,
{
    if let PaneNode::Split { dir, ratio, a, b } = n {
        lemma_ratio(*a, first_path(path), target, bits);
        lemma_ratio(*b, second_path(path), target, bits);
    }
}

/// Where the new leaf stands, and that the others stay as they are.
proof fn lemma_split(
    n: PaneNode,
    target: u64,
    dir: SplitDir,
    content: PaneContent,
    new_id: u64,
    before: bool,
)
    ensures
        ({
            let m = split_at(n, target, dir, content, new_id, before);
            &&& ratios_fair(n) ==> ratios_fair(m)
            &&& if content_at(n, target) is Some {
                exists|k: int|
                    0 <= k <= leaves(n).len() && leaves(m) == #[trigger] leaves(n).insert(k, (new_id, content))
            } else {
                leaves(m) == leaves(n)
            }
            &&& content_at(n, target) is Some ==> content_at(m, new_id) is Some
            &&& (ids(n).no_duplicates() && !ids(n).contains(new_id)) ==> ids(m).no_duplicates()
            &&& forall|i: int| 0 <= i < ids(m).len() ==> ids(n).contains(#[trigger] ids(m)[i]) || ids(m)[i] == new_id
        }),
    decreases n,
{
    let m = split_at(n, target, dir, content, new_id, before);
    lemma_split_leaves(n, target, dir, content, new_id, before);
    lemma_found(m, new_id);
    if content_at(n, target) is Some {
        let k = choose|k: int|
            0 <= k <= leaves(n).len() && leaves(m) == #[trigger] leaves(n).insert(k, (new_id, content));
        assert(ids(m) =~= ids(n).insert(k, new_id));
        assert(ids(m)[k] == new_id);
        assert forall|i: int| 0 <= i < ids(m).len() implies ids(n).contains(#[trigger] ids(m)[i]) || ids(m)[i]
            == new_id by {
            if i < k {
                assert(ids(m)[i] == ids(n)[i]);
            } else if i > k {
                assert(ids(m)[i] == ids(n)[i - 1]);
            }
        }
        if ids(n).no_duplicates() && !ids(n).contains(new_id) {
            assert forall|i: int, j: int| 0 <= i < ids(m).len() && 0 <= j < ids(m).len() && i != j implies ids(m)[i]
                != ids(m)[j] by {
                let x = if i < k {
                    i
                } else {
                    i - 1
                };
                let y = if j < k {
                    j
                } else {
                    j - 1
                };
                if i != k && j != k {
                    assert(ids(m)[i] == ids(n)[x] && ids(m)[j] == ids(n)[y]);
                } else if i == k {
                    assert(ids(m)[j] == ids(n)[y]);
                } else {
                    assert(ids(m)[i] == ids(n)[x]);
                }
            }
        }
    } else {
        assert(ids(m) =~= ids(n));
        assert forall|i: int| 0 <= i < ids(m).len() implies ids(n).contains(#[trigger] ids(m)[i]) || ids(m)[i]
            == new_id by {
            assert(ids(n)[i] == ids(m)[i]);
        }
    }
}

proof fn lemma_split_leaves(
    n: PaneNode,
    target: u64,
    dir: SplitDir,
    content: PaneContent,
    new_id: u64,
    before: bool,
)
    ensures
        ({
            let m = split_at(n, target, dir, content, new_id, before);
            &&& ratios_fair(n) ==> ratios_fair(m)
            &&& if content_at(n, target) is Some {
                exists|k: int|
                    0 <= k <= leaves(n).len() && leaves(m) == #[trigger] leaves(n).insert(k, (new_id, content))
            } else {
                leaves(m) == leaves(n)
            }
        }),
    decreases n,
{
    let m = split_at(n, target, dir, content, new_id, before);
    match n {
        PaneNode::Leaf { id, content: own } => {
            if id == target {
                let fresh = PaneNode::Leaf { id: new_id, content };
                assert(leaves(fresh) == seq![(new_id, content)]);
                assert(leaves(n) == seq![(id, own)]);
                assert(ratios_fair(fresh) && ratios_fair(n));
                if before {
                    assert(leaves(m) =~= leaves(fresh) + leaves(n));
                    assert(leaves(m) =~= leaves(n).insert(0, (new_id, content)));
                } else {
                    assert(leaves(m) =~= leaves(n) + leaves(fresh));
                    assert(leaves(m) =~= leaves(n).insert(1, (new_id, content)));
                }
            }
        },
        PaneNode::Split { dir: d, ratio, a, b } => {
            lemma_split_leaves(*a, target, dir, content, new_id, before);
            lemma_split_leaves(*b, target, dir, content, new_id, before);
            let na = leaves(*a).len() as int;
            if content_at(*a, target) is Some {
                let x = split_at(*a, target, dir, content, new_id, before);
                let k = choose|k: int|
                    0 <= k <= leaves(*a).len() && leaves(x) == #[trigger] leaves(*a).insert(k, (new_id, content));
                assert(leaves(m) == leaves(x) + leaves(*b));
                assert(leaves(m) =~= leaves(n).insert(k, (new_id, content)));
            } else if content_at(*b, target) is Some {
                let x = split_at(*b, target, dir, content, new_id, before);
                let k = choose|k: int|
                    0 <= k <= leaves(*b).len() && leaves(x) == #[trigger] leaves(*b).insert(k, (new_id, content));
                assert(leaves(m) == leaves(*a) + leaves(x));
                assert(leaves(m) =~= leaves(n).insert(na + k, (new_id, content)));
            } else {
                let x = split_at(*b, target, dir, content, new_id, before);
                assert(leaves(m) == leaves(*a) + leaves(x));
            }
        },
    }
}

/// The closed leaf is gone, and the others stay as they are.
proof fn lemma_close(n: PaneNode, target: u64)
    ensures
        close_at(n, target) matches Some((c, m)) ==> {
            &&& ratios_fair(n) ==> ratios_fair(m)
            &&& ids(n).no_duplicates() ==> ids(m).no_duplicates()
            &&& forall|i: int| 0 <= i < ids(m).len() ==> ids(n).contains(#[trigger] ids(m)[i])
        },
{
    lemma_close_leaves(n, target);
    if let Some((c, m)) = close_at(n, target) {
        let k = choose|k: int|
            0 <= k < leaves(n).len() && leaves(n)[k] == (target, c) && leaves(m) == #[trigger] leaves(n).remove(k);
        assert(ids(m) =~= ids(n).remove(k));
        assert forall|i: int| 0 <= i < ids(m).len() implies ids(n).contains(#[trigger] ids(m)[i]) by {
            if i < k {
                assert(ids(m)[i] == ids(n)[i]);
            } else {
                assert(ids(m)[i] == ids(n)[i + 1]);
            }
        }
        if ids(n).no_duplicates() {
            assert forall|i: int, j: int| 0 <= i < ids(m).len() && 0 <= j < ids(m).len() && i != j implies ids(m)[i]
                != ids(m)[j] by {
                let x = if i < k {
                    i
                } else {
                    i + 1
                };
                let y = if j < k {
                    j
                } else {
                    j + 1
                };
                assert(ids(m)[i] == ids(n)[x] && ids(m)[j] == ids(n)[y]);
            }
        }
    }
}

/// Taking an item out of the first or the second part of a list takes it out of the list.
proof fn lemma_remove_from_part(x: Seq<(u64, PaneContent)>, y: Seq<(u64, PaneContent)>, k: int)
    ensures
        0 <= k < x.len() ==> x.remove(k) + y == (x + y).remove(k) && (x + y)[k] == x[k],
        0 <= k < y.len() ==> x + y.remove(k) == (x + y).remove(x.len() + k) && (x + y)[x.len() + k] == y[k],
{
    if 0 <= k < x.len() {
        assert(x.remove(k) + y =~= (x + y).remove(k));
    }
    if 0 <= k < y.len() {
        assert(x + y.remove(k) =~= (x + y).remove(x.len() + k));
    }
}

/// `m` is `n` without the item at some place, which is `gone`.
spec fn is_without(n: Seq<(u64, PaneContent)>, m: Seq<(u64, PaneContent)>, gone: (u64, PaneContent)) -> bool {
    exists|k: int| 0 <= k < n.len() && n[k] == gone && m == #[trigger] n.remove(k)
}

proof fn lemma_without_part(
    x: Seq<(u64, PaneContent)>,
    y: Seq<(u64, PaneContent)>,
    rest: Seq<(u64, PaneContent)>,
    gone: (u64, PaneContent),
)
    ensures
        is_without(x, rest, gone) ==> is_without(x + y, rest + y, gone),
        is_without(y, rest, gone) ==> is_without(x + y, x + rest, gone),
{
    if is_without(x, rest, gone) {
        let k = choose|k: int| 0 <= k < x.len() && x[k] == gone && rest == #[trigger] x.remove(k);
        lemma_remove_from_part(x, y, k);
        assert((x + y).remove(k) == rest + y);
    }
    if is_without(y, rest, gone) {
        let k = choose|k: int| 0 <= k < y.len() && y[k] == gone && rest == #[trigger] y.remove(k);
        lemma_remove_from_part(x, y, k);
        assert((x + y).remove(x.len() + k) == x + rest);
    }
}

proof fn lemma_close_leaves(n: PaneNode, target: u64)
    ensures
        close_at(n, target) matches Some((c, m)) ==> {
            &&& ratios_fair(n) ==> ratios_fair(m)
            &&& is_without(leaves(n), leaves(m), (target, c))
        },
    decreases n,
{
    if let PaneNode::Split { dir, ratio, a, b } = n {
        let (la, lb) = (leaves(*a), leaves(*b));
        assert(leaves(n) == la + lb);
        let none = Seq::<(u64, PaneContent)>::empty();
        if is_leaf(*a, target) {
            assert(la == seq![(target, a->content)]);
            assert(la.remove(0) =~= none);
            assert(is_without(la, none, (target, a->content)));
            lemma_without_part(la, lb, none, (target, a->content));
            assert(none + lb =~= lb);
        } else if is_leaf(*b, target) {
            assert(lb == seq![(target, b->content)]);
            assert(lb.remove(0) =~= none);
            assert(is_without(lb, none, (target, b->content)));
            lemma_without_part(la, lb, none, (target, b->content));
            assert(la + none =~= la);
        } else {
            lemma_close_leaves(*a, target);
            lemma_close_leaves(*b, target);
            if let Some((c, x)) = close_at(*a, target) {
                lemma_without_part(la, lb, leaves(x), (target, c));
            } else if let Some((c, x)) = close_at(*b, target) {
                lemma_without_part(la, lb, leaves(x), (target, c));
            }
        }
    }
}

/// How many panes show the editor.
pub open spec fn editors(n: PaneNode) -> nat
    decreases n,
{
    match n {
        PaneNode::Leaf { id, content } => if content is Editor {
            1
        } else {
            0
        },
        PaneNode::Split { dir, ratio, a, b } => editors(*a) + editors(*b),
    }
}

/// Splitting a pane that is there adds one pane and leaves the others as they are, in their
/// order. It adds an editor only where it is asked to.
pub proof fn split_adds_one_pane(
    n: PaneNode,
    target: u64,
    dir: SplitDir,
    content: PaneContent,
    new_id: u64,
    before: bool,
)
    requires
        content_at(n, target) is Some,
    ensures
        exists|k: int|
            0 <= k <= leaves(n).len() && leaves(split_at(n, target, dir, content, new_id, before))
                == #[trigger] leaves(n).insert(k, (new_id, content)),
        editors(split_at(n, target, dir, content, new_id, before)) == editors(n) + (if content is Editor {
            1int
        } else {
            0
        }),
{
    lemma_split_leaves(n, target, dir, content, new_id, before);
    lemma_split_editors(n, target, dir, content, new_id, before);
}

proof fn lemma_split_editors(
    n: PaneNode,
    target: u64,
    dir: SplitDir,
    content: PaneContent,
    new_id: u64,
    before: bool,
)
    ensures
        editors(split_at(n, target, dir, content, new_id, before)) == editors(n) + (if content is Editor
            && content_at(n, target) is Some {
            1int
        } else {
            0
        }),
    decreases n,
{
    match n {
        PaneNode::Leaf { id, content: own } => {
            let fresh = PaneNode::Leaf { id: new_id, content };
            assert(editors(fresh) == if content is Editor {
                1int
            } else {
                0
            });
        },
        PaneNode::Split { dir: d, ratio, a, b } => {
            lemma_split_editors(*a, target, dir, content, new_id, before);
            lemma_split_editors(*b, target, dir, content, new_id, before);
        },
    }
}

/// Closing a pane takes that pane away and leaves the others as they are, in their order.
pub proof fn close_removes_one_pane(n: PaneNode, target: u64)
    ensures
        close_at(n, target) matches Some((c, m)) ==> {
            &&& exists|k: int|
                0 <= k < leaves(n).len() && leaves(n)[k] == (target, c) && leaves(m) == #[trigger] leaves(n).remove(
                    k,
                )
            &&& editors(n) == editors(m) + (if c is Editor {
                1int
            } else {
                0
            })
        },
{
    lemma_close_leaves(n, target);
    lemma_close_editors(n, target);
}

proof fn lemma_close_editors(n: PaneNode, target: u64)
    ensures
        close_at(n, target) matches Some((c, m)) ==> editors(n) == editors(m) + (if c is Editor {
            1int
        } else {
            0
        }),
    decreases n,
{
    if let PaneNode::Split { dir, ratio, a, b } = n {
        lemma_close_editors(*a, target);
        lemma_close_editors(*b, target);
        reveal_with_fuel(editors, 2);
        if !is_leaf(*a, target) && !is_leaf(*b, target) {
            if let Some((c, x)) = close_at(*a, target) {
                let m = PaneNode::Split { dir, ratio, a: Box::new(x), b };
                assert(editors(m) == editors(x) + editors(*b));
            } else if let Some((c, x)) = close_at(*b, target) {
                let m = PaneNode::Split { dir, ratio, a, b: Box::new(x) };
                assert(editors(m) == editors(*a) + editors(x));
            }
        }
    }
}

proof fn lemma_close_absent(n: PaneNode, target: u64)
    requires
        content_at(n, target) is None,
    ensures
        close_at(n, target) is None,
        !is_leaf(n, target),
    decreases n,
{
    if let PaneNode::Split { dir, ratio, a, b } = n {
        lemma_close_absent(*a, target);
        lemma_close_absent(*b, target);
    }
}

/// Closing the pane that a split made gives back the tree that was split.
pub proof fn close_undoes_split(
    n: PaneNode,
    target: u64,
    dir: SplitDir,
    content: PaneContent,
    new_id: u64,
    before: bool,
)
    requires
        content_at(n, target) is Some,
        content_at(n, new_id) is None,
    ensures
        close_at(split_at(n, target, dir, content, new_id, before), new_id) == Some((content, n)),
    decreases n,
{
    if let PaneNode::Split { dir: d, ratio, a, b } = n {
        lemma_close_absent(*a, new_id);
        lemma_close_absent(*b, new_id);
        if content_at(*a, target) is Some {
            close_undoes_split(*a, target, dir, content, new_id, before);
            assert(split_at(*a, target, dir, content, new_id, before) is Split);
        } else {
            close_undoes_split(*b, target, dir, content, new_id, before);
            assert(split_at(*b, target, dir, content, new_id, before) is Split);
        }
    }
}

/// The layout lists the panes, each once and in their order.
pub proof fn layout_lists_the_panes(n: PaneNode, steps: Seq<Step>)
    ensures
        slots(n, steps).len() == leaves(n).len(),
        forall|i: int|
            0 <= i < leaves(n).len() ==> (#[trigger] slots(n, steps)[i]).id == leaves(n)[i].0 && slots(
                n,
                steps,
            )[i].content == leaves(n)[i].1,
    decreases n,
{
    if let PaneNode::Split { dir, ratio, a, b } = n {
        let sa = steps.push(Step { dir, ratio, second: false });
        let sb = steps.push(Step { dir, ratio, second: true });
        layout_lists_the_panes(*a, sa);
        layout_lists_the_panes(*b, sb);
        assert forall|i: int| 0 <= i < leaves(n).len() implies (#[trigger] slots(n, steps)[i]).id == leaves(
            n,
        )[i].0 && slots(n, steps)[i].content == leaves(n)[i].1 by {
            let k = leaves(*a).len();
            if i < k {
                assert(slots(n, steps)[i] == slots(*a, sa)[i]);
            } else {
                assert(slots(n, steps)[i] == slots(*b, sb)[i - k]);
            }
        }
    }
}

/// Splitting a pane shows the new content in the new pane, and every other pane shows what it showed.
pub proof fn split_keeps_the_contents(
    n: PaneNode,
    target: u64,
    dir: SplitDir,
    content: PaneContent,
    new_id: u64,
    before: bool,
    id: u64,
)
    requires
        content_at(n, new_id) is None,
    ensures
        ({
            let m = split_at(n, target, dir, content, new_id, before);
            content_at(m, id) == if id == new_id && content_at(n, target) is Some {
                Some(content)
            } else {
                content_at(n, id)
            }
        }),
    decreases n,
{
    match n {
        PaneNode::Leaf { id: own, content: c } => {
            let fresh = PaneNode::Leaf { id: new_id, content };
            assert(content_at(fresh, id) == if id == new_id {
                Some(content)
            } else {
                None
            });
        },
        PaneNode::Split { dir: d, ratio, a, b } => {
            split_keeps_the_contents(*a, target, dir, content, new_id, before, id);
            split_keeps_the_contents(*b, target, dir, content, new_id, before, id);
        },
    }
}

/// The two panes that a split makes of one: each has half of its area, the old pane and the new one.
pub open spec fn halves(s: Slot, dir: SplitDir, content: PaneContent, new_id: u64, before: bool) -> Seq<Slot> {
    let first = s.steps.push(Step { dir, ratio: HALF, second: false });
    let second = s.steps.push(Step { dir, ratio: HALF, second: true });
    if before {
        seq![Slot { id: new_id, content, steps: first }, Slot { steps: second, ..s }]
    } else {
        seq![Slot { steps: first, ..s }, Slot { id: new_id, content, steps: second }]
    }
}

/// The slots with the one at `k` split.
pub open spec fn halved_at(
    ss: Seq<Slot>,
    k: int,
    dir: SplitDir,
    content: PaneContent,
    new_id: u64,
    before: bool,
) -> Seq<Slot> {
    ss.take(k) + halves(ss[k], dir, content, new_id, before) + ss.skip(k + 1)
}

/// Splitting a pane that is there halves its area between it and the new pane, and every other pane
/// keeps its way through the tree, and so its area.
pub proof fn split_halves_one_pane(
    n: PaneNode,
    target: u64,
    dir: SplitDir,
    content: PaneContent,
    new_id: u64,
    before: bool,
    steps: Seq<Step>,
)
    requires
        content_at(n, target) is Some,
    ensures
        exists|k: int|
            0 <= k < slots(n, steps).len() && slots(n, steps)[k].id == target && slots(
                split_at(n, target, dir, content, new_id, before),
                steps,
            ) == #[trigger] halved_at(slots(n, steps), k, dir, content, new_id, before),
    decreases n,
{
    let m = split_at(n, target, dir, content, new_id, before);
    let all = slots(n, steps);
    match n {
        PaneNode::Leaf { id, content: own } => {
            let slot = Slot { id, content: own, steps };
            let first = steps.push(Step { dir, ratio: HALF, second: false });
            let second = steps.push(Step { dir, ratio: HALF, second: true });
            let fresh = PaneNode::Leaf { id: new_id, content };
            assert(all == seq![slot]);
            if before {
                assert(slots(m, steps) == slots(fresh, first) + slots(n, second));
            } else {
                assert(slots(m, steps) == slots(n, first) + slots(fresh, second));
            }
            assert(slots(m, steps) =~= halves(slot, dir, content, new_id, before));
            assert(halved_at(all, 0, dir, content, new_id, before) =~= slots(m, steps));
        },
        PaneNode::Split { dir: d, ratio, a, b } => {
            let left = steps.push(Step { dir: d, ratio, second: false });
            let right = steps.push(Step { dir: d, ratio, second: true });
            let (sa, sb) = (slots(*a, left), slots(*b, right));
            if content_at(*a, target) is Some {
                let x = split_at(*a, target, dir, content, new_id, before);
                split_halves_one_pane(*a, target, dir, content, new_id, before, left);
                let k = choose|k: int|
                    0 <= k < sa.len() && sa[k].id == target && slots(x, left) == #[trigger] halved_at(
                        sa,
                        k,
                        dir,
                        content,
                        new_id,
                        before,
                    );
                lemma_halved_in_part(sa, sb, k, dir, content, new_id, before);
                assert(slots(m, steps) == halved_at(all, k, dir, content, new_id, before));
            } else {
                let x = split_at(*b, target, dir, content, new_id, before);
                split_halves_one_pane(*b, target, dir, content, new_id, before, right);
                let k = choose|k: int|
                    0 <= k < sb.len() && sb[k].id == target && slots(x, right) == #[trigger] halved_at(
                        sb,
                        k,
                        dir,
                        content,
                        new_id,
                        before,
                    );
                lemma_halved_in_part(sa, sb, k, dir, content, new_id, before);
                assert(slots(m, steps) == halved_at(all, sa.len() + k, dir, content, new_id, before));
            }
        },
    }
}

/// Splitting a slot of the first or the second part of a list splits it in the list.
proof fn lemma_halved_in_part(
    x: Seq<Slot>,
    y: Seq<Slot>,
    k: int,
    dir: SplitDir,
    content: PaneContent,
    new_id: u64,
    before: bool,
)
    ensures
        0 <= k < x.len() ==> (x + y)[k] == x[k] && halved_at(x, k, dir, content, new_id, before) + y
            == halved_at(x + y, k, dir, content, new_id, before),
        0 <= k < y.len() ==> (x + y)[x.len() + k] == y[k] && x + halved_at(
            y,
            k,
            dir,
            content,
            new_id,
            before,
        ) == halved_at(x + y, x.len() + k, dir, content, new_id, before),
{
    if 0 <= k < x.len() {
        let h = halves(x[k], dir, content, new_id, before);
        assert((x + y).take(k) =~= x.take(k));
        assert((x + y).skip(k + 1) =~= x.skip(k + 1) + y);
        assert(x.take(k) + h + x.skip(k + 1) + y =~= x.take(k) + h + (x.skip(k + 1) + y));
    }
    if 0 <= k < y.len() {
        let h = halves(y[k], dir, content, new_id, before);
        assert((x + y).take(x.len() + k) =~= x + y.take(k));
        assert((x + y).skip(x.len() + k + 1) =~= y.skip(k + 1));
        assert(x + (y.take(k) + h + y.skip(k + 1)) =~= x + y.take(k) + h + y.skip(k + 1));
    }
}

/// There is one divider less than there are panes.
pub proof fn dividers_part_the_panes(n: PaneNode, path: u32, steps: Seq<Step>)
    ensures
        dividers_in(n, path, steps).len() + 1 == slots(n, steps).len(),
        slots(n, steps).len() == leaves(n).len(),
    decreases n,
{
    if let PaneNode::Split { dir, ratio, a, b } = n {
        dividers_part_the_panes(*a, first_path(path), steps.push(Step { dir, ratio, second: false }));
        dividers_part_the_panes(*b, second_path(path), steps.push(Step { dir, ratio, second: true }));
    }
}

// --- the areas of the panes ---

/// The number that bits stand for, where it is positive, normal and less than 2 to the 24th.
pub open spec fn share(bits: u32) -> real {
    let exponent = (bits / 0x80_0000) as int;
    let mantissa = 0x80_0000 + bits % 0x80_0000;
    (mantissa as real) / (pow2((150 - exponent) as nat) as real)
}

/// A part of the content area, whose sides are 1.
pub struct Area {
    pub x: real,
    pub y: real,
    pub w: real,
    pub h: real,
}

/// The content area.
pub open spec fn whole() -> Area {
    Area { x: 0real, y: 0real, w: 1real, h: 1real }
}

/// One side of a split area.
pub open spec fn side_of(r: Area, step: Step) -> Area {
    let q = share(step.ratio);
    match step.dir {
        SplitDir::Horizontal => if step.second {
            Area { x: r.x + r.w * q, w: r.w - r.w * q, ..r }
        } else {
            Area { w: r.w * q, ..r }
        },
        SplitDir::Vertical => if step.second {
            Area { y: r.y + r.h * q, h: r.h - r.h * q, ..r }
        } else {
            Area { h: r.h * q, ..r }
        },
    }
}

/// The area at the end of a way through the tree.
pub open spec fn area_of(steps: Seq<Step>) -> Area
    decreases steps.len(),
{
    if steps.len() == 0 {
        whole()
    } else {
        side_of(area_of(steps.drop_last()), steps.last())
    }
}

/// A point is in an area.
pub open spec fn covers(r: Area, x: real, y: real) -> bool {
    r.x <= x < r.x + r.w && r.y <= y < r.y + r.h
}

/// An area is in another, and neither is empty.
pub open spec fn lies_in(r: Area, outer: Area) -> bool {
    &&& 0real < r.w
    &&& 0real < r.h
    &&& outer.x <= r.x
    &&& outer.y <= r.y
    &&& r.x + r.w <= outer.x + outer.w
    &&& r.y + r.h <= outer.y + outer.h
}

/// The sizes of the areas of some panes together.
pub open spec fn total(ss: Seq<Slot>) -> real
    decreases ss.len(),
{
    if ss.len() == 0 {
        0real
    } else {
        let a = area_of(ss.last().steps);
        total(ss.drop_last()) + a.w * a.h
    }
}

/// The panes share an area: each lies in it, each point of it is in one of them and in no other,
/// and their sizes together are its size.
pub open spec fn shared_by(r: Area, ss: Seq<Slot>) -> bool {
    &&& forall|i: int| 0 <= i < ss.len() ==> lies_in(area_of((#[trigger] ss[i]).steps), r)
    &&& forall|x: real, y: real|
        #![trigger covers(r, x, y)]
        covers(r, x, y) ==> exists|i: int| 0 <= i < ss.len() && covers(area_of((#[trigger] ss[i]).steps), x, y)
    &&& forall|i: int, j: int, x: real, y: real|
        0 <= i < j < ss.len() && covers(area_of((#[trigger] ss[i]).steps), x, y) ==> !#[trigger] covers(
            area_of((#[trigger] ss[j]).steps),
            x,
            y,
        )
    &&& total(ss) == r.w * r.h
}

proof fn lemma_share(bits: u32)
    requires
        MIN_RATIO <= bits <= MAX_RATIO,
    ensures
        0real < share(bits) < 1real,
{
    lemma2_to64();
    let exponent = (bits / 0x80_0000) as int;
    let mantissa = 0x80_0000 + bits % 0x80_0000;
    let (m, p) = (mantissa as real, pow2((150 - exponent) as nat) as real);
    assert(124 <= exponent <= 126);
    assert(0real < m < p);
    assert(0real < m / p < 1real) by (nonlinear_arith)
        requires
            0real < m < p,
    ;
}

/// The two sides of a split area lie in it, share its points, and have its size together.
proof fn lemma_sides(r: Area, dir: SplitDir, ratio: u32, x: real, y: real)
    requires
        0real < r.w,
        0real < r.h,
        MIN_RATIO <= ratio <= MAX_RATIO,
    ensures
        ({
            let a = side_of(r, Step { dir, ratio, second: false });
            let b = side_of(r, Step { dir, ratio, second: true });
            &&& lies_in(a, r)
            &&& lies_in(b, r)
            &&& covers(r, x, y) <==> covers(a, x, y) || covers(b, x, y)
            &&& !(covers(a, x, y) && covers(b, x, y))
            &&& a.w * a.h + b.w * b.h == r.w * r.h
        }),
{
    lemma_share(ratio);
    let q = share(ratio);
    let (w, h) = (r.w, r.h);
    let (v, u) = (w * q, h * q);
    assert(0real < v < w) by (nonlinear_arith)
        requires
            0real < w,
            0real < q < 1real,
            v == w * q,
    ;
    assert(0real < u < h) by (nonlinear_arith)
        requires
            0real < h,
            0real < q < 1real,
            u == h * q,
    ;
    assert(v * h + (w - v) * h == w * h) by (nonlinear_arith);
    assert(w * u + w * (h - u) == w * h) by (nonlinear_arith);
}

proof fn lemma_total_join(a: Seq<Slot>, b: Seq<Slot>)
    ensures
        total(a + b) == total(a) + total(b),
    decreases b.len(),
{
    if b.len() == 0 {
        assert(a + b =~= a);
    } else {
        lemma_total_join(a, b.drop_last());
        assert((a + b).drop_last() =~= a + b.drop_last());
        assert((a + b).last() == b.last());
    }
}

/// Two sides of a split that are shared by panes are shared by all of them.
proof fn lemma_shared_join(r: Area, dir: SplitDir, ratio: u32, a: Seq<Slot>, b: Seq<Slot>)
    requires
        0real < r.w,
        0real < r.h,
        MIN_RATIO <= ratio <= MAX_RATIO,
        shared_by(side_of(r, Step { dir, ratio, second: false }), a),
        shared_by(side_of(r, Step { dir, ratio, second: true }), b),
    ensures
        shared_by(r, a + b),
{
    let first = side_of(r, Step { dir, ratio, second: false });
    let second = side_of(r, Step { dir, ratio, second: true });
    let all = a + b;
    lemma_sides(r, dir, ratio, 0real, 0real);
    lemma_total_join(a, b);
    assert forall|i: int| 0 <= i < all.len() implies lies_in(area_of((#[trigger] all[i]).steps), r) by {
        if i < a.len() {
            assert(lies_in(area_of(a[i].steps), first));
        } else {
            assert(lies_in(area_of(b[i - a.len()].steps), second));
        }
    }
    assert forall|x: real, y: real|
        #![trigger covers(r, x, y)]
        covers(r, x, y) implies exists|i: int|
        0 <= i < all.len() && covers(area_of((#[trigger] all[i]).steps), x, y) by {
        lemma_sides(r, dir, ratio, x, y);
        if covers(first, x, y) {
            let i = choose|i: int| 0 <= i < a.len() && covers(area_of((#[trigger] a[i]).steps), x, y);
            assert(all[i] == a[i]);
        } else {
            let i = choose|i: int| 0 <= i < b.len() && covers(area_of((#[trigger] b[i]).steps), x, y);
            assert(all[a.len() + i] == b[i]);
        }
    }
    assert forall|i: int, j: int, x: real, y: real|
        0 <= i < j < all.len() && covers(area_of((#[trigger] all[i]).steps), x, y) implies !#[trigger] covers(
        area_of((#[trigger] all[j]).steps),
        x,
        y,
    ) by {
        lemma_sides(r, dir, ratio, x, y);
        let n = a.len() as int;
        if j < n {
            assert(all[i] == a[i] && all[j] == a[j]);
            assert(covers(area_of(a[i].steps), x, y));
            assert(!covers(area_of(a[j].steps), x, y));
        } else if i >= n {
            assert(all[i] == b[i - n] && all[j] == b[j - n]);
            assert(covers(area_of(b[i - n].steps), x, y));
            assert(!covers(area_of(b[j - n].steps), x, y));
        } else {
            assert(all[i] == a[i] && all[j] == b[j - n]);
            assert(lies_in(area_of(a[i].steps), first));
            assert(lies_in(area_of(b[j - n].steps), second));
        }
    }
}

proof fn lemma_panes_share(n: PaneNode, steps: Seq<Step>)
    requires
        ratios_fair(n),
        0real < area_of(steps).w,
        0real < area_of(steps).h,
    ensures
        shared_by(area_of(steps), slots(n, steps)),
    decreases n,
{
    let r = area_of(steps);
    match n {
        PaneNode::Leaf { id, content } => {
            let ss = slots(n, steps);
            assert(ss == seq![Slot { id, content, steps }]);
            assert(ss.drop_last() =~= Seq::<Slot>::empty());
            assert(total(ss.drop_last()) == 0real);
            assert(ss[0].steps == steps);
        },
        PaneNode::Split { dir, ratio, a, b } => {
            let left = steps.push(Step { dir, ratio, second: false });
            let right = steps.push(Step { dir, ratio, second: true });
            assert(left.drop_last() =~= steps);
            assert(right.drop_last() =~= steps);
            assert(area_of(left) == side_of(r, left.last()));
            assert(area_of(right) == side_of(r, right.last()));
            lemma_sides(r, dir, ratio, 0real, 0real);
            lemma_panes_share(*a, left);
            lemma_panes_share(*b, right);
            lemma_shared_join(r, dir, ratio, slots(*a, left), slots(*b, right));
        },
    }
}

/// The panes share the content area without overlap: each lies in it, each of its points is in one
/// pane and in no other, and their sizes together are its size.
pub proof fn panes_share_the_area(n: PaneNode)
    requires
        ratios_fair(n),
    ensures
        shared_by(whole(), slots(n, Seq::empty())),
{
    lemma_panes_share(n, Seq::empty());
}

/// The two panes that a split makes of one halve its area: side by side they have half of its width
/// each, one above the other half of its height.
pub proof fn splits_halve_the_area(s: Slot, dir: SplitDir, content: PaneContent, new_id: u64, before: bool)
    ensures
        ({
            let r = area_of(s.steps);
            let hs = halves(s, dir, content, new_id, before);
            let (a, b) = (area_of(hs[0].steps), area_of(hs[1].steps));
            match dir {
                SplitDir::Horizontal => {
                    &&& a == (Area { w: r.w / 2real, ..r })
                    &&& b == (Area { x: r.x + r.w / 2real, w: r.w / 2real, ..r })
                },
                SplitDir::Vertical => {
                    &&& a == (Area { h: r.h / 2real, ..r })
                    &&& b == (Area { y: r.y + r.h / 2real, h: r.h / 2real, ..r })
                },
            }
        }),
{
    lemma2_to64();
    let first = s.steps.push(Step { dir, ratio: HALF, second: false });
    let second = s.steps.push(Step { dir, ratio: HALF, second: true });
    assert(first.drop_last() =~= s.steps);
    assert(second.drop_last() =~= s.steps);
    assert(HALF / 0x80_0000 == 126 && HALF % 0x80_0000 == 0);
    let (m, p) = (0x80_0000int as real, 0x100_0000int as real);
    assert(share(HALF) == m / p);
    assert(m / p == 1real / 2real) by (nonlinear_arith)
        requires
            p == 2real * m,
            m == 8388608real,
    ;
    let r = area_of(s.steps);
    let q = share(HALF);
    assert(r.w * q == r.w / 2real) by (nonlinear_arith)
        requires
            q == 1real / 2real,
    ;
    assert(r.h * q == r.h / 2real) by (nonlinear_arith)
        requires
            q == 1real / 2real,
    ;
}

// --- what dragging a divider moves ---

/// The place of the first divider of a list with a path; the length of the list where there is none.
pub open spec fn place_of(ds: Seq<Divider>, path: u32) -> int
    decreases ds.len(),
{
    if ds.len() == 0 || ds[0].path == path {
        0
    } else {
        1 + place_of(ds.skip(1), path)
    }
}

proof fn lemma_place(ds: Seq<Divider>, path: u32)
    ensures
        0 <= place_of(ds, path) <= ds.len(),
        place_of(ds, path) < ds.len() ==> ds[place_of(ds, path)].path == path,
        forall|i: int| 0 <= i < place_of(ds, path) ==> (#[trigger] ds[i]).path != path,
    decreases ds.len(),
{
    if ds.len() > 0 && ds[0].path != path {
        let t = ds.skip(1);
        lemma_place(t, path);
        assert forall|i: int| 0 <= i < place_of(ds, path) implies (#[trigger] ds[i]).path != path by {
            if i > 0 {
                assert(t[i - 1] == ds[i]);
            }
        }
    }
}

proof fn lemma_place_is(ds: Seq<Divider>, path: u32, k: int)
    requires
        0 <= k <= ds.len(),
        k < ds.len() ==> ds[k].path == path,
        forall|i: int| 0 <= i < k ==> (#[trigger] ds[i]).path != path,
    ensures
        place_of(ds, path) == k,
{
    lemma_place(ds, path);
    let f = place_of(ds, path);
    if f < k {
        assert(ds[f].path != path);
    } else if k < f {
        assert(ds[k].path != path);
    }
}

/// Two lists of dividers are the same but for the ratio of the one at `k` and the ways.
spec fn same_but_one(a: Seq<Divider>, b: Seq<Divider>, k: int, ratio: u32) -> bool {
    &&& a.len() == b.len()
    &&& forall|i: int|
        0 <= i < a.len() ==> {
            &&& (#[trigger] b[i]).path == a[i].path
            &&& b[i].dir == a[i].dir
            &&& b[i].ratio == if i == k {
                ratio
            } else {
                a[i].ratio
            }
        }
}

/// Ways do not change which dividers there are.
proof fn lemma_ways(n: PaneNode, path: u32, x: Seq<Step>, y: Seq<Step>)
    ensures
        same_but_one(dividers_in(n, path, x), dividers_in(n, path, y), -1, 0),
    decreases n,
{
    if let PaneNode::Split { dir, ratio, a, b } = n {
        let (l, r) = (Step { dir, ratio, second: false }, Step { dir, ratio, second: true });
        lemma_ways(*a, first_path(path), x.push(l), y.push(l));
        lemma_ways(*b, second_path(path), x.push(r), y.push(r));
        let (da, ea) = (dividers_in(*a, first_path(path), x.push(l)), dividers_in(*a, first_path(path), y.push(l)));
        let (db, eb) = (
            dividers_in(*b, second_path(path), x.push(r)),
            dividers_in(*b, second_path(path), y.push(r)),
        );
        let (d, e) = (dividers_in(n, path, x), dividers_in(n, path, y));
        assert forall|i: int| 0 <= i < d.len() implies (#[trigger] e[i]).path == d[i].path && e[i].dir
            == d[i].dir && e[i].ratio == d[i].ratio by {
            if i == 0 {
            } else if i <= da.len() {
                assert(d[i] == da[i - 1] && e[i] == ea[i - 1]);
            } else {
                assert(d[i] == db[i - 1 - da.len()] && e[i] == eb[i - 1 - da.len()]);
            }
        }
    }
}

proof fn lemma_listed(n: PaneNode, path: u32, steps: Seq<Step>, target: u32)
    ensures
        has_split(n, path, target) <==> place_of(dividers_in(n, path, steps), target) < dividers_in(
            n,
            path,
            steps,
        ).len(),
    decreases n,
{
    let all = dividers_in(n, path, steps);
    lemma_place(all, target);
    if let PaneNode::Split { dir, ratio, a, b } = n {
        let (l, r) = (Step { dir, ratio, second: false }, Step { dir, ratio, second: true });
        let da = dividers_in(*a, first_path(path), steps.push(l));
        let db = dividers_in(*b, second_path(path), steps.push(r));
        lemma_listed(*a, first_path(path), steps.push(l), target);
        lemma_listed(*b, second_path(path), steps.push(r), target);
        lemma_place(da, target);
        lemma_place(db, target);
        let k = place_of(all, target);
        assert(all[0].path == path);
        if path != target {
            let (ka, kb) = (place_of(da, target), place_of(db, target));
            if ka < da.len() {
                assert(all[1 + ka] == da[ka]);
                assert(k <= 1 + ka);
            } else if kb < db.len() {
                assert(all[1 + da.len() + kb] == db[kb]);
                assert(k <= 1 + da.len() + kb);
            } else if k < all.len() {
                if k <= da.len() {
                    assert(all[k] == da[k - 1]);
                } else {
                    assert(all[k] == db[k - 1 - da.len()]);
                }
            }
        }
    }
}

proof fn lemma_dragged(n: PaneNode, path: u32, x: Seq<Step>, y: Seq<Step>, target: u32, bits: u32)
    ensures
        ({
            let before = dividers_in(n, path, x);
            let after = dividers_in(ratio_set(n, path, target, bits), path, y);
            same_but_one(before, after, place_of(before, target), clamped(bits, MIN_RATIO, MAX_RATIO))
        }),
    decreases n,
{
    let before = dividers_in(n, path, x);
    let m = ratio_set(n, path, target, bits);
    let after = dividers_in(m, path, y);
    let fresh = clamped(bits, MIN_RATIO, MAX_RATIO);
    if let PaneNode::Split { dir, ratio, a, b } = n {
        let (l, r) = (Step { dir, ratio, second: false }, Step { dir, ratio, second: true });
        let (pa, pb) = (first_path(path), second_path(path));
        let da = dividers_in(*a, pa, x.push(l));
        let db = dividers_in(*b, pb, x.push(r));
        lemma_listed(n, path, x, target);
        lemma_listed(*a, pa, x.push(l), target);
        lemma_listed(*b, pb, x.push(r), target);
        lemma_place(before, target);
        lemma_place(da, target);
        lemma_place(db, target);
        let (ka, kb) = (place_of(da, target), place_of(db, target));
        let q = m->ratio;
        let (l2, r2) = (Step { dir, ratio: q, second: false }, Step { dir, ratio: q, second: true });
        let (na, nb) = (*m->a, *m->b);
        let ea = dividers_in(na, pa, y.push(l2));
        let eb = dividers_in(nb, pb, y.push(r2));
        assert(after == seq![Divider { path, dir, ratio: q, steps: y }] + ea + eb);
        assert(before == seq![Divider { path, dir, ratio, steps: x }] + da + db);
        if path == target {
            lemma_ways(*a, pa, x.push(l), y.push(l2));
            lemma_ways(*b, pb, x.push(r), y.push(r2));
            lemma_place_is(before, target, 0);
        } else if has_split(*a, pa, target) {
            lemma_dragged(*a, pa, x.push(l), y.push(l2), target, bits);
            lemma_ways(*b, pb, x.push(r), y.push(r2));
            assert(before[1 + ka] == da[ka]);
            assert forall|i: int| 0 <= i < 1 + ka implies (#[trigger] before[i]).path != target by {
                if i > 0 {
                    assert(before[i] == da[i - 1]);
                }
            }
            lemma_place_is(before, target, 1 + ka);
        } else {
            lemma_ways(*a, pa, x.push(l), y.push(l2));
            lemma_dragged(*b, pb, x.push(r), y.push(r2), target, bits);
            assert forall|i: int| 0 <= i < 1 + da.len() + kb implies (#[trigger] before[i]).path != target by {
                if 0 < i <= da.len() {
                    assert(before[i] == da[i - 1]);
                } else if i > da.len() {
                    assert(before[i] == db[i - 1 - da.len()]);
                }
            }
            if kb < db.len() {
                assert(before[1 + da.len() + kb] == db[kb]);
            }
            lemma_place_is(before, target, 1 + da.len() + kb);
        }
        assert forall|i: int| 0 <= i < before.len() implies (#[trigger] after[i]).path == before[i].path
            && after[i].dir == before[i].dir && after[i].ratio == (if i == place_of(before, target) {
            fresh
        } else {
            before[i].ratio
        }) by {
            if i == 0 {
            } else if i <= da.len() {
                assert(before[i] == da[i - 1] && after[i] == ea[i - 1]);
            } else {
                assert(before[i] == db[i - 1 - da.len()] && after[i] == eb[i - 1 - da.len()]);
            }
        }
    }
}

/// Dragging moves the divider that is listed at the path, to the share asked for as far as both sides
/// keep their least share, and no other: every divider that is listed stays listed, with its path and
/// direction, and all but that one keep their ratios. The panes stay, too.
pub proof fn drag_moves_one_divider(n: PaneNode, target: u32, bits: u32)
    ensures
        ({
            let before = dividers_in(n, 1, Seq::empty());
            let after = dividers_in(ratio_set(n, 1, target, bits), 1, Seq::empty());
            let k = place_of(before, target);
            &&& after.len() == before.len()
            &&& forall|i: int|
                0 <= i < before.len() ==> (#[trigger] after[i]).path == before[i].path && after[i].dir
                    == before[i].dir
            &&& forall|i: int| 0 <= i < before.len() && i != k ==> (#[trigger] after[i]).ratio == before[i].ratio
            &&& k < before.len() ==> {
                let q = after[k].ratio;
                &&& after[k].path == target
                &&& MIN_RATIO <= q <= MAX_RATIO
                &&& MIN_RATIO <= bits <= MAX_RATIO ==> q == bits
                &&& MAX_RATIO < bits <= 0x7f80_0000 ==> q == MAX_RATIO
                &&& bits < MIN_RATIO || bits >= 0x8000_0000 ==> q == MIN_RATIO
            }
            &&& (exists|i: int| 0 <= i < before.len() && (#[trigger] before[i]).path == target) <==> k < before.len()
            &&& leaves(ratio_set(n, 1, target, bits)) == leaves(n)
        }),
{
    let before = dividers_in(n, 1, Seq::empty());
    lemma_dragged(n, 1, Seq::empty(), Seq::empty(), target, bits);
    lemma_place(before, target);
    lemma_ratio(n, 1, target, bits);
    let k = place_of(before, target);
    if k < before.len() {
        assert(before[k].path == target);
    }
}

/// How many splits are on the longest way through a tree.
pub open spec fn splits_deep(n: PaneNode) -> nat
    decreases n,
{
    match n {
        PaneNode::Leaf { .. } => 0,
        PaneNode::Split { dir, ratio, a, b } => 1 + if splits_deep(*a) > splits_deep(*b) {
            splits_deep(*a)
        } else {
            splits_deep(*b)
        },
    }
}

proof fn lemma_paths(path: u32)
    requires
        path < 0x8000_0000,
    ensures
        first_path(path) == 2 * path,
        second_path(path) == 2 * path + 1,
{
    assert(path << 1u32 == 2 * path) by (bit_vector)
        requires
            path < 0x8000_0000,
    ;
    assert((path << 1u32) | 1u32 == (path << 1u32) + 1) by (bit_vector);
}

/// `path` is short enough for `deep` more splits.
spec fn roomy(path: nat, deep: nat) -> bool
    decreases deep,
{
    if deep == 0 {
        path <= 0xffff_ffff
    } else {
        roomy(2 * path + 1, (deep - 1) as nat)
    }
}

proof fn lemma_roomy(path: nat, deep: nat)
    requires
        roomy(path, deep),
    ensures
        path <= 0xffff_ffff,
        deep > 0 ==> path < 0x8000_0000,
        forall|d: nat| d <= deep ==> #[trigger] roomy(path, d),
        deep > 0 ==> forall|d: nat| d < deep ==> #[trigger] roomy(2 * path, d) && roomy(2 * path + 1, d),
    decreases deep,
{
    if deep > 0 {
        lemma_roomy(2 * path + 1, (deep - 1) as nat);
        assert forall|d: nat| d <= deep implies #[trigger] roomy(path, d) by {
            if d > 0 {
                assert(roomy(2 * path + 1, (d - 1) as nat));
            }
        }
        assert forall|d: nat| d < deep implies #[trigger] roomy(2 * path, d) && roomy(2 * path + 1, d) by {
            assert(roomy(2 * path + 1, d));
            lemma_roomy_less(2 * path + 1, 2 * path, d);
        }
    }
}

proof fn lemma_roomy_less(a: nat, b: nat, deep: nat)
    requires
        roomy(a, deep),
        b <= a,
    ensures
        roomy(b, deep),
    decreases deep,
{
    if deep > 0 {
        lemma_roomy_less(2 * a + 1, 2 * b + 1, (deep - 1) as nat);
    }
}

proof fn lemma_dividers_at(root: PaneNode, n: PaneNode, path: u32, steps: Seq<Step>)
    requires
        path >= 1,
        node_at(root, path as nat) == Some(n),
        roomy(path as nat, splits_deep(n)),
    ensures
        forall|i: int|
            0 <= i < dividers_in(n, path, steps).len() ==> {
                let d = #[trigger] dividers_in(n, path, steps)[i];
                node_at(root, d.path as nat) matches Some(PaneNode::Split { dir, ratio, a, b }) && dir == d.dir
                    && ratio == d.ratio
            },
    decreases n,
{
    if let PaneNode::Split { dir, ratio, a, b } = n {
        let (l, r) = (Step { dir, ratio, second: false }, Step { dir, ratio, second: true });
        let p = path as nat;
        lemma_roomy(p, splits_deep(n));
        lemma_paths(path);
        let (pa, pb) = (first_path(path), second_path(path));
        assert((2 * p) / 2 == p && (2 * p) % 2 == 0);
        assert((2 * p + 1) / 2 == p && (2 * p + 1) % 2 == 1);
        assert(node_at(root, 2 * p) == Some(*a));
        assert(node_at(root, 2 * p + 1) == Some(*b));
        assert(roomy(2 * p, splits_deep(*a)));
        assert(roomy(2 * p, splits_deep(*b)));
        assert(roomy(2 * p + 1, splits_deep(*b)));
        lemma_dividers_at(root, *a, pa, steps.push(l));
        lemma_dividers_at(root, *b, pb, steps.push(r));
        let da = dividers_in(*a, pa, steps.push(l));
        let db = dividers_in(*b, pb, steps.push(r));
        let all = dividers_in(n, path, steps);
        assert forall|i: int| 0 <= i < all.len() implies ({
            let d = #[trigger] all[i];
            node_at(root, d.path as nat) matches Some(PaneNode::Split { dir, ratio, a, b }) && dir == d.dir
                && ratio == d.ratio
        }) by {
            if i == 0 {
            } else if i <= da.len() {
                assert(all[i] == da[i - 1]);
            } else {
                assert(all[i] == db[i - 1 - da.len()]);
            }
        }
    }
}

/// A divider is listed with the path of its split: that path leads to a split of its direction and
/// ratio, in a tree whose paths fit.
pub proof fn dividers_are_at_their_paths(n: PaneNode, i: int)
    requires
        splits_deep(n) <= 31,
        0 <= i < dividers_in(n, 1, Seq::empty()).len(),
    ensures
        ({
            let d = dividers_in(n, 1, Seq::empty())[i];
            node_at(n, d.path as nat) matches Some(PaneNode::Split { dir, ratio, a, b }) && dir == d.dir && ratio
                == d.ratio
        }),
{
    lemma_roomy_at(31);
    lemma_roomy(1, 31);
    assert(roomy(1, splits_deep(n)));
    lemma_dividers_at(n, n, 1, Seq::empty());
}

proof fn lemma_roomy_at(deep: nat)
    requires
        deep == 31,
    ensures
        roomy(1, deep),
{
    reveal_with_fuel(roomy, 32);
}

proof fn lemma_drag_depth(n: PaneNode, path: u32, target: u32, bits: u32)
    ensures
        splits_deep(ratio_set(n, path, target, bits)) == splits_deep(n),
    decreases n,
{
    if let PaneNode::Split { dir, ratio, a, b } = n {
        lemma_drag_depth(*a, first_path(path), target, bits);
        lemma_drag_depth(*b, second_path(path), target, bits);
    }
}

/// After a drag the path of a listed divider leads to a split with the share asked for, as far as both
/// sides keep their least share.
pub proof fn drag_sets_the_split_at_the_path(n: PaneNode, i: int, bits: u32)
    requires
        splits_deep(n) <= 31,
        0 <= i < dividers_in(n, 1, Seq::empty()).len(),
    ensures
        ({
            let target = dividers_in(n, 1, Seq::empty())[i].path;
            let after = ratio_set(n, 1, target, bits);
            node_at(after, target as nat) matches Some(PaneNode::Split { dir, ratio, a, b }) && MIN_RATIO <= ratio
                <= MAX_RATIO && (MIN_RATIO <= bits <= MAX_RATIO ==> ratio == bits)
        }),
{
    let before = dividers_in(n, 1, Seq::empty());
    let target = before[i].path;
    drag_moves_one_divider(n, target, bits);
    lemma_place(before, target);
    assert(before[i].path == target);
    lemma_drag_depth(n, 1, target, bits);
    dividers_are_at_their_paths(ratio_set(n, 1, target, bits), place_of(before, target));
}

proof fn lemma_edge_at(root: PaneNode, n: PaneNode, path: u32, steps: Seq<Step>, first: bool)
    requires
        path >= 1,
        node_at(root, path as nat) == Some(n),
        roomy(path as nat, splits_deep(n)),
    ensures
        forall|i: int|
            0 <= i < dividers_in(n, path, steps).len() ==> {
                let d = #[trigger] dividers_in(n, path, steps)[i];
                edge_child(root, d.path as nat, first) matches Some(id) ==> exists|j: int|
                    {
                        &&& 0 <= j < slots(n, steps).len()
                        &&& (#[trigger] slots(n, steps)[j]).id == id
                        &&& slots(n, steps)[j].steps == d.steps.push(
                            Step { dir: d.dir, ratio: d.ratio, second: !first },
                        )
                    }
            },
    decreases n,
{
    if let PaneNode::Split { dir, ratio, a, b } = n {
        let (l, r) = (Step { dir, ratio, second: false }, Step { dir, ratio, second: true });
        let p = path as nat;
        lemma_roomy(p, splits_deep(n));
        lemma_paths(path);
        let (pa, pb) = (first_path(path), second_path(path));
        assert((2 * p) / 2 == p && (2 * p) % 2 == 0);
        assert((2 * p + 1) / 2 == p && (2 * p + 1) % 2 == 1);
        assert(node_at(root, 2 * p) == Some(*a));
        assert(node_at(root, 2 * p + 1) == Some(*b));
        assert(roomy(2 * p, splits_deep(*a)));
        assert(roomy(2 * p, splits_deep(*b)));
        assert(roomy(2 * p + 1, splits_deep(*b)));
        lemma_edge_at(root, *a, pa, steps.push(l), first);
        lemma_edge_at(root, *b, pb, steps.push(r), first);
        let (da, db) = (dividers_in(*a, pa, steps.push(l)), dividers_in(*b, pb, steps.push(r)));
        let (sa, sb) = (slots(*a, steps.push(l)), slots(*b, steps.push(r)));
        let (all, ss) = (dividers_in(n, path, steps), slots(n, steps));
        assert(ss == sa + sb);
        assert forall|i: int| 0 <= i < all.len() implies ({
            let d = #[trigger] all[i];
            edge_child(root, d.path as nat, first) matches Some(id) ==> exists|j: int|
                {
                    &&& 0 <= j < ss.len()
                    &&& (#[trigger] ss[j]).id == id
                    &&& ss[j].steps == d.steps.push(Step { dir: d.dir, ratio: d.ratio, second: !first })
                }
        }) by {
            let d = all[i];
            if let Some(id) = edge_child(root, d.path as nat, first) {
                if i == 0 {
                    if first {
                        assert(ss[0] == sa[0]);
                        assert(ss[0].id == id);
                    } else {
                        assert(ss[sa.len() as int] == sb[0]);
                        assert(ss[sa.len() as int].id == id);
                    }
                } else if i <= da.len() {
                    assert(d == da[i - 1]);
                    let j = choose|j: int|
                        {
                            &&& 0 <= j < sa.len()
                            &&& (#[trigger] sa[j]).id == id
                            &&& sa[j].steps == d.steps.push(Step { dir: d.dir, ratio: d.ratio, second: !first })
                        };
                    assert(ss[j] == sa[j]);
                } else {
                    assert(d == db[i - 1 - da.len()]);
                    let j = choose|j: int|
                        {
                            &&& 0 <= j < sb.len()
                            &&& (#[trigger] sb[j]).id == id
                            &&& sb[j].steps == d.steps.push(Step { dir: d.dir, ratio: d.ratio, second: !first })
                        };
                    assert(ss[sa.len() + j] == sb[j]);
                }
            }
        }
    }
}

/// The pane at the edge of a divider lies on that side of it: its way is that of the divider and then
/// the side.
pub proof fn edge_panes_lie_at_their_divider(n: PaneNode, i: int, first: bool)
    requires
        splits_deep(n) <= 31,
        0 <= i < dividers_in(n, 1, Seq::empty()).len(),
    ensures
        ({
            let d = dividers_in(n, 1, Seq::empty())[i];
            edge_child(n, d.path as nat, first) matches Some(id) ==> exists|j: int|
                {
                    &&& 0 <= j < slots(n, Seq::empty()).len()
                    &&& (#[trigger] slots(n, Seq::empty())[j]).id == id
                    &&& slots(n, Seq::empty())[j].steps == d.steps.push(
                        Step { dir: d.dir, ratio: d.ratio, second: !first },
                    )
                }
        }),
{
    lemma_roomy_at(31);
    lemma_roomy(1, 31);
    assert(roomy(1, splits_deep(n)));
    lemma_edge_at(n, n, 1, Seq::empty(), first);
}

/// Showing something else in a pane that is there shows it there and nowhere else: every other pane
/// shows what it showed, and none comes or goes.
pub proof fn setting_changes_one_pane(n: PaneNode, target: u64, content: PaneContent, id: u64)
    requires
        content_at(n, target) is Some,
    ensures
        content_at(content_set(n, target, content), id) == if id == target {
            Some(content)
        } else {
            content_at(n, id)
        },
        ids(content_set(n, target, content)) == ids(n),
    decreases n,
{
    lemma_set(n, target, content);
    lemma_set_contents(n, target, content, id);
}

proof fn lemma_set_contents(n: PaneNode, target: u64, content: PaneContent, id: u64)
    ensures
        content_at(content_set(n, target, content), id) == if id == target && content_at(n, target) is Some {
            Some(content)
        } else {
            content_at(n, id)
        },
    decreases n,
{
    if let PaneNode::Split { dir, ratio, a, b } = n {
        lemma_set_contents(*a, target, content, id);
        lemma_set_contents(*b, target, content, id);
    }
}

/// Where a document goes, each pane that showed another one shows the same document still, at its new
/// place among those that are left.
pub proof fn remapped_panes_show_the_same_document<A>(docs: Seq<A>, closed: usize, i: usize)
    requires
        closed < docs.len(),
        i < docs.len(),
        i != closed,
    ensures
        shifted(PaneContent::Doc(i), closed) matches PaneContent::Doc(j) && j < docs.len() - 1 && docs.remove(
            closed as int,
        )[j as int] == docs[i as int],
{
}

/// Where a document goes, every pane stays with its id and shows what it showed, moved up; the panes
/// that are reported are those that showed the document, and no others.
pub proof fn remapping_keeps_the_panes(n: PaneNode, closed: usize, id: u64)
    ensures
        leaves(docs_shifted(n, closed)).len() == leaves(n).len(),
        forall|i: int|
            0 <= i < leaves(n).len() ==> (#[trigger] leaves(docs_shifted(n, closed))[i]) == (
                leaves(n)[i].0,
                shifted(leaves(n)[i].1, closed),
            ),
        showing(n, closed).contains(id) <==> leaves(n).contains((id, PaneContent::Doc(closed))),
        shifted(PaneContent::Editor, closed) == PaneContent::Editor,
        forall|t: u64| #[trigger] shifted(PaneContent::Terminal(t), closed) == PaneContent::Terminal(t),
    decreases n,
{
    match n {
        PaneNode::Leaf { id: own, content } => {
            let ls = leaves(n);
            assert(ls == seq![(own, content)]);
            assert(ls[0] == (own, content));
            assert(leaves(docs_shifted(n, closed)) == seq![(own, shifted(content, closed))]);
            if content == PaneContent::Doc(closed) {
                assert(showing(n, closed)[0] == own);
            }
        },
        PaneNode::Split { dir, ratio, a, b } => {
            remapping_keeps_the_panes(*a, closed, id);
            remapping_keeps_the_panes(*b, closed, id);
            lemma_contains_concat(showing(*a, closed), showing(*b, closed), id);
            let (la, lb, x) = (leaves(*a), leaves(*b), (id, PaneContent::Doc(closed)));
            let all = leaves(n);
            assert(all == la + lb);
            if la.contains(x) {
                let i = choose|i: int| 0 <= i < la.len() && la[i] == x;
                assert(all[i] == x);
            }
            if lb.contains(x) {
                let i = choose|i: int| 0 <= i < lb.len() && lb[i] == x;
                assert(all[la.len() + i] == x);
            }
            if all.contains(x) {
                let i = choose|i: int| 0 <= i < all.len() && all[i] == x;
                if i < la.len() {
                    assert(la[i] == x);
                } else {
                    assert(lb[i - la.len()] == x);
                }
            }
        },
    }
}

/// The pane that is given for the editor shows it, and where none is given, no pane does.
pub proof fn the_editor_is_found(n: PaneNode)
    ensures
        editor_at(n) matches Some(id) ==> leaves(n).contains((id, PaneContent::Editor)),
        editor_at(n) is None ==> forall|i: int|
            0 <= i < leaves(n).len() ==> (#[trigger] leaves(n)[i]).1 != PaneContent::Editor,
    decreases n,
{
    match n {
        PaneNode::Leaf { id, content } => {
            assert(leaves(n)[0] == (id, content));
        },
        PaneNode::Split { dir, ratio, a, b } => {
            the_editor_is_found(*a);
            the_editor_is_found(*b);
            let (la, lb, all) = (leaves(*a), leaves(*b), leaves(n));
            if let Some(id) = editor_at(*a) {
                let i = choose|i: int| 0 <= i < la.len() && la[i] == (id, PaneContent::Editor);
                assert(all[i] == la[i]);
            } else if let Some(id) = editor_at(*b) {
                let i = choose|i: int| 0 <= i < lb.len() && lb[i] == (id, PaneContent::Editor);
                assert(all[la.len() + i] == lb[i]);
            }
        },
    }
}

/// A pane that is still there keeps the focus, and there is always a pane in focus.
pub proof fn focus_stays(n: PaneNode, focused: u64)
    ensures
        ids(n).contains(focused) ==> refocused(n, focused) == focused,
        ids(n).contains(refocused(n, focused)),
{
    lemma_found(n, focused);
    lemma_first_found(n);
    lemma_found(n, leaves(n)[0].0);
}

} // verus!
