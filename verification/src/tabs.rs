//! The open documents, one of them active, and the labels of their tabs.

use vstd::prelude::*;
use std::collections::HashMap;
use crate::buffer::TextBuffer;
use crate::caret::Caret;
use crate::daemon::{components, is_name, joined_paths_have_the_parts_of_both, parts, parts_in, parts_to, rooted, Component, Part};
use crate::git::LineChange;
use crate::history::{History, Story};
use crate::lists::{wrapped_down, wrapped_up, wrapping_goes_round};
use crate::paths::joined;
use crate::text::{chars_of, lemma_first_at_is, pieces, push_chars, push_text, same, split_char, text_of, texts, views};

verus! {

/// A document: its text, the caret in it, what the text was, the lines that changed, and the remote
/// file that it is, if it is one.
pub struct Document {
    pub buffer: TextBuffer,
    pub caret: Caret,
    pub history: History,
    pub git: HashMap<usize, LineChange>,
    pub remote_file: Option<String>,
}

/// Where a document is saved.
#[derive(Debug, PartialEq)]
pub enum SaveTo {
    /// A file of the connected workspace.
    Remote(String),
    /// A file on this machine.
    Local(String),
    Nowhere,
}

/// The open documents, at least one, and the active one.
pub struct Tabs {
    pub docs: Vec<Document>,
    pub active: usize,
}

/// The last name of a path.
pub open spec fn last_name(path: Seq<char>) -> Option<Seq<char>> {
    let ps = parts_in(path);
    if ps.len() == 0 {
        None
    } else {
        match ps.last() {
            Part::Name(s) => Some(s),
            _ => None,
        }
    }
}

/// The last name of a path.
pub fn file_name(path: &str) -> (r: Option<String>)
    ensures
        text_of(r) == last_name(path@),
{
    let cs = components(path);
    if cs.len() == 0 {
        return None;
    }
    assert(parts(cs@).last() == cs@[cs@.len() - 1]@);
    match &cs[cs.len() - 1] {
        Component::Name(s) => Some(s.clone()),
        _ => None,
    }
}

fn same_component(a: &Component, b: &Component) -> (r: bool)
    ensures
        r == (a@ == b@),
{
    match (a, b) {
        (Component::Root, Component::Root) => true,
        (Component::Cur, Component::Cur) => true,
        (Component::Parent, Component::Parent) => true,
        (Component::Name(x), Component::Name(y)) => same(x, y),
        _ => false,
    }
}

/// Whether two paths have the same parts.
pub fn same_path(a: &str, b: &str) -> (r: bool)
    ensures
        r == (parts_in(a@) == parts_in(b@)),
{
    let x = components(a);
    let y = components(b);
    if x.len() != y.len() {
        assert(parts(x@).len() != parts(y@).len());
        return false;
    }
    for i in 0..x.len()
        invariant
            x@.len() == y@.len(),
            parts(x@) == parts_in(a@),
            parts(y@) == parts_in(b@),
            forall|k: int| 0 <= k < i ==> #[trigger] parts(x@)[k] == parts(y@)[k],
    {
        if !same_component(&x[i], &y[i]) {
            assert(parts(x@)[i as int] != parts(y@)[i as int]);
            return false;
        }
    }
    assert(parts(x@) =~= parts(y@));
    true
}

/// Where a path is among some, first.
pub open spec fn is_place_of(docs: Seq<Document>, path: Seq<char>, r: Option<usize>) -> bool {
    match r {
        Some(i) => i < docs.len() && docs[i as int].is_at(path) && forall|k: int|
            0 <= k < i ==> !(#[trigger] docs[k]).is_at(path),
        None => forall|k: int| 0 <= k < docs.len() ==> !(#[trigger] docs[k]).is_at(path),
    }
}

impl Document {
    /// A document with the caret at its start.
    pub fn open(buffer: TextBuffer) -> (r: Self)
        ensures
            r.buffer == buffer,
            r.caret == (Caret { cursor: 0, goal_col: 0, anchor: None, first_line: 0 }),
            r.history@ == (Story { undo: Seq::empty(), redo: Seq::empty(), dirty: false, typing: false }),
            r.git@ == Map::<usize, LineChange>::empty(),
            r.remote_file is None,
    {
        Document {
            buffer,
            caret: Caret::start(),
            history: History::new(),
            git: HashMap::new(),
            remote_file: None,
        }
    }

    /// Where the document is saved: to the remote file over the connection, to its own file, or
    /// nowhere.
    pub fn save_target(&self, connected: bool) -> (r: SaveTo)
        ensures
            match r {
                SaveTo::Remote(p) => connected && text_of(self.remote_file) == Some(p@),
                SaveTo::Local(p) => !(connected && self.remote_file is Some) && text_of(
                    self.buffer.file(),
                ) == Some(p@),
                SaveTo::Nowhere => !(connected && self.remote_file is Some) && self.buffer.file() is None,
            },
    {
        if connected {
            if let Some(f) = &self.remote_file {
                return SaveTo::Remote(f.clone());
            }
        }
        match self.buffer.path() {
            Some(p) => SaveTo::Local(p.clone()),
            None => SaveTo::Nowhere,
        }
    }

    /// Whether the document is the file at a path.
    pub open spec fn is_at(self, path: Seq<char>) -> bool {
        self.buffer.file() matches Some(p) && parts_in(p@) == parts_in(path)
    }

    /// The name of the document: that of its file, that of the remote file behind a mark where it
    /// is the active one, or that of no file.
    pub open spec fn name(self, active: bool) -> Seq<char> {
        let own = match self.buffer.file() {
            Some(p) => last_name(p@),
            None => None,
        };
        match own {
            Some(s) => s,
            None => match self.remote_file {
                Some(f) if active => "\u{21c5} "@ + pieces(f@, '/').last(),
                _ => "*scratch*"@,
            },
        }
    }
}

/// The label of a document's tab, with a mark where it is not saved.
pub open spec fn label(d: Document, active: bool) -> Seq<char> {
    if d.history@.dirty {
        "\u{2022} "@ + d.name(active)
    } else {
        d.name(active)
    }
}

impl Tabs {
    /// One is open, and one of those that are open is active.
    pub open spec fn wf(self) -> bool {
        self.active < self.docs@.len()
    }

    /// One document.
    pub fn new(doc: Document) -> (r: Self)
        ensures
            r.wf(),
            r.docs@ == seq![doc],
            r.active == 0,
    {
        let mut docs: Vec<Document> = Vec::new();
        docs.push(doc);
        assert(docs@ =~= seq![doc]);
        Tabs { docs, active: 0 }
    }

    /// The name of a document.
    pub fn tab_name(&self, i: usize) -> (r: String)
        requires
            i < self.docs@.len(),
        ensures
            r@ == self.docs@[i as int].name(i == self.active),
    {
        let d = &self.docs[i];
        if let Some(p) = d.buffer.path() {
            if let Some(name) = file_name(p) {
                return name;
            }
        }
        if i == self.active {
            if let Some(f) = &d.remote_file {
                let cs = chars_of(f);
                let ps = split_char(&cs, '/');
                let mut out = "\u{21c5} ".to_owned();
                if ps.len() > 0 {
                    push_chars(&mut out, &ps[ps.len() - 1]);
                    assert(views(ps@).last() == ps@[ps@.len() - 1]@);
                }
                return out;
            }
        }
        "*scratch*".to_owned()
    }

    /// The first document that is the file at a path.
    pub fn find_tab_by_path(&self, path: &str) -> (r: Option<usize>)
        ensures
            is_place_of(self.docs@, path@, r),
    {
        for i in 0..self.docs.len()
            invariant
                forall|k: int| 0 <= k < i ==> !(#[trigger] self.docs@[k]).is_at(path@),
        {
            if let Some(p) = self.docs[i].buffer.path() {
                if same_path(p, path) {
                    return Some(i);
                }
            }
        }
        None
    }

    /// Makes another document active; whether it did.
    pub fn switch_tab(&mut self, i: usize) -> (r: bool)
        ensures
            r == (i != old(self).active && i < old(self).docs@.len()),
            final(self).docs == old(self).docs,
            final(self).active == (if r {
                i
            } else {
                old(self).active
            }),
            old(self).wf() ==> final(self).wf(),
    {
        if i == self.active || i >= self.docs.len() {
            return false;
        }
        self.active = i;
        true
    }

    /// Makes the next document active, round the end; whether there is another one.
    pub fn next_tab(&mut self) -> (r: bool)
        requires
            old(self).wf(),
        ensures
            r == (old(self).docs@.len() > 1),
            final(self).docs == old(self).docs,
            final(self).active == next_of(old(self).active as int, old(self).docs@.len() as int),
            final(self).wf(),
    {
        let n = self.docs.len();
        if n > 1 {
            let next: usize = if self.active + 1 < n {
                self.active + 1
            } else {
                0
            };
            self.switch_tab(next)
        } else {
            false
        }
    }

    /// Opens a document behind the others and makes it active.
    pub fn open_tab(&mut self, doc: Document)
        ensures
            final(self).docs@ == old(self).docs@.push(doc),
            final(self).active == old(self).docs@.len(),
            final(self).wf(),
    {
        self.active = self.docs.len();
        self.docs.push(doc);
    }

    /// Closes the active document, unless it is the only one; whether it did. The one behind it
    /// becomes active, or the one before it where it was the last.
    pub fn close_active_tab(&mut self) -> (r: bool)
        requires
            old(self).wf(),
        ensures
            r == (old(self).docs@.len() > 1),
            final(self).docs@ == (if r {
                old(self).docs@.remove(old(self).active as int)
            } else {
                old(self).docs@
            }),
            r ==> final(self).docs@[final(self).active as int] == (if old(self).active + 1 < old(
                self,
            ).docs@.len() {
                old(self).docs@[old(self).active + 1]
            } else {
                old(self).docs@[old(self).active - 1]
            }),
            final(self).active == (if r {
                active_after(old(self).active as int, old(self).active as int, old(self).docs@.len() as int)
            } else {
                old(self).active as int
            }),
            final(self).wf(),
    {
        let n = self.docs.len();
        if n <= 1 {
            return false;
        }
        let i = self.active;
        self.docs.remove(i);
        if i + 1 == n {
            self.active = i - 1;
        }
        true
    }

    /// Closes a document, unless it is the only one; whether it did. The active one stays active,
    /// unless it is the one.
    pub fn close_tab(&mut self, i: usize) -> (r: bool)
        requires
            old(self).wf(),
        ensures
            r == (old(self).docs@.len() > 1 && i < old(self).docs@.len()),
            final(self).docs@ == (if r {
                old(self).docs@.remove(i as int)
            } else {
                old(self).docs@
            }),
            r && i != old(self).active ==> final(self).docs@[final(self).active as int] == old(
                self,
            ).docs@[old(self).active as int],
            final(self).active == (if r {
                active_after(old(self).active as int, i as int, old(self).docs@.len() as int)
            } else {
                old(self).active as int
            }),
            final(self).wf(),
    {
        if self.docs.len() <= 1 || i >= self.docs.len() {
            return false;
        }
        if i == self.active {
            return self.close_active_tab();
        }
        self.docs.remove(i);
        if i < self.active {
            self.active = self.active - 1;
        }
        true
    }

    /// The labels of the tabs: the documents, with a mark at each that is not saved, and the
    /// terminal behind them where there is one.
    pub fn labels(&self, terminal: bool) -> (r: Vec<String>)
        ensures
            texts(r@) == Seq::new(
                self.docs@.len(),
                |i: int| label(self.docs@[i], i == self.active),
            ) + if terminal {
                seq!["\u{25b8} Terminal"@]
            } else {
                Seq::empty()
            },
    {
        let ghost all = Seq::new(
            self.docs@.len(),
            |i: int| label(self.docs@[i], i == self.active),
        );
        let mut out: Vec<String> = Vec::new();
        for i in 0..self.docs.len()
            invariant
                all == Seq::new(
                    self.docs@.len(),
                    |i: int| label(self.docs@[i], i == self.active),
                ),
                out@.len() == i,
                texts(out@) == all.take(i as int),
        {
            let ghost before = out@;
            let name = self.tab_name(i);
            if self.docs[i].history.is_dirty() {
                let mut marked = "\u{2022} ".to_owned();
                push_text(&mut marked, &name);
                out.push(marked);
            } else {
                out.push(name);
            }
            assert(out@[i as int]@ == all[i as int]);
            assert forall|k: int| 0 <= k < i implies texts(out@)[k] == all[k] by {
                assert(texts(before)[k] == all.take(i as int)[k]);
            }
            assert(texts(out@) =~= all.take(i + 1));
        }
        assert(all.take(all.len() as int) =~= all);
        if terminal {
            out.push("\u{25b8} Terminal".to_owned());
        }
        assert(texts(out@) =~= all + if terminal {
            seq!["\u{25b8} Terminal"@]
        } else {
            Seq::empty()
        });
        out
    }

    /// The tab that is active: that of the terminal, behind those of the documents, or that of the
    /// active document.
    pub fn active_tab(&self, terminal: bool) -> (r: usize)
        ensures
            r == (if terminal {
                self.docs.len()
            } else {
                self.active
            }),
    {
        if terminal {
            self.docs.len()
        } else {
            self.active
        }
    }
}

/// A document that was opened is what the tabs show, and closing it again gives back the documents
/// that were open.
pub proof fn closing_undoes_opening(before: Tabs, opened: Tabs, closed: Tabs, doc: Document)
    requires
        before.wf(),
        opened.docs@ == before.docs@.push(doc),
        opened.active == before.docs@.len(),
        closed.docs@ == opened.docs@.remove(opened.active as int),
    ensures
        opened.docs@[opened.active as int] == doc,
        closed.docs@ == before.docs@,
{
    assert(closed.docs@ =~= before.docs@);
}

/// The tab behind a tab, the first behind the last.
pub open spec fn next_of(active: int, n: int) -> int {
    if active + 1 < n {
        active + 1
    } else {
        0
    }
}

/// Going from tab to tab goes round all of them.
pub proof fn tabs_go_round(active: int, n: int)
    requires
        0 <= active < n,
    ensures
        next_of(active, n) == wrapped_down(active, n),
        wrapped_up(next_of(active, n), n) == active,
{
    wrapping_goes_round(active, n);
}

/// A file is named after the last part of its path, and a document that was changed is marked.
pub proof fn files_are_named_after_their_path(dir: Seq<char>, name: Seq<char>)
    requires
        dir.len() > 0,
        dir.last() != '/',
        is_name(name),
    ensures
        last_name(joined(dir, name)) == Some(name),
{
    lemma_one_name(name);
    joined_paths_have_the_parts_of_both(dir, name);
    assert(parts_in(joined(dir, name)).last() == Part::Name(name));
}

proof fn lemma_one_name(name: Seq<char>)
    requires
        is_name(name),
    ensures
        pieces(name, '/') == seq![name],
        parts_in(name) == seq![Part::Name(name)],
        !rooted(name),
        pieces(name, '/')[0] != "."@,
{
    lemma_first_at_is(name, '/', name.len() as int);
    assert(pieces(name, '/') == seq![name]);
    assert(parts_to(seq![name], false, 0) =~= Seq::empty());
    assert(parts_in(name) =~= seq![Part::Name(name)]);
}

/// A label is the name of the document, with a mark before it where it was changed.
pub proof fn changed_documents_are_marked(d: Document, e: Document, active: bool)
    requires
        d.history@.dirty,
        !e.history@.dirty,
        d.buffer == e.buffer,
        d.remote_file == e.remote_file,
    ensures
        label(d, active) == "\u{2022} "@ + label(e, active),
        label(e, active) == e.name(active),
{
}

/// The tab that is active once one of `n` was closed.
pub open spec fn active_after(active: int, closed: int, n: int) -> int {
    if closed < active || (closed == active && closed + 1 == n) {
        active - 1
    } else {
        active
    }
}

/// Closing another tab leaves the active document active; closing the active one makes the next one
/// active, or the last where there is none behind it.
pub proof fn closing_keeps_the_active_document(docs: Seq<Document>, active: int, closed: int)
    requires
        0 <= active < docs.len(),
        0 <= closed < docs.len(),
        docs.len() > 1,
    ensures
        ({
            let left = docs.remove(closed);
            let to = active_after(active, closed, docs.len() as int);
            &&& 0 <= to < left.len()
            &&& closed != active ==> left[to] == docs[active]
            &&& closed == active && active + 1 < docs.len() ==> left[to] == docs[active + 1]
            &&& closed == active && active + 1 == docs.len() ==> left[to] == docs[active - 1]
        }),
{
}

} // verus!
