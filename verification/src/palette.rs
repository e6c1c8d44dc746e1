//! The command palette, which also lists the commands on the help page.

use vstd::prelude::*;
use crate::commands::{listed, rank_titles, CommandRegistry};
use crate::host::{command_views, HostCommand};
use crate::lists::{accepted, shorten, shortened, type_into, wrap_down, wrap_up, wrapped_down, wrapped_up, Accepts, PageKey};
use crate::builtins::entries;
use crate::text::{chars, texts, trimmed};

verus! {

/// A command as the palette lists it.
#[derive(Debug)]
pub struct PaletteItem {
    pub id: String,
    pub title: String,
    pub keybinding: String,
}

/// What items say: id, title and chord.
pub open spec fn item_views(v: Seq<PaletteItem>) -> Seq<(Seq<char>, Seq<char>, Seq<char>)> {
    Seq::new(v.len(), |i: int| (v[i].id@, v[i].title@, v[i].keybinding@))
}

/// The titles of items.
pub open spec fn item_titles(v: Seq<PaletteItem>) -> Seq<Seq<char>> {
    Seq::new(v.len(), |i: int| v[i].title@)
}

/// The items of the editor's own commands and then of the modules' commands.
pub open spec fn all_items(
    own: Seq<(Seq<char>, Seq<char>, Seq<char>)>,
    modules: Seq<(Seq<char>, Seq<char>)>,
) -> Seq<(Seq<char>, Seq<char>, Seq<char>)> {
    own + Seq::new(modules.len(), |i: int| (modules[i].0, modules[i].1, "module"@))
}

/// The palette: what is typed, the commands it shows and the one selected.
#[derive(Debug)]
pub struct Palette {
    pub query: String,
    pub items: Vec<PaletteItem>,
    pub filtered: Vec<usize>,
    pub sel: usize,
}

/// What a key on the palette asks for.
#[derive(Debug)]
pub enum PaletteStep {
    /// Nothing.
    Nothing,
    /// The page is to be drawn anew.
    Refresh,
    /// The page is to be closed.
    Close,
    /// The command with this id is to be run.
    Run(String),
}

impl Palette {
    /// What is listed is there.
    pub open spec fn wf(&self) -> bool {
        &&& forall|k: int| 0 <= k < self.filtered@.len() ==> #[trigger] self.filtered@[k] < self.items@.len()
        &&& self.sel <= self.filtered@.len()
        &&& self.filtered@.len() <= self.items@.len()
        &&& 2 * self.items@.len() < usize::MAX
    }

    /// A palette that lists nothing.
    pub fn empty() -> (r: Self)
        ensures
            r.wf(),
            r.query@.len() == 0,
            r.items@.len() == 0,
            r.filtered@.len() == 0,
            r.sel == 0,
    {
        Palette { query: String::new(), items: Vec::new(), filtered: Vec::new(), sel: 0 }
    }

    /// What the palette lists for its query, from the start.
    pub open spec fn lists(&self) -> bool {
        listed(self.filtered@, item_titles(self.items@), self.query@) && self.sel == 0
    }

    fn titles(&self) -> (r: Vec<String>)
        ensures
            texts(r@) == item_titles(self.items@),
    {
        let mut out: Vec<String> = Vec::new();
        for i in 0..self.items.len()
            invariant
                texts(out@) == item_titles(self.items@).take(i as int),
        {
            let ghost before = texts(out@);
            out.push(self.items[i].title.clone());
            assert(texts(out@) =~= before.push(self.items@[i as int].title@));
            assert(item_titles(self.items@).take(i + 1) =~= item_titles(self.items@).take(i as int).push(
                self.items@[i as int].title@,
            ));
        }
        assert(item_titles(self.items@).take(self.items@.len() as int) =~= item_titles(self.items@));
        out
    }

    /// Lists the commands for the query anew.
    pub fn refilter(&mut self)
        requires
            old(self).wf(),
        ensures
            final(self).wf(),
            final(self).query@ == old(self).query@,
            final(self).items == old(self).items,
            final(self).lists(),
    {
        let titles = self.titles();
        let shown = rank_titles(&titles, &self.query);
        proof {
            lemma_listed_len(shown@, texts(titles@), self.query@);
        }
        self.filtered = shown;
        self.sel = 0;
    }

    /// The items of the editor's commands and of the modules'.
    pub fn rebuild_items(&mut self, commands: &CommandRegistry, modules: &Vec<HostCommand>)
        requires
            2 * (commands@.len() + modules@.len()) < usize::MAX,
        ensures
            item_views(final(self).items@) == all_items(entries(commands@), command_views(modules@)),
            final(self).query@ == old(self).query@,
            final(self).filtered@.len() == 0,
            final(self).sel == 0,
            final(self).wf(),
    {
        let mut items: Vec<PaletteItem> = Vec::new();
        let cs = commands.commands();
        let ghost own = entries(commands@);
        let ghost more = command_views(modules@);
        for i in 0..cs.len()
            invariant
                cs@ == commands@,
                own == entries(commands@),
                items@.len() == i,
                item_views(items@) == own.take(i as int),
        {
            let ghost before = item_views(items@);
            let c = cs[i];
            items.push(
                PaletteItem {
                    id: c.id.to_owned(),
                    title: c.title.to_owned(),
                    keybinding: c.keybinding.to_owned(),
                },
            );
            assert(item_views(items@) =~= before.push(own[i as int]));
            assert(own.take(i + 1) =~= own.take(i as int).push(own[i as int]));
        }
        assert(own.take(own.len() as int) =~= own);
        let ghost whole = all_items(own, more);
        assert(item_views(items@) =~= whole.take(own.len() as int));
        for i in 0..modules.len()
            invariant
                more == command_views(modules@),
                whole == all_items(own, more),
                items@.len() == own.len() + i,
                item_views(items@) == whole.take(own.len() + i),
        {
            let ghost before = item_views(items@);
            let c = &modules[i];
            items.push(
                PaletteItem {
                    id: c.id.clone(),
                    title: c.title.clone(),
                    keybinding: "module".to_owned(),
                },
            );
            assert(item_views(items@) =~= before.push(whole[own.len() + i]));
            assert(whole.take(own.len() + i + 1) =~= whole.take(own.len() + i).push(whole[own.len() + i]));
        }
        assert(whole.take(whole.len() as int) =~= whole);
        self.items = items;
        self.filtered = Vec::new();
        self.sel = 0;
    }

    /// The id of the command that is selected.
    pub open spec fn selected_id(&self) -> Option<Seq<char>> {
        if self.sel < self.filtered@.len() {
            Some(self.items@[self.filtered@[self.sel as int] as int].id@)
        } else {
            None
        }
    }

    /// What a key does on the palette, and what it asks for.
    pub fn key(&mut self, key: PageKey, text: Option<&str>) -> (r: PaletteStep)
        requires
            old(self).wf(),
        ensures
            final(self).wf(),
            palette_pressed(*old(self), key, chars(text), *final(self), r),
    {
        match key {
            PageKey::Escape => PaletteStep::Close,
            PageKey::Enter => if self.sel < self.filtered.len() {
                PaletteStep::Run(self.items[self.filtered[self.sel]].id.clone())
            } else {
                PaletteStep::Close
            },
            PageKey::Down => {
                self.sel = wrap_down(self.sel, self.filtered.len());
                PaletteStep::Refresh
            },
            PageKey::Up => {
                self.sel = wrap_up(self.sel, self.filtered.len());
                PaletteStep::Refresh
            },
            PageKey::Backspace => {
                self.query = shorten(&self.query);
                self.refilter();
                PaletteStep::Refresh
            },
            _ => if type_into(&mut self.query, Accepts::Printable, text) {
                self.refilter();
                PaletteStep::Refresh
            } else {
                PaletteStep::Nothing
            },
        }
    }
}

/// What a key does on the palette, and what it asks for.
pub open spec fn palette_pressed(
    before: Palette,
    key: PageKey,
    text: Option<Seq<char>>,
    after: Palette,
    step: PaletteStep,
) -> bool {
    let n = before.filtered@.len() as int;
    &&& after.items == before.items
    &&& match key {
        PageKey::Escape => step is Close && after == before,
        PageKey::Enter => after == before && match before.selected_id() {
            Some(id) => step matches PaletteStep::Run(i) && i@ == id,
            None => step is Close,
        },
        PageKey::Down => {
            &&& step is Refresh
            &&& after.sel == wrapped_down(before.sel as int, n)
            &&& after.filtered == before.filtered
            &&& after.query@ == before.query@
        },
        PageKey::Up => {
            &&& step is Refresh
            &&& after.sel == wrapped_up(before.sel as int, n)
            &&& after.filtered == before.filtered
            &&& after.query@ == before.query@
        },
        PageKey::Backspace => after.query@ == shortened(before.query@) && step is Refresh && after.lists(),
        _ => {
            let more = accepted(Accepts::Printable, text);
            &&& after.query@ == before.query@ + more
            &&& if more.len() == 0 {
                step is Nothing && after.filtered == before.filtered && after.sel == before.sel
            } else {
                step is Refresh && after.lists()
            }
        },
    }
}

/// No more is listed than there is.
proof fn lemma_listed_len(r: Seq<usize>, titles: Seq<Seq<char>>, query: Seq<char>)
    requires
        listed(r, titles, query),
    ensures
        r.len() <= titles.len(),
{
    if trimmed(query).len() > 0 {
        let ints = r.map_values(|x: usize| x as int);
        assert(ints.no_duplicates()) by {
            assert forall|i: int, j: int| 0 <= i < ints.len() && 0 <= j < ints.len() && i != j implies ints[i]
                != ints[j] by {
                assert(r[i] != r[j]);
            }
        }
        ints.unique_seq_to_set();
        let n = titles.len() as int;
        vstd::set_lib::lemma_int_range(0, n);
        let all = vstd::set_lib::set_int_range(0, n);
        assert(ints.to_set().subset_of(all)) by {
            assert forall|x: int| ints.to_set().contains(x) implies all.contains(x) by {
                let i = choose|i: int| 0 <= i < ints.len() && ints[i] == x;
                assert(r[i] < titles.len());
            }
        }
        vstd::set_lib::lemma_len_subset(ints.to_set(), all);
    }
}

/// The editor's own commands are listed first, and then those of the modules, which are marked as such.
pub proof fn modules_come_behind_the_editor(
    own: Seq<(Seq<char>, Seq<char>, Seq<char>)>,
    modules: Seq<(Seq<char>, Seq<char>)>,
    i: int,
    j: int,
)
    requires
        0 <= i < own.len(),
        0 <= j < modules.len(),
    ensures
        all_items(own, modules).len() == own.len() + modules.len(),
        all_items(own, modules)[i] == own[i],
        all_items(own, modules)[own.len() + j].0 == modules[j].0,
        all_items(own, modules)[own.len() + j].1 == modules[j].1,
        all_items(own, modules)[own.len() + j].2 == "module"@,
{
}

} // verus!
