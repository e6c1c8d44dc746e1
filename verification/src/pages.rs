//! The pages together: what is shown of the open one, and what the pointer does on it.

use vstd::prelude::*;
use crate::agent_rpc::AgentLiveState;
use crate::config::Config;
use crate::dashboard::{activated, agents_activate, agents_page, agents_row_model, live_view, page_views, AgentsRow, AgentsStep};
use crate::features::FeatureRegistry;
use crate::lists::{bump, bumped, the_selection_is_in_view};
use crate::overlay::{agents_overlay, build_agents, build_goto, build_help, build_host, build_modules, build_palette, build_path, build_prompt, build_search, build_settings, build_ssh, build_thread, goto_page, help_page, host_overlay, modules_overlay, palette_page, palette_rows, path_overlay, prompt_overlay, search_overlay, search_rows, settings_overlay, ssh_page, thread_overlay, AgentsPage, Overlay, OverlaySpec, Page};
use crate::palette::Palette;
use crate::pickers::{SearchPage, SshPicker};
use crate::lists::row_views;
use crate::settings::{ModulesPage, SETTINGS_ROWS};
use crate::text::{text_of, texts};
use crate::words::{first_in_view, windowed_start};

verus! {

/// The state of all pages, and which of them is open.
pub struct Pages {
    pub page: Page,
    pub palette: Palette,
    pub help_scroll: usize,
    pub goto_input: String,
    pub ssh: SshPicker,
    pub agents: AgentsPage,
    pub remote_host: String,
    pub remote_path: String,
    pub search: SearchPage,
    pub settings_sel: usize,
    pub modules: ModulesPage,
}

/// What a page shows beside its own state: how many rows fit, the number of lines of the document,
/// the root of the project, the home directory, the texts of the two numbers of the configuration,
/// the configuration, the features and the attached agent.
pub struct Surroundings<'a> {
    pub cap: usize,
    pub lines: usize,
    pub root: &'a str,
    pub home: &'a str,
    pub font: &'a str,
    pub line: &'a str,
    pub config: &'a Config,
    pub features: &'a FeatureRegistry,
    pub live: Option<&'a AgentLiveState>,
}

/// No selection goes beyond this, so that moving one stays within the machine's numbers.
pub open spec fn small(n: usize) -> bool {
    n <= usize::MAX / 4
}

impl Pages {
    /// The lists are in order and no selection is beyond reach.
    pub open spec fn wf(&self) -> bool {
        &&& self.palette.wf()
        &&& self.ssh.wf()
        &&& self.search.wf()
        &&& self.modules.enabled.wf()
        &&& small(self.palette.sel)
        &&& small(self.ssh.sel)
        &&& small(self.search.sel)
        &&& small(self.help_scroll)
        &&& small(self.settings_sel)
        &&& small(self.modules.sel)
        &&& small(self.agents.scroll)
        &&& small(self.agents.thread_scroll)
    }

    /// What is shown of the open page; nothing where the editor is open.
    pub open spec fn shown(&self, s: Surroundings) -> Option<Overlay> {
        let cap = s.cap as int;
        match self.page {
            Page::Editor => None,
            Page::Palette => Some(palette_page(self.palette, cap)),
            Page::Help => Some(help_page(self.palette, self.help_scroll as int, cap)),
            Page::GotoLine => Some(goto_page(self.goto_input@, s.lines as nat)),
            Page::SshPicker => Some(ssh_page(self.ssh, cap)),
            Page::Agents => Some(
                agents_overlay(
                    agents_page(self.agents.sessions@, live_view(s.live), self.agents.expanded, s.home@),
                    self.agents.scroll as int,
                    cap,
                ),
            ),
            Page::AgentThread => Some(
                thread_overlay(
                    self.agents.thread_title@,
                    row_views(self.agents.thread@),
                    self.agents.thread_scroll as int,
                    cap,
                ),
            ),
            Page::AgentPrompt => Some(prompt_overlay(self.agents.prompt@, live_view(s.live))),
            Page::RemoteHost => Some(host_overlay(self.remote_host@, texts(self.ssh.hosts@))),
            Page::RemotePath => Some(path_overlay(self.remote_host@, self.remote_path@)),
            Page::Search => Some(search_overlay(self.search, s.root@, cap)),
            Page::Settings => Some(settings_overlay(*s.config, s.font@, s.line@, self.settings_sel)),
            Page::Modules => Some(modules_overlay(self.modules, s.features@)),
        }
    }

    /// What is shown of the open page.
    pub fn build_overlay_spec(&self, s: &Surroundings) -> (r: Option<OverlaySpec>)
        requires
            self.wf(),
            s.cap > 0,
        ensures
            match r {
                Some(o) => self.shown(*s) == Some(o@),
                None => self.shown(*s) is None,
            },
    {
        match self.page {
            Page::Editor => None,
            Page::Palette => Some(build_palette(&self.palette, s.cap)),
            Page::Help => Some(build_help(&self.palette, self.help_scroll, s.cap)),
            Page::GotoLine => Some(build_goto(&self.goto_input, s.lines)),
            Page::SshPicker => Some(build_ssh(&self.ssh, s.cap)),
            Page::Agents => Some(build_agents(&self.agents, s.live, s.home, s.cap)),
            Page::AgentThread => Some(build_thread(&self.agents, s.cap)),
            Page::AgentPrompt => Some(build_prompt(&self.agents.prompt, s.live)),
            Page::RemoteHost => Some(build_host(&self.remote_host, &self.ssh.hosts)),
            Page::RemotePath => Some(build_path(&self.remote_host, &self.remote_path)),
            Page::Search => Some(build_search(&self.search, s.root, s.cap)),
            Page::Settings => Some(build_settings(s.config, s.font, s.line, self.settings_sel)),
            Page::Modules => Some(build_modules(&self.modules, s.features)),
        }
    }

    /// The rows of the agents page with what they are.
    pub open spec fn agents_rows(&self, s: Surroundings) -> Seq<((Seq<char>, Seq<char>), AgentsRow)> {
        agents_page(self.agents.sessions@, live_view(s.live), self.agents.expanded, s.home@)
    }
}

/// The row that the pointer at row `row` selects: none where the list is scrolled, is shorter, or
/// has it selected already.
pub open spec fn hovered(sel: int, n: int, cap: int, row: int) -> Option<int> {
    if first_in_view(sel, n, cap) == 0 && row < n && sel != row {
        Some(row)
    } else {
        None
    }
}

/// The row of a list of `n` rows that is nearest to a row.
pub open spec fn nearest(row: int, n: int) -> int {
    if n == 0 {
        0
    } else if row < n {
        row
    } else {
        n - 1
    }
}

/// The row that is selected on the open page.
pub open spec fn selection_of(p: Pages) -> int {
    match p.page {
        Page::Palette => p.palette.sel as int,
        Page::Settings => p.settings_sel as int,
        Page::Modules => p.modules.sel as int,
        Page::Search => p.search.sel as int,
        Page::Agents => p.agents.scroll as int,
        Page::SshPicker => p.ssh.sel as int,
        Page::Help => p.help_scroll as int,
        Page::AgentThread => p.agents.thread_scroll as int,
        _ => 0,
    }
}

/// The pages with another row selected on the open one.
pub open spec fn selecting(p: Pages, row: int) -> Pages {
    match p.page {
        Page::Palette => Pages { palette: Palette { sel: row as usize, ..p.palette }, ..p },
        Page::Settings => Pages { settings_sel: row as usize, ..p },
        Page::Modules => Pages { modules: ModulesPage { sel: row as usize, ..p.modules }, ..p },
        Page::Search => Pages { search: SearchPage { sel: row as usize, ..p.search }, ..p },
        Page::Agents => Pages { agents: AgentsPage { scroll: row as usize, ..p.agents }, ..p },
        Page::SshPicker => Pages { ssh: SshPicker { sel: row as usize, ..p.ssh }, ..p },
        Page::Help => Pages { help_scroll: row as usize, ..p },
        Page::AgentThread => Pages { agents: AgentsPage { thread_scroll: row as usize, ..p.agents }, ..p },
        _ => p,
    }
}

/// The row that the pointer at a row selects on the open page.
pub open spec fn hover_target(p: Pages, s: Surroundings, row: int) -> Option<int> {
    let cap = s.cap as int;
    let sel = selection_of(p);
    match p.page {
        Page::Palette => hovered(sel, p.palette.filtered@.len() as int, cap, row),
        Page::Search => hovered(sel, p.search.results@.len() as int, cap, row),
        Page::SshPicker => hovered(sel, p.ssh.filtered@.len() as int, cap, row),
        Page::Settings => if sel != nearest(row, SETTINGS_ROWS as int) {
            Some(nearest(row, SETTINGS_ROWS as int))
        } else {
            None
        },
        Page::Modules => {
            let n = s.features@.len() + p.modules.modules@.len();
            if n > 0 && sel != nearest(row, n as int) {
                Some(nearest(row, n as int))
            } else {
                None
            }
        },
        Page::Agents => {
            let rows = p.agents_rows(s);
            match hovered(sel, rows.len() as int, cap, row) {
                Some(r) => if rows[r].1 is Header {
                    None
                } else {
                    Some(r)
                },
                None => None,
            }
        },
        _ => None,
    }
}

/// How many rows the open page has, where the wheel moves over them.
pub open spec fn rows_of(p: Pages, s: Surroundings) -> Option<int> {
    match p.page {
        Page::Palette => Some(p.palette.filtered@.len() as int),
        Page::Search => Some(p.search.results@.len() as int),
        Page::SshPicker => Some(p.ssh.filtered@.len() as int),
        Page::Settings => Some(SETTINGS_ROWS as int),
        Page::Modules => Some((s.features@.len() + p.modules.modules@.len()) as int),
        Page::Help => Some(p.palette.items@.len() as int),
        Page::Agents => Some(p.agents_rows(s).len() as int),
        Page::AgentThread => Some(p.agents.thread@.len() as int),
        _ => None,
    }
}

/// The open page has no more rows than a selection can reach.
pub open spec fn few_rows(p: Pages, s: Surroundings) -> bool {
    rows_of(p, s) matches Some(n) ==> n <= usize::MAX / 4
}

impl Pages {
    fn select(&mut self, row: usize)
        ensures
            *final(self) == selecting(*old(self), row as int),
    {
        match self.page {
            Page::Palette => {
                self.palette.sel = row;
            },
            Page::Settings => {
                self.settings_sel = row;
            },
            Page::Modules => {
                self.modules.sel = row;
            },
            Page::Search => {
                self.search.sel = row;
            },
            Page::Agents => {
                self.agents.scroll = row;
            },
            Page::SshPicker => {
                self.ssh.sel = row;
            },
            Page::Help => {
                self.help_scroll = row;
            },
            Page::AgentThread => {
                self.agents.thread_scroll = row;
            },
            _ => {},
        }
    }

    /// The row that is selected on the open page.
    fn selection(&self) -> (r: usize)
        ensures
            r == selection_of(*self),
    {
        match self.page {
            Page::Palette => self.palette.sel,
            Page::Settings => self.settings_sel,
            Page::Modules => self.modules.sel,
            Page::Search => self.search.sel,
            Page::Agents => self.agents.scroll,
            Page::SshPicker => self.ssh.sel,
            Page::Help => self.help_scroll,
            Page::AgentThread => self.agents.thread_scroll,
            _ => 0,
        }
    }

    fn agents_model(&self, s: &Surroundings) -> (r: Vec<AgentsRow>)
        ensures
            r@.len() == self.agents_rows(*s).len(),
            forall|i: int| 0 <= i < r@.len() ==> #[trigger] r@[i] == self.agents_rows(*s)[i].1,
    {
        let (rows, model) = agents_row_model(
            &self.agents.sessions,
            s.live,
            self.agents.expanded,
            s.home,
        );
        let ghost page = self.agents_rows(*s);
        assert(page_views(rows@, model@) == page);
        assert forall|i: int| 0 <= i < model@.len() implies #[trigger] model@[i] == page[i].1 by {
            assert(page_views(rows@, model@)[i].1 == model@[i]);
        }
        model
    }

    fn count_rows(&self, s: &Surroundings) -> (r: Option<usize>)
        requires
            s.features@.len() + self.modules.modules@.len() <= usize::MAX,
        ensures
            match r {
                Some(n) => rows_of(*self, *s) == Some(n as int),
                None => rows_of(*self, *s) is None,
            },
    {
        match self.page {
            Page::Palette => Some(self.palette.filtered.len()),
            Page::Search => Some(self.search.results.len()),
            Page::SshPicker => Some(self.ssh.filtered.len()),
            Page::Settings => Some(SETTINGS_ROWS),
            Page::Modules => Some(s.features.features().len() + self.modules.modules.len()),
            Page::Help => Some(self.palette.items.len()),
            Page::Agents => Some(self.agents_model(s).len()),
            Page::AgentThread => Some(self.agents.thread.len()),
            _ => None,
        }
    }

    /// Selects the row that the pointer at row `row` in view is over; whether anything changed is
    /// returned.
    pub fn overlay_hover_row(&mut self, s: &Surroundings, row: usize) -> (r: bool)
        requires
            s.features@.len() + old(self).modules.modules@.len() <= usize::MAX,
        ensures
            match hover_target(*old(self), *s, row as int) {
                Some(t) => r && *final(self) == selecting(*old(self), t),
                None => !r && *final(self) == *old(self),
            },
            old(self).wf() && few_rows(*old(self), *s) ==> final(self).wf(),
    {
        let n: usize = match self.page {
            Page::Help => return false,
            Page::AgentThread => return false,
            _ => match self.count_rows(s) {
                Some(n) => n,
                None => return false,
            },
        };
        let sel = self.selection();
        match self.page {
            Page::Settings | Page::Modules => {
                if n == 0 {
                    return false;
                }
                let to: usize = if row < n {
                    row
                } else {
                    n - 1
                };
                if sel == to {
                    return false;
                }
                self.select(to);
                true
            },
            _ => {
                if windowed_start(sel, n, s.cap) != 0 || row >= n || sel == row {
                    return false;
                }
                if matches!(self.page, Page::Agents) {
                    let model = self.agents_model(s);
                    if matches!(model[row], AgentsRow::Header) {
                        return false;
                    }
                }
                self.select(row);
                true
            },
        }
    }

    /// Moves the selection of the open page by `by` rows; whether the page has one is returned.
    pub fn overlay_scroll(&mut self, s: &Surroundings, down: bool, by: usize) -> (r: bool)
        requires
            s.features@.len() + old(self).modules.modules@.len() <= usize::MAX,
            old(self).wf(),
            small(by),
        ensures
            match rows_of(*old(self), *s) {
                Some(n) => r && *final(self) == selecting(
                    *old(self),
                    bumped(selection_of(*old(self)), n, down, by as int),
                ),
                None => !r && *final(self) == *old(self),
            },
            few_rows(*old(self), *s) ==> final(self).wf(),
    {
        match self.count_rows(s) {
            Some(n) => {
                let sel = self.selection();
                let to = bump(sel, n, down, by);
                self.select(to);
                true
            },
            None => false,
        }
    }
}

/// What a click on a row asks for.
#[derive(Debug)]
pub enum ClickStep {
    /// Nothing.
    Nothing,
    /// The page is to be drawn anew.
    Refresh,
    /// The selected setting goes up.
    Adjust,
    /// What is selected on the modules page is to be switched.
    Toggle,
    /// The command with this id is to be run.
    Run(String),
    /// The hit that is selected is to be opened.
    OpenHit,
    /// What a row of the agents page asks for.
    Agents(AgentsStep),
    /// The page is to be closed and this connected to, if there is one.
    Connect(Option<String>),
}

/// Whether a click is answered as it should be, given the pages before it and after it.
pub open spec fn clicked(p: Pages, s: Surroundings, row: int, after: Pages, step: ClickStep) -> bool {
    let cap = s.cap as int;
    let sel = selection_of(p);
    match p.page {
        Page::Settings => if sel == row {
            step is Adjust && after == p
        } else {
            step is Refresh && after == selecting(p, nearest(row, SETTINGS_ROWS as int))
        },
        Page::Modules => {
            let to = nearest(row, (s.features@.len() + p.modules.modules@.len()) as int);
            if sel == to {
                step is Toggle && after == p
            } else {
                step is Refresh && after == selecting(p, to)
            }
        },
        Page::Palette => {
            let n = p.palette.filtered@.len() as int;
            let at = first_in_view(sel, n, cap) + row;
            if at < n {
                if sel == at {
                    &&& step matches ClickStep::Run(id) && id@ == p.palette.items@[p.palette.filtered@[at] as int].id@
                    &&& after == (Pages { page: Page::Editor, ..p })
                } else {
                    step is Refresh && after == selecting(p, at)
                }
            } else {
                step is Nothing && after == p
            }
        },
        Page::Search => {
            let n = p.search.results@.len() as int;
            let at = first_in_view(sel, n, cap) + row;
            if at < n {
                if sel == at {
                    step is OpenHit && after == p
                } else {
                    step is Refresh && after == selecting(p, at)
                }
            } else {
                step is Nothing && after == p
            }
        },
        Page::Agents => {
            let rows = p.agents_rows(s);
            let n = rows.len() as int;
            let at = first_in_view(sel, n, cap) + row;
            if at < n {
                &&& step == ClickStep::Agents(
                    activated(Seq::new(rows.len(), |i: int| rows[i].1), at),
                )
                &&& after == selecting(p, at)
            } else {
                step is Nothing && after == p
            }
        },
        Page::SshPicker => {
            let n = p.ssh.filtered@.len() as int;
            let at = first_in_view(sel, n, cap) + row;
            if at < n {
                if sel == at {
                    &&& step matches ClickStep::Connect(h) && text_of(h) == p.ssh.chosen()
                    &&& after == p
                } else {
                    step is Refresh && after == selecting(p, at)
                }
            } else {
                step is Nothing && after == p
            }
        },
        _ => step is Nothing && after == p,
    }
}

impl Pages {
    /// What a click on the row `row` in view does, and what it asks for: it selects the row, or
    /// activates the one that is selected. On the agents page it does both at once.
    pub fn overlay_click_row(&mut self, s: &Surroundings, row: usize) -> (r: ClickStep)
        requires
            old(self).wf(),
            small(row),
            s.cap > 0,
            s.features@.len() + old(self).modules.modules@.len() <= usize::MAX,
        ensures
            clicked(*old(self), *s, row as int, *final(self), r),
            few_rows(*old(self), *s) ==> final(self).wf(),
    {
        let sel = self.selection();
        match self.page {
            Page::Settings => {
                if sel == row {
                    return ClickStep::Adjust;
                }
                let to: usize = if row < SETTINGS_ROWS {
                    row
                } else {
                    SETTINGS_ROWS - 1
                };
                self.select(to);
                ClickStep::Refresh
            },
            Page::Modules => {
                let n: usize = s.features.features().len() + self.modules.modules.len();
                let to: usize = if n == 0 {
                    0
                } else if row < n {
                    row
                } else {
                    n - 1
                };
                if sel == to {
                    return ClickStep::Toggle;
                }
                self.select(to);
                ClickStep::Refresh
            },
            Page::Palette => {
                let n = self.palette.filtered.len();
                let start = windowed_start(sel, n, s.cap);
                if row < n - start {
                    if sel == start + row {
                        let id = self.palette.items[self.palette.filtered[start + row]].id.clone();
                        self.page = Page::Editor;
                        ClickStep::Run(id)
                    } else {
                        self.select(start + row);
                        ClickStep::Refresh
                    }
                } else {
                    ClickStep::Nothing
                }
            },
            Page::Search => {
                let n = self.search.results.len();
                let start = windowed_start(sel, n, s.cap);
                if row < n - start {
                    if sel == start + row {
                        ClickStep::OpenHit
                    } else {
                        self.select(start + row);
                        ClickStep::Refresh
                    }
                } else {
                    ClickStep::Nothing
                }
            },
            Page::Agents => {
                let model = self.agents_model(s);
                let n = model.len();
                let start = windowed_start(sel, n, s.cap);
                let ghost rows = self.agents_rows(*s);
                assert(model@ =~= Seq::new(rows.len(), |i: int| rows[i].1));
                if row < n - start {
                    let step = agents_activate(&model, start + row);
                    self.select(start + row);
                    ClickStep::Agents(step)
                } else {
                    ClickStep::Nothing
                }
            },
            Page::SshPicker => {
                let n = self.ssh.filtered.len();
                let start = windowed_start(sel, n, s.cap);
                if row < n - start {
                    if sel == start + row {
                        ClickStep::Connect(self.ssh.choice())
                    } else {
                        self.select(start + row);
                        ClickStep::Refresh
                    }
                } else {
                    ClickStep::Nothing
                }
            },
            _ => ClickStep::Nothing,
        }
    }
}

/// A selection is where it was put, and putting it changes nothing else.
pub proof fn selections_read_back(p: Pages, a: int, b: int)
    requires
        0 <= a <= usize::MAX,
        0 <= b <= usize::MAX,
        p.page is Palette || p.page is Settings || p.page is Modules || p.page is Search || p.page is Agents
            || p.page is SshPicker || p.page is Help || p.page is AgentThread,
    ensures
        selection_of(selecting(p, a)) == a,
        selecting(p, a).page == p.page,
        selecting(selecting(p, a), b) == selecting(p, b),
        selecting(p, selection_of(p)) == p,
{
}

proof fn lemma_palette_clicked(p: Pages, s: Surroundings, row: int, after: Pages, step: ClickStep)
    requires
        p.wf(),
        0 <= row < s.cap,
        clicked(p, s, row, after, step),
    ensures
        p.page is Palette && p.palette.sel < p.palette.filtered@.len() ==> {
            let o = palette_page(p.palette, s.cap as int);
            &&& step is Nothing <==> row >= o.rows.len()
            &&& step is Run <==> o.selected == Some(row as usize)
            &&& step matches ClickStep::Run(id) ==> Some(id@) == p.palette.selected_id()
            &&& step is Refresh ==> palette_rows(after.palette)[after.palette.sel as int] == o.rows[row]
        },
{
}

proof fn lemma_search_clicked(p: Pages, s: Surroundings, row: int, after: Pages, step: ClickStep)
    requires
        p.wf(),
        0 <= row < s.cap,
        clicked(p, s, row, after, step),
    ensures
        p.page is Search && p.search.sel < p.search.results@.len() ==> {
            let o = search_overlay(p.search, s.root@, s.cap as int);
            &&& step is Nothing <==> row >= o.rows.len()
            &&& step is OpenHit <==> o.selected == Some(row as usize)
            &&& step is Refresh ==> search_rows(after.search, s.root@)[after.search.sel as int] == o.rows[row]
        },
{
}

proof fn lemma_ssh_clicked(p: Pages, s: Surroundings, row: int, after: Pages, step: ClickStep)
    requires
        p.wf(),
        0 <= row < s.cap,
        clicked(p, s, row, after, step),
    ensures
        p.page is SshPicker && p.ssh.sel < p.ssh.filtered@.len() ==> {
            let o = ssh_page(p.ssh, s.cap as int);
            &&& step is Nothing <==> row >= o.rows.len()
            &&& step is Connect <==> o.selected == Some(row as usize)
            &&& step matches ClickStep::Connect(h) ==> text_of(h) == Some(o.rows[row].0)
            &&& step is Refresh ==> after.ssh.chosen() == Some(o.rows[row].0)
        },
{
}

/// A click acts on the row it is on: on what the page shows there, where that is selected already,
/// and otherwise it selects just that row.
pub proof fn clicks_act_on_the_row_shown(p: Pages, s: Surroundings, row: int, after: Pages, step: ClickStep)
    requires
        p.wf(),
        0 <= row < s.cap,
        clicked(p, s, row, after, step),
    ensures
        p.page is Palette && p.palette.sel < p.palette.filtered@.len() ==> {
            let o = palette_page(p.palette, s.cap as int);
            &&& step is Nothing <==> row >= o.rows.len()
            &&& step is Run <==> o.selected == Some(row as usize)
            &&& step matches ClickStep::Run(id) ==> Some(id@) == p.palette.selected_id()
            &&& step is Refresh ==> palette_rows(after.palette)[after.palette.sel as int] == o.rows[row]
        },
        p.page is Search && p.search.sel < p.search.results@.len() ==> {
            let o = search_overlay(p.search, s.root@, s.cap as int);
            &&& step is Nothing <==> row >= o.rows.len()
            &&& step is OpenHit <==> o.selected == Some(row as usize)
            &&& step is Refresh ==> search_rows(after.search, s.root@)[after.search.sel as int] == o.rows[row]
        },
        p.page is SshPicker && p.ssh.sel < p.ssh.filtered@.len() ==> {
            let o = ssh_page(p.ssh, s.cap as int);
            &&& step is Nothing <==> row >= o.rows.len()
            &&& step is Connect <==> o.selected == Some(row as usize)
            &&& step matches ClickStep::Connect(h) ==> text_of(h) == Some(o.rows[row].0)
            &&& step is Refresh ==> after.ssh.chosen() == Some(o.rows[row].0)
        },
{
    lemma_palette_clicked(p, s, row, after, step);
    lemma_search_clicked(p, s, row, after, step);
    lemma_ssh_clicked(p, s, row, after, step);
}

/// A row that the pointer is over is selected by it, so that a click there acts at once.
pub proof fn hovered_rows_act(p: Pages, s: Surroundings, row: int, to: int, after: Pages, step: ClickStep)
    requires
        p.wf(),
        0 <= row < s.cap,
        row < SETTINGS_ROWS,
        hover_target(p, s, row) == Some(to),
        clicked(selecting(p, to), s, row, after, step),
    ensures
        to == row || p.page is Modules,
        p.page is Palette ==> step is Run,
        p.page is Search ==> step is OpenHit,
        p.page is SshPicker ==> step is Connect,
        p.page is Settings ==> step is Adjust,
        p.page is Modules ==> step is Toggle,
        p.page is Agents ==> !(p.agents_rows(s)[row].1 is Header),
{
}

/// The action of the strip on top that the open page belongs to; `usize::MAX` where none does.
pub open spec fn strip_active(page: Page, term_focused: bool) -> usize {
    match page {
        Page::Palette => 0,
        Page::Search => 1,
        Page::Agents => 2,
        Page::AgentPrompt => 2,
        Page::AgentThread => 2,
        Page::Editor => if term_focused {
            3
        } else {
            usize::MAX
        },
        Page::Settings => 4,
        _ => usize::MAX,
    }
}

/// The action of the strip on top that the open page belongs to.
pub fn active_action(page: Page, term_focused: bool) -> (r: usize)
    ensures
        r == strip_active(page, term_focused),
{
    match page {
        Page::Palette => 0,
        Page::Search => 1,
        Page::Agents => 2,
        Page::AgentPrompt => 2,
        Page::AgentThread => 2,
        Page::Editor => if term_focused {
            3
        } else {
            usize::MAX
        },
        Page::Settings => 4,
        _ => usize::MAX,
    }
}

/// A page that scrolls has as many rows as it is counted to have: all of them are shown where they fit,
/// and as many as fit otherwise.
pub proof fn rows_are_counted(p: Pages, s: Surroundings)
    requires
        0 < s.cap,
    ensures
        ({
            let cap = s.cap as int;
            let least = |n: int|
                if n < cap {
                    n
                } else {
                    cap
                };
            &&& p.page is Palette ==> palette_page(p.palette, cap).rows.len() == least(rows_of(p, s)->0)
            &&& p.page is Search ==> search_overlay(p.search, s.root@, cap).rows.len() == least(rows_of(p, s)->0)
            &&& p.page is SshPicker ==> ssh_page(p.ssh, cap).rows.len() == least(rows_of(p, s)->0)
            &&& p.page is Settings ==> settings_overlay(*s.config, s.font@, s.line@, p.settings_sel).rows.len()
                == rows_of(p, s)->0
            &&& p.page is Modules ==> modules_overlay(p.modules, s.features@).rows.len() == rows_of(p, s)->0
            &&& p.page is Help ==> help_page(p.palette, 0, cap).rows.len() == least(rows_of(p, s)->0)
            &&& p.page is AgentThread ==> thread_overlay(
                p.agents.thread_title@,
                row_views(p.agents.thread@),
                p.agents.thread_scroll as int,
                cap,
            ).rows.len() == least(rows_of(p, s)->0)
        }),
{
    let cap = s.cap as int;
    the_selection_is_in_view(p.palette.sel as int, p.palette.filtered@.len() as int, cap);
    the_selection_is_in_view(p.search.sel as int, p.search.results@.len() as int, cap);
    the_selection_is_in_view(p.ssh.sel as int, p.ssh.filtered@.len() as int, cap);
    the_selection_is_in_view(p.agents.thread_scroll as int, p.agents.thread@.len() as int, cap);
}

} // verus!
