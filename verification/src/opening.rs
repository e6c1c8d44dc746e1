//! Opening and closing the pages.

use vstd::prelude::*;
use crate::agents::SessionSummary;
use crate::builtins::entries;
use crate::commands::CommandRegistry;
use crate::host::{command_views, HostCommand};
use crate::overlay::{AgentsPage, Page};
use crate::pages::{strip_active, small, Pages};
use crate::palette::{all_items, item_views, Palette};
use crate::pickers::{SearchPage, SshPicker};
use crate::search::Match;
use crate::settings::ModulesPage;
use crate::text::texts;

verus! {

impl Pages {
    /// The editor, with nothing on any page but the modules.
    pub fn new(modules: ModulesPage) -> (r: Self)
        requires
            modules.enabled.wf(),
            small(modules.sel),
        ensures
            r.wf(),
            r.page is Editor,
            r.modules == modules,
            r.palette.items@.len() == 0,
            r.palette.query@.len() == 0,
            r.help_scroll == 0,
            r.goto_input@.len() == 0,
            r.ssh.hosts@.len() == 0,
            r.ssh.input@.len() == 0,
            r.agents.sessions@.len() == 0,
            r.agents.scroll == 0,
            !r.agents.expanded,
            r.agents.prompt@.len() == 0,
            r.agents.thread@.len() == 0,
            r.agents.thread_title@.len() == 0,
            r.agents.thread_scroll == 0,
            r.remote_host@.len() == 0,
            r.remote_path@.len() == 0,
            r.search.input@.len() == 0,
            r.search.results@.len() == 0,
            r.settings_sel == 0,
    {
        Pages {
            page: Page::Editor,
            palette: Palette::empty(),
            help_scroll: 0,
            goto_input: String::new(),
            ssh: SshPicker {
                hosts: Vec::new(),
                input: String::new(),
                filtered: Vec::new(),
                sel: 0,
            },
            agents: AgentsPage {
                sessions: Vec::new(),
                scroll: 0,
                expanded: false,
                prompt: String::new(),
                thread: Vec::new(),
                thread_title: String::new(),
                thread_scroll: 0,
            },
            remote_host: String::new(),
            remote_path: String::new(),
            search: SearchPage::open(),
            settings_sel: 0,
            modules,
        }
    }

    /// Back to the editor.
    pub fn close_overlay(&mut self)
        ensures
            *final(self) == (Pages { page: Page::Editor, ..*old(self) }),
            old(self).wf() ==> final(self).wf(),
    {
        self.page = Page::Editor;
    }

    /// Opens the palette with all commands listed, those of the modules behind the others.
    pub fn open_palette(&mut self, commands: &CommandRegistry, modules: &Vec<HostCommand>)
        requires
            4 * (commands@.len() + modules@.len()) < usize::MAX,
        ensures
            item_views(final(self).palette.items@) == all_items(
                entries(commands@),
                command_views(modules@),
            ),
            final(self).palette.query@.len() == 0,
            final(self).palette.lists(),
            final(self).palette.wf(),
            *final(self) == (Pages {
                page: Page::Palette,
                palette: final(self).palette,
                ..*old(self)
            }),
            old(self).wf() ==> final(self).wf(),
    {
        self.page = Page::Palette;
        self.palette.query = String::new();
        self.palette.sel = 0;
        self.palette.rebuild_items(commands, modules);
        self.palette.refilter();
    }

    /// Opens the settings.
    pub fn open_settings(&mut self)
        ensures
            *final(self) == (Pages { page: Page::Settings, settings_sel: 0, ..*old(self) }),
            old(self).wf() ==> final(self).wf(),
    {
        self.page = Page::Settings;
        self.settings_sel = 0;
    }

    /// Opens the modules.
    pub fn open_modules(&mut self)
        ensures
            *final(self) == (Pages {
                page: Page::Modules,
                modules: ModulesPage { sel: 0, hint: None, ..old(self).modules },
                ..*old(self)
            }),
            old(self).wf() ==> final(self).wf(),
    {
        self.page = Page::Modules;
        self.modules.sel = 0;
        self.modules.hint = None;
    }

    /// Opens the help.
    pub fn open_help(&mut self)
        ensures
            *final(self) == (Pages { page: Page::Help, help_scroll: 0, ..*old(self) }),
            old(self).wf() ==> final(self).wf(),
    {
        self.page = Page::Help;
        self.help_scroll = 0;
    }

    /// Opens the prompt for a line.
    pub fn open_goto(&mut self)
        ensures
            final(self).goto_input@.len() == 0,
            *final(self) == (Pages {
                page: Page::GotoLine,
                goto_input: final(self).goto_input,
                ..*old(self)
            }),
            old(self).wf() ==> final(self).wf(),
    {
        self.page = Page::GotoLine;
        self.goto_input = String::new();
    }

    /// Opens the picker with these hosts.
    pub fn open_ssh_picker(&mut self, hosts: Vec<String>)
        requires
            2 * hosts@.len() < usize::MAX,
        ensures
            final(self).ssh.wf(),
            final(self).ssh.shows(),
            final(self).ssh.hosts == hosts,
            final(self).ssh.input@.len() == 0,
            *final(self) == (Pages { page: Page::SshPicker, ssh: final(self).ssh, ..*old(self) }),
            old(self).wf() ==> final(self).wf(),
    {
        self.page = Page::SshPicker;
        self.ssh = SshPicker::open(hosts);
    }

    /// Opens the search with nothing typed.
    pub fn open_search(&mut self)
        ensures
            final(self).search.input@.len() == 0,
            final(self).search.results@.len() == 0,
            final(self).search.sel == 0,
            *final(self) == (Pages { page: Page::Search, search: final(self).search, ..*old(self) }),
            old(self).wf() ==> final(self).wf(),
    {
        self.page = Page::Search;
        self.search = SearchPage::open();
    }

    /// Takes in what was found.
    pub fn show_found(&mut self, results: Vec<Match>)
        requires
            2 * results@.len() < usize::MAX,
        ensures
            final(self).search.results == results,
            final(self).search.sel == 0,
            final(self).search.input@ == old(self).search.input@,
            *final(self) == (Pages { search: final(self).search, ..*old(self) }),
            old(self).wf() ==> final(self).wf(),
    {
        self.search.show(results);
    }

    /// Opens the agents with the sessions that were read.
    pub fn open_agents(&mut self, sessions: Vec<SessionSummary>)
        ensures
            *final(self) == old(self).with_agents(sessions),
            old(self).wf() ==> final(self).wf(),
    {
        self.page = Page::Agents;
        self.agents.sessions = sessions;
        self.agents.scroll = 0;
    }

    /// Takes in the sessions that were read again, where it was.
    pub fn reload_agents(&mut self, sessions: Vec<SessionSummary>)
        ensures
            *final(self) == old(self).with_agents_again(sessions),
            old(self).wf() ==> final(self).wf(),
    {
        self.page = Page::Agents;
        self.agents.sessions = sessions;
    }

    /// Shows the older sessions, or no more.
    pub fn expand_agents(&mut self)
        ensures
            *final(self) == old(self).with_older_switched(),
            old(self).wf() ==> final(self).wf(),
    {
        self.agents.expanded = !self.agents.expanded;
    }

    /// Opens the prompt for the attached agent.
    pub fn open_prompt(&mut self)
        ensures
            final(self).agents.prompt@.len() == 0,
            *final(self) == (Pages {
                page: Page::AgentPrompt,
                agents: AgentsPage { prompt: final(self).agents.prompt, ..old(self).agents },
                ..*old(self)
            }),
            old(self).wf() ==> final(self).wf(),
    {
        self.page = Page::AgentPrompt;
        self.agents.prompt = String::new();
    }

    /// Opens a thread at its end.
    pub fn open_thread(&mut self, title: String, rows: Vec<(String, String)>)
        ensures
            *final(self) == old(self).with_thread(title, rows),
            old(self).wf() && 4 * rows@.len() <= usize::MAX ==> final(self).wf(),
    {
        self.page = Page::AgentThread;
        self.agents.thread_scroll = if rows.len() > 0 {
            rows.len() - 1
        } else {
            0
        };
        self.agents.thread = rows;
        self.agents.thread_title = title;
    }

    /// Opens the prompt for a remote host, with what stands in it.
    pub fn open_remote(&mut self, host: String)
        ensures
            *final(self) == (Pages { page: Page::RemoteHost, remote_host: host, ..*old(self) }),
            old(self).wf() ==> final(self).wf(),
    {
        self.page = Page::RemoteHost;
        self.remote_host = host;
    }
}

/// Where the activity strip leads.
#[derive(Clone, Copy, Debug, PartialEq, Eq, Structural)]
pub enum Activity {
    Palette,
    Search,
    Agents,
    Terminal,
    Settings,
}

/// Where a tab of the activity strip leads.
pub open spec fn activity_of(tab: int) -> Option<Activity> {
    if tab == 0 {
        Some(Activity::Palette)
    } else if tab == 1 {
        Some(Activity::Search)
    } else if tab == 2 {
        Some(Activity::Agents)
    } else if tab == 3 {
        Some(Activity::Terminal)
    } else if tab == 4 {
        Some(Activity::Settings)
    } else {
        None
    }
}

/// Where a tab of the activity strip leads.
pub fn sidebar_tab_activate(tab: usize) -> (r: Option<Activity>)
    ensures
        r == activity_of(tab as int),
{
    match tab {
        0 => Some(Activity::Palette),
        1 => Some(Activity::Search),
        2 => Some(Activity::Agents),
        3 => Some(Activity::Terminal),
        4 => Some(Activity::Settings),
        _ => None,
    }
}

/// The strip lights the tab that leads to what is open, and no tab where none does.
pub proof fn the_strip_lights_what_is_open(page: Page, term_focused: bool)
    ensures
        ({
            let a = activity_of(strip_active(page, term_focused) as int);
            &&& a == Some(Activity::Palette) <==> page is Palette
            &&& a == Some(Activity::Search) <==> page is Search
            &&& a == Some(Activity::Agents) <==> page is Agents || page is AgentPrompt || page is AgentThread
            &&& a == Some(Activity::Terminal) <==> page is Editor && term_focused
            &&& a == Some(Activity::Settings) <==> page is Settings
        }),
{
}

/// The labels of the activity strip.
pub fn activity_labels() -> (r: Vec<String>)
    ensures
        texts(r@) == seq!["Palette"@, "Find"@, "Agents"@, "Terminal"@, "Settings"@],
{
    let mut labels: Vec<String> = Vec::new();
    labels.push("Palette".to_owned());
    labels.push("Find".to_owned());
    labels.push("Agents".to_owned());
    labels.push("Terminal".to_owned());
    labels.push("Settings".to_owned());
    assert(texts(labels@) =~= seq!["Palette"@, "Find"@, "Agents"@, "Terminal"@, "Settings"@]);
    labels
}

impl Pages {
    /// The pages with the agents open at their top.
    pub open spec fn with_agents(self, sessions: Vec<SessionSummary>) -> Pages {
        Pages {
            page: Page::Agents,
            agents: AgentsPage { sessions, scroll: 0, ..self.agents },
            ..self
        }
    }

    /// The pages with the agents open where they were.
    pub open spec fn with_agents_again(self, sessions: Vec<SessionSummary>) -> Pages {
        Pages { page: Page::Agents, agents: AgentsPage { sessions, ..self.agents }, ..self }
    }

    /// The pages with the older sessions shown where they were not, and the other way round.
    pub open spec fn with_older_switched(self) -> Pages {
        Pages { agents: AgentsPage { expanded: !self.agents.expanded, ..self.agents }, ..self }
    }

    /// The pages with a thread open at its end.
    pub open spec fn with_thread(self, title: String, rows: Vec<(String, String)>) -> Pages {
        Pages {
            page: Page::AgentThread,
            agents: AgentsPage {
                thread: rows,
                thread_title: title,
                thread_scroll: if rows@.len() > 0 {
                    (rows@.len() - 1) as usize
                } else {
                    0
                },
                ..self.agents
            },
            ..self
        }
    }
}

/// The agents open at their top and are read again where they are; showing the older sessions and
/// then no more changes nothing.
pub proof fn agents_are_read_again_in_place(p: Pages, a: Vec<SessionSummary>, b: Vec<SessionSummary>)
    ensures
        p.with_agents(a).with_agents(b) == p.with_agents(b),
        p.with_agents_again(a).with_agents_again(b) == p.with_agents_again(b),
        p.with_agents(a).with_agents_again(b) == p.with_agents(b),
        p.with_agents(a).agents.scroll == 0,
        p.with_agents_again(a).agents.scroll == p.agents.scroll,
        p.with_agents_again(a).agents.expanded == p.agents.expanded,
        p.with_agents(a).page is Agents && p.with_agents_again(a).page is Agents,
        p.with_agents_again(a).agents.sessions == a && p.with_agents(a).agents.sessions == a,
        p.with_older_switched().with_older_switched() == p,
        p.with_older_switched().agents.expanded != p.agents.expanded,
        p.with_older_switched().page == p.page,
{
}

/// An opened thread shows its last row, and the list of the agents behind it stays where it was.
pub proof fn threads_open_at_their_end(p: Pages, title: String, rows: Vec<(String, String)>)
    requires
        rows@.len() <= usize::MAX,
    ensures
        ({
            let q = p.with_thread(title, rows);
            &&& q.page is AgentThread
            &&& q.agents.thread == rows && q.agents.thread_title == title
            &&& rows@.len() > 0 ==> q.agents.thread_scroll + 1 == rows@.len()
            &&& q.agents.scroll == p.agents.scroll && q.agents.sessions == p.agents.sessions
            &&& q.agents.expanded == p.agents.expanded && q.agents.prompt == p.agents.prompt
            &&& q.with_agents_again(p.agents.sessions).agents.scroll == p.agents.scroll
        }),
{
}

} // verus!
