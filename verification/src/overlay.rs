//! The pages over the editor: which one is open, and what it shows.

use vstd::prelude::*;
use crate::agent_rpc::AgentLiveState;
use crate::agents::SessionSummary;
use crate::config::Config;
use crate::daemon::{below, path_below};
use crate::dashboard::{agents_page, agents_row_model, live_rows, live_view, AgentsRow};
use crate::features::{Feature, FeatureRegistry};
use crate::lists::{held, in_view, row_views, the_selection_is_in_view, view_of};
use crate::number::{decimal, decimal_text};
use crate::palette::Palette;
use crate::pickers::{SearchPage, SshPicker};
use crate::settings::{adjusted, linger_after, ExternalModule, ModulesPage};
use crate::terminal::Rgb;
use crate::text::{chars_of, push_text, string_of, text_of, texts, trim, trimmed};
use crate::words::{first_in_view, onoff, onoff_text};

verus! {

/// What the keyboard and the pointer act on.
#[derive(Clone, Copy, Debug, PartialEq, Eq, Structural)]
pub enum Page {
    Editor,
    Palette,
    Settings,
    Modules,
    Help,
    GotoLine,
    SshPicker,
    Agents,
    AgentPrompt,
    AgentThread,
    RemoteHost,
    RemotePath,
    Search,
}

/// What a page shows: a title, an input, rows in two columns that share the width by per cent,
/// the row that is selected, and a hint.
#[derive(Debug)]
pub struct OverlaySpec {
    pub title: Option<String>,
    pub input: Option<String>,
    pub rows: Vec<(String, String)>,
    pub left_color: Rgb,
    pub right_color: Rgb,
    pub split_percent: u32,
    pub selected: Option<usize>,
    pub hint: Option<String>,
}

/// What an [`OverlaySpec`] says.
pub struct Overlay {
    pub title: Option<Seq<char>>,
    pub input: Option<Seq<char>>,
    pub rows: Seq<(Seq<char>, Seq<char>)>,
    pub left_color: Rgb,
    pub right_color: Rgb,
    pub split_percent: u32,
    pub selected: Option<usize>,
    pub hint: Option<Seq<char>>,
}

impl View for OverlaySpec {
    type V = Overlay;

    open spec fn view(&self) -> Overlay {
        Overlay {
            title: text_of(self.title),
            input: text_of(self.input),
            rows: row_views(self.rows@),
            left_color: self.left_color,
            right_color: self.right_color,
            split_percent: self.split_percent,
            selected: self.selected,
            hint: text_of(self.hint),
        }
    }
}

/// A grey of this brightness in red and green, and a little more or less in blue.
pub open spec fn tone(r: u8, g: u8, b: u8) -> Rgb {
    Rgb { r, g, b }
}

fn rgb(r: u8, g: u8, b: u8) -> (c: Rgb)
    ensures
        c == tone(r, g, b),
{
    Rgb { r, g, b }
}

/// The rows `from..to` of a list.
pub open spec fn rows_in(rows: Seq<(Seq<char>, Seq<char>)>, view: (int, int)) -> Seq<(Seq<char>, Seq<char>)> {
    rows.subrange(view.0, view.1)
}

/// The selected row among those in view, where there are rows.
pub open spec fn selected_in(sel: int, n: int, cap: int) -> Option<usize> {
    if n == 0 {
        None
    } else {
        Some((held(sel, n) - first_in_view(sel, n, cap)) as usize)
    }
}

fn two(a: &str, b: &str) -> (r: String)
    ensures
        r@ == a@ + b@,
{
    let mut out = a.to_owned();
    push_text(&mut out, b);
    out
}

fn three(a: &str, b: &str, c: &str) -> (r: String)
    ensures
        r@ == a@ + b@ + c@,
{
    let mut out = a.to_owned();
    push_text(&mut out, b);
    push_text(&mut out, c);
    out
}

// --- the palette ---

/// The rows that the palette lists: titles and chords.
pub open spec fn palette_rows(p: Palette) -> Seq<(Seq<char>, Seq<char>)> {
    Seq::new(
        p.filtered@.len(),
        |i: int|
            (
                p.items@[p.filtered@[i] as int].title@,
                p.items@[p.filtered@[i] as int].keybinding@,
            ),
    )
}

/// What the palette shows.
pub open spec fn palette_page(p: Palette, cap: int) -> Overlay {
    let n = p.filtered@.len() as int;
    Overlay {
        title: None,
        input: Some("> "@ + p.query@),
        rows: rows_in(palette_rows(p), in_view(p.sel as int, n, cap)),
        left_color: tone(225, 225, 230),
        right_color: tone(135, 135, 150),
        split_percent: 62,
        selected: selected_in(p.sel as int, n, cap),
        hint: Some(
            decimal(n as nat)
                + " commands  \u{2014}  \u{2191}\u{2193} select \u{2022} Enter run \u{2022} Esc close"@,
        ),
    }
}

/// What the palette shows where `cap` rows fit.
pub fn build_palette(p: &Palette, cap: usize) -> (r: OverlaySpec)
    requires
        p.wf(),
        cap > 0,
    ensures
        r@ == palette_page(*p, cap as int),
{
    let n = p.filtered.len();
    let (start, end, selected) = view_of(p.sel, n, cap);
    let ghost all = palette_rows(*p);
    let mut rows: Vec<(String, String)> = Vec::new();
    let mut i: usize = start;
    assert(row_views(rows@) =~= all.subrange(start as int, start as int));
    while i < end
        invariant
            p.wf(),
            all == palette_rows(*p),
            start <= i <= end <= p.filtered@.len(),
            row_views(rows@) == all.subrange(start as int, i as int),
        decreases end - i,
    {
        let ghost before = row_views(rows@);
        let c = &p.items[p.filtered[i]];
        rows.push((c.title.clone(), c.keybinding.clone()));
        assert(row_views(rows@) =~= before.push(all[i as int]));
        assert(all.subrange(start as int, i + 1) =~= all.subrange(start as int, i as int).push(
            all[i as int],
        ));
        i += 1;
    }
    OverlaySpec {
        title: None,
        input: Some(two("> ", &p.query)),
        rows,
        left_color: rgb(225, 225, 230),
        right_color: rgb(135, 135, 150),
        split_percent: 62,
        selected,
        hint: Some(
            two(
                &decimal_text(n as u64),
                " commands  \u{2014}  \u{2191}\u{2193} select \u{2022} Enter run \u{2022} Esc close",
            ),
        ),
    }
}

// --- help ---

/// The rows of the help page: titles and chords, a dash where there is none.
pub open spec fn help_rows(p: Palette) -> Seq<(Seq<char>, Seq<char>)> {
    Seq::new(
        p.items@.len(),
        |i: int|
            (
                p.items@[i].title@,
                if p.items@[i].keybinding@.len() == 0 {
                    "\u{2014}"@
                } else {
                    p.items@[i].keybinding@
                },
            ),
    )
}

/// What the help page shows.
pub open spec fn help_page(p: Palette, scroll: int, cap: int) -> Overlay {
    let n = p.items@.len() as int;
    let start = held(scroll, n);
    Overlay {
        title: Some("Keyboard Shortcuts & Commands"@),
        input: None,
        rows: rows_in(
            help_rows(p),
            (
                start,
                if start + cap < n {
                    start + cap
                } else {
                    n
                },
            ),
        ),
        left_color: tone(225, 225, 230),
        right_color: tone(200, 170, 110),
        split_percent: 62,
        selected: None,
        hint: Some(
            decimal(n as nat) + " commands \u{2014} \u{2191}\u{2193} scroll \u{2022} Esc close"@,
        ),
    }
}

/// What the help page shows where `cap` rows fit.
pub fn build_help(p: &Palette, scroll: usize, cap: usize) -> (r: OverlaySpec)
    ensures
        r@ == help_page(*p, scroll as int, cap as int),
{
    let n = p.items.len();
    let start: usize = if n == 0 {
        0
    } else if scroll < n {
        scroll
    } else {
        n - 1
    };
    let end: usize = if cap < n - start {
        start + cap
    } else {
        n
    };
    let ghost all = help_rows(*p);
    let mut rows: Vec<(String, String)> = Vec::new();
    let mut i: usize = start;
    assert(row_views(rows@) =~= all.subrange(start as int, start as int));
    while i < end
        invariant
            all == help_rows(*p),
            start <= i <= end <= p.items@.len(),
            row_views(rows@) == all.subrange(start as int, i as int),
        decreases end - i,
    {
        let ghost before = row_views(rows@);
        let c = &p.items[i];
        let key = if c.keybinding.as_str().is_empty() {
            "\u{2014}".to_owned()
        } else {
            c.keybinding.clone()
        };
        rows.push((c.title.clone(), key));
        assert(row_views(rows@) =~= before.push(all[i as int]));
        assert(all.subrange(start as int, i + 1) =~= all.subrange(start as int, i as int).push(
            all[i as int],
        ));
        i += 1;
    }
    OverlaySpec {
        title: Some("Keyboard Shortcuts & Commands".to_owned()),
        input: None,
        rows,
        left_color: rgb(225, 225, 230),
        right_color: rgb(200, 170, 110),
        split_percent: 62,
        selected: None,
        hint: Some(
            two(
                &decimal_text(n as u64),
                " commands \u{2014} \u{2191}\u{2193} scroll \u{2022} Esc close",
            ),
        ),
    }
}

// --- go to line ---

/// What the line prompt shows.
pub open spec fn goto_page(input: Seq<char>, lines: nat) -> Overlay {
    Overlay {
        title: None,
        input: Some("Go to line: "@ + input),
        rows: Seq::empty(),
        left_color: tone(225, 225, 230),
        right_color: tone(135, 135, 150),
        split_percent: 62,
        selected: None,
        hint: Some("1\u{2013}"@ + decimal(lines) + " \u{2014} Enter jump \u{2022} Esc cancel"@),
    }
}

/// What the line prompt shows for a text of `lines` lines.
pub fn build_goto(input: &str, lines: usize) -> (r: OverlaySpec)
    ensures
        r@ == goto_page(input@, lines as nat),
{
    let rows: Vec<(String, String)> = Vec::new();
    assert(row_views(rows@) =~= Seq::empty());
    OverlaySpec {
        title: None,
        input: Some(two("Go to line: ", input)),
        rows,
        left_color: rgb(225, 225, 230),
        right_color: rgb(135, 135, 150),
        split_percent: 62,
        selected: None,
        hint: Some(
            three("1\u{2013}", &decimal_text(lines as u64), " \u{2014} Enter jump \u{2022} Esc cancel"),
        ),
    }
}

// --- the SSH picker ---

/// The rows of the picker: the hosts it shows.
pub open spec fn ssh_rows(p: SshPicker) -> Seq<(Seq<char>, Seq<char>)> {
    Seq::new(
        p.filtered@.len(),
        |i: int| (p.hosts@[p.filtered@[i] as int]@, "~/.ssh/config"@),
    )
}

/// What the picker shows.
pub open spec fn ssh_page(p: SshPicker, cap: int) -> Overlay {
    let n = p.filtered@.len() as int;
    Overlay {
        title: None,
        input: Some("ssh> "@ + p.input@),
        rows: rows_in(ssh_rows(p), in_view(p.sel as int, n, cap)),
        left_color: tone(225, 225, 230),
        right_color: tone(135, 135, 150),
        split_percent: 70,
        selected: selected_in(p.sel as int, n, cap),
        hint: Some("Enter connect (selected or typed host) \u{2022} Esc cancel"@),
    }
}

/// What the picker shows where `cap` rows fit.
pub fn build_ssh(p: &SshPicker, cap: usize) -> (r: OverlaySpec)
    requires
        p.wf(),
        cap > 0,
    ensures
        r@ == ssh_page(*p, cap as int),
{
    let n = p.filtered.len();
    let (start, end, selected) = view_of(p.sel, n, cap);
    let ghost all = ssh_rows(*p);
    let mut rows: Vec<(String, String)> = Vec::new();
    let mut i: usize = start;
    assert(row_views(rows@) =~= all.subrange(start as int, start as int));
    while i < end
        invariant
            p.wf(),
            all == ssh_rows(*p),
            start <= i <= end <= p.filtered@.len(),
            row_views(rows@) == all.subrange(start as int, i as int),
        decreases end - i,
    {
        let ghost before = row_views(rows@);
        rows.push((p.hosts[p.filtered[i]].clone(), "~/.ssh/config".to_owned()));
        assert(row_views(rows@) =~= before.push(all[i as int]));
        assert(all.subrange(start as int, i + 1) =~= all.subrange(start as int, i as int).push(
            all[i as int],
        ));
        i += 1;
    }
    OverlaySpec {
        title: None,
        input: Some(two("ssh> ", &p.input)),
        rows,
        left_color: rgb(225, 225, 230),
        right_color: rgb(135, 135, 150),
        split_percent: 70,
        selected,
        hint: Some("Enter connect (selected or typed host) \u{2022} Esc cancel".to_owned()),
    }
}

// --- agents ---

/// The agents page: the sessions, the row selected, whether the older ones are shown, what is
/// typed for the attached agent, and the thread that is open.
pub struct AgentsPage {
    pub sessions: Vec<SessionSummary>,
    pub scroll: usize,
    pub expanded: bool,
    pub prompt: String,
    pub thread: Vec<(String, String)>,
    pub thread_title: String,
    pub thread_scroll: usize,
}

fn copy_rows(all: &Vec<(String, String)>, start: usize, end: usize) -> (r: Vec<(String, String)>)
    requires
        start <= end <= all@.len(),
    ensures
        row_views(r@) == row_views(all@).subrange(start as int, end as int),
{
    let mut rows: Vec<(String, String)> = Vec::new();
    let ghost vs = row_views(all@);
    let mut i: usize = start;
    assert(row_views(rows@) =~= vs.subrange(start as int, start as int));
    while i < end
        invariant
            vs == row_views(all@),
            start <= i <= end <= all@.len(),
            row_views(rows@) == vs.subrange(start as int, i as int),
        decreases end - i,
    {
        let ghost before = row_views(rows@);
        rows.push((all[i].0.clone(), all[i].1.clone()));
        assert(row_views(rows@) =~= before.push(vs[i as int]));
        assert(vs.subrange(start as int, i + 1) =~= vs.subrange(start as int, i as int).push(vs[i as int]));
        i += 1;
    }
    rows
}

/// The rows of a page of which each is something.
pub open spec fn rows_of(page: Seq<((Seq<char>, Seq<char>), AgentsRow)>) -> Seq<(Seq<char>, Seq<char>)> {
    Seq::new(page.len(), |i: int| page[i].0)
}

/// What the agents page shows; a heading is not shown as selected.
pub open spec fn agents_overlay(page: Seq<((Seq<char>, Seq<char>), AgentsRow)>, scroll: int, cap: int) -> Overlay {
    let n = page.len() as int;
    Overlay {
        title: Some("Agents"@),
        input: None,
        rows: rows_in(rows_of(page), in_view(scroll, n, cap)),
        left_color: tone(225, 225, 230),
        right_color: tone(200, 170, 110),
        split_percent: 52,
        selected: if n == 0 || page[held(scroll, n)].1 is Header {
            None
        } else {
            selected_in(scroll, n, cap)
        },
        hint: Some(
            "click/Enter open thread \u{2022} h history \u{2022} n new \u{2022} p prompt \u{2022} a abort \u{2022} k kill \u{2022} r refresh \u{2022} Esc"@,
        ),
    }
}

/// What the agents page shows where `cap` rows fit.
pub fn build_agents(p: &AgentsPage, live: Option<&AgentLiveState>, home: &str, cap: usize) -> (r: OverlaySpec)
    requires
        cap > 0,
    ensures
        r@ == agents_overlay(
            agents_page(p.sessions@, live_view(live), p.expanded, home@),
            p.scroll as int,
            cap as int,
        ),
{
    let (all, model) = agents_row_model(&p.sessions, live, p.expanded, home);
    let ghost page = agents_page(p.sessions@, live_view(live), p.expanded, home@);
    let n = all.len();
    assert(page.len() == n);
    assert(rows_of(page) =~= row_views(all@));
    let (start, end, selected) = view_of(p.scroll, n, cap);
    let chosen = if n == 0 {
        None
    } else {
        let at: usize = if p.scroll < n {
            p.scroll
        } else {
            n - 1
        };
        assert(page[at as int].1 == model@[at as int]);
        match model[at] {
            AgentsRow::Header => None,
            _ => selected,
        }
    };
    OverlaySpec {
        title: Some("Agents".to_owned()),
        input: None,
        rows: copy_rows(&all, start, end),
        left_color: rgb(225, 225, 230),
        right_color: rgb(200, 170, 110),
        split_percent: 52,
        selected: chosen,
        hint: Some(
            "click/Enter open thread \u{2022} h history \u{2022} n new \u{2022} p prompt \u{2022} a abort \u{2022} k kill \u{2022} r refresh \u{2022} Esc".to_owned(),
        ),
    }
}

/// What a thread shows.
pub open spec fn thread_overlay(title: Seq<char>, rows: Seq<(Seq<char>, Seq<char>)>, scroll: int, cap: int) -> Overlay {
    Overlay {
        title: Some(title),
        input: None,
        rows: rows_in(rows, in_view(scroll, rows.len() as int, cap)),
        left_color: tone(225, 225, 230),
        right_color: tone(150, 143, 130),
        split_percent: 85,
        selected: None,
        hint: Some("\u{2191}\u{2193}/wheel scroll \u{2022} Esc back to agents"@),
    }
}

/// What the open thread shows where `cap` rows fit.
pub fn build_thread(p: &AgentsPage, cap: usize) -> (r: OverlaySpec)
    requires
        cap > 0,
    ensures
        r@ == thread_overlay(p.thread_title@, row_views(p.thread@), p.thread_scroll as int, cap as int),
{
    let (start, end, _) = view_of(p.thread_scroll, p.thread.len(), cap);
    OverlaySpec {
        title: Some(p.thread_title.clone()),
        input: None,
        rows: copy_rows(&p.thread, start, end),
        left_color: rgb(225, 225, 230),
        right_color: rgb(150, 143, 130),
        split_percent: 85,
        selected: None,
        hint: Some("\u{2191}\u{2193}/wheel scroll \u{2022} Esc back to agents".to_owned()),
    }
}

/// What the prompt for the attached agent shows.
pub open spec fn prompt_overlay(input: Seq<char>, live: Option<Seq<(Seq<char>, Seq<char>)>>) -> Overlay {
    Overlay {
        title: None,
        input: Some("prompt> "@ + input),
        rows: match live {
            Some(rows) => rows,
            None => Seq::empty(),
        },
        left_color: tone(225, 225, 230),
        right_color: tone(200, 170, 110),
        split_percent: 62,
        selected: None,
        hint: Some("Enter send (steer if running) \u{2022} Esc back"@),
    }
}

/// What the prompt for the attached agent shows.
pub fn build_prompt(input: &str, live: Option<&AgentLiveState>) -> (r: OverlaySpec)
    ensures
        r@ == prompt_overlay(input@, live_view(live)),
{
    let rows = match live {
        Some(l) => live_rows(l),
        None => {
            let none: Vec<(String, String)> = Vec::new();
            assert(row_views(none@) =~= Seq::empty());
            none
        },
    };
    OverlaySpec {
        title: None,
        input: Some(two("prompt> ", input)),
        rows,
        left_color: rgb(225, 225, 230),
        right_color: rgb(200, 170, 110),
        split_percent: 62,
        selected: None,
        hint: Some("Enter send (steer if running) \u{2022} Esc back".to_owned()),
    }
}

// --- remote files ---

/// What the prompt for a remote host shows: it lists the first hosts of the configuration.
pub open spec fn host_overlay(input: Seq<char>, hosts: Seq<Seq<char>>) -> Overlay {
    Overlay {
        title: Some("Remote workspace \u{2014} SSH host"@),
        input: Some("host> "@ + input),
        rows: Seq::new(
            (if hosts.len() < 8 {
                hosts.len() as int
            } else {
                8
            }) as nat,
            |i: int| (hosts[i], "~/.ssh/config"@),
        ),
        left_color: tone(225, 225, 230),
        right_color: tone(135, 135, 150),
        split_percent: 70,
        selected: None,
        hint: Some("type a host (runs `ssh <host> umberd`) \u{2022} Enter next \u{2022} Esc"@),
    }
}

/// What the prompt for a remote host shows.
pub fn build_host(input: &str, hosts: &Vec<String>) -> (r: OverlaySpec)
    ensures
        r@ == host_overlay(input@, texts(hosts@)),
{
    let n: usize = if hosts.len() < 8 {
        hosts.len()
    } else {
        8
    };
    let mut rows: Vec<(String, String)> = Vec::new();
    for i in 0..n
        invariant
            n <= hosts@.len(),
            row_views(rows@) == Seq::new(i as nat, |k: int| (texts(hosts@)[k], "~/.ssh/config"@)),
    {
        let ghost before = row_views(rows@);
        rows.push((hosts[i].clone(), "~/.ssh/config".to_owned()));
        assert(row_views(rows@) =~= before.push((texts(hosts@)[i as int], "~/.ssh/config"@)));
        assert(row_views(rows@) =~= Seq::new(
            (i + 1) as nat,
            |k: int| (texts(hosts@)[k], "~/.ssh/config"@),
        ));
    }
    assert(row_views(rows@) =~= host_overlay(input@, texts(hosts@)).rows);
    OverlaySpec {
        title: Some("Remote workspace \u{2014} SSH host".to_owned()),
        input: Some(two("host> ", input)),
        rows,
        left_color: rgb(225, 225, 230),
        right_color: rgb(135, 135, 150),
        split_percent: 70,
        selected: None,
        hint: Some(
            "type a host (runs `ssh <host> umberd`) \u{2022} Enter next \u{2022} Esc".to_owned(),
        ),
    }
}

/// What the prompt for a remote file shows.
pub open spec fn path_overlay(host: Seq<char>, input: Seq<char>) -> Overlay {
    Overlay {
        title: Some("Remote file on "@ + trimmed(host)),
        input: Some("path> "@ + input),
        rows: Seq::empty(),
        left_color: tone(225, 225, 230),
        right_color: tone(135, 135, 150),
        split_percent: 62,
        selected: None,
        hint: Some("Enter open (daemon-relative path) \u{2022} Esc cancel"@),
    }
}

/// What the prompt for a remote file shows.
pub fn build_path(host: &str, input: &str) -> (r: OverlaySpec)
    ensures
        r@ == path_overlay(host@, input@),
{
    let rows: Vec<(String, String)> = Vec::new();
    assert(row_views(rows@) =~= Seq::empty());
    let cs = chars_of(host);
    OverlaySpec {
        title: Some(two("Remote file on ", &string_of(trim(&cs)))),
        input: Some(two("path> ", input)),
        rows,
        left_color: rgb(225, 225, 230),
        right_color: rgb(135, 135, 150),
        split_percent: 62,
        selected: None,
        hint: Some("Enter open (daemon-relative path) \u{2022} Esc cancel".to_owned()),
    }
}

// --- search ---

/// The rows of the search page: the lines found, with the files below the root and their lines.
pub open spec fn search_rows(p: SearchPage, root: Seq<char>) -> Seq<(Seq<char>, Seq<char>)> {
    Seq::new(
        p.results@.len(),
        |i: int|
            (
                p.results@[i].text@,
                below(p.results@[i].path@, root) + ":"@ + decimal(p.results@[i].line as nat),
            ),
    )
}

/// What the search page shows.
pub open spec fn search_overlay(p: SearchPage, root: Seq<char>, cap: int) -> Overlay {
    let n = p.results@.len() as int;
    Overlay {
        title: None,
        input: Some("search> "@ + p.input@),
        rows: rows_in(search_rows(p, root), in_view(p.sel as int, n, cap)),
        left_color: tone(220, 220, 225),
        right_color: tone(150, 150, 165),
        split_percent: 66,
        selected: selected_in(p.sel as int, n, cap),
        hint: Some(
            decimal(n as nat)
                + " matches \u{2014} \u{2191}\u{2193} select \u{2022} Enter open \u{2022} Esc close"@,
        ),
    }
}

/// What the search page shows where `cap` rows fit; the files are shown below `root`.
pub fn build_search(p: &SearchPage, root: &str, cap: usize) -> (r: OverlaySpec)
    requires
        cap > 0,
    ensures
        r@ == search_overlay(*p, root@, cap as int),
{
    let n = p.results.len();
    let (start, end, selected) = view_of(p.sel, n, cap);
    let ghost all = search_rows(*p, root@);
    let mut rows: Vec<(String, String)> = Vec::new();
    let mut i: usize = start;
    assert(row_views(rows@) =~= all.subrange(start as int, start as int));
    while i < end
        invariant
            all == search_rows(*p, root@),
            start <= i <= end <= p.results@.len(),
            row_views(rows@) == all.subrange(start as int, i as int),
        decreases end - i,
    {
        let ghost before = row_views(rows@);
        let m = &p.results[i];
        let at = three(&path_below(&m.path, root), ":", &decimal_text(m.line as u64));
        rows.push((m.text.clone(), at));
        assert(row_views(rows@) =~= before.push(all[i as int]));
        assert(all.subrange(start as int, i + 1) =~= all.subrange(start as int, i as int).push(
            all[i as int],
        ));
        i += 1;
    }
    OverlaySpec {
        title: None,
        input: Some(two("search> ", &p.input)),
        rows,
        left_color: rgb(220, 220, 225),
        right_color: rgb(150, 150, 165),
        split_percent: 66,
        selected,
        hint: Some(
            two(
                &decimal_text(n as u64),
                " matches \u{2014} \u{2191}\u{2193} select \u{2022} Enter open \u{2022} Esc close",
            ),
        ),
    }
}

// --- settings ---

/// What the settings page shows, `font` and `line` being the texts of the font size and the line
/// height.
pub open spec fn settings_overlay(c: Config, font: Seq<char>, line: Seq<char>, sel: usize) -> Overlay {
    Overlay {
        title: Some("Preferences \u{2014} Settings"@),
        input: None,
        rows: seq![
            ("Font size (px)"@, font),
            ("Line height (px)"@, line),
            ("Scrollbar linger (ms)"@, decimal(c.scrollbar_linger_ms as nat)),
            ("Line-number gutter"@, onoff_text(c.gutter)),
            ("Overlay scrollbar"@, onoff_text(c.scrollbar)),
            ("Latency HUD"@, onoff_text(c.latency_hud)),
            ("Open terminal"@, "\u{2192} Ctrl+J"@),
        ],
        left_color: tone(150, 150, 162),
        right_color: tone(228, 228, 234),
        split_percent: 50,
        selected: Some(sel),
        hint: Some(
            "\u{2191}\u{2193} select \u{2022} \u{2190}/\u{2192} or +/- adjust \u{2022} Enter toggle \u{2022} Esc save & close"@,
        ),
    }
}

/// What the settings page shows.
pub fn build_settings(c: &Config, font: &str, line: &str, sel: usize) -> (r: OverlaySpec)
    ensures
        r@ == settings_overlay(*c, font@, line@, sel),
{
    let mut rows: Vec<(String, String)> = Vec::new();
    rows.push(("Font size (px)".to_owned(), font.to_owned()));
    rows.push(("Line height (px)".to_owned(), line.to_owned()));
    rows.push(("Scrollbar linger (ms)".to_owned(), decimal_text(c.scrollbar_linger_ms)));
    rows.push(("Line-number gutter".to_owned(), onoff(c.gutter)));
    rows.push(("Overlay scrollbar".to_owned(), onoff(c.scrollbar)));
    rows.push(("Latency HUD".to_owned(), onoff(c.latency_hud)));
    rows.push(("Open terminal".to_owned(), "\u{2192} Ctrl+J".to_owned()));
    assert(row_views(rows@) =~= settings_overlay(*c, font@, line@, sel).rows);
    OverlaySpec {
        title: Some("Preferences \u{2014} Settings".to_owned()),
        input: None,
        rows,
        left_color: rgb(150, 150, 162),
        right_color: rgb(228, 228, 234),
        split_percent: 50,
        selected: Some(sel),
        hint: Some(
            "\u{2191}\u{2193} select \u{2022} \u{2190}/\u{2192} or +/- adjust \u{2022} Enter toggle \u{2022} Esc save & close".to_owned(),
        ),
    }
}

// --- modules ---

/// Whether something is on, in a column of three characters.
pub open spec fn state_text(on: bool) -> Seq<char> {
    if on {
        "ON "@
    } else {
        "OFF"@
    }
}

/// The row of a feature.
pub open spec fn feature_row(f: Feature) -> (Seq<char>, Seq<char>) {
    (
        f.name@,
        state_text(f.enabled) + "  \u{2022}  "@ + f.description@ + (if f.removable {
            Seq::empty()
        } else {
            "  [kernel]"@
        }),
    )
}

/// The row of a module.
pub open spec fn module_row(m: ExternalModule) -> (Seq<char>, Seq<char>) {
    let state = state_text(m.loaded) + "  \u{2022}  [module"@;
    (
        m.name@,
        match m.manifest {
            Err(e) => state + "] parse error: "@ + e@,
            Ok(man) => {
                let known = state + " "@ + man.kind.spelling() + "] "@ + man.permissions.summed_up();
                match m.error {
                    Some(err) => known + " \u{2014} error: "@ + err@,
                    None => known,
                }
            },
        },
    )
}

/// The rows of the modules page: the features and then the modules.
pub open spec fn module_rows(fs: Seq<Feature>, ms: Seq<ExternalModule>) -> Seq<(Seq<char>, Seq<char>)> {
    Seq::new(fs.len(), |i: int| feature_row(fs[i])) + Seq::new(ms.len(), |i: int| module_row(ms[i]))
}

/// What the modules page shows.
pub open spec fn modules_overlay(p: ModulesPage, fs: Seq<Feature>) -> Overlay {
    Overlay {
        title: Some("Modules \u{2014} Manage"@),
        input: None,
        rows: module_rows(fs, p.modules@),
        left_color: tone(225, 225, 230),
        right_color: tone(150, 150, 162),
        split_percent: 30,
        selected: Some(p.sel),
        hint: Some(
            match p.hint {
                Some(h) => h@,
                None => "\u{2191}\u{2193} select \u{2022} Enter toggle \u{2022} Esc save & close"@,
            },
        ),
    }
}

fn show_on(on: bool) -> (r: &'static str)
    ensures
        r@ == state_text(on),
{
    if on {
        "ON "
    } else {
        "OFF"
    }
}

fn show_feature(f: &Feature) -> (r: (String, String))
    ensures
        (r.0@, r.1@) == feature_row(*f),
{
    let mut right = show_on(f.enabled).to_owned();
    push_text(&mut right, "  \u{2022}  ");
    push_text(&mut right, f.description);
    if !f.removable {
        push_text(&mut right, "  [kernel]");
    }
    assert(f.removable ==> right@ =~= feature_row(*f).1);
    (f.name.to_owned(), right)
}

fn show_module(m: &ExternalModule) -> (r: (String, String))
    ensures
        (r.0@, r.1@) == module_row(*m),
{
    let mut right = show_on(m.loaded).to_owned();
    push_text(&mut right, "  \u{2022}  [module");
    match &m.manifest {
        Err(e) => {
            push_text(&mut right, "] parse error: ");
            push_text(&mut right, e);
        },
        Ok(man) => {
            push_text(&mut right, " ");
            push_text(&mut right, man.kind.as_str());
            push_text(&mut right, "] ");
            push_text(&mut right, &man.permissions.summary());
            if let Some(err) = &m.error {
                push_text(&mut right, " \u{2014} error: ");
                push_text(&mut right, err);
            }
        },
    }
    (m.name.clone(), right)
}

/// What the modules page shows.
pub fn build_modules(p: &ModulesPage, features: &FeatureRegistry) -> (r: OverlaySpec)
    ensures
        r@ == modules_overlay(*p, features@),
{
    let mut rows: Vec<(String, String)> = Vec::new();
    let fs = features.features();
    let ghost goal = module_rows(features@, p.modules@);
    assert(row_views(rows@) =~= goal.take(0));
    for i in 0..fs.len()
        invariant
            fs@ == features@,
            goal == module_rows(features@, p.modules@),
            row_views(rows@) == goal.take(i as int),
    {
        let ghost before = row_views(rows@);
        rows.push(show_feature(&fs[i]));
        assert(row_views(rows@) =~= before.push(goal[i as int]));
        assert(goal.take(i + 1) =~= goal.take(i as int).push(goal[i as int]));
    }
    let n = fs.len();
    for i in 0..p.modules.len()
        invariant
            n == features@.len(),
            goal == module_rows(features@, p.modules@),
            row_views(rows@) == goal.take(n + i),
    {
        let ghost before = row_views(rows@);
        rows.push(show_module(&p.modules[i]));
        assert(row_views(rows@) =~= before.push(goal[n + i]));
        assert(goal.take(n + i + 1) =~= goal.take(n + i).push(goal[n + i]));
    }
    assert(goal.take(goal.len() as int) =~= goal);
    let hint = match &p.hint {
        Some(h) => h.clone(),
        None => "\u{2191}\u{2193} select \u{2022} Enter toggle \u{2022} Esc save & close".to_owned(),
    };
    OverlaySpec {
        title: Some("Modules \u{2014} Manage".to_owned()),
        input: None,
        rows,
        left_color: rgb(225, 225, 230),
        right_color: rgb(150, 150, 162),
        split_percent: 30,
        selected: Some(p.sel),
        hint: Some(hint),
    }
}

/// A step of a setting shows in its own row and in no other; a switch that was on is shown as off.
pub proof fn steps_show_in_their_row(c: Config, sel: int, up: bool, font: Seq<char>, line: Seq<char>, row: int)
    requires
        2 <= sel < 6,
        0 <= row < 7,
    ensures
        ({
            let before = settings_overlay(c, font, line, 0).rows;
            let after = settings_overlay(adjusted(c, sel, up, 0), font, line, 0).rows;
            &&& before.len() == 7
            &&& row != sel ==> after[row] == before[row]
            &&& after[row].0 == before[row].0
            &&& sel > 2 ==> after[sel].1 != before[sel].1
            &&& sel == 2 ==> after[sel].1 == decimal(linger_after(c.scrollbar_linger_ms as int, up) as nat)
            &&& before[0].1 == font && before[1].1 == line
        }),
{
    reveal_strlit("ON");
    reveal_strlit("OFF");
    assert("ON"@.len() != "OFF"@.len());
}

/// Whether what a page shows in its input ends with a text.
pub open spec fn shows_typed(o: Overlay, typed: Seq<char>) -> bool {
    o.input matches Some(shown) && shown.len() > typed.len() && shown.skip(shown.len() - typed.len()) == typed
}

/// What is typed on a page is shown behind what asks for it.
pub proof fn inputs_show_what_is_typed(
    p: Palette,
    ssh: SshPicker,
    search: SearchPage,
    typed: Seq<char>,
    host: Seq<char>,
    hosts: Seq<Seq<char>>,
    live: Option<Seq<(Seq<char>, Seq<char>)>>,
    root: Seq<char>,
    lines: nat,
    cap: int,
)
    ensures
        shows_typed(palette_page(p, cap), p.query@),
        shows_typed(goto_page(typed, lines), typed),
        shows_typed(ssh_page(ssh, cap), ssh.input@),
        shows_typed(prompt_overlay(typed, live), typed),
        shows_typed(host_overlay(typed, hosts), typed),
        shows_typed(path_overlay(host, typed), typed),
        shows_typed(search_overlay(search, root, cap), search.input@),
{
    reveal_strlit("> ");
    reveal_strlit("Go to line: ");
    reveal_strlit("ssh> ");
    reveal_strlit("prompt> ");
    reveal_strlit("host> ");
    reveal_strlit("path> ");
    reveal_strlit("search> ");
    lemma_behind("> "@, p.query@);
    lemma_behind("Go to line: "@, typed);
    lemma_behind("ssh> "@, ssh.input@);
    lemma_behind("prompt> "@, typed);
    lemma_behind("host> "@, typed);
    lemma_behind("path> "@, typed);
    lemma_behind("search> "@, search.input@);
}

proof fn lemma_behind(a: Seq<char>, b: Seq<char>)
    ensures
        (a + b).skip((a + b).len() - b.len()) == b,
{
    assert((a + b).skip((a + b).len() - b.len()) =~= b);
}

/// The page of the modules lists the features and then the modules, each under its name; a feature that
/// is switched changes its own row and no other.
pub proof fn modules_are_listed_behind_the_features(
    p: ModulesPage,
    fs: Seq<Feature>,
    i: int,
    j: int,
    k: int,
    f: Feature,
)
    requires
        0 <= i < fs.len(),
        0 <= j < p.modules@.len(),
        0 <= k < fs.len(),
        f == (Feature { enabled: !fs[i].enabled, ..fs[i] }),
    ensures
        ({
            let rows = modules_overlay(p, fs).rows;
            let after = modules_overlay(p, fs.update(i, f)).rows;
            &&& rows.len() == fs.len() + p.modules@.len()
            &&& rows[i].0 == fs[i].name@
            &&& rows[fs.len() + j].0 == p.modules@[j].name@
            &&& fs[i].enabled <==> rows[i].1.take(3) == "ON "@
            &&& !fs[i].enabled <==> rows[i].1.take(3) == "OFF"@
            &&& p.modules@[j].loaded <==> rows[fs.len() + j].1.take(3) == "ON "@
            &&& after[i] != rows[i]
            &&& k != i ==> after[k] == rows[k]
            &&& after[fs.len() + j] == rows[fs.len() + j]
        }),
{
    reveal_strlit("ON ");
    reveal_strlit("OFF");
    assert("ON "@[1] == 'N' && "OFF"@[1] == 'F');
    let rows = modules_overlay(p, fs).rows;
    let after = modules_overlay(p, fs.update(i, f)).rows;
    assert(rows[i] == feature_row(fs[i]));
    assert(after[i] == feature_row(f));
    assert(rows[fs.len() + j] == module_row(p.modules@[j]));
    assert(after[fs.len() + j] == module_row(p.modules@[j]));
    lemma_states();
    let m = p.modules@[j];
    assert(feature_row(fs[i]).1.take(3) =~= state_text(fs[i].enabled));
    assert(feature_row(f).1.take(3) =~= state_text(f.enabled));
    assert(module_row(m).1.take(3) =~= state_text(m.loaded));
}

proof fn lemma_states()
    ensures
        state_text(true).len() == 3,
        state_text(false).len() == 3,
        state_text(true) != state_text(false),
{
    reveal_strlit("ON ");
    reveal_strlit("OFF");
    assert("ON "@[1] == 'N' && "OFF"@[1] == 'F');
}

/// Of the known hosts the first are offered, as many as there is room for.
pub proof fn the_first_hosts_are_offered(input: Seq<char>, hosts: Seq<Seq<char>>, i: int)
    requires
        0 <= i < hosts.len(),
        i < 8,
    ensures
        host_overlay(input, hosts).rows.len() == (if hosts.len() < 8 {
            hosts.len()
        } else {
            8
        }),
        host_overlay(input, hosts).rows[i].0 == hosts[i],
{
}

/// The help page lists every command with its chord, from the row that it is scrolled to.
pub proof fn help_lists_the_commands(p: Palette, scroll: int, cap: int, i: int)
    requires
        0 <= scroll <= i < p.items@.len(),
        i < scroll + cap,
    ensures
        ({
            let o = help_page(p, scroll, cap);
            &&& i - scroll < o.rows.len() <= cap
            &&& o.rows[i - scroll].0 == p.items@[i].title@
            &&& p.items@[i].keybinding@.len() > 0 ==> o.rows[i - scroll].1 == p.items@[i].keybinding@
            &&& p.items@[i].keybinding@.len() == 0 ==> o.rows[i - scroll].1 == "\u{2014}"@
        }),
{
}

/// A thread shows as many rows as fit, one after the other, and the row that it is scrolled to among
/// them.
pub proof fn threads_show_a_stretch(title: Seq<char>, rows: Seq<(Seq<char>, Seq<char>)>, scroll: int, cap: int, i: int)
    requires
        0 <= scroll < rows.len(),
        0 < cap,
        0 <= i < thread_overlay(title, rows, scroll, cap).rows.len(),
    ensures
        ({
            let o = thread_overlay(title, rows, scroll, cap);
            &&& o.rows[i] == rows[in_view(scroll, rows.len() as int, cap).0 + i]
            &&& o.rows.contains(rows[scroll])
            &&& o.rows.len() == (if rows.len() < cap {
                rows.len() as int
            } else {
                cap
            })
        }),
{
    let (from, to) = in_view(scroll, rows.len() as int, cap);
    the_selection_is_in_view(scroll, rows.len() as int, cap);
    let o = thread_overlay(title, rows, scroll, cap);
    assert(o.rows[scroll - from] == rows[scroll]);
}

} // verus!
