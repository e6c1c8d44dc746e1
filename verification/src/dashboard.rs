//! The agents page: the agent that is attached, the sessions on disk, and the thread of one.

use vstd::prelude::*;
use crate::agent_rpc::{AgentLiveState, AgentRunState};
use crate::agents::{age_text, fmt_age, fmt_tokens, said_views, tokens_text, SessionSummary, Summary};
use crate::lists::{bumped, row_views, PageKey};
use crate::number::{decimal, decimal_text};
use crate::text::{chars_of, lemma_trimmed_start, lemma_word_len, lines, push_chars, push_text, same, separated, split_lines, split_words, starts_with, string_of, text_of, to_chars, trim, trimmed, trimmed_start, views, word_len, words};

verus! {

/// A session counts as active when it was written to less than so many seconds ago.
pub const ACTIVE_SECS: u64 = 120;

/// What a row of the agents page is.
#[derive(Clone, Copy, Debug, PartialEq, Eq, Structural)]
pub enum AgentsRow {
    /// A heading.
    Header,
    /// The attached agent.
    Live,
    /// A session, at its place in the list.
    Session(usize),
    /// The row that shows or hides the older sessions.
    Expander,
}

// --- rows ---

/// A directory as it is shown: in short form below the home directory.
pub open spec fn short_dir(cwd: Seq<char>, home: Seq<char>) -> Seq<char> {
    if home.len() > 0 && home.is_prefix_of(cwd) {
        seq!['~'] + cwd.skip(home.len() as int)
    } else {
        cwd
    }
}

/// The row of a session.
pub open spec fn session_line(s: Summary, home: Seq<char>) -> (Seq<char>, Seq<char>) {
    (
        s.model + "  \u{2014}  "@ + short_dir(s.cwd, home),
        (if s.age_secs < ACTIVE_SECS {
            "\u{25cf} active"@
        } else {
            "idle"@
        }) + " \u{2022} "@ + age_text(s.age_secs) + " \u{2022} "@ + tokens_text(s.tokens_total as u64)
            + " tok \u{2022} "@ + decimal(s.messages) + " msgs"@,
    )
}

fn show_dir(cwd: &str, home: &str) -> (r: String)
    ensures
        r@ == short_dir(cwd@, home@),
{
    let c = chars_of(cwd);
    if !home.is_empty() && starts_with(&c, home) {
        let n = chars_of(home).len();
        let mut out = String::new();
        out.push('~');
        let rest = &c.as_slice()[n..c.len()];
        assert(rest@ =~= cwd@.skip(n as int));
        push_chars(&mut out, rest);
        assert(out@ =~= seq!['~'] + cwd@.skip(n as int));
        out
    } else {
        cwd.to_owned()
    }
}

/// The row of a session, `home` being the home directory.
pub fn session_row(s: &SessionSummary, home: &str) -> (r: (String, String))
    ensures
        (r.0@, r.1@) == session_line(s@, home@),
{
    let mut left = s.model.clone();
    push_text(&mut left, "  \u{2014}  ");
    push_text(&mut left, &show_dir(&s.cwd, home));
    let mut right = if s.age_secs < ACTIVE_SECS {
        "\u{25cf} active".to_owned()
    } else {
        "idle".to_owned()
    };
    push_text(&mut right, " \u{2022} ");
    push_text(&mut right, &fmt_age(s.age_secs));
    push_text(&mut right, " \u{2022} ");
    push_text(&mut right, &fmt_tokens(s.tokens_total));
    push_text(&mut right, " tok \u{2022} ");
    push_text(&mut right, &decimal_text(s.messages as u64));
    push_text(&mut right, " msgs");
    (left, right)
}

/// What an agent is doing, in words.
pub open spec fn state_words(s: Option<AgentRunState>) -> Seq<char> {
    match s {
        Some(AgentRunState::Starting) => "\u{25cc} starting\u{2026}"@,
        Some(AgentRunState::Running) => "\u{25cf} RUNNING"@,
        Some(AgentRunState::AwaitingInstruction) => "\u{25c9} NEEDS RESPONSE \u{2014} press p"@,
        Some(AgentRunState::Queued) => "\u{25d0} queued work"@,
        Some(AgentRunState::Exited) => "\u{2715} exited"@,
        None => "?"@,
    }
}

fn show_state(s: Option<AgentRunState>) -> (r: &'static str)
    ensures
        r@ == state_words(s),
{
    match s {
        Some(AgentRunState::Starting) => "\u{25cc} starting\u{2026}",
        Some(AgentRunState::Running) => "\u{25cf} RUNNING",
        Some(AgentRunState::AwaitingInstruction) => "\u{25c9} NEEDS RESPONSE \u{2014} press p",
        Some(AgentRunState::Queued) => "\u{25d0} queued work",
        Some(AgentRunState::Exited) => "\u{2715} exited",
        None => "?",
    }
}

/// The last characters of a text, `n` of them where there are so many.
pub open spec fn ending(s: Seq<char>, n: int) -> Seq<char> {
    if s.len() > n {
        s.skip(s.len() - n)
    } else {
        s
    }
}

/// The first characters of a text, `n` of them where there are so many.
pub open spec fn beginning(s: Seq<char>, n: int) -> Seq<char> {
    if s.len() > n {
        s.take(n)
    } else {
        s
    }
}

/// The rows of an attached agent: what it is doing and with which tool, and the end of the last
/// line that it wrote, unless that is blank.
pub open spec fn live_lines(
    state: Option<AgentRunState>,
    tool: Option<Seq<char>>,
    tail: Seq<char>,
) -> Seq<(Seq<char>, Seq<char>)> {
    let head = seq![
        (
            "LIVE AGENT \u{2014} "@ + state_words(state),
            match tool {
                Some(t) => "tool: "@ + t,
                None => Seq::empty(),
            },
        ),
    ];
    let ls = lines(tail);
    if ls.len() > 0 && trimmed(ls.last()).len() > 0 {
        head.push(("  "@ + ending(ls.last(), 60), Seq::empty()))
    } else {
        head
    }
}

/// The rows of an attached agent.
pub fn live_rows(live: &AgentLiveState) -> (r: Vec<(String, String)>)
    ensures
        row_views(r@) == live_lines(live.run_state, text_of(live.last_tool), live.output_tail@),
{
    let mut head = "LIVE AGENT \u{2014} ".to_owned();
    push_text(&mut head, show_state(live.run_state));
    let tool = match &live.last_tool {
        Some(t) => {
            let mut x = "tool: ".to_owned();
            push_text(&mut x, t);
            x
        },
        None => String::new(),
    };
    let mut rows: Vec<(String, String)> = Vec::new();
    rows.push((head, tool));
    let ls = split_lines(&chars_of(&live.output_tail));
    assert(views(ls@) == lines(live.output_tail@));
    if ls.len() > 0 {
        let last = &ls[ls.len() - 1];
        assert(lines(live.output_tail@).last() == last@);
        if trim(last).len() > 0 {
            let from: usize = if last.len() > 60 {
                last.len() - 60
            } else {
                0
            };
            let end = &last.as_slice()[from..last.len()];
            assert(end@ =~= ending(last@, 60));
            let mut x = "  ".to_owned();
            push_chars(&mut x, end);
            rows.push((x, String::new()));
        }
    }
    assert(row_views(rows@) =~= live_lines(
        live.run_state,
        text_of(live.last_tool),
        live.output_tail@,
    ));
    rows
}

/// The places of the first `n` sessions that are active, or of those that are not.
pub open spec fn sessions_where(ss: Seq<SessionSummary>, active: bool, n: nat) -> Seq<usize>
    decreases n,
{
    if n == 0 {
        Seq::empty()
    } else {
        let before = sessions_where(ss, active, (n - 1) as nat);
        if (ss[n - 1].age_secs < ACTIVE_SECS) == active {
            before.push((n - 1) as usize)
        } else {
            before
        }
    }
}

fn pick_sessions(ss: &Vec<SessionSummary>, active: bool) -> (r: Vec<usize>)
    ensures
        r@ == sessions_where(ss@, active, ss@.len()),
        forall|k: int| 0 <= k < r@.len() ==> #[trigger] r@[k] < ss@.len(),
{
    let mut out: Vec<usize> = Vec::new();
    for i in 0..ss.len()
        invariant
            out@ == sessions_where(ss@, active, i as nat),
            forall|k: int| 0 <= k < out@.len() ==> #[trigger] out@[k] < i,
    {
        if (ss[i].age_secs < ACTIVE_SECS) == active {
            out.push(i);
        }
    }
    out
}

/// A row with what it is.
pub open spec fn marked(left: Seq<char>, right: Seq<char>, row: AgentsRow) -> (
    (Seq<char>, Seq<char>),
    AgentsRow,
) {
    ((left, right), row)
}

/// The rows of sessions with what they are.
pub open spec fn session_rows(ss: Seq<SessionSummary>, at: Seq<usize>, home: Seq<char>) -> Seq<
    ((Seq<char>, Seq<char>), AgentsRow),
> {
    Seq::new(at.len(), |i: int| (session_line(ss[at[i] as int]@, home), AgentsRow::Session(at[i])))
}

/// The rows of the attached agent under their heading.
pub open spec fn live_section(rows: Seq<(Seq<char>, Seq<char>)>) -> Seq<((Seq<char>, Seq<char>), AgentsRow)> {
    seq![marked("LIVE"@, Seq::empty(), AgentsRow::Header)] + Seq::new(
        rows.len(),
        |i: int| (rows[i], AgentsRow::Live),
    )
}

/// The line that the older sessions fold into, and the sessions where they are unfolded.
pub open spec fn history_section(ss: Seq<SessionSummary>, older: Seq<usize>, expanded: bool, home: Seq<char>) -> Seq<
    ((Seq<char>, Seq<char>), AgentsRow),
> {
    let arrow = if expanded {
        "\u{25be}"@
    } else {
        "\u{25b8}"@
    };
    let head = seq![
        marked(
            arrow + " History ("@ + decimal(older.len()) + ")"@,
            Seq::empty(),
            AgentsRow::Expander,
        ),
    ];
    if expanded {
        head + session_rows(ss, older, home)
    } else {
        head
    }
}

/// The rows of the agents page with what they are: the attached agent, the active sessions, and
/// behind an expander the others.
pub open spec fn agents_page(
    ss: Seq<SessionSummary>,
    live: Option<Seq<(Seq<char>, Seq<char>)>>,
    expanded: bool,
    home: Seq<char>,
) -> Seq<((Seq<char>, Seq<char>), AgentsRow)> {
    let active = sessions_where(ss, true, ss.len());
    let older = sessions_where(ss, false, ss.len());
    let a = match live {
        Some(rows) => live_section(rows),
        None => Seq::empty(),
    };
    let b = if active.len() > 0 {
        seq![marked("ACTIVE"@, Seq::empty(), AgentsRow::Header)] + session_rows(ss, active, home)
    } else {
        Seq::empty()
    };
    let c = if live is None && active.len() == 0 && older.len() == 0 {
        seq![
            marked(
                "No agents yet \u{2014} press n to launch pi here"@,
                Seq::empty(),
                AgentsRow::Header,
            ),
        ]
    } else {
        Seq::empty()
    };
    let d = if older.len() > 0 {
        history_section(ss, older, expanded, home)
    } else {
        Seq::empty()
    };
    a + b + c + d
}

/// Rows with what they are.
pub open spec fn page_views(rows: Seq<(String, String)>, model: Seq<AgentsRow>) -> Seq<
    ((Seq<char>, Seq<char>), AgentsRow),
> {
    Seq::new(rows.len(), |i: int| ((rows[i].0@, rows[i].1@), model[i]))
}

fn push_row(
    rows: &mut Vec<(String, String)>,
    model: &mut Vec<AgentsRow>,
    row: (String, String),
    what: AgentsRow,
)
    requires
        old(rows)@.len() == old(model)@.len(),
    ensures
        final(rows)@.len() == final(model)@.len(),
        page_views(final(rows)@, final(model)@) == page_views(old(rows)@, old(model)@).push(
            ((row.0@, row.1@), what),
        ),
{
    let ghost before = page_views(rows@, model@);
    let ghost v = ((row.0@, row.1@), what);
    rows.push(row);
    model.push(what);
    assert(page_views(rows@, model@) =~= before.push(v));
}

fn push_sessions(
    rows: &mut Vec<(String, String)>,
    model: &mut Vec<AgentsRow>,
    ss: &Vec<SessionSummary>,
    at: &Vec<usize>,
    home: &str,
)
    requires
        old(rows)@.len() == old(model)@.len(),
        forall|k: int| 0 <= k < at@.len() ==> #[trigger] at@[k] < ss@.len(),
    ensures
        final(rows)@.len() == final(model)@.len(),
        page_views(final(rows)@, final(model)@) == page_views(old(rows)@, old(model)@) + session_rows(
            ss@,
            at@,
            home@,
        ),
{
    let ghost before = page_views(rows@, model@);
    let ghost all = session_rows(ss@, at@, home@);
    assert(before + all.take(0) =~= before);
    for i in 0..at.len()
        invariant
            rows@.len() == model@.len(),
            forall|k: int| 0 <= k < at@.len() ==> #[trigger] at@[k] < ss@.len(),
            all == session_rows(ss@, at@, home@),
            page_views(rows@, model@) == before + all.take(i as int),
    {
        push_row(rows, model, session_row(&ss[at[i]], home), AgentsRow::Session(at[i]));
        assert(before + all.take(i + 1) =~= (before + all.take(i as int)).push(all[i as int]));
    }
    assert(all.take(all.len() as int) =~= all);
}

fn push_live(rows: &mut Vec<(String, String)>, model: &mut Vec<AgentsRow>, more: &Vec<(String, String)>)
    requires
        old(rows)@.len() == old(model)@.len(),
    ensures
        final(rows)@.len() == final(model)@.len(),
        page_views(final(rows)@, final(model)@) == page_views(old(rows)@, old(model)@) + live_section(
            row_views(more@),
        ),
{
    let ghost start = page_views(rows@, model@);
    push_row(rows, model, ("LIVE".to_owned(), String::new()), AgentsRow::Header);
    let ghost all = row_views(more@);
    let ghost before = page_views(rows@, model@);
    for i in 0..more.len()
        invariant
            rows@.len() == model@.len(),
            all == row_views(more@),
            page_views(rows@, model@) == before + Seq::new(i as nat, |k: int| (all[k], AgentsRow::Live)),
    {
        let row = (more[i].0.clone(), more[i].1.clone());
        push_row(rows, model, row, AgentsRow::Live);
        assert(before + Seq::new((i + 1) as nat, |k: int| (all[k], AgentsRow::Live)) =~= (before + Seq::new(
            i as nat,
            |k: int| (all[k], AgentsRow::Live),
        )).push((all[i as int], AgentsRow::Live)));
    }
    assert(page_views(rows@, model@) =~= start + live_section(all));
}

fn push_history(
    rows: &mut Vec<(String, String)>,
    model: &mut Vec<AgentsRow>,
    ss: &Vec<SessionSummary>,
    older: &Vec<usize>,
    expanded: bool,
    home: &str,
)
    requires
        old(rows)@.len() == old(model)@.len(),
        forall|k: int| 0 <= k < older@.len() ==> #[trigger] older@[k] < ss@.len(),
    ensures
        final(rows)@.len() == final(model)@.len(),
        page_views(final(rows)@, final(model)@) == page_views(old(rows)@, old(model)@) + history_section(
            ss@,
            older@,
            expanded,
            home@,
        ),
{
    let ghost start = page_views(rows@, model@);
    let mut head = if expanded {
        "\u{25be}".to_owned()
    } else {
        "\u{25b8}".to_owned()
    };
    push_text(&mut head, " History (");
    push_text(&mut head, &decimal_text(older.len() as u64));
    push_text(&mut head, ")");
    push_row(rows, model, (head, String::new()), AgentsRow::Expander);
    if expanded {
        push_sessions(rows, model, ss, older, home);
    }
    assert(page_views(rows@, model@) =~= start + history_section(ss@, older@, expanded, home@));
}

/// The rows of the attached agent, where there is one.
pub open spec fn live_view(live: Option<&AgentLiveState>) -> Option<Seq<(Seq<char>, Seq<char>)>> {
    match live {
        Some(l) => Some(live_lines(l.run_state, text_of(l.last_tool), l.output_tail@)),
        None => None,
    }
}

/// The rows of the agents page, and what each of them is.
pub fn agents_row_model(
    ss: &Vec<SessionSummary>,
    live: Option<&AgentLiveState>,
    expanded: bool,
    home: &str,
) -> (r: (Vec<(String, String)>, Vec<AgentsRow>))
    ensures
        r.0@.len() == r.1@.len(),
        page_views(r.0@, r.1@) == agents_page(ss@, live_view(live), expanded, home@),
{
    let mut rows: Vec<(String, String)> = Vec::new();
    let mut model: Vec<AgentsRow> = Vec::new();
    let ghost goal = agents_page(ss@, live_view(live), expanded, home@);
    if let Some(l) = live {
        push_live(&mut rows, &mut model, &live_rows(l));
    }
    let ghost a = page_views(rows@, model@);
    let active = pick_sessions(ss, true);
    let older = pick_sessions(ss, false);
    if active.len() > 0 {
        push_row(&mut rows, &mut model, ("ACTIVE".to_owned(), String::new()), AgentsRow::Header);
        push_sessions(&mut rows, &mut model, ss, &active, home);
    }
    let ghost ab = page_views(rows@, model@);
    if live.is_none() && active.len() == 0 && older.len() == 0 {
        push_row(
            &mut rows,
            &mut model,
            ("No agents yet \u{2014} press n to launch pi here".to_owned(), String::new()),
            AgentsRow::Header,
        );
    }
    let ghost abc = page_views(rows@, model@);
    if older.len() > 0 {
        push_history(&mut rows, &mut model, ss, &older, expanded, home);
    }
    assert(page_views(rows@, model@) =~= goal);
    (rows, model)
}

// --- moving and activating ---

/// The row reached from `sel` by passing `left` rows that are no headings, up or down, or the
/// last one before the end.
pub open spec fn rows_on(model: Seq<AgentsRow>, sel: int, down: bool, left: nat) -> int
    decreases
            (if down {
                model.len() - sel
            } else {
                sel
            }),
{
    let next = if down {
        sel + 1
    } else {
        sel - 1
    };
    if left == 0 || next < 0 || next >= model.len() {
        sel
    } else if model[next] is Header {
        rows_on(model, next, down, left)
    } else {
        rows_on(model, next, down, (left - 1) as nat)
    }
}

/// The next row that is no heading, from `sel` down; the last row where there is none.
pub open spec fn off_header(model: Seq<AgentsRow>, sel: int) -> int
    decreases model.len() - sel,
{
    if 0 <= sel && sel + 1 < model.len() && model[sel] is Header {
        off_header(model, sel + 1)
    } else {
        sel
    }
}

/// The selection after it moved by rows; it does not come to rest on a heading where another row
/// follows.
pub open spec fn moved(model: Seq<AgentsRow>, sel: usize, down: bool, by: nat) -> usize {
    if model.len() == 0 {
        sel
    } else {
        let from = if sel < model.len() {
            sel as int
        } else {
            model.len() - 1
        };
        off_header(model, rows_on(model, from, down, by)) as usize
    }
}

/// Moves the selection by `by` rows, past headings.
pub fn agents_move_sel(model: &Vec<AgentsRow>, sel: usize, down: bool, by: usize) -> (r: usize)
    ensures
        r == moved(model@, sel, down, by as nat),
        r == sel || r < model@.len(),
{
    let n = model.len();
    if n == 0 {
        return sel;
    }
    let mut at: usize = if sel < n {
        sel
    } else {
        n - 1
    };
    let ghost from = at as int;
    let mut left: usize = by;
    while left > 0 && (!down || at + 1 < n) && (down || at > 0)
        invariant
            n == model@.len(),
            at < n,
            rows_on(model@, at as int, down, left as nat) == rows_on(model@, from, down, by as nat),
        decreases
            (if down {
                n - at
            } else {
                at as int
            }),
    {
        at = if down {
            at + 1
        } else {
            at - 1
        };
        match model[at] {
            AgentsRow::Header => {},
            _ => {
                left -= 1;
            },
        }
    }
    let ghost reached = at as int;
    assert(reached == rows_on(model@, from, down, by as nat));
    while at + 1 < n && matches!(model[at], AgentsRow::Header)
        invariant
            n == model@.len(),
            at < n,
            off_header(model@, at as int) == off_header(model@, reached),
        decreases n - at,
    {
        at += 1;
    }
    at
}

/// What a click or Enter on a row of the agents page asks for.
#[derive(Clone, Copy, Debug, PartialEq, Eq, Structural)]
pub enum AgentsStep {
    /// Nothing.
    Nothing,
    /// The page is to be drawn anew.
    Refresh,
    /// The page is to be closed.
    Close,
    /// The attached agent's thread is to be shown.
    ShowLive,
    /// A session's thread is to be shown.
    ShowSession(usize),
    /// The older sessions are to be shown or hidden.
    Expand,
    /// The sessions are to be read again.
    Reload,
    /// An agent is to be started.
    Launch,
    /// The attached agent is to be prompted.
    Prompt,
    /// What the attached agent does is to be stopped.
    Abort,
    /// The attached agent is to be detached.
    Detach,
}

/// What activating a row asks for.
pub open spec fn activated(model: Seq<AgentsRow>, idx: int) -> AgentsStep {
    if 0 <= idx < model.len() {
        match model[idx] {
            AgentsRow::Header => AgentsStep::Nothing,
            AgentsRow::Live => AgentsStep::ShowLive,
            AgentsRow::Session(i) => AgentsStep::ShowSession(i),
            AgentsRow::Expander => AgentsStep::Expand,
        }
    } else {
        AgentsStep::Nothing
    }
}

/// What activating a row asks for.
pub fn agents_activate(model: &Vec<AgentsRow>, idx: usize) -> (r: AgentsStep)
    ensures
        r == activated(model@, idx as int),
{
    if idx < model.len() {
        match model[idx] {
            AgentsRow::Header => AgentsStep::Nothing,
            AgentsRow::Live => AgentsStep::ShowLive,
            AgentsRow::Session(i) => AgentsStep::ShowSession(i),
            AgentsRow::Expander => AgentsStep::Expand,
        }
    } else {
        AgentsStep::Nothing
    }
}

/// What a letter on the agents page asks for.
pub open spec fn letter_step(c: Seq<char>, attached: bool) -> AgentsStep {
    if c == "h"@ {
        AgentsStep::Expand
    } else if c == "r"@ {
        AgentsStep::Reload
    } else if c == "n"@ {
        if attached {
            AgentsStep::Refresh
        } else {
            AgentsStep::Launch
        }
    } else if c == "p"@ {
        if attached {
            AgentsStep::Prompt
        } else {
            AgentsStep::Nothing
        }
    } else if c == "a"@ {
        if attached {
            AgentsStep::Abort
        } else {
            AgentsStep::Nothing
        }
    } else if c == "k"@ {
        AgentsStep::Detach
    } else {
        AgentsStep::Nothing
    }
}

/// What a key does to the selection on the agents page, and what it asks for; `letter` is the
/// character of a key that has one.
pub fn agents_key(
    model: &Vec<AgentsRow>,
    sel: &mut usize,
    key: PageKey,
    letter: Option<&str>,
    attached: bool,
) -> (r: AgentsStep)
    ensures
        match key {
            PageKey::Escape => r is Close && *final(sel) == *old(sel),
            PageKey::Down => r is Refresh && *final(sel) == moved(model@, *old(sel), true, 1),
            PageKey::Up => r is Refresh && *final(sel) == moved(model@, *old(sel), false, 1),
            PageKey::PageDown => r is Refresh && *final(sel) == moved(model@, *old(sel), true, 5),
            PageKey::PageUp => r is Refresh && *final(sel) == moved(model@, *old(sel), false, 5),
            PageKey::Enter => r == activated(model@, *old(sel) as int) && *final(sel) == *old(sel),
            _ => *final(sel) == *old(sel) && r == match letter {
                Some(c) => letter_step(c@, attached),
                None => AgentsStep::Nothing,
            },
        },
        *final(sel) == *old(sel) || *final(sel) < model@.len(),
{
    match key {
        PageKey::Escape => AgentsStep::Close,
        PageKey::Down => {
            *sel = agents_move_sel(model, *sel, true, 1);
            AgentsStep::Refresh
        },
        PageKey::Up => {
            *sel = agents_move_sel(model, *sel, false, 1);
            AgentsStep::Refresh
        },
        PageKey::PageDown => {
            *sel = agents_move_sel(model, *sel, true, 5);
            AgentsStep::Refresh
        },
        PageKey::PageUp => {
            *sel = agents_move_sel(model, *sel, false, 5);
            AgentsStep::Refresh
        },
        PageKey::Enter => agents_activate(model, *sel),
        _ => match letter {
            Some(c) => if same(c, "h") {
                AgentsStep::Expand
            } else if same(c, "r") {
                AgentsStep::Reload
            } else if same(c, "n") {
                if attached {
                    AgentsStep::Refresh
                } else {
                    AgentsStep::Launch
                }
            } else if same(c, "p") {
                if attached {
                    AgentsStep::Prompt
                } else {
                    AgentsStep::Nothing
                }
            } else if same(c, "a") {
                if attached {
                    AgentsStep::Abort
                } else {
                    AgentsStep::Nothing
                }
            } else if same(c, "k") {
                AgentsStep::Detach
            } else {
                AgentsStep::Nothing
            },
            None => AgentsStep::Nothing,
        },
    }
}

/// How a prompt joins what an agent does: it steers a run that is on, and begins one otherwise.
pub open spec fn behavior_for(state: Option<AgentRunState>) -> Option<Seq<char>> {
    match state {
        Some(AgentRunState::Running) => Some("steer"@),
        Some(AgentRunState::Queued) => Some("steer"@),
        _ => None,
    }
}

/// How a prompt joins what an agent does.
pub fn streaming_behavior(state: Option<AgentRunState>) -> (r: Option<&'static str>)
    ensures
        match r {
            Some(b) => behavior_for(state) == Some(b@),
            None => behavior_for(state) is None,
        },
{
    match state {
        Some(AgentRunState::Running) => Some("steer"),
        Some(AgentRunState::Queued) => Some("steer"),
        _ => None,
    }
}

// --- threads ---

/// How many characters of a message a line of a thread holds.
pub const THREAD_WIDTH: usize = 100;

/// What a line of a message begins with.
pub open spec fn lead(you: bool, first: bool) -> Seq<char> {
    if !first {
        "      "@
    } else if you {
        "you \u{25b8} "@
    } else {
        "  \u{25cf} "@
    }
}

/// The lines of a message so far, and the one that is being filled.
pub struct Wrapping {
    pub done: Seq<Seq<char>>,
    pub line: Seq<char>,
}

/// The message after the first `n` words: each goes onto the line as long as that holds it.
pub open spec fn wrapping(ws: Seq<Seq<char>>, n: nat) -> Wrapping
    decreases n,
{
    if n == 0 {
        Wrapping { done: Seq::empty(), line: Seq::empty() }
    } else {
        let before = wrapping(ws, (n - 1) as nat);
        let w = ws[n - 1];
        if before.line.len() == 0 {
            Wrapping { line: w, ..before }
        } else if before.line.len() + w.len() + 1 > THREAD_WIDTH {
            Wrapping { done: before.done.push(before.line), line: w }
        } else {
            Wrapping { line: before.line.push(' ') + w, ..before }
        }
    }
}

/// The lines of a message.
pub open spec fn message_lines(text: Seq<char>) -> Seq<Seq<char>> {
    let w = wrapping(words(text), words(text).len());
    if w.line.len() > 0 {
        w.done.push(w.line)
    } else {
        w.done
    }
}

/// The rows of a message: its lines, who speaks before the first, and an empty row behind them.
pub open spec fn message_rows(speaker: Seq<char>, text: Seq<char>) -> Seq<(Seq<char>, Seq<char>)> {
    let ls = message_lines(text);
    Seq::new(
        ls.len(),
        |i: int| (lead(speaker == "you"@, i == 0) + ls[i], Seq::<char>::empty()),
    ).push((Seq::empty(), Seq::empty()))
}

fn show_lead(you: bool, first: bool) -> (r: &'static str)
    ensures
        r@ == lead(you, first),
{
    if !first {
        "      "
    } else if you {
        "you \u{25b8} "
    } else {
        "  \u{25cf} "
    }
}

proof fn lemma_words_solid(s: Seq<char>)
    ensures
        forall|i: int| 0 <= i < words(s).len() ==> (#[trigger] words(s)[i]).len() > 0,
    decreases s.len(),
{
    let t = trimmed_start(s);
    let k = word_len(t);
    if t.len() > 0 {
        lemma_trimmed_start(s);
        lemma_word_len(t);
        lemma_words_solid(t.skip(k));
        assert forall|i: int| 0 <= i < words(s).len() implies (#[trigger] words(s)[i]).len() > 0 by {
            if i > 0 {
                assert(words(s)[i] == words(t.skip(k))[i - 1]);
            }
        }
    }
}

fn push_line(rows: &mut Vec<(String, String)>, you: bool, first: bool, line: &Vec<char>)
    ensures
        row_views(final(rows)@) == row_views(old(rows)@).push((lead(you, first) + line@, Seq::empty())),
{
    let ghost before = row_views(rows@);
    let mut left = show_lead(you, first).to_owned();
    push_chars(&mut left, line);
    let ghost v = left@;
    rows.push((left, String::new()));
    assert(row_views(rows@) =~= before.push((v, Seq::empty())));
}

/// Adds the rows of a message to a thread.
pub fn wrap_message(rows: &mut Vec<(String, String)>, speaker: &str, text: &str)
    ensures
        row_views(final(rows)@) == row_views(old(rows)@) + message_rows(speaker@, text@),
{
    let you = same(speaker, "you");
    let ws = split_words(&chars_of(text));
    let ghost all = words(text@);
    let ghost start = row_views(rows@);
    let mut line: Vec<char> = Vec::new();
    let mut first = true;
    let ghost mut done: Seq<Seq<char>> = Seq::empty();
    proof {
        lemma_words_solid(text@);
    }
    assert(start + lines_shown(done, you) =~= start);
    for i in 0..ws.len()
        invariant
            views(ws@) == all,
            forall|k: int| 0 <= k < all.len() ==> (#[trigger] all[k]).len() > 0,
            wrapping(all, i as nat) == (Wrapping { done, line: line@ }),
            first == (done.len() == 0),
            row_views(rows@) == start + lines_shown(done, you),
    {
        assert(all[i as int] == ws@[i as int]@);
        let ghost earlier = done;
        let w = &ws[i];
        if line.len() > 0 && (w.len() >= THREAD_WIDTH || line.len() >= THREAD_WIDTH || line.len() + w.len()
            + 1 > THREAD_WIDTH) {
            push_line(rows, you, first, &line);
            first = false;
            proof {
                done = done.push(line@);
            }
            assert(start + lines_shown(done, you) =~= (start + lines_shown(earlier, you)).push(
                (lead(you, earlier.len() == 0) + line@, Seq::empty()),
            ));
            line = Vec::new();
        }
        let ghost base = line@;
        if line.len() > 0 {
            line.push(' ');
        }
        let mut more = to_chars(w);
        line.append(&mut more);
        assert(base.len() == 0 ==> line@ =~= all[i as int]);
    }
    if line.len() > 0 {
        push_line(rows, you, first, &line);
        let ghost earlier = done;
        proof {
            done = done.push(line@);
        }
        assert(start + lines_shown(done, you) =~= (start + lines_shown(earlier, you)).push(
            (lead(you, earlier.len() == 0) + line@, Seq::empty()),
        ));
    }
    let ghost mid = row_views(rows@);
    rows.push((String::new(), String::new()));
    assert(row_views(rows@) =~= mid.push((Seq::empty(), Seq::empty())));
    assert(done == message_lines(text@));
    assert(message_rows(speaker@, text@) =~= lines_shown(done, you).push((Seq::empty(), Seq::empty())));
    assert(row_views(rows@) =~= start + message_rows(speaker@, text@));
}

/// Lines of a message as rows.
spec fn lines_shown(ls: Seq<Seq<char>>, you: bool) -> Seq<(Seq<char>, Seq<char>)> {
    Seq::new(ls.len(), |i: int| (lead(you, i == 0) + ls[i], Seq::<char>::empty()))
}

/// No line of a message is wider than a thread, unless one word is.
pub proof fn messages_fit_the_thread(ws: Seq<Seq<char>>, n: nat)
    requires
        n <= ws.len(),
        forall|k: int| 0 <= k < ws.len() ==> (#[trigger] ws[k]).len() <= THREAD_WIDTH,
    ensures
        wrapping(ws, n).line.len() <= THREAD_WIDTH,
        forall|i: int|
            0 <= i < wrapping(ws, n).done.len() ==> (#[trigger] wrapping(ws, n).done[i]).len() <= THREAD_WIDTH,
    decreases n,
{
    if n > 0 {
        messages_fit_the_thread(ws, (n - 1) as nat);
    }
}

/// The title over a session's thread.
pub fn session_title(s: &SessionSummary) -> (r: String)
    ensures
        r@ == s@.model + " \u{2014} "@ + s@.cwd + " \u{00b7} "@ + age_text(s@.age_secs),
{
    let mut out = s.model.clone();
    push_text(&mut out, " \u{2014} ");
    push_text(&mut out, &s.cwd);
    push_text(&mut out, " \u{00b7} ");
    push_text(&mut out, &fmt_age(s.age_secs));
    out
}

/// The rows of the attached agent's thread: what it is doing, and the lines of what it wrote,
/// cut short.
pub open spec fn live_thread(
    state: Option<AgentRunState>,
    tool: Option<Seq<char>>,
    tail: Seq<char>,
) -> Seq<(Seq<char>, Seq<char>)> {
    let ls = lines(tail);
    live_lines(state, tool, tail).push((Seq::empty(), Seq::empty())) + Seq::new(
        ls.len(),
        |i: int| (beginning(ls[i], 140), Seq::<char>::empty()),
    )
}

/// The rows of the first `n` messages of a thread.
pub open spec fn messages_shown(ms: Seq<(Seq<char>, Seq<char>)>, n: nat) -> Seq<(Seq<char>, Seq<char>)>
    decreases n,
{
    if n == 0 {
        Seq::empty()
    } else {
        messages_shown(ms, (n - 1) as nat) + message_rows(ms[n - 1].0, ms[n - 1].1)
    }
}

/// The rows of the thread of a stored session, given what was said in it.
pub fn session_thread_rows(said: &Vec<(String, String)>) -> (r: Vec<(String, String)>)
    ensures
        row_views(r@) == if said@.len() == 0 {
            seq![("(no conversation on the active branch)"@, Seq::empty())]
        } else {
            messages_shown(said_views(said@), said@.len())
        },
{
    let mut rows: Vec<(String, String)> = Vec::new();
    assert(row_views(rows@) =~= Seq::empty());
    if said.len() == 0 {
        rows.push(("(no conversation on the active branch)".to_owned(), String::new()));
        assert(row_views(rows@) =~= seq![("(no conversation on the active branch)"@, Seq::<char>::empty())]);
        return rows;
    }
    for i in 0..said.len()
        invariant
            row_views(rows@) == messages_shown(said_views(said@), i as nat),
    {
        wrap_message(&mut rows, &said[i].0, &said[i].1);
    }
    rows
}

/// The rows of the attached agent's thread.
pub fn live_thread_rows(live: &AgentLiveState) -> (r: Vec<(String, String)>)
    ensures
        row_views(r@) == live_thread(live.run_state, text_of(live.last_tool), live.output_tail@),
{
    let mut rows = live_rows(live);
    let ghost head = row_views(rows@);
    rows.push((String::new(), String::new()));
    assert(row_views(rows@) =~= head.push((Seq::empty(), Seq::empty())));
    let ghost start = row_views(rows@);
    let ls = split_lines(&chars_of(&live.output_tail));
    let ghost all = lines(live.output_tail@);
    for i in 0..ls.len()
        invariant
            views(ls@) == all,
            row_views(rows@) == start + Seq::new(
                i as nat,
                |k: int| (beginning(all[k], 140), Seq::<char>::empty()),
            ),
    {
        assert(all[i as int] == ls@[i as int]@);
        let ghost before = row_views(rows@);
        let l = ls[i].as_slice();
        let end: usize = if l.len() > 140 {
            140
        } else {
            l.len()
        };
        assert(l@.subrange(0, end as int) =~= beginning(l@, 140));
        rows.push((string_of(&l[0..end]), String::new()));
        assert(row_views(rows@) =~= before.push((beginning(all[i as int], 140), Seq::empty())));
        assert(start + Seq::new((i + 1) as nat, |k: int| (beginning(all[k], 140), Seq::<char>::empty()))
            =~= (start + Seq::new(i as nat, |k: int| (beginning(all[k], 140), Seq::<char>::empty()))).push(
            (beginning(all[i as int], 140), Seq::empty()),
        ));
    }
    rows
}

/// How far a thread of `n` rows is scrolled after a key.
pub open spec fn thread_scrolled(scroll: int, n: int, key: PageKey) -> int {
    let last = if n > 0 {
        n - 1
    } else {
        0
    };
    match key {
        PageKey::Down => if scroll + 1 < last {
            scroll + 1
        } else {
            last
        },
        PageKey::PageDown => if scroll + 10 < last {
            scroll + 10
        } else {
            last
        },
        PageKey::Up => if scroll > 1 {
            scroll - 1
        } else {
            0
        },
        PageKey::PageUp => if scroll > 10 {
            scroll - 10
        } else {
            0
        },
        _ => scroll,
    }
}

/// What a key on a thread asks for.
#[derive(Clone, Copy, Debug, PartialEq, Eq, Structural)]
pub enum ThreadStep {
    /// Nothing.
    Nothing,
    /// The page is to be drawn anew.
    Refresh,
    /// Back to the agents.
    Back,
}

/// What a key does on a thread of `n` rows, and what it asks for.
pub fn thread_key(scroll: &mut usize, n: usize, key: PageKey) -> (r: ThreadStep)
    requires
        *old(scroll) + 10 <= usize::MAX,
    ensures
        *final(scroll) == thread_scrolled(*old(scroll) as int, n as int, key),
        r == match key {
            PageKey::Escape => ThreadStep::Back,
            PageKey::Down | PageKey::Up | PageKey::PageDown | PageKey::PageUp => ThreadStep::Refresh,
            _ => ThreadStep::Nothing,
        },
{
    let last: usize = if n > 0 {
        n - 1
    } else {
        0
    };
    match key {
        PageKey::Escape => ThreadStep::Back,
        PageKey::Down => {
            *scroll = if *scroll + 1 < last {
                *scroll + 1
            } else {
                last
            };
            ThreadStep::Refresh
        },
        PageKey::PageDown => {
            *scroll = if *scroll + 10 < last {
                *scroll + 10
            } else {
                last
            };
            ThreadStep::Refresh
        },
        PageKey::Up => {
            *scroll = if *scroll > 1 {
                *scroll - 1
            } else {
                0
            };
            ThreadStep::Refresh
        },
        PageKey::PageUp => {
            *scroll = if *scroll > 10 {
                *scroll - 10
            } else {
                0
            };
            ThreadStep::Refresh
        },
        _ => ThreadStep::Nothing,
    }
}

proof fn lemma_off_header(model: Seq<AgentsRow>, sel: int)
    requires
        0 <= sel < model.len(),
    ensures
        sel <= off_header(model, sel) < model.len(),
        model[off_header(model, sel)] is Header ==> off_header(model, sel) == model.len() - 1,
    decreases model.len() - sel,
{
    if sel + 1 < model.len() && model[sel] is Header {
        lemma_off_header(model, sel + 1);
    }
}

proof fn lemma_rows_on(model: Seq<AgentsRow>, sel: int, down: bool, left: nat)
    requires
        0 <= sel < model.len(),
    ensures
        0 <= rows_on(model, sel, down, left) < model.len(),
    decreases
            (if down {
                model.len() - sel
            } else {
                sel
            }),
{
    let next = if down {
        sel + 1
    } else {
        sel - 1
    };
    if left > 0 && 0 <= next < model.len() {
        if model[next] is Header {
            lemma_rows_on(model, next, down, left);
        } else {
            lemma_rows_on(model, next, down, (left - 1) as nat);
        }
    }
}

/// A selection that moves comes to rest on a row of the page, and on a heading only where no other
/// row follows it.
pub proof fn selection_avoids_headings(model: Seq<AgentsRow>, sel: usize, down: bool, by: nat)
    requires
        0 < model.len() <= usize::MAX,
    ensures
        moved(model, sel, down, by) < model.len(),
        model[moved(model, sel, down, by) as int] is Header ==> moved(model, sel, down, by) == model.len() - 1,
{
    let from = if sel < model.len() {
        sel as int
    } else {
        model.len() - 1
    };
    lemma_rows_on(model, from, down, by);
    lemma_off_header(model, rows_on(model, from, down, by));
}

/// The sessions are told apart by how long they have been idle: each is on one of the two lists, once
/// and in order.
pub proof fn sessions_are_on_one_list(ss: Seq<SessionSummary>, active: bool, n: nat)
    requires
        n <= ss.len() <= usize::MAX,
    ensures
        forall|i: usize|
            i < n ==> (#[trigger] sessions_where(ss, active, n).contains(i) <==> (ss[i as int].age_secs < 120)
                == active),
        forall|k: int|
            0 <= k < sessions_where(ss, active, n).len() ==> (#[trigger] sessions_where(ss, active, n)[k]) < n,
        forall|a: int, b: int|
            0 <= a < b < sessions_where(ss, active, n).len() ==> #[trigger] sessions_where(ss, active, n)[a]
                < #[trigger] sessions_where(ss, active, n)[b],
    decreases n,
{
    if n > 0 {
        sessions_are_on_one_list(ss, active, (n - 1) as nat);
        let before = sessions_where(ss, active, (n - 1) as nat);
        let now = sessions_where(ss, active, n);
        assert forall|i: usize| i < n implies (#[trigger] now.contains(i) <==> (ss[i as int].age_secs < 120)
            == active) by {
            if i < n - 1 {
                if before.contains(i) {
                    let k = choose|k: int| 0 <= k < before.len() && before[k] == i;
                    assert(now[k] == i);
                }
                if now.contains(i) {
                    let k = choose|k: int| 0 <= k < now.len() && now[k] == i;
                    assert(before[k] == i);
                }
            } else {
                if now.len() > before.len() {
                    assert(now[now.len() - 1] == i);
                } else if now.contains(i) {
                    let k = choose|k: int| 0 <= k < now.len() && now[k] == i;
                    assert(before[k] < n - 1);
                }
            }
        }
    }
}

proof fn lemma_listed(ss: Seq<SessionSummary>, at: Seq<usize>, home: Seq<char>, head: Seq<((Seq<char>, Seq<char>), AgentsRow)>, i: usize)
    requires
        at.contains(i),
    ensures
        (head + session_rows(ss, at, home)).contains((session_line(ss[i as int]@, home), AgentsRow::Session(i))),
{
    let k = choose|k: int| 0 <= k < at.len() && at[k] == i;
    let rows = head + session_rows(ss, at, home);
    assert(rows[head.len() + k] == (session_line(ss[i as int]@, home), AgentsRow::Session(i)));
}

/// An active session is on the page, and an older one too while the history is shown: with its own
/// line, and leading to itself.
pub proof fn sessions_are_on_the_page(
    ss: Seq<SessionSummary>,
    live: Option<Seq<(Seq<char>, Seq<char>)>>,
    expanded: bool,
    home: Seq<char>,
    i: usize,
)
    requires
        i < ss.len() <= usize::MAX,
    ensures
        ss[i as int].age_secs < 120 || expanded ==> agents_page(ss, live, expanded, home).contains(
            (session_line(ss[i as int]@, home), AgentsRow::Session(i)),
        ),
        forall|r: int|
            0 <= r < agents_page(ss, live, expanded, home).len() ==> (#[trigger] agents_page(
                ss,
                live,
                expanded,
                home,
            )[r].1 matches AgentsRow::Session(j) ==> {
                &&& j < ss.len()
                &&& agents_page(ss, live, expanded, home)[r].0 == session_line(ss[j as int]@, home)
                &&& ss[j as int].age_secs < 120 || expanded
            }),
{
    let active = sessions_where(ss, true, ss.len());
    let older = sessions_where(ss, false, ss.len());
    sessions_are_on_one_list(ss, true, ss.len());
    sessions_are_on_one_list(ss, false, ss.len());
    let page = agents_page(ss, live, expanded, home);
    let a = match live {
        Some(rows) => live_section(rows),
        None => Seq::empty(),
    };
    let header = seq![marked("ACTIVE"@, Seq::empty(), AgentsRow::Header)];
    let b = if active.len() > 0 {
        header + session_rows(ss, active, home)
    } else {
        Seq::empty()
    };
    let c = if live is None && active.len() == 0 && older.len() == 0 {
        seq![
            marked(
                "No agents yet \u{2014} press n to launch pi here"@,
                Seq::empty(),
                AgentsRow::Header,
            ),
        ]
    } else {
        Seq::empty()
    };
    let d = if older.len() > 0 {
        history_section(ss, older, expanded, home)
    } else {
        Seq::empty()
    };
    assert(page == a + b + c + d);
    let want = (session_line(ss[i as int]@, home), AgentsRow::Session(i));
    if ss[i as int].age_secs < 120 {
        assert(active.contains(i));
        lemma_listed(ss, active, home, header, i);
        let k = choose|k: int| 0 <= k < b.len() && b[k] == want;
        assert(page[a.len() + k] == want);
    } else if expanded {
        assert(older.contains(i));
        let head = d.take(1);
        assert(d =~= head + session_rows(ss, older, home));
        lemma_listed(ss, older, home, head, i);
        let k = choose|k: int| 0 <= k < d.len() && d[k] == want;
        assert(page[a.len() + b.len() + c.len() + k] == want);
    }
    assert forall|r: int| 0 <= r < page.len() implies (#[trigger] page[r].1 matches AgentsRow::Session(j) ==> {
        &&& j < ss.len()
        &&& page[r].0 == session_line(ss[j as int]@, home)
        &&& ss[j as int].age_secs < 120 || expanded
    }) by {
        if r < a.len() {
            assert(page[r] == a[r]);
        } else if r < a.len() + b.len() {
            let k = r - a.len();
            assert(page[r] == b[k]);
            if k > 0 {
                let j = active[k - 1];
                assert(active.contains(j));
                assert(b[k] == session_rows(ss, active, home)[k - 1]);
            }
        } else if r < a.len() + b.len() + c.len() {
            assert(page[r] == c[r - a.len() - b.len()]);
        } else {
            let k = r - a.len() - b.len() - c.len();
            assert(page[r] == d[k]);
            if k > 0 {
                assert(d[k] == session_rows(ss, older, home)[k - 1]);
                let j = older[k - 1];
                assert(older.contains(j));
            }
        }
    }
}

proof fn lemma_next_row(model: Seq<AgentsRow>, sel: int, down: bool, j: int)
    requires
        0 <= sel < model.len(),
        0 <= j < model.len(),
        !(model[j] is Header),
        down ==> sel < j && forall|k: int| sel < k < j ==> #[trigger] model[k] is Header,
        !down ==> j < sel && forall|k: int| j < k < sel ==> #[trigger] model[k] is Header,
    ensures
        rows_on(model, sel, down, 1) == j,
    decreases
            (if down {
                j - sel
            } else {
                sel - j
            }),
{
    let next = if down {
        sel + 1
    } else {
        sel - 1
    };
    if next != j {
        assert(model[next] is Header);
        lemma_next_row(model, next, down, j);
    } else {
        assert(rows_on(model, next, down, 0) == next);
    }
}

/// A selection that moves by one comes to the next row that is no heading.
pub proof fn selections_go_to_the_next_row(model: Seq<AgentsRow>, sel: usize, down: bool, j: usize)
    requires
        sel < model.len() <= usize::MAX,
        j < model.len(),
        !(model[j as int] is Header),
        down ==> sel < j && forall|k: int| sel < k < j ==> #[trigger] model[k] is Header,
        !down ==> j < sel && forall|k: int| j < k < sel ==> #[trigger] model[k] is Header,
    ensures
        moved(model, sel, down, 1) == j,
{
    lemma_next_row(model, sel as int, down, j as int);
}

/// Moving by several rows is moving by some and then by the others.
pub proof fn rows_add_up(model: Seq<AgentsRow>, sel: int, down: bool, a: nat, b: nat)
    requires
        0 <= sel < model.len(),
    ensures
        rows_on(model, rows_on(model, sel, down, a), down, b) == rows_on(model, sel, down, a + b),
    decreases
            (if down {
                model.len() - sel
            } else {
                sel
            }),
{
    let next = if down {
        sel + 1
    } else {
        sel - 1
    };
    if a > 0 && 0 <= next < model.len() {
        if model[next] is Header {
            rows_add_up(model, next, down, a, b);
        } else {
            rows_add_up(model, next, down, (a - 1) as nat, b);
        }
    }
}

/// Each letter asks for one thing; what needs an agent is not asked for without one, and none is
/// launched beside another.
pub proof fn letters_ask_for_one_thing(c: Seq<char>, attached: bool)
    ensures
        letter_step(c, attached) is Expand <==> c == "h"@,
        letter_step(c, attached) is Reload <==> c == "r"@,
        letter_step(c, attached) is Launch <==> c == "n"@ && !attached,
        letter_step(c, attached) is Prompt <==> c == "p"@ && attached,
        letter_step(c, attached) is Abort <==> c == "a"@ && attached,
        letter_step(c, attached) is Detach <==> c == "k"@,
{
    reveal_strlit("h");
    reveal_strlit("r");
    reveal_strlit("n");
    reveal_strlit("p");
    reveal_strlit("a");
    reveal_strlit("k");
    assert("h"@[0] == 'h' && "r"@[0] == 'r' && "n"@[0] == 'n' && "p"@[0] == 'p' && "a"@[0] == 'a' && "k"@[0]
        == 'k');
}

/// The text that a wrapping has so far, on one line.
spec fn unwrapped(w: Wrapping) -> Seq<char> {
    if w.line.len() > 0 {
        separated(w.done.push(w.line), seq![' '])
    } else {
        separated(w.done, seq![' '])
    }
}

proof fn lemma_wrapping(ws: Seq<Seq<char>>, n: nat)
    requires
        n <= ws.len(),
        forall|i: int| 0 <= i < ws.len() ==> (#[trigger] ws[i]).len() > 0,
    ensures
        unwrapped(wrapping(ws, n)) == separated(ws.take(n as int), seq![' ']),
        n > 0 ==> wrapping(ws, n).line.len() > 0,
        n == 0 ==> wrapping(ws, n).done.len() == 0,
    decreases n,
{
    let sep = seq![' '];
    if n > 0 {
        lemma_wrapping(ws, (n - 1) as nat);
        let before = wrapping(ws, (n - 1) as nat);
        let after = wrapping(ws, n);
        let w = ws[n - 1];
        assert(w.len() > 0);
        let now = ws.take(n as int);
        assert(now.drop_last() =~= ws.take(n - 1));
        assert(now.last() == w);
        if n == 1 {
            assert(before.line.len() == 0);
            assert(after.done.push(after.line) =~= seq![w]);
            assert(now =~= seq![w]);
        } else {
            let old_lines = before.done.push(before.line);
            assert(separated(now, sep) == separated(ws.take(n - 1), sep) + sep + w);
            if before.line.len() + w.len() + 1 > THREAD_WIDTH {
                let lines_now = after.done.push(after.line);
                assert(lines_now.drop_last() =~= old_lines);
                assert(lines_now.last() == w);
                assert(separated(lines_now, sep) == separated(old_lines, sep) + sep + w);
            } else {
                let lines_now = after.done.push(after.line);
                assert(lines_now.drop_last() =~= before.done);
                assert(old_lines.drop_last() =~= before.done);
                if before.done.len() > 0 {
                    assert(separated(lines_now, sep) == separated(before.done, sep) + sep + after.line);
                    assert(separated(old_lines, sep) == separated(before.done, sep) + sep + before.line);
                } else {
                    assert(lines_now =~= seq![after.line]);
                    assert(old_lines =~= seq![before.line]);
                }
                assert(after.line =~= before.line + sep + w);
                assert(separated(lines_now, sep) =~= separated(old_lines, sep) + sep + w);
            }
        }
    } else {
        assert(ws.take(0) =~= Seq::empty());
    }
}

/// The lines of a message are its words, all of them and in order.
pub proof fn messages_keep_their_words(text: Seq<char>)
    ensures
        separated(message_lines(text), seq![' ']) == separated(words(text), seq![' ']),
{
    lemma_words_solid(text);
    let ws = words(text);
    lemma_wrapping(ws, ws.len());
    assert(ws.take(ws.len() as int) =~= ws);
}

/// A line is ended only where the next word would not fit on it.
pub proof fn lines_are_filled(ws: Seq<Seq<char>>, n: nat, i: int)
    requires
        n <= ws.len(),
        forall|k: int| 0 <= k < ws.len() ==> (#[trigger] ws[k]).len() > 0,
        0 <= i < wrapping(ws, n).done.len(),
    ensures
        ({
            let w = wrapping(ws, n);
            let next = if i + 1 < w.done.len() {
                w.done[i + 1]
            } else {
                w.line
            };
            exists|k: int|
                0 <= k < n && (#[trigger] ws[k]).is_prefix_of(next) && w.done[i].len() + 1 + ws[k].len() > 100
        }),
    decreases n,
{
    let w = wrapping(ws, n);
    let before = wrapping(ws, (n - 1) as nat);
    let word = ws[n - 1];
    assert(word.len() > 0);
    if i < before.done.len() {
        lines_are_filled(ws, (n - 1) as nat, i);
        let next = if i + 1 < before.done.len() {
            before.done[i + 1]
        } else {
            before.line
        };
        let k = choose|k: int|
            0 <= k < n - 1 && (#[trigger] ws[k]).is_prefix_of(next) && before.done[i].len() + 1 + ws[k].len()
                > 100;
        let now = if i + 1 < w.done.len() {
            w.done[i + 1]
        } else {
            w.line
        };
        assert(w.done[i] == before.done[i]);
        assert(ws[k].is_prefix_of(now));
        assert(0 <= k < n && ws[k].is_prefix_of(now));
    } else {
        assert(w.done == before.done.push(before.line));
        assert(ws[n - 1].is_prefix_of(w.line));
    }
}

/// Every line of a message is shown: the first behind who speaks, and the others behind six blanks; a
/// blank row follows.
pub proof fn messages_are_shown_by_line(speaker: Seq<char>, text: Seq<char>, i: int)
    requires
        0 <= i < message_lines(text).len(),
    ensures
        message_rows(speaker, text).len() == message_lines(text).len() + 1,
        message_rows(speaker, text)[i].0.skip(6) == message_lines(text)[i] || (i == 0 && speaker != "you"@
            && message_rows(speaker, text)[i].0.skip(4) == message_lines(text)[i]),
        message_rows(speaker, text).last().0.len() == 0,
        i > 0 ==> message_rows(speaker, text)[i].0.take(6) == seq![' ', ' ', ' ', ' ', ' ', ' '],
{
    reveal_strlit("      ");
    reveal_strlit("you \u{25b8} ");
    reveal_strlit("  \u{25cf} ");
    let row = message_rows(speaker, text)[i].0;
    let line = message_lines(text)[i];
    let l = lead(speaker == "you"@, i == 0);
    assert(row == l + line);
    assert(row.skip(l.len() as int) =~= line);
    if i > 0 {
        assert(row.take(6) =~= l);
        assert(l =~= seq![' ', ' ', ' ', ' ', ' ', ' ']);
    }
}

/// Two transcripts one after the other are shown one after the other.
pub proof fn messages_are_shown_in_order(a: Seq<(Seq<char>, Seq<char>)>, b: Seq<(Seq<char>, Seq<char>)>)
    ensures
        messages_shown(a + b, (a + b).len()) == messages_shown(a, a.len()) + messages_shown(b, b.len()),
    decreases b.len(),
{
    if b.len() > 0 {
        let c = b.drop_last();
        messages_are_shown_in_order(a, c);
        assert((a + b)[(a + b).len() - 1] == b.last());
        lemma_same_messages(a + c, a + b, (a + c).len());
        lemma_same_messages(c, b, c.len());
        assert(messages_shown(a + b, (a + b).len()) =~= messages_shown(a, a.len()) + messages_shown(b, b.len()));
    } else {
        assert(a + b =~= a);
        assert(messages_shown(a, a.len()) + messages_shown(b, 0) =~= messages_shown(a, a.len()));
    }
}

proof fn lemma_same_messages(a: Seq<(Seq<char>, Seq<char>)>, b: Seq<(Seq<char>, Seq<char>)>, n: nat)
    requires
        n <= a.len(),
        n <= b.len(),
        forall|i: int| 0 <= i < n ==> a[i] == b[i],
    ensures
        messages_shown(a, n) == messages_shown(b, n),
    decreases n,
{
    if n > 0 {
        lemma_same_messages(a, b, (n - 1) as nat);
    }
}

/// A thread scrolls by one row or by ten, and not beyond its first and its last.
pub proof fn threads_scroll_by_rows(scroll: int, n: int)
    requires
        0 <= scroll < n,
    ensures
        thread_scrolled(scroll, n, PageKey::Down) == bumped(scroll, n, true, 1),
        thread_scrolled(scroll, n, PageKey::Up) == bumped(scroll, n, false, 1),
        thread_scrolled(scroll, n, PageKey::PageDown) == bumped(scroll, n, true, 10),
        thread_scrolled(scroll, n, PageKey::PageUp) == bumped(scroll, n, false, 10),
        thread_scrolled(scroll, n, PageKey::Enter) == scroll,
        thread_scrolled(scroll, n, PageKey::Escape) == scroll,
{
}

/// A directory below the home directory is shown from a tilde on, and any other as it is.
pub proof fn home_is_a_tilde(home: Seq<char>, rest: Seq<char>, other: Seq<char>)
    requires
        home.len() > 0,
    ensures
        short_dir(home + rest, home) == seq!['~'] + rest,
        !home.is_prefix_of(other) ==> short_dir(other, home) == other,
        short_dir(other, Seq::empty()) == other,
{
    assert((home + rest).skip(home.len() as int) =~= rest);
    assert(home.is_prefix_of(home + rest)) by {
        assert((home + rest).subrange(0, home.len() as int) =~= home);
    }
}

/// What is cut short keeps its end, or its beginning, and what fits stays whole.
pub proof fn what_is_cut_keeps_an_end(a: Seq<char>, b: Seq<char>)
    requires
        a.len() > 0,
    ensures
        ending(a + b, b.len() as int) == b,
        beginning(b + a, b.len() as int) == b,
        ending(b, b.len() as int) == b,
        beginning(b, b.len() as int) == b,
{
    assert((a + b).skip(a.len() as int) =~= b);
    assert((b + a).take(b.len() as int) =~= b);
}

/// A message steers an agent that is at work, and is simply sent to one that is not.
pub proof fn agents_at_work_are_steered(s: Option<AgentRunState>)
    ensures
        behavior_for(s) is Some <==> s == Some(AgentRunState::Running) || s == Some(AgentRunState::Queued),
        behavior_for(s) is Some ==> behavior_for(s) == Some("steer"@),
{
}

/// A row leads to what it shows: a session to that session, the attached agent to its thread, the
/// heading of the history to showing or hiding it, and a heading nowhere.
pub proof fn rows_lead_to_what_they_show(model: Seq<AgentsRow>, i: int, session: usize)
    ensures
        activated(model, i) == AgentsStep::ShowSession(session) <==> 0 <= i < model.len() && model[i]
            == AgentsRow::Session(session),
        activated(model, i) is ShowLive <==> 0 <= i < model.len() && model[i] is Live,
        activated(model, i) is Expand <==> 0 <= i < model.len() && model[i] is Expander,
        activated(model, i) is Nothing <==> !(0 <= i < model.len()) || model[i] is Header,
{
}

/// The thread of the attached agent shows every line of what it wrote, each cut short where it is long.
pub proof fn threads_show_every_line(
    state: Option<AgentRunState>,
    tool: Option<Seq<char>>,
    tail: Seq<char>,
    i: int,
)
    requires
        0 <= i < lines(tail).len(),
    ensures
        ({
            let rows = live_thread(state, tool, tail);
            let n = rows.len() - lines(tail).len();
            &&& n >= 2
            &&& lines(tail)[i].len() <= 140 ==> rows[n + i].0 == lines(tail)[i]
            &&& lines(tail)[i].len() > 140 ==> rows[n + i].0 == lines(tail)[i].take(140)
            &&& rows[n - 1].0.len() == 0
            &&& tool matches Some(t) ==> rows[0].1 == "tool: "@ + t
        }),
{
}

/// The words for the states differ, so that one can be told from another.
pub proof fn states_are_told_apart(a: Option<AgentRunState>, b: Option<AgentRunState>)
    requires
        state_words(a) == state_words(b),
    ensures
        a == b,
{
    reveal_strlit("\u{25cc} starting\u{2026}");
    reveal_strlit("\u{25cf} RUNNING");
    reveal_strlit("\u{25c9} NEEDS RESPONSE \u{2014} press p");
    reveal_strlit("\u{25d0} queued work");
    reveal_strlit("\u{2715} exited");
    reveal_strlit("?");
    assert(state_words(a)[0] == state_words(b)[0]);
    assert("\u{25cc} starting\u{2026}"@[0] == '\u{25cc}' && "\u{25cf} RUNNING"@[0] == '\u{25cf}');
    assert("\u{25c9} NEEDS RESPONSE \u{2014} press p"@[0] == '\u{25c9}' && "\u{25d0} queued work"@[0]
        == '\u{25d0}');
    assert("\u{2715} exited"@[0] == '\u{2715}' && "?"@[0] == '?');
}

} // verus!
