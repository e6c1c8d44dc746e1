//! The keyboard: who gets a key, what a terminal is sent for it, and what the pages do with it.

use vstd::prelude::*;
use vstd::utf8::encode_utf8;
use crate::bytes::push_bytes;
use crate::caret::{chord, chord_of, is_control_char, Chord, EditKey};
use crate::case::{ascii_lower, text_lower};
use crate::dashboard::{agents_key, agents_row_model, letter_step, moved, activated, thread_key, thread_scrolled, AgentsStep, ThreadStep};
use crate::lists::{accepted, bumped, inputs_take_their_characters, shortened, takes, wrapped_down, wrapped_up, Accepts, PageKey};
use crate::overlay::{AgentsPage, Page};
use crate::pages::{few_rows, Pages, Surroundings};
use crate::palette::{palette_pressed, PaletteStep};
use crate::pickers::{help_key, help_scrolled, is_filled, prompt_key, prompt_pressed, search_pressed, ssh_pressed, PickerStep, PromptStep, SearchStep};
use crate::settings::{row_after, settings_key, settings_step, ModulesPage, ModulesStep, SettingsStep};
use crate::text::{chars, chars_of, is_white, same, string_of, text_of, trim, trimmed};

verus! {

// --- terminals ---

/// The control byte of a letter.
pub open spec fn control_byte(c: Seq<char>) -> Option<Seq<u8>> {
    if c.len() > 0 && 'a' <= ascii_lower(c[0]) <= 'z' {
        Some(seq![(ascii_lower(c[0]) as int - 96) as u8])
    } else {
        None
    }
}

/// The bytes of an escape sequence.
pub open spec fn escape(tail: Seq<u8>) -> Seq<u8> {
    seq![27u8, 91u8] + tail
}

/// What a terminal is sent for a key. A letter with control held is its control byte.
pub open spec fn terminal_bytes(key: EditKey, ctrl: bool, text: Option<Seq<char>>) -> Option<Seq<u8>> {
    match key {
        EditKey::Enter => Some(seq![13u8]),
        EditKey::Backspace => Some(seq![127u8]),
        EditKey::Tab => Some(seq![9u8]),
        EditKey::Up => Some(escape(seq![65u8])),
        EditKey::Down => Some(escape(seq![66u8])),
        EditKey::Right => Some(escape(seq![67u8])),
        EditKey::Left => Some(escape(seq![68u8])),
        EditKey::Home => Some(escape(seq![72u8])),
        EditKey::End => Some(escape(seq![70u8])),
        EditKey::PageUp => Some(escape(seq![53u8, 126u8])),
        EditKey::PageDown => Some(escape(seq![54u8, 126u8])),
        EditKey::Delete => Some(escape(seq![51u8, 126u8])),
        EditKey::Character(c) if ctrl => control_byte(c@),
        _ => match text {
            Some(t) => Some(encode_utf8(t)),
            None => None,
        },
    }
}

/// The bytes that may be sent.
pub open spec fn bytes_of(b: Option<Vec<u8>>) -> Option<Seq<u8>> {
    match b {
        Some(v) => Some(v@),
        None => None,
    }
}

fn letter_byte(c: &str) -> (r: Option<Vec<u8>>)
    ensures
        bytes_of(r) == control_byte(c@),
{
    let cs = chars_of(c);
    if cs.len() == 0 {
        return None;
    }
    let first = cs[0];
    let code: u32 = if 'A' <= first && first <= 'Z' {
        first as u32 + 32
    } else {
        first as u32
    };
    if 97 <= code && code <= 122 {
        let v: Vec<u8> = vec![(code - 96) as u8];
        assert(v@ =~= seq![(ascii_lower(first) as int - 96) as u8]);
        Some(v)
    } else {
        None
    }
}

fn escape_seq(a: u8) -> (r: Vec<u8>)
    ensures
        r@ == escape(seq![a]),
{
    let v: Vec<u8> = vec![27u8, 91u8, a];
    assert(v@ =~= escape(seq![a]));
    v
}

fn escape_seq2(a: u8, b: u8) -> (r: Vec<u8>)
    ensures
        r@ == escape(seq![a, b]),
{
    let v: Vec<u8> = vec![27u8, 91u8, a, b];
    assert(v@ =~= escape(seq![a, b]));
    v
}

fn one_byte(a: u8) -> (r: Vec<u8>)
    ensures
        r@ == seq![a],
{
    let v: Vec<u8> = vec![a];
    assert(v@ =~= seq![a]);
    v
}

/// What a terminal is sent for a key.
pub fn term_key_bytes(key: &EditKey, ctrl: bool, text: Option<&str>) -> (r: Option<Vec<u8>>)
    ensures
        bytes_of(r) == terminal_bytes(*key, ctrl, chars(text)),
{
    match key {
        EditKey::Enter => Some(one_byte(13)),
        EditKey::Backspace => Some(one_byte(127)),
        EditKey::Tab => Some(one_byte(9)),
        EditKey::Up => Some(escape_seq(65)),
        EditKey::Down => Some(escape_seq(66)),
        EditKey::Right => Some(escape_seq(67)),
        EditKey::Left => Some(escape_seq(68)),
        EditKey::Home => Some(escape_seq(72)),
        EditKey::End => Some(escape_seq(70)),
        EditKey::PageUp => Some(escape_seq2(53, 126)),
        EditKey::PageDown => Some(escape_seq2(54, 126)),
        EditKey::Delete => Some(escape_seq2(51, 126)),
        EditKey::Character(c) => if ctrl {
            letter_byte(c)
        } else {
            text_bytes(text)
        },
        _ => text_bytes(text),
    }
}

fn text_bytes(text: Option<&str>) -> (r: Option<Vec<u8>>)
    ensures
        bytes_of(r) == match chars(text) {
            Some(t) => Some(encode_utf8(t)),
            None => None,
        },
{
    match text {
        Some(t) => {
            let mut out: Vec<u8> = Vec::new();
            push_bytes(&mut out, t);
            assert(out@ =~= encode_utf8(t@));
            Some(out)
        },
        None => None,
    }
}

// --- who gets a key ---

/// Who gets a key.
#[derive(Clone, Copy, Debug, PartialEq, Eq, Structural)]
pub enum Route {
    /// The terminal is to be shown or hidden.
    TerminalToggle,
    /// The terminal is to be left.
    TerminalLeave,
    /// The terminal is to fill the window, or no more.
    TerminalMaximize,
    /// The terminal is sent it.
    TerminalInput,
    /// The open page gets it.
    Page,
    /// The help page is to be opened.
    Help,
    /// The next tab is to be shown.
    NextTab,
    /// It is a chord.
    Chord(Chord),
    /// The editor gets it.
    Edit,
}

/// Who gets a key: a terminal in focus nearly every one, an open page all of them.
pub open spec fn key_route(page: Page, term_focused: bool, key: EditKey, ctrl: bool, shift: bool) -> Route {
    if page is Editor && term_focused {
        match key {
            EditKey::Character(c) => if ctrl && c@ == "`"@ {
                Route::TerminalToggle
            } else {
                Route::TerminalInput
            },
            EditKey::Escape => Route::TerminalLeave,
            EditKey::F11 => Route::TerminalMaximize,
            _ => Route::TerminalInput,
        }
    } else if !(page is Editor) {
        Route::Page
    } else {
        match key {
            EditKey::F1 => Route::Help,
            EditKey::Tab => if ctrl {
                Route::NextTab
            } else {
                Route::Edit
            },
            EditKey::Character(c) => if ctrl {
                Route::Chord(chord_of(text_lower(c@), shift))
            } else {
                Route::Edit
            },
            _ => Route::Edit,
        }
    }
}

/// Who gets a key.
pub fn route_key(page: Page, term_focused: bool, key: &EditKey, ctrl: bool, shift: bool) -> (r: Route)
    ensures
        r == key_route(page, term_focused, *key, ctrl, shift),
{
    let editor = matches!(page, Page::Editor);
    if editor && term_focused {
        match key {
            EditKey::Character(c) => if ctrl && same(c, "`") {
                Route::TerminalToggle
            } else {
                Route::TerminalInput
            },
            EditKey::Escape => Route::TerminalLeave,
            EditKey::F11 => Route::TerminalMaximize,
            _ => Route::TerminalInput,
        }
    } else if !editor {
        Route::Page
    } else {
        match key {
            EditKey::F1 => Route::Help,
            EditKey::Tab => if ctrl {
                Route::NextTab
            } else {
                Route::Edit
            },
            EditKey::Character(c) => if ctrl {
                Route::Chord(chord(c, shift))
            } else {
                Route::Edit
            },
            _ => Route::Edit,
        }
    }
}

/// What a terminal takes the bytes of a key for: by the letter or the number of the sequence.
pub open spec fn key_read(b: Seq<u8>) -> Option<EditKey> {
    if b == seq![13u8] {
        Some(EditKey::Enter)
    } else if b == seq![127u8] {
        Some(EditKey::Backspace)
    } else if b == seq![9u8] {
        Some(EditKey::Tab)
    } else if b.len() == 3 && b[0] == 27 && b[1] == '[' as u8 {
        if b[2] == 'A' as u8 {
            Some(EditKey::Up)
        } else if b[2] == 'B' as u8 {
            Some(EditKey::Down)
        } else if b[2] == 'C' as u8 {
            Some(EditKey::Right)
        } else if b[2] == 'D' as u8 {
            Some(EditKey::Left)
        } else if b[2] == 'H' as u8 {
            Some(EditKey::Home)
        } else if b[2] == 'F' as u8 {
            Some(EditKey::End)
        } else {
            None
        }
    } else if b.len() == 4 && b[0] == 27 && b[1] == '[' as u8 && b[3] == '~' as u8 {
        if b[2] == '3' as u8 {
            Some(EditKey::Delete)
        } else if b[2] == '5' as u8 {
            Some(EditKey::PageUp)
        } else if b[2] == '6' as u8 {
            Some(EditKey::PageDown)
        } else {
            None
        }
    } else {
        None
    }
}

/// A key that is no character reaches the terminal as itself, whatever is held and whatever text
/// comes with it.
pub proof fn terminals_read_the_keys(key: EditKey, ctrl: bool, text: Option<Seq<char>>)
    requires
        key is Enter || key is Backspace || key is Tab || key is Up || key is Down || key is Left || key
            is Right || key is Home || key is End || key is PageUp || key is PageDown || key is Delete,
    ensures
        terminal_bytes(key, ctrl, text) is Some,
        key_read(terminal_bytes(key, ctrl, text)->0) == Some(key),
{
    let b = terminal_bytes(key, ctrl, text)->0;
    assert(seq![13u8].len() == 1 && seq![127u8].len() == 1 && seq![9u8].len() == 1);
    assert(seq![13u8][0] == 13 && seq![127u8][0] == 127 && seq![9u8][0] == 9);
    assert(b[0] == 27 || b[0] == 13 || b[0] == 127 || b[0] == 9);
}

/// With control held a letter is sent as its place in the alphabet, in either case, and anything else
/// that is typed not at all; without, what is sent is the text.
pub proof fn terminals_read_the_letters(c: String, text: Option<Seq<char>>, b: u8)
    requires
        c@.len() > 0,
    ensures
        terminal_bytes(EditKey::Character(c), true, text) == Some(seq![b]) <==> 1 <= b <= 26 && (c@[0] as int
            == 'a' as int + b - 1 || c@[0] as int == 'A' as int + b - 1),
        !('a' <= c@[0] <= 'z' || 'A' <= c@[0] <= 'Z') ==> terminal_bytes(
            EditKey::Character(c),
            true,
            text,
        ) is None,
        text is Some ==> terminal_bytes(EditKey::Character(c), false, text) == Some(encode_utf8(text->0)),
        text is None ==> terminal_bytes(EditKey::Character(c), false, text) is None,
        text is Some ==> terminal_bytes(EditKey::Escape, false, text) == Some(encode_utf8(text->0)),
{
    if let Some(s) = control_byte(c@) {
        assert(s[0] == s[0]);
        if s == seq![b] {
            assert(seq![b][0] == b);
        }
        if s[0] == b {
            assert(s =~= seq![b]);
        }
    }
}

/// In the editor a chord is a character with control held, and nothing else is; what is no chord and
/// neither asks for help nor for the next tab edits the text.
pub proof fn chords_need_control(key: EditKey, ctrl: bool, shift: bool)
    ensures
        ({
            let r = key_route(Page::Editor, false, key, ctrl, shift);
            &&& r is Chord <==> ctrl && key is Character
            &&& r is NextTab <==> ctrl && key is Tab
            &&& r is Help <==> key is F1
            &&& r is Edit <==> !(r is Chord || r is NextTab || r is Help)
            &&& r matches Route::Chord(chord) ==> chord == chord_of(text_lower(key->Character_0@), shift)
        }),
{
}

/// A terminal in focus gets every key but the three that are for itself.
pub proof fn terminals_get_the_keys(key: EditKey, ctrl: bool, shift: bool)
    ensures
        ({
            let r = key_route(Page::Editor, true, key, ctrl, shift);
            &&& r is TerminalLeave <==> key is Escape
            &&& r is TerminalMaximize <==> key is F11
            &&& r is TerminalToggle <==> ctrl && (key matches EditKey::Character(c) && c@ == "`"@)
            &&& r is TerminalInput <==> !(r is TerminalLeave || r is TerminalMaximize || r is TerminalToggle)
        }),
{
}

/// A terminal in focus keeps the editor's chords from acting: with control held, a letter goes to
/// the terminal.
pub proof fn terminal_gets_the_letters(c: String, shift: bool)
    requires
        c@ != "`"@,
    ensures
        key_route(Page::Editor, true, EditKey::Character(c), true, shift) == Route::TerminalInput,
{
}

/// An open page gets every key, whatever has the focus behind it.
pub proof fn pages_get_every_key(page: Page, term_focused: bool, key: EditKey, ctrl: bool, shift: bool)
    requires
        !(page is Editor),
    ensures
        key_route(page, term_focused, key, ctrl, shift) == Route::Page,
{
}

// --- the pages ---

/// What a key on a page asks for.
#[derive(Debug)]
pub enum KeyStep {
    /// Nothing.
    Nothing,
    /// The page is to be drawn anew.
    Refresh,
    /// The page was closed.
    Close,
    /// The page was closed, and the command with this id is to be run.
    Run(String),
    /// The page was closed, and the line that is typed is to be gone to.
    Goto,
    /// The page was closed, and this is to be connected to, if there is one.
    Connect(Option<String>),
    /// What a key on the agents page asks for.
    Agents(AgentsStep),
    /// This is to be sent to the attached agent.
    Send(String),
    /// A file on a host is to be opened.
    OpenRemote(String, String),
    /// The page was closed, and the hit that is selected is to be opened.
    OpenHit,
    /// This is to be searched for.
    Search(String),
    /// The page was closed, and the configuration is to be saved.
    SaveAndClose,
    /// The selected setting goes up.
    More,
    /// The selected setting goes down.
    Less,
    /// What is selected on the modules page is to be switched.
    Toggle,
}

/// What a key on the palette, or on a page that only that page's part of the state changes for,
/// may change: that part and which page is open.
pub open spec fn on_palette(p: Pages, key: PageKey, text: Option<Seq<char>>, q: Pages, step: KeyStep) -> bool {
    &&& q == (Pages { palette: q.palette, page: q.page, ..p })
    &&& exists|s: PaletteStep|
        {
            &&& #[trigger] palette_pressed(p.palette, key, text, q.palette, s)
            &&& match s {
                PaletteStep::Nothing => step is Nothing && q.page == p.page,
                PaletteStep::Refresh => step is Refresh && q.page == p.page,
                PaletteStep::Close => step is Close && q.page is Editor,
                PaletteStep::Run(id) => step == KeyStep::Run(id) && q.page is Editor,
            }
        }
}

/// What a key on the help page does.
pub open spec fn on_help(p: Pages, key: PageKey, q: Pages, step: KeyStep) -> bool {
    &&& q == (Pages { help_scroll: q.help_scroll, page: q.page, ..p })
    &&& q.help_scroll == help_scrolled(p.help_scroll as int, p.palette.items@.len() as int, key)
    &&& match key {
        PageKey::Escape => step is Close && q.page is Editor,
        PageKey::Down | PageKey::PageDown | PageKey::Up | PageKey::PageUp => step is Refresh && q.page
            == p.page,
        _ => step is Nothing && q.page == p.page,
    }
}

/// What a key on the line prompt does.
pub open spec fn on_goto(p: Pages, key: PageKey, text: Option<Seq<char>>, q: Pages, step: KeyStep) -> bool {
    &&& q == (Pages { goto_input: q.goto_input, page: q.page, ..p })
    &&& exists|s: PromptStep|
        {
            &&& #[trigger] prompt_pressed(p.goto_input@, Accepts::Digits, key, text, q.goto_input@, s)
            &&& match s {
                PromptStep::Nothing => step is Nothing && q.page == p.page,
                PromptStep::Refresh => step is Refresh && q.page == p.page,
                PromptStep::Close => step is Close && q.page is Editor,
                PromptStep::Accept => step is Goto && q.page is Editor,
            }
        }
}

/// What a key on the SSH picker does.
pub open spec fn on_ssh(p: Pages, key: PageKey, text: Option<Seq<char>>, q: Pages, step: KeyStep) -> bool {
    &&& q == (Pages { ssh: q.ssh, page: q.page, ..p })
    &&& exists|s: PickerStep|
        {
            &&& #[trigger] ssh_pressed(p.ssh, key, text, q.ssh, s)
            &&& match s {
                PickerStep::Nothing => step is Nothing && q.page == p.page,
                PickerStep::Refresh => step is Refresh && q.page == p.page,
                PickerStep::Close => step is Close && q.page is Editor,
                PickerStep::Connect(h) => step == KeyStep::Connect(h) && q.page is Editor,
            }
        }
}

/// What a key on the search page does.
pub open spec fn on_search(p: Pages, key: PageKey, text: Option<Seq<char>>, q: Pages, step: KeyStep) -> bool {
    &&& q == (Pages { search: q.search, page: q.page, ..p })
    &&& exists|s: SearchStep|
        {
            &&& #[trigger] search_pressed(p.search, key, text, q.search, s)
            &&& match s {
                SearchStep::Nothing => step is Nothing && q.page == p.page,
                SearchStep::Refresh => step is Refresh && q.page == p.page,
                SearchStep::Close => step is Close && q.page is Editor,
                SearchStep::Open => step is OpenHit && q.page is Editor,
                SearchStep::Run(t) => step == KeyStep::Search(t) && q.page == p.page,
            }
        }
}

/// What a key on the agents page does; a key that acts does not close the page.
pub open spec fn on_agents(
    p: Pages,
    s: Surroundings,
    key: PageKey,
    letter: Option<Seq<char>>,
    q: Pages,
    step: KeyStep,
) -> bool {
    let rows = p.agents_rows(s);
    let model = Seq::new(rows.len(), |i: int| rows[i].1);
    let sel = p.agents.scroll;
    &&& q == (Pages {
        agents: AgentsPage { scroll: q.agents.scroll, ..p.agents },
        page: q.page,
        ..p
    })
    &&& match key {
        PageKey::Escape => step is Close && q.page is Editor && q.agents.scroll == sel,
        PageKey::Down => step is Refresh && q.page == p.page && q.agents.scroll == moved(model, sel, true, 1),
        PageKey::Up => step is Refresh && q.page == p.page && q.agents.scroll == moved(model, sel, false, 1),
        PageKey::PageDown => step is Refresh && q.page == p.page && q.agents.scroll == moved(
            model,
            sel,
            true,
            5,
        ),
        PageKey::PageUp => step is Refresh && q.page == p.page && q.agents.scroll == moved(
            model,
            sel,
            false,
            5,
        ),
        PageKey::Enter => q.page == p.page && q.agents.scroll == sel && step == KeyStep::Agents(
            activated(model, sel as int),
        ),
        _ => q.page == p.page && q.agents.scroll == sel && step == KeyStep::Agents(
            match letter {
                Some(c) => letter_step(c, s.live is Some),
                None => AgentsStep::Nothing,
            },
        ),
    }
}

/// What a key on a thread does.
pub open spec fn on_thread(p: Pages, key: PageKey, q: Pages, step: KeyStep) -> bool {
    &&& q == (Pages {
        agents: AgentsPage { thread_scroll: q.agents.thread_scroll, ..p.agents },
        page: q.page,
        ..p
    })
    &&& q.agents.thread_scroll == thread_scrolled(
        p.agents.thread_scroll as int,
        p.agents.thread@.len() as int,
        key,
    )
    &&& match key {
        PageKey::Escape => step is Refresh && q.page is Agents,
        PageKey::Down | PageKey::Up | PageKey::PageDown | PageKey::PageUp => step is Refresh && q.page == p.page,
        _ => step is Nothing && q.page == p.page,
    }
}

/// What a key on the prompt for the attached agent does: a prompt that holds something is sent, and
/// either way the prompt is empty afterwards.
pub open spec fn on_prompt(p: Pages, key: PageKey, text: Option<Seq<char>>, q: Pages, step: KeyStep) -> bool {
    &&& q == (Pages { agents: AgentsPage { prompt: q.agents.prompt, ..p.agents }, page: q.page, ..p })
    &&& match key {
        PageKey::Escape => step is Refresh && q.page is Agents && q.agents.prompt@ == p.agents.prompt@,
        PageKey::Enter => q.page is Agents && q.agents.prompt@.len() == 0 && if trimmed(
            p.agents.prompt@,
        ).len() > 0 {
            step matches KeyStep::Send(t) && t@ == p.agents.prompt@
        } else {
            step is Refresh
        },
        _ => q.page == p.page && exists|s: PromptStep|
            #[trigger] prompt_pressed(
                p.agents.prompt@,
                Accepts::Printable,
                key,
                text,
                q.agents.prompt@,
                s,
            ) && (step is Refresh <==> s is Refresh) && (step is Nothing <==> s is Nothing),
    }
}

/// What a key on the prompt for a remote host does: a host that is filled in leads on to the prompt
/// for the file.
pub open spec fn on_host(p: Pages, key: PageKey, text: Option<Seq<char>>, q: Pages, step: KeyStep) -> bool {
    &&& q == (Pages { remote_host: q.remote_host, remote_path: q.remote_path, page: q.page, ..p })
    &&& match key {
        PageKey::Escape => step is Close && q.page is Editor && q.remote_host@ == p.remote_host@
            && q.remote_path@ == p.remote_path@,
        PageKey::Enter => q.remote_host@ == p.remote_host@ && if trimmed(p.remote_host@).len() > 0 {
            step is Refresh && q.page is RemotePath && q.remote_path@.len() == 0
        } else {
            step is Nothing && q.page == p.page && q.remote_path@ == p.remote_path@
        },
        _ => q.page == p.page && q.remote_path@ == p.remote_path@ && exists|s: PromptStep|
            #[trigger] prompt_pressed(p.remote_host@, Accepts::Solid, key, text, q.remote_host@, s) && (
            step is Refresh <==> s is Refresh) && (step is Nothing <==> s is Nothing),
    }
}

/// What a key on the prompt for a remote file does.
pub open spec fn on_path(p: Pages, key: PageKey, text: Option<Seq<char>>, q: Pages, step: KeyStep) -> bool {
    &&& q == (Pages { remote_path: q.remote_path, page: q.page, ..p })
    &&& match key {
        PageKey::Escape => step is Close && q.page is Editor && q.remote_path@ == p.remote_path@,
        PageKey::Enter => q.page == p.page && q.remote_path@ == p.remote_path@ && if trimmed(
            p.remote_path@,
        ).len() > 0 {
            step matches KeyStep::OpenRemote(h, f) && h@ == trimmed(p.remote_host@) && f@ == trimmed(
                p.remote_path@,
            )
        } else {
            step is Nothing
        },
        _ => q.page == p.page && exists|s: PromptStep|
            #[trigger] prompt_pressed(p.remote_path@, Accepts::Printable, key, text, q.remote_path@, s) && (
            step is Refresh <==> s is Refresh) && (step is Nothing <==> s is Nothing),
    }
}

/// What a key on the settings page does.
pub open spec fn on_settings(p: Pages, key: PageKey, text: Option<Seq<char>>, q: Pages, step: KeyStep) -> bool {
    &&& q == (Pages { settings_sel: q.settings_sel, page: q.page, ..p })
    &&& q.settings_sel == row_after(p.settings_sel as int, key)
    &&& match settings_step(p.settings_sel as int, key, text) {
        SettingsStep::Nothing => step is Nothing && q.page == p.page,
        SettingsStep::Refresh => step is Refresh && q.page == p.page,
        SettingsStep::SaveAndClose => step is SaveAndClose && q.page is Editor,
        SettingsStep::More => step is More && q.page == p.page,
        SettingsStep::Less => step is Less && q.page == p.page,
    }
}

/// What a key on the modules page does, of whose rows the first `features` are features.
pub open spec fn on_modules(p: Pages, features: int, key: PageKey, q: Pages, step: KeyStep) -> bool {
    let n = features + p.modules.modules@.len();
    let sel = p.modules.sel;
    &&& q == (Pages {
        modules: ModulesPage {
            sel: q.modules.sel,
            hint: q.modules.hint,
            ..p.modules
        },
        page: q.page,
        ..p
    })
    &&& match key {
        PageKey::Escape => step is SaveAndClose && q.page is Editor && q.modules == p.modules,
        PageKey::Enter => step is Toggle && q.page == p.page && q.modules == p.modules,
        PageKey::Up => step is Refresh && q.page == p.page && q.modules.hint is None && q.modules.sel == (if sel
            > 0 {
            sel - 1
        } else {
            0
        }),
        PageKey::Down => step is Refresh && q.page == p.page && q.modules.hint is None && q.modules.sel == (
        if n == 0 {
            0
        } else if sel + 1 < n {
            sel + 1
        } else {
            n - 1
        }),
        _ => step is Nothing && q.page == p.page && q.modules == p.modules,
    }
}

/// What a key on the open page does, and what it asks for.
pub open spec fn page_pressed(
    p: Pages,
    s: Surroundings,
    key: PageKey,
    letter: Option<Seq<char>>,
    text: Option<Seq<char>>,
    q: Pages,
    step: KeyStep,
) -> bool {
    match p.page {
        Page::Editor => step is Nothing && q == p,
        Page::Palette => on_palette(p, key, text, q, step),
        Page::Help => on_help(p, key, q, step),
        Page::GotoLine => on_goto(p, key, text, q, step),
        Page::SshPicker => on_ssh(p, key, text, q, step),
        Page::Agents => on_agents(p, s, key, letter, q, step),
        Page::AgentPrompt => on_prompt(p, key, text, q, step),
        Page::AgentThread => on_thread(p, key, q, step),
        Page::RemoteHost => on_host(p, key, text, q, step),
        Page::RemotePath => on_path(p, key, text, q, step),
        Page::Search => on_search(p, key, text, q, step),
        Page::Settings => on_settings(p, key, text, q, step),
        Page::Modules => on_modules(p, s.features@.len() as int, key, q, step),
    }
}

impl Pages {
    fn palette_key(&mut self, key: PageKey, text: Option<&str>) -> (r: KeyStep)
        requires
            old(self).wf(),
        ensures
            on_palette(*old(self), key, chars(text), *final(self), r),
            final(self).palette.wf(),
    {
        let step = self.palette.key(key, text);
        let ghost s = step;
        assert(palette_pressed(old(self).palette, key, chars(text), self.palette, s));
        match step {
            PaletteStep::Nothing => KeyStep::Nothing,
            PaletteStep::Refresh => KeyStep::Refresh,
            PaletteStep::Close => {
                self.page = Page::Editor;
                KeyStep::Close
            },
            PaletteStep::Run(id) => {
                self.page = Page::Editor;
                KeyStep::Run(id)
            },
        }
    }

    fn help_page_key(&mut self, key: PageKey) -> (r: KeyStep)
        requires
            old(self).wf(),
        ensures
            on_help(*old(self), key, *final(self), r),
    {
        match help_key(&mut self.help_scroll, self.palette.items.len(), key) {
            PromptStep::Close => {
                self.page = Page::Editor;
                KeyStep::Close
            },
            PromptStep::Refresh => KeyStep::Refresh,
            _ => KeyStep::Nothing,
        }
    }

    fn goto_key(&mut self, key: PageKey, text: Option<&str>) -> (r: KeyStep)
        ensures
            on_goto(*old(self), key, chars(text), *final(self), r),
    {
        let step = prompt_key(&mut self.goto_input, Accepts::Digits, key, text);
        let ghost s = step;
        assert(prompt_pressed(
            old(self).goto_input@,
            Accepts::Digits,
            key,
            chars(text),
            self.goto_input@,
            s,
        ));
        match step {
            PromptStep::Nothing => KeyStep::Nothing,
            PromptStep::Refresh => KeyStep::Refresh,
            PromptStep::Close => {
                self.page = Page::Editor;
                KeyStep::Close
            },
            PromptStep::Accept => {
                self.page = Page::Editor;
                KeyStep::Goto
            },
        }
    }

    fn ssh_key(&mut self, key: PageKey, text: Option<&str>) -> (r: KeyStep)
        requires
            old(self).wf(),
        ensures
            on_ssh(*old(self), key, chars(text), *final(self), r),
            final(self).ssh.wf(),
    {
        let step = self.ssh.key(key, text);
        let ghost s = step;
        assert(ssh_pressed(old(self).ssh, key, chars(text), self.ssh, s));
        match step {
            PickerStep::Nothing => KeyStep::Nothing,
            PickerStep::Refresh => KeyStep::Refresh,
            PickerStep::Close => {
                self.page = Page::Editor;
                KeyStep::Close
            },
            PickerStep::Connect(h) => {
                self.page = Page::Editor;
                KeyStep::Connect(h)
            },
        }
    }

    fn search_key(&mut self, key: PageKey, text: Option<&str>) -> (r: KeyStep)
        requires
            old(self).wf(),
        ensures
            on_search(*old(self), key, chars(text), *final(self), r),
            final(self).search.wf(),
    {
        let step = self.search.key(key, text);
        let ghost s = step;
        assert(search_pressed(old(self).search, key, chars(text), self.search, s));
        match step {
            SearchStep::Nothing => KeyStep::Nothing,
            SearchStep::Refresh => KeyStep::Refresh,
            SearchStep::Close => {
                self.page = Page::Editor;
                KeyStep::Close
            },
            SearchStep::Open => {
                self.page = Page::Editor;
                KeyStep::OpenHit
            },
            SearchStep::Run(t) => KeyStep::Search(t),
        }
    }

    fn agents_page_key(&mut self, s: &Surroundings, key: PageKey, letter: Option<&str>) -> (r: KeyStep)
        ensures
            on_agents(*old(self), *s, key, chars(letter), *final(self), r),
            final(self).agents.scroll == old(self).agents.scroll || final(self).agents.scroll < old(
                self,
            ).agents_rows(*s).len(),
    {
        let (all, model) = agents_row_model(
            &self.agents.sessions,
            s.live,
            self.agents.expanded,
            s.home,
        );
        let ghost rows = self.agents_rows(*s);
        assert(model@ =~= Seq::new(rows.len(), |i: int| rows[i].1));
        let step = agents_key(&model, &mut self.agents.scroll, key, letter, s.live.is_some());
        match key {
            PageKey::Escape => {
                self.page = Page::Editor;
                KeyStep::Close
            },
            PageKey::Down | PageKey::Up | PageKey::PageDown | PageKey::PageUp => KeyStep::Refresh,
            _ => KeyStep::Agents(step),
        }
    }

    fn thread_page_key(&mut self, key: PageKey) -> (r: KeyStep)
        requires
            old(self).wf(),
        ensures
            on_thread(*old(self), key, *final(self), r),
    {
        let n = self.agents.thread.len();
        match thread_key(&mut self.agents.thread_scroll, n, key) {
            ThreadStep::Nothing => KeyStep::Nothing,
            ThreadStep::Refresh => KeyStep::Refresh,
            ThreadStep::Back => {
                self.page = Page::Agents;
                KeyStep::Refresh
            },
        }
    }

    fn agent_prompt_key(&mut self, key: PageKey, text: Option<&str>) -> (r: KeyStep)
        ensures
            on_prompt(*old(self), key, chars(text), *final(self), r),
    {
        let step = prompt_key(&mut self.agents.prompt, Accepts::Printable, key, text);
        let ghost s = step;
        assert(prompt_pressed(
            old(self).agents.prompt@,
            Accepts::Printable,
            key,
            chars(text),
            self.agents.prompt@,
            s,
        ));
        match step {
            PromptStep::Nothing => KeyStep::Nothing,
            PromptStep::Refresh => KeyStep::Refresh,
            PromptStep::Close => {
                self.page = Page::Agents;
                KeyStep::Refresh
            },
            PromptStep::Accept => {
                self.page = Page::Agents;
                let typed = self.agents.prompt.clone();
                self.agents.prompt = String::new();
                if is_filled(&typed) {
                    KeyStep::Send(typed)
                } else {
                    KeyStep::Refresh
                }
            },
        }
    }

    fn remote_host_key(&mut self, key: PageKey, text: Option<&str>) -> (r: KeyStep)
        ensures
            on_host(*old(self), key, chars(text), *final(self), r),
    {
        let step = prompt_key(&mut self.remote_host, Accepts::Solid, key, text);
        let ghost s = step;
        assert(prompt_pressed(
            old(self).remote_host@,
            Accepts::Solid,
            key,
            chars(text),
            self.remote_host@,
            s,
        ));
        match step {
            PromptStep::Nothing => KeyStep::Nothing,
            PromptStep::Refresh => KeyStep::Refresh,
            PromptStep::Close => {
                self.page = Page::Editor;
                KeyStep::Close
            },
            PromptStep::Accept => if is_filled(&self.remote_host) {
                self.remote_path = String::new();
                self.page = Page::RemotePath;
                KeyStep::Refresh
            } else {
                KeyStep::Nothing
            },
        }
    }

    fn remote_path_key(&mut self, key: PageKey, text: Option<&str>) -> (r: KeyStep)
        ensures
            on_path(*old(self), key, chars(text), *final(self), r),
    {
        let step = prompt_key(&mut self.remote_path, Accepts::Printable, key, text);
        let ghost s = step;
        assert(prompt_pressed(
            old(self).remote_path@,
            Accepts::Printable,
            key,
            chars(text),
            self.remote_path@,
            s,
        ));
        match step {
            PromptStep::Nothing => KeyStep::Nothing,
            PromptStep::Refresh => KeyStep::Refresh,
            PromptStep::Close => {
                self.page = Page::Editor;
                KeyStep::Close
            },
            PromptStep::Accept => if is_filled(&self.remote_path) {
                let h = chars_of(&self.remote_host);
                let f = chars_of(&self.remote_path);
                KeyStep::OpenRemote(string_of(trim(&h)), string_of(trim(&f)))
            } else {
                KeyStep::Nothing
            },
        }
    }

    fn settings_page_key(&mut self, key: PageKey, text: Option<&str>) -> (r: KeyStep)
        requires
            old(self).wf(),
        ensures
            on_settings(*old(self), key, chars(text), *final(self), r),
    {
        match settings_key(&mut self.settings_sel, key, text) {
            SettingsStep::Nothing => KeyStep::Nothing,
            SettingsStep::Refresh => KeyStep::Refresh,
            SettingsStep::SaveAndClose => {
                self.page = Page::Editor;
                KeyStep::SaveAndClose
            },
            SettingsStep::More => KeyStep::More,
            SettingsStep::Less => KeyStep::Less,
        }
    }

    fn modules_page_key(&mut self, features: usize, key: PageKey) -> (r: KeyStep)
        requires
            old(self).wf(),
            features + old(self).modules.modules@.len() <= usize::MAX,
        ensures
            on_modules(*old(self), features as int, key, *final(self), r),
    {
        if matches!(key, PageKey::Enter) {
            return KeyStep::Toggle;
        }
        match self.modules.key(features, key) {
            ModulesStep::SaveAndClose => {
                self.page = Page::Editor;
                KeyStep::SaveAndClose
            },
            ModulesStep::Refresh => KeyStep::Refresh,
            _ => KeyStep::Nothing,
        }
    }

    /// What a key on the open page does, and what it asks for; `letter` is the character of a key
    /// that has one, `text` what it types.
    pub fn key(&mut self, s: &Surroundings, key: PageKey, letter: Option<&str>, text: Option<&str>) -> (r: KeyStep)
        requires
            old(self).wf(),
            s.features@.len() + old(self).modules.modules@.len() <= usize::MAX,
        ensures
            page_pressed(*old(self), *s, key, chars(letter), chars(text), *final(self), r),
            few_rows(*old(self), *s) ==> final(self).wf(),
    {
        match self.page {
            Page::Editor => KeyStep::Nothing,
            Page::Palette => self.palette_key(key, text),
            Page::Help => self.help_page_key(key),
            Page::GotoLine => self.goto_key(key, text),
            Page::SshPicker => self.ssh_key(key, text),
            Page::Agents => self.agents_page_key(s, key, letter),
            Page::AgentPrompt => self.agent_prompt_key(key, text),
            Page::AgentThread => self.thread_page_key(key),
            Page::RemoteHost => self.remote_host_key(key, text),
            Page::RemotePath => self.remote_path_key(key, text),
            Page::Search => self.search_key(key, text),
            Page::Settings => self.settings_page_key(key, text),
            Page::Modules => self.modules_page_key(s.features.features().len(), key),
        }
    }
}

/// Escape leaves every page: for the editor, or for the agents from what was opened there.
pub proof fn escape_leaves_every_page(
    p: Pages,
    s: Surroundings,
    letter: Option<Seq<char>>,
    text: Option<Seq<char>>,
    q: Pages,
    step: KeyStep,
)
    requires
        page_pressed(p, s, PageKey::Escape, letter, text, q, step),
    ensures
        p.page is AgentPrompt || p.page is AgentThread ==> q.page is Agents,
        !(p.page is AgentPrompt || p.page is AgentThread) ==> q.page is Editor,
{
}

/// A key on an open page changes what belongs to that page, and nothing of the others.
pub proof fn keys_change_the_open_page(
    p: Pages,
    s: Surroundings,
    key: PageKey,
    letter: Option<Seq<char>>,
    text: Option<Seq<char>>,
    q: Pages,
    step: KeyStep,
)
    requires
        page_pressed(p, s, key, letter, text, q, step),
    ensures
        !(p.page is Palette) ==> q.palette == p.palette,
        !(p.page is Help) ==> q.help_scroll == p.help_scroll,
        !(p.page is GotoLine) ==> q.goto_input == p.goto_input,
        !(p.page is SshPicker) ==> q.ssh == p.ssh,
        !(p.page is Search) ==> q.search == p.search,
        !(p.page is Settings) ==> q.settings_sel == p.settings_sel,
        !(p.page is Modules) ==> q.modules == p.modules,
        !(p.page is RemoteHost) ==> q.remote_host == p.remote_host,
        !(p.page is RemoteHost || p.page is RemotePath) ==> q.remote_path == p.remote_path,
        !(p.page is Agents || p.page is AgentPrompt || p.page is AgentThread) ==> q.agents == p.agents,
        q.agents.sessions == p.agents.sessions,
{
}

/// Enter takes up what the page is about: the command that is selected, the line that is typed, the host
/// that is chosen, the hit that is selected, the prompt or the remote file that is written.
pub proof fn enter_takes_up_the_page(
    p: Pages,
    s: Surroundings,
    letter: Option<Seq<char>>,
    text: Option<Seq<char>>,
    q: Pages,
    step: KeyStep,
)
    requires
        page_pressed(p, s, PageKey::Enter, letter, text, q, step),
    ensures
        p.page is Palette && p.palette.selected_id() is Some ==> q.page is Editor && (step matches KeyStep::Run(i)
            && Some(i@) == p.palette.selected_id()),
        p.page is GotoLine ==> step is Goto && q.page is Editor && q.goto_input@ == p.goto_input@,
        p.page is SshPicker ==> q.page is Editor && (step matches KeyStep::Connect(h) && text_of(h)
            == p.ssh.chosen()),
        p.page is Search && p.search.sel < p.search.results@.len() ==> step is OpenHit && q.page is Editor
            && q.search == p.search,
        p.page is AgentPrompt && trimmed(p.agents.prompt@).len() > 0 ==> q.page is Agents
            && q.agents.prompt@.len() == 0 && (step matches KeyStep::Send(t) && t@ == p.agents.prompt@),
        p.page is AgentPrompt && trimmed(p.agents.prompt@).len() == 0 ==> step is Refresh,
        p.page is RemoteHost && trimmed(p.remote_host@).len() > 0 ==> q.page is RemotePath,
        p.page is RemoteHost && trimmed(p.remote_host@).len() == 0 ==> q.page is RemoteHost,
        p.page is RemotePath && trimmed(p.remote_path@).len() > 0 ==> (step matches KeyStep::OpenRemote(h, f)
            && h@ == trimmed(p.remote_host@) && f@ == trimmed(p.remote_path@)),
        p.page is RemotePath && trimmed(p.remote_path@).len() == 0 ==> step is Nothing,
        p.page is Modules ==> step is Toggle,
{
}

proof fn lemma_one_character(a: Accepts, c: char)
    ensures
        accepted(a, Some(seq![c])) == (if takes(a, c) {
            seq![c]
        } else {
            Seq::empty()
        }),
{
    let none = Seq::<char>::empty();
    inputs_take_their_characters(a, seq![c], none, c);
    inputs_take_their_characters(a, none, none, c);
    assert(none.push(c) + none =~= seq![c]);
    assert(none + none =~= none);
    assert(accepted(a, Some(none)) =~= none);
    assert(takes(a, c) ==> forall|i: int| 0 <= i < seq![c].len() ==> takes(a, #[trigger] seq![c][i]));
}

/// A character that is typed goes behind what stands in the input of the page, where the page takes it:
/// digits alone for a line, no blanks for a host, and any printable one elsewhere. The last one can be
/// taken back.
pub proof fn typed_characters_reach_the_page(
    p: Pages,
    s: Surroundings,
    c: char,
    q: Pages,
    step: KeyStep,
    b: Pages,
    back: KeyStep,
)
    requires
        page_pressed(p, s, PageKey::Other, None, Some(seq![c]), q, step),
        page_pressed(p, s, PageKey::Backspace, None, None, b, back),
    ensures
        q.page == p.page && b.page == p.page,
        p.page is Palette && !is_control_char(c) ==> q.palette.query@ == p.palette.query@.push(c),
        p.page is Palette ==> b.palette.query@ == shortened(p.palette.query@),
        p.page is GotoLine && '0' <= c <= '9' ==> q.goto_input@ == p.goto_input@.push(c),
        p.page is GotoLine && !('0' <= c <= '9') ==> q.goto_input@ == p.goto_input@,
        p.page is GotoLine ==> b.goto_input@ == shortened(p.goto_input@),
        p.page is SshPicker && !is_control_char(c) && !is_white(c) ==> q.ssh.input@ == p.ssh.input@.push(c),
        p.page is SshPicker && is_white(c) ==> q.ssh.input@ == p.ssh.input@,
        p.page is SshPicker ==> b.ssh.input@ == shortened(p.ssh.input@),
        p.page is Search && !is_control_char(c) ==> q.search.input@ == p.search.input@.push(c),
        p.page is Search ==> b.search.input@ == shortened(p.search.input@),
        p.page is AgentPrompt && !is_control_char(c) ==> q.agents.prompt@ == p.agents.prompt@.push(c),
        p.page is AgentPrompt ==> b.agents.prompt@ == shortened(p.agents.prompt@),
        p.page is RemoteHost && !is_control_char(c) && !is_white(c) ==> q.remote_host@ == p.remote_host@.push(c),
        p.page is RemoteHost && is_white(c) ==> q.remote_host@ == p.remote_host@,
        p.page is RemoteHost ==> b.remote_host@ == shortened(p.remote_host@),
        p.page is RemotePath && !is_control_char(c) ==> q.remote_path@ == p.remote_path@.push(c),
        p.page is RemotePath ==> b.remote_path@ == shortened(p.remote_path@),
{
    lemma_one_character(Accepts::Printable, c);
    lemma_one_character(Accepts::Solid, c);
    lemma_one_character(Accepts::Digits, c);
    assert(forall|t: Seq<char>| #[trigger] (t + seq![c]) =~= t.push(c));
    assert(forall|t: Seq<char>| #[trigger] (t + Seq::<char>::empty()) =~= t);
}

/// The arrows move the selection of the open page by one row: round the ends of a list that is filtered
/// or found, and up to the ends of the others.
pub proof fn arrows_move_the_selection(
    p: Pages,
    s: Surroundings,
    key: PageKey,
    letter: Option<Seq<char>>,
    text: Option<Seq<char>>,
    q: Pages,
    step: KeyStep,
)
    requires
        key is Up || key is Down,
        page_pressed(p, s, key, letter, text, q, step),
    ensures
        !(p.page is Editor || p.page is GotoLine || p.page is AgentPrompt || p.page is RemoteHost || p.page
            is RemotePath) ==> step is Refresh && q.page == p.page,
        p.page is Palette ==> q.palette.sel == (if key is Down {
            wrapped_down(p.palette.sel as int, p.palette.filtered@.len() as int)
        } else {
            wrapped_up(p.palette.sel as int, p.palette.filtered@.len() as int)
        }),
        p.page is SshPicker ==> q.ssh.sel == (if key is Down {
            wrapped_down(p.ssh.sel as int, p.ssh.filtered@.len() as int)
        } else {
            wrapped_up(p.ssh.sel as int, p.ssh.filtered@.len() as int)
        }),
        p.page is Help && p.help_scroll < p.palette.items@.len() ==> q.help_scroll == bumped(
            p.help_scroll as int,
            p.palette.items@.len() as int,
            key is Down,
            1,
        ),
        p.page is AgentThread && p.agents.thread_scroll < p.agents.thread@.len() ==> q.agents.thread_scroll
            == bumped(p.agents.thread_scroll as int, p.agents.thread@.len() as int, key is Down, 1),
        p.page is Settings && p.settings_sel < 7 ==> q.settings_sel == bumped(
            p.settings_sel as int,
            7,
            key is Down,
            1,
        ),
        p.page is Modules && p.modules.sel < s.features@.len() + p.modules.modules@.len() ==> q.modules.sel
            == bumped(
            p.modules.sel as int,
            (s.features@.len() + p.modules.modules@.len()) as int,
            key is Down,
            1,
        ),
{
}

} // verus!
