//! The commands that the editor itself has, and what each of them does.

use vstd::prelude::*;
use crate::caret::{chord_of, Chord};
use crate::commands::{Command, CommandRegistry};
use crate::text::same;

verus! {

/// The id, the title and the chord of a command.
pub open spec fn entry(c: Command) -> (Seq<char>, Seq<char>, Seq<char>) {
    (c.id@, c.title@, c.keybinding@)
}

/// The commands in the order in which they are listed.
pub open spec fn builtin() -> Seq<(Seq<char>, Seq<char>, Seq<char>)> {
    seq![
        ("file.save"@, "File: Save"@, "Ctrl+S"@),
        ("edit.undo"@, "Edit: Undo"@, "Ctrl+Z"@),
        ("edit.redo"@, "Edit: Redo"@, "Ctrl+Shift+Z"@),
        ("edit.copy"@, "Edit: Copy"@, "Ctrl+C"@),
        ("edit.cut"@, "Edit: Cut"@, "Ctrl+X"@),
        ("edit.paste"@, "Edit: Paste"@, "Ctrl+V"@),
        ("edit.selectAll"@, "Edit: Select All"@, "Ctrl+A"@),
        ("goto.fileStart"@, "Go: File Start"@, "Ctrl+Home"@),
        ("goto.fileEnd"@, "Go: File End"@, "Ctrl+End"@),
        ("view.commandPalette"@, "View: Command Palette"@, "Ctrl+Shift+P"@),
        ("view.settings"@, "Preferences: Open Settings"@, "Ctrl+,"@),
        ("view.modules"@, "Modules: Manage"@, ""@),
        ("view.toggle.gutter"@, "View: Toggle Gutter / Line Numbers"@, ""@),
        ("view.toggle.scrollbar"@, "View: Toggle Overlay Scrollbar"@, ""@),
        ("view.toggle.latencyHud"@, "View: Toggle Latency HUD"@, ""@),
        ("terminal.toggle"@, "Terminal: Toggle Panel"@, "Ctrl+` / Ctrl+J"@),
        ("terminal.focus"@, "Terminal: Focus"@, ""@),
        ("terminal.ssh"@, "Terminal: SSH to Host\u{2026}"@, ""@),
        ("terminal.maximize"@, "Terminal: Toggle Fullscreen"@, "F11"@),
        ("view.nextTab"@, "View: Next Tab"@, "Ctrl+Tab"@),
        ("view.closeTab"@, "View: Close Tab"@, "Ctrl+W"@),
        ("view.toggleSidebar"@, "View: Toggle Sidebar Labels"@, "Ctrl+B"@),
        ("goto.line"@, "Go: Line\u{2026}"@, "Ctrl+G"@),
        ("help.keys"@, "Help: Keyboard Shortcuts"@, "F1"@),
        ("agents.dashboard"@, "Agents: pi Dashboard"@, "Ctrl+Shift+A"@),
        ("remote.open"@, "Remote: Open File over SSH\u{2026}"@, ""@),
        ("remote.disconnect"@, "Remote: Disconnect Workspace"@, ""@),
        ("search.project"@, "Search: In Project\u{2026}"@, "Ctrl+Shift+F"@),
        ("view.toggle.terminal"@, "View: Toggle Terminal Feature"@, ""@),
        ("app.quit"@, "Application: Quit"@, "Ctrl+Q"@),
    ]
}

/// What a list of commands says.
pub open spec fn entries(cs: Seq<Command>) -> Seq<(Seq<char>, Seq<char>, Seq<char>)> {
    Seq::new(cs.len(), |i: int| entry(cs[i]))
}

fn add_command(reg: &mut CommandRegistry, id: &'static str, title: &'static str, keybinding: &'static str)
    ensures
        entries(final(reg)@) == entries(old(reg)@).push((id@, title@, keybinding@)),
{
    let ghost before = entries(reg@);
    let c = Command { id, title, keybinding };
    reg.register(c);
    assert(entries(reg@) =~= before.push(entry(c)));
}

/// The registry of the editor's own commands.
pub fn build_command_registry() -> (reg: CommandRegistry)
    ensures
        entries(reg@) == builtin(),
{
    let mut reg = CommandRegistry::new();
    add_command(&mut reg, "file.save", "File: Save", "Ctrl+S");
    add_command(&mut reg, "edit.undo", "Edit: Undo", "Ctrl+Z");
    add_command(&mut reg, "edit.redo", "Edit: Redo", "Ctrl+Shift+Z");
    add_command(&mut reg, "edit.copy", "Edit: Copy", "Ctrl+C");
    add_command(&mut reg, "edit.cut", "Edit: Cut", "Ctrl+X");
    add_command(&mut reg, "edit.paste", "Edit: Paste", "Ctrl+V");
    add_command(&mut reg, "edit.selectAll", "Edit: Select All", "Ctrl+A");
    add_command(&mut reg, "goto.fileStart", "Go: File Start", "Ctrl+Home");
    add_command(&mut reg, "goto.fileEnd", "Go: File End", "Ctrl+End");
    add_command(&mut reg, "view.commandPalette", "View: Command Palette", "Ctrl+Shift+P");
    add_command(&mut reg, "view.settings", "Preferences: Open Settings", "Ctrl+,");
    add_command(&mut reg, "view.modules", "Modules: Manage", "");
    add_command(&mut reg, "view.toggle.gutter", "View: Toggle Gutter / Line Numbers", "");
    add_command(&mut reg, "view.toggle.scrollbar", "View: Toggle Overlay Scrollbar", "");
    add_command(&mut reg, "view.toggle.latencyHud", "View: Toggle Latency HUD", "");
    add_command(&mut reg, "terminal.toggle", "Terminal: Toggle Panel", "Ctrl+` / Ctrl+J");
    add_command(&mut reg, "terminal.focus", "Terminal: Focus", "");
    add_command(&mut reg, "terminal.ssh", "Terminal: SSH to Host\u{2026}", "");
    add_command(&mut reg, "terminal.maximize", "Terminal: Toggle Fullscreen", "F11");
    add_command(&mut reg, "view.nextTab", "View: Next Tab", "Ctrl+Tab");
    add_command(&mut reg, "view.closeTab", "View: Close Tab", "Ctrl+W");
    add_command(&mut reg, "view.toggleSidebar", "View: Toggle Sidebar Labels", "Ctrl+B");
    add_command(&mut reg, "goto.line", "Go: Line\u{2026}", "Ctrl+G");
    add_command(&mut reg, "help.keys", "Help: Keyboard Shortcuts", "F1");
    add_command(&mut reg, "agents.dashboard", "Agents: pi Dashboard", "Ctrl+Shift+A");
    add_command(&mut reg, "remote.open", "Remote: Open File over SSH\u{2026}", "");
    add_command(&mut reg, "remote.disconnect", "Remote: Disconnect Workspace", "");
    add_command(&mut reg, "search.project", "Search: In Project\u{2026}", "Ctrl+Shift+F");
    add_command(&mut reg, "view.toggle.terminal", "View: Toggle Terminal Feature", "");
    add_command(&mut reg, "app.quit", "Application: Quit", "Ctrl+Q");
    assert(entries(reg@) =~= builtin());
    reg
}

/// What a command does.
#[derive(Clone, Copy, Debug, PartialEq, Eq, Structural)]
pub enum Action {
    Save,
    Undo,
    Redo,
    Copy,
    Cut,
    Paste,
    SelectAll,
    FileStart,
    FileEnd,
    OpenPalette,
    OpenSettings,
    OpenModules,
    ToggleGutter,
    ToggleScrollbar,
    ToggleLatencyHud,
    TerminalToggle,
    TerminalFocus,
    OpenSshPicker,
    TerminalMaximize,
    NextTab,
    CloseTab,
    ToggleSidebar,
    OpenGoto,
    OpenHelp,
    OpenAgents,
    OpenRemote,
    RemoteDisconnect,
    OpenSearch,
    ToggleTerminalFeature,
    Quit,
    /// It is none of the editor's own: a module answers it.
    Module,
}

/// What becomes of an open page when a command runs.
#[derive(Clone, Copy, Debug, PartialEq, Eq, Structural)]
pub enum Ending {
    /// The command sees to it.
    Stay,
    /// It is closed before the command runs.
    CloseFirst,
    /// It is closed afterwards.
    Close,
    /// It is closed afterwards, and the view goes to the caret.
    Follow,
}

/// What a command does, and what becomes of an open page.
pub open spec fn action_of(id: Seq<char>) -> (Action, Ending) {
    if id == "file.save"@ {
        (Action::Save, Ending::Close)
    } else if id == "edit.undo"@ {
        (Action::Undo, Ending::Follow)
    } else if id == "edit.redo"@ {
        (Action::Redo, Ending::Follow)
    } else if id == "edit.copy"@ {
        (Action::Copy, Ending::Close)
    } else if id == "edit.cut"@ {
        (Action::Cut, Ending::Follow)
    } else if id == "edit.paste"@ {
        (Action::Paste, Ending::Follow)
    } else if id == "edit.selectAll"@ {
        (Action::SelectAll, Ending::Close)
    } else if id == "goto.fileStart"@ {
        (Action::FileStart, Ending::Follow)
    } else if id == "goto.fileEnd"@ {
        (Action::FileEnd, Ending::Follow)
    } else if id == "view.commandPalette"@ {
        (Action::OpenPalette, Ending::Stay)
    } else if id == "view.settings"@ {
        (Action::OpenSettings, Ending::Stay)
    } else if id == "view.modules"@ {
        (Action::OpenModules, Ending::Stay)
    } else if id == "view.toggle.gutter"@ {
        (Action::ToggleGutter, Ending::Close)
    } else if id == "view.toggle.scrollbar"@ {
        (Action::ToggleScrollbar, Ending::Close)
    } else if id == "view.toggle.latencyHud"@ {
        (Action::ToggleLatencyHud, Ending::Close)
    } else if id == "terminal.toggle"@ {
        (Action::TerminalToggle, Ending::CloseFirst)
    } else if id == "terminal.focus"@ {
        (Action::TerminalFocus, Ending::CloseFirst)
    } else if id == "terminal.ssh"@ {
        (Action::OpenSshPicker, Ending::Stay)
    } else if id == "terminal.maximize"@ {
        (Action::TerminalMaximize, Ending::CloseFirst)
    } else if id == "view.nextTab"@ {
        (Action::NextTab, Ending::Stay)
    } else if id == "view.closeTab"@ {
        (Action::CloseTab, Ending::Stay)
    } else if id == "view.toggleSidebar"@ {
        (Action::ToggleSidebar, Ending::Stay)
    } else if id == "goto.line"@ {
        (Action::OpenGoto, Ending::Stay)
    } else if id == "help.keys"@ {
        (Action::OpenHelp, Ending::Stay)
    } else if id == "agents.dashboard"@ {
        (Action::OpenAgents, Ending::Stay)
    } else if id == "remote.open"@ {
        (Action::OpenRemote, Ending::Stay)
    } else if id == "remote.disconnect"@ {
        (Action::RemoteDisconnect, Ending::Close)
    } else if id == "search.project"@ {
        (Action::OpenSearch, Ending::Stay)
    } else if id == "view.toggle.terminal"@ {
        (Action::ToggleTerminalFeature, Ending::Close)
    } else if id == "app.quit"@ {
        (Action::Quit, Ending::Stay)
    } else {
        (Action::Module, Ending::Close)
    }
}

/// What the command with the id `id` does, and what becomes of an open page.
pub fn command_action(id: &str) -> (r: (Action, Ending))
    ensures
        r == action_of(id@),
{
    if same(id, "file.save") {
        (Action::Save, Ending::Close)
    } else if same(id, "edit.undo") {
        (Action::Undo, Ending::Follow)
    } else if same(id, "edit.redo") {
        (Action::Redo, Ending::Follow)
    } else if same(id, "edit.copy") {
        (Action::Copy, Ending::Close)
    } else if same(id, "edit.cut") {
        (Action::Cut, Ending::Follow)
    } else if same(id, "edit.paste") {
        (Action::Paste, Ending::Follow)
    } else if same(id, "edit.selectAll") {
        (Action::SelectAll, Ending::Close)
    } else if same(id, "goto.fileStart") {
        (Action::FileStart, Ending::Follow)
    } else if same(id, "goto.fileEnd") {
        (Action::FileEnd, Ending::Follow)
    } else if same(id, "view.commandPalette") {
        (Action::OpenPalette, Ending::Stay)
    } else if same(id, "view.settings") {
        (Action::OpenSettings, Ending::Stay)
    } else if same(id, "view.modules") {
        (Action::OpenModules, Ending::Stay)
    } else if same(id, "view.toggle.gutter") {
        (Action::ToggleGutter, Ending::Close)
    } else if same(id, "view.toggle.scrollbar") {
        (Action::ToggleScrollbar, Ending::Close)
    } else if same(id, "view.toggle.latencyHud") {
        (Action::ToggleLatencyHud, Ending::Close)
    } else if same(id, "terminal.toggle") {
        (Action::TerminalToggle, Ending::CloseFirst)
    } else if same(id, "terminal.focus") {
        (Action::TerminalFocus, Ending::CloseFirst)
    } else if same(id, "terminal.ssh") {
        (Action::OpenSshPicker, Ending::Stay)
    } else if same(id, "terminal.maximize") {
        (Action::TerminalMaximize, Ending::CloseFirst)
    } else if same(id, "view.nextTab") {
        (Action::NextTab, Ending::Stay)
    } else if same(id, "view.closeTab") {
        (Action::CloseTab, Ending::Stay)
    } else if same(id, "view.toggleSidebar") {
        (Action::ToggleSidebar, Ending::Stay)
    } else if same(id, "goto.line") {
        (Action::OpenGoto, Ending::Stay)
    } else if same(id, "help.keys") {
        (Action::OpenHelp, Ending::Stay)
    } else if same(id, "agents.dashboard") {
        (Action::OpenAgents, Ending::Stay)
    } else if same(id, "remote.open") {
        (Action::OpenRemote, Ending::Stay)
    } else if same(id, "remote.disconnect") {
        (Action::RemoteDisconnect, Ending::Close)
    } else if same(id, "search.project") {
        (Action::OpenSearch, Ending::Stay)
    } else if same(id, "view.toggle.terminal") {
        (Action::ToggleTerminalFeature, Ending::Close)
    } else if same(id, "app.quit") {
        (Action::Quit, Ending::Stay)
    } else {
        (Action::Module, Ending::Close)
    }
}

/// An id that is left to the modules is none of those listed.
proof fn lemma_module_ids(id: Seq<char>)
    requires
        action_of(id).0 == Action::Module,
    ensures
        id != "file.save"@,
        id != "edit.undo"@,
        id != "edit.redo"@,
        id != "edit.copy"@,
        id != "edit.cut"@,
        id != "edit.paste"@,
        id != "edit.selectAll"@,
        id != "goto.fileStart"@,
        id != "goto.fileEnd"@,
        id != "view.commandPalette"@,
        id != "view.settings"@,
        id != "view.modules"@,
        id != "view.toggle.gutter"@,
        id != "view.toggle.scrollbar"@,
        id != "view.toggle.latencyHud"@,
        id != "terminal.toggle"@,
        id != "terminal.focus"@,
        id != "terminal.ssh"@,
        id != "terminal.maximize"@,
        id != "view.nextTab"@,
        id != "view.closeTab"@,
        id != "view.toggleSidebar"@,
        id != "goto.line"@,
        id != "help.keys"@,
        id != "agents.dashboard"@,
        id != "remote.open"@,
        id != "remote.disconnect"@,
        id != "search.project"@,
        id != "view.toggle.terminal"@,
        id != "app.quit"@,
{
}

proof fn lemma_early_ids(i: int)
    requires
        0 <= i < 10,
    ensures
        action_of(builtin()[i].0).0 != Action::Module,
{
    let id = builtin()[i].0;
    assert(i == 0 ==> id == "file.save"@);
    assert(i == 1 ==> id == "edit.undo"@);
    assert(i == 2 ==> id == "edit.redo"@);
    assert(i == 3 ==> id == "edit.copy"@);
    assert(i == 4 ==> id == "edit.cut"@);
    assert(i == 5 ==> id == "edit.paste"@);
    assert(i == 6 ==> id == "edit.selectAll"@);
    assert(i == 7 ==> id == "goto.fileStart"@);
    assert(i == 8 ==> id == "goto.fileEnd"@);
    assert(i == 9 ==> id == "view.commandPalette"@);
    if action_of(id).0 == Action::Module {
        lemma_module_ids(id);
    }
}

proof fn lemma_middle_ids(i: int)
    requires
        10 <= i < 20,
    ensures
        action_of(builtin()[i].0).0 != Action::Module,
{
    let id = builtin()[i].0;
    assert(i == 10 ==> id == "view.settings"@);
    assert(i == 11 ==> id == "view.modules"@);
    assert(i == 12 ==> id == "view.toggle.gutter"@);
    assert(i == 13 ==> id == "view.toggle.scrollbar"@);
    assert(i == 14 ==> id == "view.toggle.latencyHud"@);
    assert(i == 15 ==> id == "terminal.toggle"@);
    assert(i == 16 ==> id == "terminal.focus"@);
    assert(i == 17 ==> id == "terminal.ssh"@);
    assert(i == 18 ==> id == "terminal.maximize"@);
    assert(i == 19 ==> id == "view.nextTab"@);
    if action_of(id).0 == Action::Module {
        lemma_module_ids(id);
    }
}

proof fn lemma_late_ids(i: int)
    requires
        20 <= i < 30,
    ensures
        action_of(builtin()[i].0).0 != Action::Module,
{
    let id = builtin()[i].0;
    assert(i == 20 ==> id == "view.closeTab"@);
    assert(i == 21 ==> id == "view.toggleSidebar"@);
    assert(i == 22 ==> id == "goto.line"@);
    assert(i == 23 ==> id == "help.keys"@);
    assert(i == 24 ==> id == "agents.dashboard"@);
    assert(i == 25 ==> id == "remote.open"@);
    assert(i == 26 ==> id == "remote.disconnect"@);
    assert(i == 27 ==> id == "search.project"@);
    assert(i == 28 ==> id == "view.toggle.terminal"@);
    assert(i == 29 ==> id == "app.quit"@);
    if action_of(id).0 == Action::Module {
        lemma_module_ids(id);
    }
}

/// Every command that is listed does something of its own: none is left to the modules.
pub proof fn listed_commands_are_known(i: int)
    requires
        0 <= i < builtin().len(),
    ensures
        action_of(builtin()[i].0).0 != Action::Module,
{
    if i < 10 {
        lemma_early_ids(i);
    } else if i < 20 {
        lemma_middle_ids(i);
    } else {
        lemma_late_ids(i);
    }
}

/// What the editor does when a chord is pressed, as a command; `None` where none does it.
pub open spec fn done_by(chord: Chord) -> Option<Action> {
    match chord {
        Chord::Palette => Some(Action::OpenPalette),
        Chord::Search => Some(Action::OpenSearch),
        Chord::Settings => Some(Action::OpenSettings),
        Chord::Terminal => Some(Action::TerminalToggle),
        Chord::GotoLine => Some(Action::OpenGoto),
        Chord::Sidebar => Some(Action::ToggleSidebar),
        Chord::CloseTab => Some(Action::CloseTab),
        Chord::Quit => Some(Action::Quit),
        Chord::Agents => Some(Action::OpenAgents),
        Chord::SelectAll => Some(Action::SelectAll),
        Chord::Copy => Some(Action::Copy),
        Chord::Cut => Some(Action::Cut),
        Chord::Paste => Some(Action::Paste),
        Chord::Undo => Some(Action::Undo),
        Chord::Redo => Some(Action::Redo),
        Chord::Save => Some(Action::Save),
        Chord::Nothing => None,
    }
}

/// The capital of a small letter; any other character as it is.
pub open spec fn capital(c: char) -> char {
    if 'a' <= c <= 'z' {
        (c as u32 - 32) as char
    } else {
        c
    }
}

/// How a chord is listed: control, shift where it is held, and the key as a capital.
pub open spec fn chord_text(c: char, shift: bool) -> Seq<char> {
    "Ctrl+"@ + (if shift {
        "Shift+"@
    } else {
        Seq::empty()
    }) + seq![capital(c)]
}

proof fn lemma_chord_text(c: char, shift: bool)
    ensures
        chord_text(c, shift).len() == (if shift {
            12int
        } else {
            6
        }),
        chord_text(c, shift).last() == capital(c),
        chord_text(c, shift)[5] == (if shift {
            'S'
        } else {
            capital(c)
        }),
{
    reveal_strlit("Ctrl+");
    reveal_strlit("Shift+");
}

proof fn lemma_chords_first(i: int, c: char, shift: bool)
    requires
        0 <= i < 8,
        'a' <= c <= 'z' || c == ',',
        builtin()[i].2 == chord_text(c, shift),
    ensures
        done_by(chord_of(seq![c], shift)) == Some(action_of(builtin()[i].0).0),
{
    lemma_chord_text(c, shift);
    lemma_letters(c);
    let ids = builtin()[i].0;
    let text = builtin()[i].2;
    reveal_strlit("Ctrl+A");
    reveal_strlit("Ctrl+C");
    reveal_strlit("Ctrl+Home");
    reveal_strlit("Ctrl+S");
    reveal_strlit("Ctrl+Shift+Z");
    reveal_strlit("Ctrl+V");
    reveal_strlit("Ctrl+X");
    reveal_strlit("Ctrl+Z");
    if i == 0 {
        assert(ids == "file.save"@ && text == "Ctrl+S"@);
        lemma_action_save();
    }
    if i == 1 {
        assert(ids == "edit.undo"@ && text == "Ctrl+Z"@);
        lemma_action_undo();
    }
    if i == 2 {
        assert(ids == "edit.redo"@ && text == "Ctrl+Shift+Z"@);
        lemma_action_redo();
    }
    if i == 3 {
        assert(ids == "edit.copy"@ && text == "Ctrl+C"@);
        lemma_action_copy();
    }
    if i == 4 {
        assert(ids == "edit.cut"@ && text == "Ctrl+X"@);
        lemma_action_cut();
    }
    if i == 5 {
        assert(ids == "edit.paste"@ && text == "Ctrl+V"@);
        lemma_action_paste();
    }
    if i == 6 {
        assert(ids == "edit.selectAll"@ && text == "Ctrl+A"@);
        lemma_action_selectall();
    }
    if i == 7 {
        assert(ids == "goto.fileStart"@ && text == "Ctrl+Home"@);
    }
}

proof fn lemma_chords_second(i: int, c: char, shift: bool)
    requires
        8 <= i < 16,
        'a' <= c <= 'z' || c == ',',
        builtin()[i].2 == chord_text(c, shift),
    ensures
        done_by(chord_of(seq![c], shift)) == Some(action_of(builtin()[i].0).0),
{
    lemma_chord_text(c, shift);
    lemma_letters(c);
    let ids = builtin()[i].0;
    let text = builtin()[i].2;
    reveal_strlit("");
    reveal_strlit("Ctrl+,");
    reveal_strlit("Ctrl+End");
    reveal_strlit("Ctrl+Shift+P");
    reveal_strlit("Ctrl+` / Ctrl+J");
    if i == 8 {
        assert(ids == "goto.fileEnd"@ && text == "Ctrl+End"@);
    }
    if i == 9 {
        assert(ids == "view.commandPalette"@ && text == "Ctrl+Shift+P"@);
        lemma_action_openpalette();
    }
    if i == 10 {
        assert(ids == "view.settings"@ && text == "Ctrl+,"@);
        lemma_action_opensettings();
    }
    if i == 11 {
        assert(ids == "view.modules"@ && text == ""@);
    }
    if i == 12 {
        assert(ids == "view.toggle.gutter"@ && text == ""@);
    }
    if i == 13 {
        assert(ids == "view.toggle.scrollbar"@ && text == ""@);
    }
    if i == 14 {
        assert(ids == "view.toggle.latencyHud"@ && text == ""@);
    }
    if i == 15 {
        assert(ids == "terminal.toggle"@ && text == "Ctrl+` / Ctrl+J"@);
    }
}

proof fn lemma_chords_third(i: int, c: char, shift: bool)
    requires
        16 <= i < 23,
        'a' <= c <= 'z' || c == ',',
        builtin()[i].2 == chord_text(c, shift),
    ensures
        done_by(chord_of(seq![c], shift)) == Some(action_of(builtin()[i].0).0),
{
    lemma_chord_text(c, shift);
    lemma_letters(c);
    let ids = builtin()[i].0;
    let text = builtin()[i].2;
    reveal_strlit("");
    reveal_strlit("Ctrl+B");
    reveal_strlit("Ctrl+G");
    reveal_strlit("Ctrl+Tab");
    reveal_strlit("Ctrl+W");
    reveal_strlit("F11");
    if i == 16 {
        assert(ids == "terminal.focus"@ && text == ""@);
    }
    if i == 17 {
        assert(ids == "terminal.ssh"@ && text == ""@);
    }
    if i == 18 {
        assert(ids == "terminal.maximize"@ && text == "F11"@);
    }
    if i == 19 {
        assert(ids == "view.nextTab"@ && text == "Ctrl+Tab"@);
    }
    if i == 20 {
        assert(ids == "view.closeTab"@ && text == "Ctrl+W"@);
        lemma_action_closetab();
    }
    if i == 21 {
        assert(ids == "view.toggleSidebar"@ && text == "Ctrl+B"@);
        lemma_action_togglesidebar();
    }
    if i == 22 {
        assert(ids == "goto.line"@ && text == "Ctrl+G"@);
        lemma_action_opengoto();
    }
}

proof fn lemma_chords_fourth(i: int, c: char, shift: bool)
    requires
        23 <= i < 30,
        'a' <= c <= 'z' || c == ',',
        builtin()[i].2 == chord_text(c, shift),
    ensures
        done_by(chord_of(seq![c], shift)) == Some(action_of(builtin()[i].0).0),
{
    lemma_chord_text(c, shift);
    lemma_letters(c);
    let ids = builtin()[i].0;
    let text = builtin()[i].2;
    reveal_strlit("");
    reveal_strlit("Ctrl+Q");
    reveal_strlit("Ctrl+Shift+A");
    reveal_strlit("Ctrl+Shift+F");
    reveal_strlit("F1");
    if i == 23 {
        assert(ids == "help.keys"@ && text == "F1"@);
    }
    if i == 24 {
        assert(ids == "agents.dashboard"@ && text == "Ctrl+Shift+A"@);
        lemma_action_openagents();
    }
    if i == 25 {
        assert(ids == "remote.open"@ && text == ""@);
    }
    if i == 26 {
        assert(ids == "remote.disconnect"@ && text == ""@);
    }
    if i == 27 {
        assert(ids == "search.project"@ && text == "Ctrl+Shift+F"@);
        lemma_action_opensearch();
    }
    if i == 28 {
        assert(ids == "view.toggle.terminal"@ && text == ""@);
    }
    if i == 29 {
        assert(ids == "app.quit"@ && text == "Ctrl+Q"@);
        lemma_action_quit();
    }
}

proof fn lemma_action_save()
    ensures
        action_of("file.save"@).0 == Action::Save,
{
    reveal_strlit("file.save");
}

proof fn lemma_action_undo()
    ensures
        action_of("edit.undo"@).0 == Action::Undo,
{
    reveal_strlit("file.save");
    reveal_strlit("edit.undo");
    assert("file.save"@[0] != "edit.undo"@[0]);
}

proof fn lemma_action_redo()
    ensures
        action_of("edit.redo"@).0 == Action::Redo,
{
    reveal_strlit("file.save");
    reveal_strlit("edit.undo");
    reveal_strlit("edit.redo");
    assert("file.save"@[0] != "edit.redo"@[0]);
    assert("edit.undo"@[5] != "edit.redo"@[5]);
}

proof fn lemma_action_copy()
    ensures
        action_of("edit.copy"@).0 == Action::Copy,
{
    reveal_strlit("file.save");
    reveal_strlit("edit.undo");
    reveal_strlit("edit.redo");
    reveal_strlit("edit.copy");
    assert("file.save"@[0] != "edit.copy"@[0]);
    assert("edit.undo"@[5] != "edit.copy"@[5]);
    assert("edit.redo"@[5] != "edit.copy"@[5]);
}

proof fn lemma_action_cut()
    ensures
        action_of("edit.cut"@).0 == Action::Cut,
{
    reveal_strlit("file.save");
    reveal_strlit("edit.undo");
    reveal_strlit("edit.redo");
    reveal_strlit("edit.copy");
    reveal_strlit("edit.cut");
    assert("file.save"@.len() != "edit.cut"@.len());
    assert("edit.undo"@.len() != "edit.cut"@.len());
    assert("edit.redo"@.len() != "edit.cut"@.len());
    assert("edit.copy"@.len() != "edit.cut"@.len());
}

proof fn lemma_action_paste()
    ensures
        action_of("edit.paste"@).0 == Action::Paste,
{
    reveal_strlit("file.save");
    reveal_strlit("edit.undo");
    reveal_strlit("edit.redo");
    reveal_strlit("edit.copy");
    reveal_strlit("edit.cut");
    reveal_strlit("edit.paste");
    assert("file.save"@.len() != "edit.paste"@.len());
    assert("edit.undo"@.len() != "edit.paste"@.len());
    assert("edit.redo"@.len() != "edit.paste"@.len());
    assert("edit.copy"@.len() != "edit.paste"@.len());
    assert("edit.cut"@.len() != "edit.paste"@.len());
}

proof fn lemma_action_selectall()
    ensures
        action_of("edit.selectAll"@).0 == Action::SelectAll,
{
    reveal_strlit("file.save");
    reveal_strlit("edit.undo");
    reveal_strlit("edit.redo");
    reveal_strlit("edit.copy");
    reveal_strlit("edit.cut");
    reveal_strlit("edit.paste");
    reveal_strlit("edit.selectAll");
    assert("file.save"@.len() != "edit.selectAll"@.len());
    assert("edit.undo"@.len() != "edit.selectAll"@.len());
    assert("edit.redo"@.len() != "edit.selectAll"@.len());
    assert("edit.copy"@.len() != "edit.selectAll"@.len());
    assert("edit.cut"@.len() != "edit.selectAll"@.len());
    assert("edit.paste"@.len() != "edit.selectAll"@.len());
}

proof fn lemma_action_openpalette()
    ensures
        action_of("view.commandPalette"@).0 == Action::OpenPalette,
{
    reveal_strlit("file.save");
    reveal_strlit("edit.undo");
    reveal_strlit("edit.redo");
    reveal_strlit("edit.copy");
    reveal_strlit("edit.cut");
    reveal_strlit("edit.paste");
    reveal_strlit("edit.selectAll");
    reveal_strlit("goto.fileStart");
    reveal_strlit("goto.fileEnd");
    reveal_strlit("view.commandPalette");
    assert("file.save"@.len() != "view.commandPalette"@.len());
    assert("edit.undo"@.len() != "view.commandPalette"@.len());
    assert("edit.redo"@.len() != "view.commandPalette"@.len());
    assert("edit.copy"@.len() != "view.commandPalette"@.len());
    assert("edit.cut"@.len() != "view.commandPalette"@.len());
    assert("edit.paste"@.len() != "view.commandPalette"@.len());
    assert("edit.selectAll"@.len() != "view.commandPalette"@.len());
    assert("goto.fileStart"@.len() != "view.commandPalette"@.len());
    assert("goto.fileEnd"@.len() != "view.commandPalette"@.len());
}

proof fn lemma_action_opensettings()
    ensures
        action_of("view.settings"@).0 == Action::OpenSettings,
{
    reveal_strlit("file.save");
    reveal_strlit("edit.undo");
    reveal_strlit("edit.redo");
    reveal_strlit("edit.copy");
    reveal_strlit("edit.cut");
    reveal_strlit("edit.paste");
    reveal_strlit("edit.selectAll");
    reveal_strlit("goto.fileStart");
    reveal_strlit("goto.fileEnd");
    reveal_strlit("view.commandPalette");
    reveal_strlit("view.settings");
    assert("file.save"@.len() != "view.settings"@.len());
    assert("edit.undo"@.len() != "view.settings"@.len());
    assert("edit.redo"@.len() != "view.settings"@.len());
    assert("edit.copy"@.len() != "view.settings"@.len());
    assert("edit.cut"@.len() != "view.settings"@.len());
    assert("edit.paste"@.len() != "view.settings"@.len());
    assert("edit.selectAll"@.len() != "view.settings"@.len());
    assert("goto.fileStart"@.len() != "view.settings"@.len());
    assert("goto.fileEnd"@.len() != "view.settings"@.len());
    assert("view.commandPalette"@.len() != "view.settings"@.len());
}

proof fn lemma_action_closetab()
    ensures
        action_of("view.closeTab"@).0 == Action::CloseTab,
{
    reveal_strlit("file.save");
    reveal_strlit("edit.undo");
    reveal_strlit("edit.redo");
    reveal_strlit("edit.copy");
    reveal_strlit("edit.cut");
    reveal_strlit("edit.paste");
    reveal_strlit("edit.selectAll");
    reveal_strlit("goto.fileStart");
    reveal_strlit("goto.fileEnd");
    reveal_strlit("view.commandPalette");
    reveal_strlit("view.settings");
    reveal_strlit("view.modules");
    reveal_strlit("view.toggle.gutter");
    reveal_strlit("view.toggle.scrollbar");
    reveal_strlit("view.toggle.latencyHud");
    reveal_strlit("terminal.toggle");
    reveal_strlit("terminal.focus");
    reveal_strlit("terminal.ssh");
    reveal_strlit("terminal.maximize");
    reveal_strlit("view.nextTab");
    reveal_strlit("view.closeTab");
    assert("file.save"@.len() != "view.closeTab"@.len());
    assert("edit.undo"@.len() != "view.closeTab"@.len());
    assert("edit.redo"@.len() != "view.closeTab"@.len());
    assert("edit.copy"@.len() != "view.closeTab"@.len());
    assert("edit.cut"@.len() != "view.closeTab"@.len());
    assert("edit.paste"@.len() != "view.closeTab"@.len());
    assert("edit.selectAll"@.len() != "view.closeTab"@.len());
    assert("goto.fileStart"@.len() != "view.closeTab"@.len());
    assert("goto.fileEnd"@.len() != "view.closeTab"@.len());
    assert("view.commandPalette"@.len() != "view.closeTab"@.len());
    assert("view.settings"@[5] != "view.closeTab"@[5]);
    assert("view.modules"@.len() != "view.closeTab"@.len());
    assert("view.toggle.gutter"@.len() != "view.closeTab"@.len());
    assert("view.toggle.scrollbar"@.len() != "view.closeTab"@.len());
    assert("view.toggle.latencyHud"@.len() != "view.closeTab"@.len());
    assert("terminal.toggle"@.len() != "view.closeTab"@.len());
    assert("terminal.focus"@.len() != "view.closeTab"@.len());
    assert("terminal.ssh"@.len() != "view.closeTab"@.len());
    assert("terminal.maximize"@.len() != "view.closeTab"@.len());
    assert("view.nextTab"@.len() != "view.closeTab"@.len());
}

proof fn lemma_action_togglesidebar()
    ensures
        action_of("view.toggleSidebar"@).0 == Action::ToggleSidebar,
{
    reveal_strlit("file.save");
    reveal_strlit("edit.undo");
    reveal_strlit("edit.redo");
    reveal_strlit("edit.copy");
    reveal_strlit("edit.cut");
    reveal_strlit("edit.paste");
    reveal_strlit("edit.selectAll");
    reveal_strlit("goto.fileStart");
    reveal_strlit("goto.fileEnd");
    reveal_strlit("view.commandPalette");
    reveal_strlit("view.settings");
    reveal_strlit("view.modules");
    reveal_strlit("view.toggle.gutter");
    reveal_strlit("view.toggle.scrollbar");
    reveal_strlit("view.toggle.latencyHud");
    reveal_strlit("terminal.toggle");
    reveal_strlit("terminal.focus");
    reveal_strlit("terminal.ssh");
    reveal_strlit("terminal.maximize");
    reveal_strlit("view.nextTab");
    reveal_strlit("view.closeTab");
    reveal_strlit("view.toggleSidebar");
    assert("file.save"@.len() != "view.toggleSidebar"@.len());
    assert("edit.undo"@.len() != "view.toggleSidebar"@.len());
    assert("edit.redo"@.len() != "view.toggleSidebar"@.len());
    assert("edit.copy"@.len() != "view.toggleSidebar"@.len());
    assert("edit.cut"@.len() != "view.toggleSidebar"@.len());
    assert("edit.paste"@.len() != "view.toggleSidebar"@.len());
    assert("edit.selectAll"@.len() != "view.toggleSidebar"@.len());
    assert("goto.fileStart"@.len() != "view.toggleSidebar"@.len());
    assert("goto.fileEnd"@.len() != "view.toggleSidebar"@.len());
    assert("view.commandPalette"@.len() != "view.toggleSidebar"@.len());
    assert("view.settings"@.len() != "view.toggleSidebar"@.len());
    assert("view.modules"@.len() != "view.toggleSidebar"@.len());
    assert("view.toggle.gutter"@[11] != "view.toggleSidebar"@[11]);
    assert("view.toggle.scrollbar"@.len() != "view.toggleSidebar"@.len());
    assert("view.toggle.latencyHud"@.len() != "view.toggleSidebar"@.len());
    assert("terminal.toggle"@.len() != "view.toggleSidebar"@.len());
    assert("terminal.focus"@.len() != "view.toggleSidebar"@.len());
    assert("terminal.ssh"@.len() != "view.toggleSidebar"@.len());
    assert("terminal.maximize"@.len() != "view.toggleSidebar"@.len());
    assert("view.nextTab"@.len() != "view.toggleSidebar"@.len());
    assert("view.closeTab"@.len() != "view.toggleSidebar"@.len());
}

proof fn lemma_action_opengoto()
    ensures
        action_of("goto.line"@).0 == Action::OpenGoto,
{
    reveal_strlit("file.save");
    reveal_strlit("edit.undo");
    reveal_strlit("edit.redo");
    reveal_strlit("edit.copy");
    reveal_strlit("edit.cut");
    reveal_strlit("edit.paste");
    reveal_strlit("edit.selectAll");
    reveal_strlit("goto.fileStart");
    reveal_strlit("goto.fileEnd");
    reveal_strlit("view.commandPalette");
    reveal_strlit("view.settings");
    reveal_strlit("view.modules");
    reveal_strlit("view.toggle.gutter");
    reveal_strlit("view.toggle.scrollbar");
    reveal_strlit("view.toggle.latencyHud");
    reveal_strlit("terminal.toggle");
    reveal_strlit("terminal.focus");
    reveal_strlit("terminal.ssh");
    reveal_strlit("terminal.maximize");
    reveal_strlit("view.nextTab");
    reveal_strlit("view.closeTab");
    reveal_strlit("view.toggleSidebar");
    reveal_strlit("goto.line");
    assert("file.save"@[0] != "goto.line"@[0]);
    assert("edit.undo"@[0] != "goto.line"@[0]);
    assert("edit.redo"@[0] != "goto.line"@[0]);
    assert("edit.copy"@[0] != "goto.line"@[0]);
    assert("edit.cut"@.len() != "goto.line"@.len());
    assert("edit.paste"@.len() != "goto.line"@.len());
    assert("edit.selectAll"@.len() != "goto.line"@.len());
    assert("goto.fileStart"@.len() != "goto.line"@.len());
    assert("goto.fileEnd"@.len() != "goto.line"@.len());
    assert("view.commandPalette"@.len() != "goto.line"@.len());
    assert("view.settings"@.len() != "goto.line"@.len());
    assert("view.modules"@.len() != "goto.line"@.len());
    assert("view.toggle.gutter"@.len() != "goto.line"@.len());
    assert("view.toggle.scrollbar"@.len() != "goto.line"@.len());
    assert("view.toggle.latencyHud"@.len() != "goto.line"@.len());
    assert("terminal.toggle"@.len() != "goto.line"@.len());
    assert("terminal.focus"@.len() != "goto.line"@.len());
    assert("terminal.ssh"@.len() != "goto.line"@.len());
    assert("terminal.maximize"@.len() != "goto.line"@.len());
    assert("view.nextTab"@.len() != "goto.line"@.len());
    assert("view.closeTab"@.len() != "goto.line"@.len());
    assert("view.toggleSidebar"@.len() != "goto.line"@.len());
}

proof fn lemma_action_openagents()
    ensures
        action_of("agents.dashboard"@).0 == Action::OpenAgents,
{
    reveal_strlit("file.save");
    reveal_strlit("edit.undo");
    reveal_strlit("edit.redo");
    reveal_strlit("edit.copy");
    reveal_strlit("edit.cut");
    reveal_strlit("edit.paste");
    reveal_strlit("edit.selectAll");
    reveal_strlit("goto.fileStart");
    reveal_strlit("goto.fileEnd");
    reveal_strlit("view.commandPalette");
    reveal_strlit("view.settings");
    reveal_strlit("view.modules");
    reveal_strlit("view.toggle.gutter");
    reveal_strlit("view.toggle.scrollbar");
    reveal_strlit("view.toggle.latencyHud");
    reveal_strlit("terminal.toggle");
    reveal_strlit("terminal.focus");
    reveal_strlit("terminal.ssh");
    reveal_strlit("terminal.maximize");
    reveal_strlit("view.nextTab");
    reveal_strlit("view.closeTab");
    reveal_strlit("view.toggleSidebar");
    reveal_strlit("goto.line");
    reveal_strlit("help.keys");
    reveal_strlit("agents.dashboard");
    assert("file.save"@.len() != "agents.dashboard"@.len());
    assert("edit.undo"@.len() != "agents.dashboard"@.len());
    assert("edit.redo"@.len() != "agents.dashboard"@.len());
    assert("edit.copy"@.len() != "agents.dashboard"@.len());
    assert("edit.cut"@.len() != "agents.dashboard"@.len());
    assert("edit.paste"@.len() != "agents.dashboard"@.len());
    assert("edit.selectAll"@.len() != "agents.dashboard"@.len());
    assert("goto.fileStart"@.len() != "agents.dashboard"@.len());
    assert("goto.fileEnd"@.len() != "agents.dashboard"@.len());
    assert("view.commandPalette"@.len() != "agents.dashboard"@.len());
    assert("view.settings"@.len() != "agents.dashboard"@.len());
    assert("view.modules"@.len() != "agents.dashboard"@.len());
    assert("view.toggle.gutter"@.len() != "agents.dashboard"@.len());
    assert("view.toggle.scrollbar"@.len() != "agents.dashboard"@.len());
    assert("view.toggle.latencyHud"@.len() != "agents.dashboard"@.len());
    assert("terminal.toggle"@.len() != "agents.dashboard"@.len());
    assert("terminal.focus"@.len() != "agents.dashboard"@.len());
    assert("terminal.ssh"@.len() != "agents.dashboard"@.len());
    assert("terminal.maximize"@.len() != "agents.dashboard"@.len());
    assert("view.nextTab"@.len() != "agents.dashboard"@.len());
    assert("view.closeTab"@.len() != "agents.dashboard"@.len());
    assert("view.toggleSidebar"@.len() != "agents.dashboard"@.len());
    assert("goto.line"@.len() != "agents.dashboard"@.len());
    assert("help.keys"@.len() != "agents.dashboard"@.len());
}

proof fn lemma_action_opensearch()
    ensures
        action_of("search.project"@).0 == Action::OpenSearch,
{
    reveal_strlit("file.save");
    reveal_strlit("edit.undo");
    reveal_strlit("edit.redo");
    reveal_strlit("edit.copy");
    reveal_strlit("edit.cut");
    reveal_strlit("edit.paste");
    reveal_strlit("edit.selectAll");
    reveal_strlit("goto.fileStart");
    reveal_strlit("goto.fileEnd");
    reveal_strlit("view.commandPalette");
    reveal_strlit("view.settings");
    reveal_strlit("view.modules");
    reveal_strlit("view.toggle.gutter");
    reveal_strlit("view.toggle.scrollbar");
    reveal_strlit("view.toggle.latencyHud");
    reveal_strlit("terminal.toggle");
    reveal_strlit("terminal.focus");
    reveal_strlit("terminal.ssh");
    reveal_strlit("terminal.maximize");
    reveal_strlit("view.nextTab");
    reveal_strlit("view.closeTab");
    reveal_strlit("view.toggleSidebar");
    reveal_strlit("goto.line");
    reveal_strlit("help.keys");
    reveal_strlit("agents.dashboard");
    reveal_strlit("remote.open");
    reveal_strlit("remote.disconnect");
    reveal_strlit("search.project");
    assert("file.save"@.len() != "search.project"@.len());
    assert("edit.undo"@.len() != "search.project"@.len());
    assert("edit.redo"@.len() != "search.project"@.len());
    assert("edit.copy"@.len() != "search.project"@.len());
    assert("edit.cut"@.len() != "search.project"@.len());
    assert("edit.paste"@.len() != "search.project"@.len());
    assert("edit.selectAll"@[0] != "search.project"@[0]);
    assert("goto.fileStart"@[0] != "search.project"@[0]);
    assert("goto.fileEnd"@.len() != "search.project"@.len());
    assert("view.commandPalette"@.len() != "search.project"@.len());
    assert("view.settings"@.len() != "search.project"@.len());
    assert("view.modules"@.len() != "search.project"@.len());
    assert("view.toggle.gutter"@.len() != "search.project"@.len());
    assert("view.toggle.scrollbar"@.len() != "search.project"@.len());
    assert("view.toggle.latencyHud"@.len() != "search.project"@.len());
    assert("terminal.toggle"@.len() != "search.project"@.len());
    assert("terminal.focus"@[0] != "search.project"@[0]);
    assert("terminal.ssh"@.len() != "search.project"@.len());
    assert("terminal.maximize"@.len() != "search.project"@.len());
    assert("view.nextTab"@.len() != "search.project"@.len());
    assert("view.closeTab"@.len() != "search.project"@.len());
    assert("view.toggleSidebar"@.len() != "search.project"@.len());
    assert("goto.line"@.len() != "search.project"@.len());
    assert("help.keys"@.len() != "search.project"@.len());
    assert("agents.dashboard"@.len() != "search.project"@.len());
    assert("remote.open"@.len() != "search.project"@.len());
    assert("remote.disconnect"@.len() != "search.project"@.len());
}

proof fn lemma_action_quit()
    ensures
        action_of("app.quit"@).0 == Action::Quit,
{
    reveal_strlit("file.save");
    reveal_strlit("edit.undo");
    reveal_strlit("edit.redo");
    reveal_strlit("edit.copy");
    reveal_strlit("edit.cut");
    reveal_strlit("edit.paste");
    reveal_strlit("edit.selectAll");
    reveal_strlit("goto.fileStart");
    reveal_strlit("goto.fileEnd");
    reveal_strlit("view.commandPalette");
    reveal_strlit("view.settings");
    reveal_strlit("view.modules");
    reveal_strlit("view.toggle.gutter");
    reveal_strlit("view.toggle.scrollbar");
    reveal_strlit("view.toggle.latencyHud");
    reveal_strlit("terminal.toggle");
    reveal_strlit("terminal.focus");
    reveal_strlit("terminal.ssh");
    reveal_strlit("terminal.maximize");
    reveal_strlit("view.nextTab");
    reveal_strlit("view.closeTab");
    reveal_strlit("view.toggleSidebar");
    reveal_strlit("goto.line");
    reveal_strlit("help.keys");
    reveal_strlit("agents.dashboard");
    reveal_strlit("remote.open");
    reveal_strlit("remote.disconnect");
    reveal_strlit("search.project");
    reveal_strlit("view.toggle.terminal");
    reveal_strlit("app.quit");
    assert("file.save"@.len() != "app.quit"@.len());
    assert("edit.undo"@.len() != "app.quit"@.len());
    assert("edit.redo"@.len() != "app.quit"@.len());
    assert("edit.copy"@.len() != "app.quit"@.len());
    assert("edit.cut"@[0] != "app.quit"@[0]);
    assert("edit.paste"@.len() != "app.quit"@.len());
    assert("edit.selectAll"@.len() != "app.quit"@.len());
    assert("goto.fileStart"@.len() != "app.quit"@.len());
    assert("goto.fileEnd"@.len() != "app.quit"@.len());
    assert("view.commandPalette"@.len() != "app.quit"@.len());
    assert("view.settings"@.len() != "app.quit"@.len());
    assert("view.modules"@.len() != "app.quit"@.len());
    assert("view.toggle.gutter"@.len() != "app.quit"@.len());
    assert("view.toggle.scrollbar"@.len() != "app.quit"@.len());
    assert("view.toggle.latencyHud"@.len() != "app.quit"@.len());
    assert("terminal.toggle"@.len() != "app.quit"@.len());
    assert("terminal.focus"@.len() != "app.quit"@.len());
    assert("terminal.ssh"@.len() != "app.quit"@.len());
    assert("terminal.maximize"@.len() != "app.quit"@.len());
    assert("view.nextTab"@.len() != "app.quit"@.len());
    assert("view.closeTab"@.len() != "app.quit"@.len());
    assert("view.toggleSidebar"@.len() != "app.quit"@.len());
    assert("goto.line"@.len() != "app.quit"@.len());
    assert("help.keys"@.len() != "app.quit"@.len());
    assert("agents.dashboard"@.len() != "app.quit"@.len());
    assert("remote.open"@.len() != "app.quit"@.len());
    assert("remote.disconnect"@.len() != "app.quit"@.len());
    assert("search.project"@.len() != "app.quit"@.len());
    assert("view.toggle.terminal"@.len() != "app.quit"@.len());
}

proof fn lemma_letters(c: char)
    ensures
        seq![c] == "p"@ <==> c == 'p',
        seq![c] == "f"@ <==> c == 'f',
        seq![c] == ","@ <==> c == ',',
        seq![c] == "`"@ <==> c == '`',
        seq![c] == "j"@ <==> c == 'j',
        seq![c] == "g"@ <==> c == 'g',
        seq![c] == "b"@ <==> c == 'b',
        seq![c] == "w"@ <==> c == 'w',
        seq![c] == "q"@ <==> c == 'q',
        seq![c] == "a"@ <==> c == 'a',
        seq![c] == "c"@ <==> c == 'c',
        seq![c] == "x"@ <==> c == 'x',
        seq![c] == "v"@ <==> c == 'v',
        seq![c] == "z"@ <==> c == 'z',
        seq![c] == "y"@ <==> c == 'y',
        seq![c] == "s"@ <==> c == 's',
{
    reveal_strlit("p");
    reveal_strlit("f");
    reveal_strlit(",");
    reveal_strlit("`");
    reveal_strlit("j");
    reveal_strlit("g");
    reveal_strlit("b");
    reveal_strlit("w");
    reveal_strlit("q");
    reveal_strlit("a");
    reveal_strlit("c");
    reveal_strlit("x");
    reveal_strlit("v");
    reveal_strlit("z");
    reveal_strlit("y");
    reveal_strlit("s");
    assert(seq![c][0] == c);
    assert("p"@[0] == 'p');
    assert(c == 'p' ==> seq![c] =~= "p"@);
    assert("f"@[0] == 'f');
    assert(c == 'f' ==> seq![c] =~= "f"@);
    assert(","@[0] == ',');
    assert(c == ',' ==> seq![c] =~= ","@);
    assert("`"@[0] == '`');
    assert(c == '`' ==> seq![c] =~= "`"@);
    assert("j"@[0] == 'j');
    assert(c == 'j' ==> seq![c] =~= "j"@);
    assert("g"@[0] == 'g');
    assert(c == 'g' ==> seq![c] =~= "g"@);
    assert("b"@[0] == 'b');
    assert(c == 'b' ==> seq![c] =~= "b"@);
    assert("w"@[0] == 'w');
    assert(c == 'w' ==> seq![c] =~= "w"@);
    assert("q"@[0] == 'q');
    assert(c == 'q' ==> seq![c] =~= "q"@);
    assert("a"@[0] == 'a');
    assert(c == 'a' ==> seq![c] =~= "a"@);
    assert("c"@[0] == 'c');
    assert(c == 'c' ==> seq![c] =~= "c"@);
    assert("x"@[0] == 'x');
    assert(c == 'x' ==> seq![c] =~= "x"@);
    assert("v"@[0] == 'v');
    assert(c == 'v' ==> seq![c] =~= "v"@);
    assert("z"@[0] == 'z');
    assert(c == 'z' ==> seq![c] =~= "z"@);
    assert("y"@[0] == 'y');
    assert(c == 'y' ==> seq![c] =~= "y"@);
    assert("s"@[0] == 's');
    assert(c == 's' ==> seq![c] =~= "s"@);
}

/// A chord that is listed with a command does what the command does.
pub proof fn listed_chords_run_their_commands(i: int, c: char, shift: bool)
    requires
        0 <= i < builtin().len(),
        'a' <= c <= 'z' || c == ',',
        builtin()[i].2 == chord_text(c, shift),
    ensures
        done_by(chord_of(seq![c], shift)) == Some(action_of(builtin()[i].0).0),
{
    if i < 8 {
        lemma_chords_first(i, c, shift);
    } else if i < 16 {
        lemma_chords_second(i, c, shift);
    } else if i < 23 {
        lemma_chords_third(i, c, shift);
    } else {
        lemma_chords_fourth(i, c, shift);
    }
}

/// No two commands do the same.
pub proof fn commands_differ(a: Seq<char>, b: Seq<char>)
    requires
        action_of(a).0 == action_of(b).0,
    ensures
        action_of(a).0 == Action::Module || a == b,
        action_of(a) == action_of(b),
{
}

} // verus!
