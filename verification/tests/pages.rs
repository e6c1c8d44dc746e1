use umber::agent_rpc::AgentLiveState;
use umber::agents::SessionSummary;
use umber::builtins::{build_command_registry, command_action, Action, Ending};
use umber::caret::{Chord, EditKey};
use umber::config::Config;
use umber::dashboard::AgentsStep;
use umber::discovery::load_enabled;
use umber::features::FeatureRegistry;
use umber::host::HostCommand;
use umber::input::{route_key, term_key_bytes, KeyStep, Route};
use umber::lists::PageKey;
use umber::overlay::Page;
use umber::pages::{ClickStep, Pages, Surroundings};
use umber::search::Match;
use umber::settings::ModulesPage;

fn hit(text: &str) -> Match {
    Match { path: "/p/x".to_string(), line: 1, col: 0, text: text.to_string() }
}

struct Place {
    config: Config,
    features: FeatureRegistry,
    live: Option<AgentLiveState>,
    cap: usize,
}

impl Place {
    fn new() -> Place {
        let config = Config::default();
        let features = FeatureRegistry::from_config(&config);
        Place { config, features, live: None, cap: 10 }
    }

    fn view(&self) -> Surroundings<'_> {
        Surroundings {
            cap: self.cap,
            lines: 42,
            root: "/p",
            home: "/home/u",
            font: "14",
            line: "20",
            config: &self.config,
            features: &self.features,
            live: self.live.as_ref(),
        }
    }
}

fn pages() -> Pages {
    Pages::new(ModulesPage::begin(Vec::new(), load_enabled(None), false))
}

fn press(p: &mut Pages, at: &Place, key: PageKey) -> KeyStep {
    p.key(&at.view(), key, None, None)
}

fn typed(p: &mut Pages, at: &Place, text: &str) -> KeyStep {
    p.key(&at.view(), PageKey::Other, Some(text), Some(text))
}

fn session(cwd: &str, age_secs: u64) -> SessionSummary {
    SessionSummary {
        path: "/s.jsonl".to_string(),
        cwd: cwd.to_string(),
        started: String::new(),
        last_active: String::new(),
        messages: 3,
        provider: "p".to_string(),
        model: "m".to_string(),
        tokens_total: 1500,
        context_tokens: 900,
        age_secs,
    }
}

#[test]
fn keys_go_to_who_owns_them() {
    let c = |s: &str| EditKey::Character(s.to_string());
    assert_eq!(route_key(Page::Editor, true, &c("`"), true, false), Route::TerminalToggle);
    assert_eq!(route_key(Page::Editor, true, &c("w"), true, false), Route::TerminalInput);
    assert_eq!(route_key(Page::Editor, true, &EditKey::Escape, false, false), Route::TerminalLeave);
    assert_eq!(route_key(Page::Editor, true, &EditKey::F11, false, false), Route::TerminalMaximize);
    assert_eq!(route_key(Page::Help, true, &EditKey::Escape, false, false), Route::Page);
    assert_eq!(route_key(Page::Editor, false, &EditKey::F1, false, false), Route::Help);
    assert_eq!(route_key(Page::Editor, false, &EditKey::Tab, true, false), Route::NextTab);
    assert_eq!(route_key(Page::Editor, false, &EditKey::Tab, false, false), Route::Edit);
    assert_eq!(
        route_key(Page::Editor, false, &c("S"), true, false),
        Route::Chord(Chord::Save)
    );
    assert_eq!(route_key(Page::Editor, false, &c("s"), false, false), Route::Edit);
}

#[test]
fn terminals_are_sent_what_keys_mean() {
    let c = |s: &str| EditKey::Character(s.to_string());
    assert_eq!(term_key_bytes(&EditKey::Enter, false, Some("\r")), Some(b"\r".to_vec()));
    assert_eq!(term_key_bytes(&EditKey::Backspace, false, None), Some(vec![0x7f]));
    assert_eq!(term_key_bytes(&EditKey::Tab, false, None), Some(b"\t".to_vec()));
    assert_eq!(term_key_bytes(&EditKey::Up, false, None), Some(b"\x1b[A".to_vec()));
    assert_eq!(term_key_bytes(&EditKey::Down, false, None), Some(b"\x1b[B".to_vec()));
    assert_eq!(term_key_bytes(&EditKey::Right, false, None), Some(b"\x1b[C".to_vec()));
    assert_eq!(term_key_bytes(&EditKey::Left, false, None), Some(b"\x1b[D".to_vec()));
    assert_eq!(term_key_bytes(&EditKey::Home, false, None), Some(b"\x1b[H".to_vec()));
    assert_eq!(term_key_bytes(&EditKey::End, false, None), Some(b"\x1b[F".to_vec()));
    assert_eq!(term_key_bytes(&EditKey::PageUp, false, None), Some(b"\x1b[5~".to_vec()));
    assert_eq!(term_key_bytes(&EditKey::PageDown, false, None), Some(b"\x1b[6~".to_vec()));
    assert_eq!(term_key_bytes(&EditKey::Delete, false, None), Some(b"\x1b[3~".to_vec()));
    assert_eq!(term_key_bytes(&c("C"), true, Some("C")), Some(vec![3]));
    assert_eq!(term_key_bytes(&c("1"), true, Some("1")), None);
    assert_eq!(term_key_bytes(&c("\u{e9}"), false, Some("\u{e9}")), Some(vec![0xc3, 0xa9]));
    assert_eq!(term_key_bytes(&EditKey::Other, false, None), None);
}

#[test]
fn the_palette_runs_what_is_selected() {
    let at = Place::new();
    let mut p = pages();
    let more = vec![HostCommand { id: "x.hi".to_string(), title: "Say Hi".to_string() }];
    p.open_palette(&build_command_registry(), &more);
    assert_eq!(p.palette.filtered.len(), p.palette.items.len());
    assert_eq!(p.palette.items.last().unwrap().keybinding, "module");
    assert!(matches!(typed(&mut p, &at, "say hi"), KeyStep::Refresh));
    assert!(matches!(press(&mut p, &at, PageKey::Enter), KeyStep::Run(id) if id == "x.hi"));
    assert_eq!(p.page, Page::Editor);
    p.open_palette(&build_command_registry(), &Vec::new());
    typed(&mut p, &at, "zzzz");
    assert!(matches!(press(&mut p, &at, PageKey::Enter), KeyStep::Close));
}

#[test]
fn the_palette_shows_its_rows() {
    let mut at = Place::new();
    at.cap = 2;
    let mut p = pages();
    p.open_palette(&build_command_registry(), &Vec::new());
    press(&mut p, &at, PageKey::Down);
    let o = p.build_overlay_spec(&at.view()).unwrap();
    assert_eq!(o.input, Some("> ".to_string()));
    assert_eq!(o.rows.len(), 2);
    assert_eq!(o.rows[0], ("File: Save".to_string(), "Ctrl+S".to_string()));
    assert_eq!(o.selected, Some(1));
    assert!(o.hint.unwrap().starts_with("30 commands"));
    press(&mut p, &at, PageKey::Up);
    press(&mut p, &at, PageKey::Up);
    assert_eq!(p.palette.sel, 29);
}

#[test]
fn lines_are_asked_for_by_digits() {
    let at = Place::new();
    let mut p = pages();
    p.open_goto();
    typed(&mut p, &at, "1a2");
    assert_eq!(p.goto_input, "12");
    press(&mut p, &at, PageKey::Backspace);
    let o = p.build_overlay_spec(&at.view()).unwrap();
    assert_eq!(o.input, Some("Go to line: 1".to_string()));
    assert_eq!(o.hint, Some("1\u{2013}42 \u{2014} Enter jump \u{2022} Esc cancel".to_string()));
    assert!(matches!(press(&mut p, &at, PageKey::Enter), KeyStep::Goto));
    assert_eq!(p.page, Page::Editor);
}

#[test]
fn hosts_are_picked_or_typed() {
    let at = Place::new();
    let mut p = pages();
    p.open_ssh_picker(vec!["alpha".to_string(), "Beta".to_string()]);
    typed(&mut p, &at, "be");
    assert_eq!(p.ssh.filtered, vec![1]);
    assert!(matches!(press(&mut p, &at, PageKey::Enter), KeyStep::Connect(Some(h)) if h == "Beta"));
    p.open_ssh_picker(vec!["alpha".to_string()]);
    typed(&mut p, &at, "u@new");
    assert!(matches!(press(&mut p, &at, PageKey::Enter), KeyStep::Connect(Some(h)) if h == "u@new"));
    p.open_ssh_picker(Vec::new());
    assert!(matches!(press(&mut p, &at, PageKey::Enter), KeyStep::Connect(None)));
}

#[test]
fn a_remote_file_takes_a_host_and_a_path() {
    let at = Place::new();
    let mut p = pages();
    p.open_remote(String::new());
    assert!(matches!(press(&mut p, &at, PageKey::Enter), KeyStep::Nothing));
    typed(&mut p, &at, "ho st");
    assert_eq!(p.remote_host, "host");
    assert!(matches!(press(&mut p, &at, PageKey::Enter), KeyStep::Refresh));
    assert_eq!(p.page, Page::RemotePath);
    assert!(matches!(press(&mut p, &at, PageKey::Enter), KeyStep::Nothing));
    typed(&mut p, &at, " a b ");
    match press(&mut p, &at, PageKey::Enter) {
        KeyStep::OpenRemote(h, f) => assert_eq!((h.as_str(), f.as_str()), ("host", "a b")),
        other => panic!("{other:?}"),
    }
}

#[test]
fn prompts_that_hold_something_are_sent() {
    let at = Place::new();
    let mut p = pages();
    p.open_prompt();
    typed(&mut p, &at, "hi ");
    assert!(matches!(press(&mut p, &at, PageKey::Enter), KeyStep::Send(t) if t == "hi "));
    assert_eq!(p.page, Page::Agents);
    assert_eq!(p.agents.prompt, "");
    p.open_prompt();
    typed(&mut p, &at, "  ");
    assert!(matches!(press(&mut p, &at, PageKey::Enter), KeyStep::Refresh));
}

#[test]
fn escape_leaves_each_page() {
    let at = Place::new();
    let all = [
        Page::Palette,
        Page::Settings,
        Page::Modules,
        Page::Help,
        Page::GotoLine,
        Page::SshPicker,
        Page::Agents,
        Page::AgentPrompt,
        Page::AgentThread,
        Page::RemoteHost,
        Page::RemotePath,
        Page::Search,
    ];
    for page in all {
        let mut p = pages();
        p.page = page;
        press(&mut p, &at, PageKey::Escape);
        let expected = match page {
            Page::AgentPrompt | Page::AgentThread => Page::Agents,
            _ => Page::Editor,
        };
        assert_eq!(p.page, expected);
    }
}

#[test]
fn a_search_runs_and_then_opens() {
    let at = Place::new();
    let mut p = pages();
    p.open_search();
    assert!(matches!(typed(&mut p, &at, "needle "), KeyStep::Search(q) if q == "needle"));
    assert!(matches!(press(&mut p, &at, PageKey::Enter), KeyStep::Nothing));
    assert!(matches!(press(&mut p, &at, PageKey::Backspace), KeyStep::Search(q) if q == "needle"));
    p.show_found(vec![Match {
        path: "/p/src/a.rs".to_string(),
        line: 3,
        col: 1,
        text: "a needle".to_string(),
    }]);
    let o = p.build_overlay_spec(&at.view()).unwrap();
    assert_eq!(o.rows[0], ("a needle".to_string(), "src/a.rs:3".to_string()));
    assert!(matches!(press(&mut p, &at, PageKey::Enter), KeyStep::OpenHit));
    assert_eq!(p.page, Page::Editor);
}

#[test]
fn settings_are_stepped_and_saved() {
    let at = Place::new();
    let mut p = pages();
    p.open_settings();
    assert!(matches!(press(&mut p, &at, PageKey::Right), KeyStep::More));
    assert!(matches!(press(&mut p, &at, PageKey::Left), KeyStep::Less));
    for _ in 0..20 {
        press(&mut p, &at, PageKey::Down);
    }
    assert_eq!(p.settings_sel, 6);
    assert!(matches!(press(&mut p, &at, PageKey::Enter), KeyStep::More));
    assert!(matches!(press(&mut p, &at, PageKey::Escape), KeyStep::SaveAndClose));
}

#[test]
fn modules_are_switched_by_enter() {
    let at = Place::new();
    let mut p = pages();
    p.open_modules();
    for _ in 0..20 {
        press(&mut p, &at, PageKey::Down);
    }
    assert_eq!(p.modules.sel, 4);
    assert!(matches!(press(&mut p, &at, PageKey::Enter), KeyStep::Toggle));
    assert!(matches!(press(&mut p, &at, PageKey::Escape), KeyStep::SaveAndClose));
}

#[test]
fn the_agents_page_opens_what_is_selected() {
    let mut at = Place::new();
    let mut p = pages();
    p.open_agents(vec![session("/home/u/x", 10), session("/y", 9_000_000)]);
    press(&mut p, &at, PageKey::Down);
    let step = press(&mut p, &at, PageKey::Enter);
    assert!(matches!(
        step,
        KeyStep::Agents(AgentsStep::ShowSession(_)) | KeyStep::Agents(AgentsStep::Expand)
    ));
    assert!(matches!(
        p.key(&at.view(), PageKey::Other, Some("n"), Some("n")),
        KeyStep::Agents(AgentsStep::Launch)
    ));
    assert!(matches!(
        p.key(&at.view(), PageKey::Other, Some("p"), Some("p")),
        KeyStep::Agents(AgentsStep::Nothing)
    ));
    at.live = Some(AgentLiveState::default());
    assert!(matches!(
        p.key(&at.view(), PageKey::Other, Some("p"), Some("p")),
        KeyStep::Agents(AgentsStep::Prompt)
    ));
    let o = p.build_overlay_spec(&at.view()).unwrap();
    assert!(o.rows.iter().any(|(l, _)| l.contains("~/x")));
    p.expand_agents();
    assert!(p.agents.expanded);
    p.reload_agents(Vec::new());
    assert!(p.agents.sessions.is_empty());
}

#[test]
fn threads_open_at_their_end() {
    let at = Place::new();
    let mut p = pages();
    let rows: Vec<(String, String)> = (0..30).map(|i| (i.to_string(), String::new())).collect();
    p.open_thread("t".to_string(), rows);
    assert_eq!(p.agents.thread_scroll, 29);
    press(&mut p, &at, PageKey::PageUp);
    assert_eq!(p.agents.thread_scroll, 19);
    press(&mut p, &at, PageKey::PageDown);
    press(&mut p, &at, PageKey::PageDown);
    assert_eq!(p.agents.thread_scroll, 29);
    let o = p.build_overlay_spec(&at.view()).unwrap();
    assert_eq!(o.title, Some("t".to_string()));
}

#[test]
fn the_pointer_selects_and_runs_rows() {
    let at = Place::new();
    let mut p = pages();
    p.open_palette(&build_command_registry(), &Vec::new());
    assert!(p.overlay_hover_row(&at.view(), 3));
    assert!(!p.overlay_hover_row(&at.view(), 3));
    assert_eq!(p.palette.sel, 3);
    assert!(matches!(p.overlay_click_row(&at.view(), 3), ClickStep::Run(id) if id == "edit.copy"));
    assert_eq!(p.page, Page::Editor);
    p.open_palette(&build_command_registry(), &Vec::new());
    assert!(matches!(p.overlay_click_row(&at.view(), 4), ClickStep::Refresh));
    assert_eq!((p.page, p.palette.sel), (Page::Palette, 4));
    assert!(matches!(p.overlay_click_row(&at.view(), 4), ClickStep::Run(id) if id == "edit.cut"));
    p.open_search();
    p.search.results = vec![hit("a"), hit("b")];
    assert!(matches!(p.overlay_click_row(&at.view(), 1), ClickStep::Refresh));
    assert_eq!((p.page, p.search.sel), (Page::Search, 1));
    assert!(matches!(p.overlay_click_row(&at.view(), 1), ClickStep::OpenHit));
    assert!(matches!(p.overlay_click_row(&at.view(), 2), ClickStep::Nothing));
    p.open_palette(&build_command_registry(), &Vec::new());
    assert!(p.overlay_scroll(&at.view(), true, 100));
    assert_eq!(p.palette.sel, 29);
    assert!(p.overlay_scroll(&at.view(), false, 1));
    assert_eq!(p.palette.sel, 28);
    p.open_settings();
    assert!(matches!(p.overlay_click_row(&at.view(), 0), ClickStep::Adjust));
    assert!(matches!(p.overlay_click_row(&at.view(), 2), ClickStep::Refresh));
    assert_eq!(p.settings_sel, 2);
    p.open_goto();
    assert!(!p.overlay_scroll(&at.view(), true, 1));
}

#[test]
fn commands_do_what_their_ids_say() {
    assert_eq!(command_action("file.save"), (Action::Save, Ending::Close));
    assert_eq!(command_action("edit.paste"), (Action::Paste, Ending::Follow));
    assert_eq!(command_action("terminal.toggle"), (Action::TerminalToggle, Ending::CloseFirst));
    assert_eq!(command_action("app.quit"), (Action::Quit, Ending::Stay));
    assert_eq!(command_action("some.module").0, Action::Module);
    for c in build_command_registry().commands() {
        assert_ne!(command_action(c.id).0, Action::Module, "{}", c.id);
    }
}
