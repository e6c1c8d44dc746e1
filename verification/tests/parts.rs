use umber::agent_rpc::{AgentLiveState, AgentRunState};
use umber::bytes::len_of;
use umber::config::Config;
use umber::dashboard::{live_rows, live_thread_rows, streaming_behavior, wrap_message};
use umber::discovery::{load_enabled, Discovered};
use umber::features::FeatureRegistry;
use umber::fixed::{show_one_decimal, show_two_decimals, DOUBLE, SINGLE};
use umber::guest::{
    check_abi, choose_handler, command_index, config_get, emit, invoke_outcome, missing_export, read_utf8,
    register, script_end, ConfigReply, GuestEnd, GuestError, Handler, TIMEOUT_MARK,
};
use umber::host::HostError;
use umber::loading::{next_step, LoadEvent, LoadStep};
use umber::manifest::Manifest;
use umber::number::{decimal_text, parse_number};
use umber::pickers::failed_host;
use umber::settings::{
    invoke_status, settings_adjust, toggle_feature, Adjusted, ModulesPage, ModulesStep,
};
use umber::signals::{Notice, Signals, TermEvent};
use umber::table::Table;
use umber::terminal::{
    fallback_named, indexed_rgb, named_index, resolve_color, styled_content, Cell, Color, NamedColor, Rgb,
};
use umber::text::{join_lines, separate, split_lines, split_words, text_less, trim};

fn rgb(r: u8, g: u8, b: u8) -> Rgb {
    Rgb { r, g, b }
}

fn cell(line: i32, c: char) -> Cell {
    Cell {
        line,
        c,
        fg: Color::Named(NamedColor::Foreground),
        fg_set: None,
        bg: Color::Named(NamedColor::Background),
        bg_set: None,
        inverse: false,
        dim: false,
        bold: false,
        italic: false,
    }
}

#[test]
fn the_palette_of_a_terminal_has_its_cube_and_greys() {
    assert_eq!(indexed_rgb(0), rgb(35, 31, 28));
    assert_eq!(indexed_rgb(15), rgb(242, 236, 224));
    assert_eq!(indexed_rgb(16), rgb(0, 0, 0));
    assert_eq!(indexed_rgb(231), rgb(255, 255, 255));
    assert_eq!(indexed_rgb(16 + 36 + 12 + 3), rgb(95, 135, 175));
    assert_eq!(indexed_rgb(232), rgb(8, 8, 8));
    assert_eq!(indexed_rgb(255), rgb(238, 238, 238));
    assert_eq!(named_index(NamedColor::BrightRed), Some(9));
    assert_eq!(named_index(NamedColor::Cursor), None);
    assert_eq!(fallback_named(NamedColor::DimForeground), rgb(145, 137, 124));
    assert_eq!(resolve_color(Color::Spec(rgb(1, 2, 3)), None), rgb(1, 2, 3));
    assert_eq!(resolve_color(Color::Indexed(0), Some(rgb(9, 9, 9))), rgb(9, 9, 9));
}

#[test]
fn a_terminal_shows_its_lines_without_blanks() {
    let mut bold = cell(0, '\u{e9}');
    bold.bold = true;
    let cells = vec![cell(0, 'a'), bold, cell(0, ' '), cell(1, ' '), cell(2, 'x'), cell(2, 'y')];
    let s = styled_content(&cells, 3, 0, 2, 1);
    assert_eq!(s.text, "a\u{e9}\n\nxy");
    assert_eq!(s.cursor, Some((2, 1)));
    let at: Vec<(usize, usize, bool)> = s.spans.iter().map(|p| (p.start, p.end, p.bold)).collect();
    assert_eq!(at, vec![(0, 1, false), (1, 3, true), (5, 7, false)]);
    assert_eq!(styled_content(&cells, 2, -1, 0, 0).cursor, None);
}

#[test]
fn inverse_and_dim_cells_change_their_colour() {
    let mut c = cell(0, 'x');
    c.inverse = true;
    c.dim = true;
    c.bg = Color::Spec(rgb(90, 60, 31));
    let s = styled_content(&vec![c], 1, 0, 0, 0);
    assert_eq!(s.spans[0].rgb, rgb(60, 40, 20));
}

#[test]
fn guests_are_read_within_their_memory() {
    let data = b"idtitle\xff";
    assert_eq!(read_utf8(data, 0, 2), Ok("id".to_string()));
    assert_eq!(read_utf8(data, -1, 2), Err(GuestError::Negative));
    assert_eq!(read_utf8(data, 0, -2), Err(GuestError::Negative));
    assert_eq!(read_utf8(data, 4, 9), Err(GuestError::OutOfBounds));
    assert_eq!(read_utf8(data, 7, 1), Err(GuestError::NotText));
    let mut registered = Vec::new();
    assert_eq!(register(data, 0, 2, 2, 5, &mut registered), Ok(()));
    assert_eq!(registered, vec![("id".to_string(), "title".to_string())]);
    assert!(register(data, 0, 2, 7, 1, &mut registered).is_err());
    assert_eq!(registered.len(), 1);
    assert_eq!(command_index(&registered, "id").unwrap(), 0);
    assert!(matches!(command_index(&registered, "no"), Err(HostError::NoSuchCommand(_))));
    let mut out = "<".to_string();
    assert_eq!(emit(data, 2, 5, &mut out), Ok(()));
    assert_eq!(out, "<title");
    assert_eq!(GuestError::NotText.message(), "string not UTF-8");
}

#[test]
fn guests_ask_for_their_configuration() {
    let mut config: Table<String> = Table::new();
    config.insert("id".to_string(), "value".to_string());
    let reply = config_get(&config, b"id", 0, 2, 5).unwrap();
    assert_eq!(reply, ConfigReply::Value(b"value".to_vec()));
    assert_eq!(reply.code(), 5);
    assert_eq!(config_get(&config, b"id", 0, 2, 4).unwrap().code(), -2);
    assert_eq!(config_get(&config, b"xx", 0, 2, 4).unwrap().code(), -1);
    assert_eq!(config_get(&config, b"id", 0, 3, 4), Err(GuestError::OutOfBounds));
}

#[test]
fn runs_of_guests_end_one_way_or_another() {
    assert!(check_abi(None).is_ok());
    assert!(check_abi(Some(1)).is_ok());
    assert_eq!(
        check_abi(Some(-2)).unwrap_err().message(),
        "ABI error: unsupported ABI version -2 (host speaks v1)"
    );
    assert_eq!(
        missing_export("memory").message(),
        "ABI error: module does not export `memory`"
    );
    assert_eq!(invoke_outcome(GuestEnd::Done, "o".to_string()).ok(), Some("o".to_string()));
    assert!(matches!(
        invoke_outcome(GuestEnd::Interrupted, String::new()),
        Err(HostError::Timeout)
    ));
    assert!(matches!(
        invoke_outcome(script_end(Some("boom".to_string())), String::new()),
        Err(HostError::Invoke(e)) if e == "boom"
    ));
    assert!(matches!(
        script_end(Some(format!("runtime error: {TIMEOUT_MARK}\nstack"))),
        GuestEnd::Interrupted
    ));
    assert!(matches!(script_end(None), GuestEnd::Done));
    assert_eq!(choose_handler(true, true, "x"), Ok(Handler::Own));
    assert_eq!(choose_handler(false, true, "x"), Ok(Handler::Fallback));
    assert_eq!(
        choose_handler(false, false, "x"),
        Err("no handler for command `x` and no umber_invoke fallback".to_string())
    );
}

#[test]
fn settings_step_within_their_limits() {
    let mut c = Config::default();
    let mut f = FeatureRegistry::from_config(&c);
    let stepped = (f32::from_bits(c.font_size) + 1.0).to_bits();
    assert_eq!(settings_adjust(&mut c, &mut f, 0, true, stepped), Adjusted::Apply);
    assert_eq!(f32::from_bits(c.font_size), 15.0);
    settings_adjust(&mut c, &mut f, 1, true, 99.0f32.to_bits());
    assert_eq!(f32::from_bits(c.line_height), 48.0);
    c.scrollbar_linger_ms = 150;
    settings_adjust(&mut c, &mut f, 2, false, 0);
    assert_eq!(c.scrollbar_linger_ms, 100);
    settings_adjust(&mut c, &mut f, 2, true, 0);
    assert_eq!(c.scrollbar_linger_ms, 200);
    settings_adjust(&mut c, &mut f, 3, true, 0);
    assert!(!c.gutter && !f.is_enabled("gutter"));
    assert_eq!(settings_adjust(&mut c, &mut f, 6, true, 0), Adjusted::OpenTerminal);
    assert_eq!(toggle_feature(&mut f, &mut c, "gutter"), Some(Ok(true)));
    assert!(c.gutter);
    assert_eq!(toggle_feature(&mut f, &mut c, "nope"), None);
    assert!(matches!(toggle_feature(&mut f, &mut c, "keybinds"), Some(Err(_))));
}

fn found(default_on: bool) -> Discovered {
    let text = format!(
        "[module]\nname=\"m\"\nversion=\"1\"\nkind=\"lua\"\nentry=\"m.lua\"\ndefault_on={default_on}\n"
    );
    Discovered {
        dir_name: "m".to_string(),
        base_dir: "/m".to_string(),
        manifest: Manifest::parse(&text),
    }
}

#[test]
fn modules_are_loaded_and_unloaded() {
    let page = ModulesPage::begin(vec![found(true)], load_enabled(None), true);
    assert!(page.is_enabled(0));
    let mut page = ModulesPage::begin(vec![found(true)], load_enabled(None), false);
    assert!(!page.is_enabled(0));
    let mut c = Config::default();
    let mut f = FeatureRegistry::from_config(&c);
    assert_eq!(page.toggle_current(&mut f, &mut c), ModulesStep::Apply);
    assert!(!c.gutter);
    page.sel = 3;
    page.toggle_current(&mut f, &mut c);
    assert_eq!(page.hint, Some("kernel module \u{2014} cannot be disabled (D10)".to_string()));
    page.sel = 5;
    assert_eq!(page.toggle_current(&mut f, &mut c), ModulesStep::Load(0));
    page.loaded(0, Some("broken".to_string()), true);
    assert_eq!(page.hint, Some("broken".to_string()));
    assert!(!page.is_enabled(0));
    page.loaded(0, None, true);
    assert!(page.is_enabled(0) && page.modules[0].loaded);
    assert_eq!(page.toggle_current(&mut f, &mut c), ModulesStep::Unload(0));
    page.unloaded(0);
    assert!(!page.is_enabled(0));
}

#[test]
fn what_a_command_did_is_said() {
    assert_eq!(invoke_status("x", &Ok(" hi \nmore".to_string())), "x: hi");
    assert_eq!(invoke_status("x", &Ok("\nmore".to_string())), "x: ran (no output)");
    assert_eq!(
        invoke_status("x", &Err(HostError::Timeout)),
        "x failed: invocation exceeded its time budget"
    );
    assert_eq!(failed_host("h", "read", "why"), "h  (read failed: why)");
}

#[test]
fn messages_are_wrapped_to_the_thread() {
    let mut rows = Vec::new();
    let text = format!("{} {}", "a".repeat(60), "b".repeat(60));
    wrap_message(&mut rows, "you", &text);
    assert_eq!(rows.len(), 3);
    assert_eq!(rows[0].0, format!("you \u{25b8} {}", "a".repeat(60)));
    assert_eq!(rows[1].0, format!("      {}", "b".repeat(60)));
    assert_eq!(rows[2].0, "");
    wrap_message(&mut rows, "agent", "ok");
    assert_eq!(rows[3].0, "  \u{25cf} ok");
}

#[test]
fn an_attached_agent_is_told_in_rows() {
    let live = AgentLiveState {
        run_state: Some(AgentRunState::Running),
        output_tail: "one\ntwo".to_string(),
        last_tool: Some("bash".to_string()),
    };
    let rows = live_rows(&live);
    assert_eq!(rows[0].0, "LIVE AGENT \u{2014} \u{25cf} RUNNING");
    assert_eq!(rows[0].1, "tool: bash");
    assert_eq!(rows[1].0, "  two");
    assert!(live_thread_rows(&live).iter().any(|(l, _)| l == "one"));
    assert_eq!(streaming_behavior(Some(AgentRunState::Running)), Some("steer"));
    assert_eq!(streaming_behavior(Some(AgentRunState::Queued)), Some("steer"));
    assert_eq!(streaming_behavior(None), None);
}

#[test]
fn fixed_decimals_agree_with_floating_point() {
    let mut n: u64 = 1;
    for i in 0..3000u64 {
        n = n.wrapping_mul(6364136223846793005).wrapping_add(1442695040888963407);
        let k = n >> (20 + i % 40);
        assert_eq!(show_one_decimal(k, 1000, DOUBLE), format!("{:.1}", k as f64 / 1000.0));
        assert_eq!(show_one_decimal(k, 1024, DOUBLE), format!("{:.1}", k as f64 / 1024.0));
        assert_eq!(show_two_decimals(k, 1000, SINGLE), format!("{:.2}", k as f32 / 1000.0));
        assert_eq!(show_one_decimal(k, 1000, SINGLE), format!("{:.1}", k as f32 / 1000.0));
    }
}

#[test]
fn numbers_read_back() {
    for n in [0u64, 7, 10, 12345, u64::MAX] {
        let text: Vec<char> = decimal_text(n).chars().collect();
        assert_eq!(decimal_text(n), n.to_string());
        assert_eq!(parse_number(&text, u64::MAX), Some(n));
    }
    let read = |s: &str| parse_number(&s.chars().collect::<Vec<char>>(), 99);
    assert_eq!(read("+7"), Some(7));
    assert_eq!(read(""), None);
    assert_eq!(read("+"), None);
    assert_eq!(read("100"), None);
    assert_eq!(read("1x"), None);
}

#[test]
fn texts_are_cut_as_std_cuts_them() {
    for s in ["", "a", "a\n", "a\r\nb\n\n", "\n", "a\rb", " x\t y\u{a0}z\u{2003} ", "\r\n"] {
        let cs: Vec<char> = s.chars().collect();
        let lines: Vec<String> = split_lines(&cs).into_iter().map(|l| l.into_iter().collect()).collect();
        assert_eq!(lines, s.lines().map(str::to_string).collect::<Vec<_>>());
        let words: Vec<String> = split_words(&cs).into_iter().map(|w| w.into_iter().collect()).collect();
        assert_eq!(words, s.split_whitespace().map(str::to_string).collect::<Vec<_>>());
        assert_eq!(trim(&cs).iter().collect::<String>(), s.trim());
        assert_eq!(len_of(s), s.len());
    }
    let parts: Vec<String> = vec!["a".to_string(), "b".to_string()];
    assert_eq!(join_lines(&parts), "a\nb\n");
    assert_eq!(separate(&parts, ", "), "a, b");
    assert!(text_less("a", "b") && text_less("", "a") && !text_less("b", "a"));
    assert_eq!(text_less("\u{ffff}", "\u{10000}"), "\u{ffff}" < "\u{10000}");
}

#[test]
fn modules_are_loaded_step_by_step() {
    let mut step = LoadStep::Compile;
    let events = vec![
        LoadEvent::Fine,
        LoadEvent::Fine,
        LoadEvent::Fine,
        LoadEvent::Fine,
        LoadEvent::Fine,
        LoadEvent::Returned(1),
        LoadEvent::Fine,
        LoadEvent::Fine,
        LoadEvent::Fine,
    ];
    for e in events {
        step = next_step(step, e).unwrap();
    }
    assert_eq!(step, LoadStep::Done);
    assert_eq!(
        next_step(LoadStep::FindVersion, LoadEvent::Missing).ok(),
        Some(LoadStep::FindRegister)
    );
    let why = |step, e| next_step(step, e).unwrap_err().message();
    let failed = || LoadEvent::Failed("x".to_string());
    assert_eq!(why(LoadStep::Compile, failed()), "load failed: compile: x");
    assert_eq!(why(LoadStep::Link, failed()), "load failed: link: x");
    assert_eq!(why(LoadStep::Instantiate, failed()), "load failed: instantiate: x");
    assert_eq!(why(LoadStep::CallVersion, failed()), "ABI error: umber_abi_version trapped: x");
    assert_eq!(why(LoadStep::CallRegister, failed()), "ABI error: umber_register trapped: x");
    assert_eq!(
        why(LoadStep::FindMemory, LoadEvent::Missing),
        "ABI error: module does not export `memory`"
    );
    assert_eq!(
        why(LoadStep::FindRegister, LoadEvent::Missing),
        "ABI error: module does not export `umber_register`"
    );
    assert_eq!(
        why(LoadStep::FindInvoke, LoadEvent::Missing),
        "ABI error: module does not export `umber_invoke`"
    );
    assert_eq!(
        why(LoadStep::CallVersion, LoadEvent::Returned(2)),
        "ABI error: unsupported ABI version 2 (host speaks v1)"
    );
}

#[test]
fn a_terminal_wakes_once_until_it_is_read() {
    let mut s = Signals::new();
    assert!(matches!(s.send_event(TermEvent::Wakeup), Notice::Wake));
    for _ in 0..1000 {
        assert!(matches!(s.send_event(TermEvent::Wakeup), Notice::Nothing));
    }
    assert!(s.take_dirty());
    assert!(!s.take_dirty());
    assert!(matches!(s.send_event(TermEvent::Wakeup), Notice::Wake));
    assert!(matches!(
        s.send_event(TermEvent::Write("\u{e9}".to_string())),
        Notice::Write(b) if b == vec![0xc3, 0xa9]
    ));
    assert!(!s.has_exited());
    assert!(matches!(s.send_event(TermEvent::Exited), Notice::ChildExited));
    assert!(matches!(s.send_event(TermEvent::Exited), Notice::Nothing));
    assert!(matches!(s.send_event(TermEvent::Other), Notice::Nothing));
    assert!(s.has_exited());
    s.take_dirty();
    s.touch();
    assert!(s.take_dirty());
}

#[test]
fn a_module_that_cannot_be_loaded_says_why() {
    let bad = Discovered {
        dir_name: "m".to_string(),
        base_dir: "/m".to_string(),
        manifest: Manifest::parse(""),
    };
    let page = ModulesPage::begin(vec![found(false), bad], load_enabled(None), false);
    assert_eq!(page.refusal(0, true), None);
    assert_eq!(page.refusal(0, false), Some("module host unavailable".to_string()));
    assert_eq!(page.refusal(1, true), Some("manifest failed to parse".to_string()));
}

#[test]
fn a_terminal_wakes_the_editor_once_until_it_is_read() {
    let mut s = Signals::new();
    let mut wakes = 0;
    let mut endings = 0;
    for round in 0..3 {
        for event in [
            TermEvent::Other,
            TermEvent::Wakeup,
            TermEvent::Exited,
            TermEvent::Wakeup,
            TermEvent::Write("x".to_string()),
            TermEvent::Wakeup,
        ] {
            match s.send_event(event) {
                Notice::Wake => wakes += 1,
                Notice::ChildExited => endings += 1,
                _ => {}
            }
        }
        assert_eq!(wakes, round + 1);
        assert!(s.take_dirty());
    }
    assert_eq!(endings, 1);
}
