use umber::commands::{fuzzy_score, rank_titles, try_fuzzy_score, Command, CommandRegistry, MATCH_MAX};
use umber::config::{
    parse_bool, toml_entries, Config, FONT_MAX, FONT_MIN, LINE_MAX, LINE_MIN, LINGER_MAX, LINGER_MIN,
};
use umber::features::FeatureRegistry;

/// What each entry of a configuration writes as a number.
fn numbers(text: &str) -> Vec<Option<u32>> {
    toml_entries(text)
        .iter()
        .map(|e| e.value.parse::<f32>().ok().map(f32::to_bits))
        .collect()
}

fn text_of(bits: u32) -> String {
    format!("{}", f32::from_bits(bits))
}

#[test]
fn fuzzy_matches_subsequence_and_ranks_prefix_first() {
    assert!(fuzzy_score("File: Save", "fs").is_some());
    assert!(fuzzy_score("File: Save", "save").is_some());
    assert!(fuzzy_score("File: Save", "zzz").is_none());
    let prefix = fuzzy_score("Save File", "save").unwrap();
    let scattered = fuzzy_score("Some Awful Verbose Example", "save").unwrap();
    assert!(prefix > scattered);
}

#[test]
fn empty_query_lists_all_in_order() {
    let mut reg = CommandRegistry::new();
    reg.register(Command { id: "a", title: "Alpha", keybinding: "" });
    reg.register(Command { id: "b", title: "Beta", keybinding: "" });
    assert_eq!(reg.filter(""), vec![0, 1]);
    assert_eq!(reg.filter("  "), vec![0, 1]);
}

#[test]
fn config_toml_roundtrips() {
    let mut cfg = Config::default();
    cfg.font_size = 18.0f32.to_bits();
    cfg.gutter = false;
    cfg.scrollbar_linger_ms = 1200;
    let text = cfg.to_toml(&text_of(cfg.font_size), &text_of(cfg.line_height));
    let mut back = Config::default();
    back.apply_toml(&text, &numbers(&text));
    back.clamp();
    assert_eq!(cfg, back);
}

#[test]
fn config_clamps_out_of_range() {
    let mut cfg = Config::default();
    cfg.font_size = 999.0f32.to_bits();
    cfg.scrollbar_linger_ms = 10;
    cfg.clamp();
    assert_eq!(cfg.font_size, FONT_MAX);
    assert_eq!(cfg.scrollbar_linger_ms, LINGER_MIN);
}

#[test]
fn kernel_features_refuse_toggle() {
    let mut reg = FeatureRegistry::from_config(&Config::default());
    let palette = reg.index_of("command-palette").unwrap();
    assert!(reg.toggle(palette).is_err());
    let gutter = reg.index_of("gutter").unwrap();
    assert_eq!(reg.toggle(gutter), Ok(false));
    assert!(!reg.is_enabled("gutter"));
}

#[test]
fn limits_are_the_bits_of_whole_numbers() {
    assert_eq!(FONT_MIN, 6.0f32.to_bits());
    assert_eq!(FONT_MAX, 32.0f32.to_bits());
    assert_eq!(LINE_MIN, 10.0f32.to_bits());
    assert_eq!(LINE_MAX, 48.0f32.to_bits());
    assert_eq!(LINGER_MAX, 5000);
    let cfg = Config::default();
    assert_eq!(f32::from_bits(cfg.font_size), 14.0);
    assert_eq!(f32::from_bits(cfg.line_height), 20.0);
}

#[test]
fn clamping_agrees_with_floating_point() {
    for x in [-1.0f32, 0.0, 5.999, 6.0, 14.5, 32.0, 32.01, 1e30, f32::INFINITY, f32::NEG_INFINITY] {
        let mut cfg = Config::default();
        cfg.font_size = x.to_bits();
        cfg.line_height = x.to_bits();
        cfg.clamp();
        assert_eq!(f32::from_bits(cfg.font_size), x.clamp(6.0, 32.0));
        assert_eq!(f32::from_bits(cfg.line_height), x.clamp(10.0, 48.0));
    }
}

#[test]
fn entries_with_comments_and_junk_are_read_around() {
    let text = "# head\nfont_size = 16 # big\n\nnonsense\nscrollbar = off\nlatency_hud = maybe\n";
    let mut cfg = Config::default();
    cfg.apply_toml(text, &numbers(text));
    assert!(cfg.latency_hud);
    assert_eq!(f32::from_bits(cfg.font_size), 16.0);
    assert_eq!(parse_bool("true"), Some(true));
    assert_eq!(parse_bool("false"), Some(false));
    assert_eq!(parse_bool("maybe"), None);
}

#[test]
fn a_missing_file_gives_the_default() {
    assert_eq!(Config::load(None, &Vec::new()), Config::default());
    assert_eq!(
        Config::path(None, Some("/home/u")),
        Some("/home/u/.config/umber/config.toml".to_string())
    );
    assert_eq!(Config::path(Some("/x"), None), Some("/x/umber/config.toml".to_string()));
    assert_eq!(Config::path(None, None), None);
}

#[test]
fn features_follow_the_configuration_and_back() {
    let mut cfg = Config::default();
    cfg.scrollbar = false;
    let mut reg = FeatureRegistry::from_config(&cfg);
    assert!(!reg.is_enabled("scrollbar"));
    assert!(!reg.is_enabled("no-such-feature"));
    let i = reg.index_of("latency-hud").unwrap();
    assert_eq!(reg.toggle(i), Ok(false));
    let mut back = Config::default();
    reg.apply_to_config(&mut back);
    assert!(!back.scrollbar);
    assert!(!back.latency_hud);
    assert!(back.gutter);
    assert_eq!(reg.index_of("no-such-feature"), None);
}

#[test]
fn queries_are_ranked_and_case_does_not_count() {
    let mut reg = CommandRegistry::new();
    reg.register(Command { id: "a", title: "Some Awful Verbose Example", keybinding: "" });
    reg.register(Command { id: "b", title: "Save File", keybinding: "Ctrl+S" });
    reg.register(Command { id: "c", title: "Nothing", keybinding: "" });
    assert_eq!(reg.filter("SAVE"), vec![1, 0]);
    assert_eq!(reg.find("b").map(|c| c.title), Some("Save File"));
    assert!(reg.find("z").is_none());
    assert_eq!(reg.commands().len(), 3);
}

#[test]
fn long_queries_list_the_titles_that_hold_them() {
    let mut reg = CommandRegistry::new();
    reg.register(Command { id: "a", title: "aaa", keybinding: "" });
    let long = "a".repeat(MATCH_MAX + 1);
    assert_eq!(reg.filter(&long), Vec::<usize>::new());
    assert_eq!(fuzzy_score("aaa", &long), None);
    assert_eq!(try_fuzzy_score("aaa", &long), Some(None));
    assert_eq!(try_fuzzy_score(&long, &long), None);
    assert_eq!(rank_titles(&vec!["b".to_string(), format!("{long}a"), long.clone()], &long), vec![1, 2]);
    // Every character but the first lengthens the run.
    let n = MATCH_MAX as i32;
    assert_eq!(fuzzy_score(&long, &long[1..]), Some(6 + n + n * (n - 1)));
}

#[test]
fn case_and_white_space_do_not_change_a_score() {
    for (hay, need) in [("File: Save", "f s"), ("a_b.c", "A\tB C"), ("xyz", "q")] {
        let bare = need.to_lowercase().replace(char::is_whitespace, "");
        assert_eq!(fuzzy_score(hay, need), fuzzy_score(&hay.to_uppercase(), &bare));
    }
    assert_eq!(fuzzy_score("anything", " \t"), Some(0));
}

#[test]
fn what_is_no_number_is_moved_into_its_range() {
    for bits in [f32::NAN.to_bits(), (-f32::NAN).to_bits(), f32::INFINITY.to_bits(), (-1.0f32).to_bits()] {
        let mut c = Config { font_size: bits, line_height: bits, ..Config::default() };
        c.clamp();
        let font = f32::from_bits(c.font_size);
        let line = f32::from_bits(c.line_height);
        assert!((6.0..=32.0).contains(&font) && (10.0..=48.0).contains(&line));
        let once = (c.font_size, c.line_height);
        c.clamp();
        assert_eq!((c.font_size, c.line_height), once);
    }
    let loaded = Config::load(Some("font_size = nan\n"), &vec![Some(f32::NAN.to_bits())]);
    assert_eq!(f32::from_bits(loaded.font_size), 6.0);
}

#[test]
fn a_blank_query_lists_and_ranks_everything() {
    let mut reg = CommandRegistry::new();
    reg.register(Command { id: "a", title: "Alpha", keybinding: "" });
    reg.register(Command { id: "b", title: "Beta", keybinding: "" });
    for blank in ["", " ", "\u{3000}\u{2003}\t", "\u{85}"] {
        assert_eq!(reg.filter(blank), vec![0, 1]);
        assert_eq!(fuzzy_score("Alpha", blank), Some(0));
    }
}
