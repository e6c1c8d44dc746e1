use umber::pickers::parse_ssh_hosts;
use umber::words::{
    digit_count, is_word_char, min_deadline, onoff, read_vmrss, reschedule, windowed_start, word_span_at,
    HoverTarget,
};

#[test]
fn word_span_expands_over_word_chars() {
    let line = "foo_bar baz";
    assert_eq!(word_span_at(line, 0), Some((0, 7)));
    assert_eq!(word_span_at(line, 3), Some((0, 7)));
    assert_eq!(word_span_at(line, 6), Some((0, 7)));
    assert_eq!(word_span_at(line, 8), Some((8, 11)));
}

#[test]
fn word_span_whitespace_is_none() {
    assert_eq!(word_span_at("foo bar", 3), None);
}

#[test]
fn word_span_past_end_is_none() {
    assert_eq!(word_span_at("hi", 2), None);
    assert_eq!(word_span_at("hi", 5), None);
    assert_eq!(word_span_at("", 0), None);
}

#[test]
fn word_span_punctuation_is_single_char() {
    let line = "a::b";
    assert_eq!(word_span_at(line, 0), Some((0, 1)));
    assert_eq!(word_span_at(line, 1), Some((1, 2)));
    assert_eq!(word_span_at(line, 2), Some((2, 3)));
    assert_eq!(word_span_at(line, 3), Some((3, 4)));
}

#[test]
fn word_span_unicode_word_by_char_index() {
    assert_eq!(word_span_at("h\u{e9}llo", 1), Some((0, 5)));
}

#[test]
fn every_column_of_a_word_has_the_same_span() {
    let line = "ab_9\u{e9} +x";
    for col in 0..5 {
        assert_eq!(word_span_at(line, col), Some((0, 5)));
    }
    assert_eq!(word_span_at(line, 6), Some((6, 7)));
}

#[test]
fn hover_target_change_detection() {
    let w = HoverTarget::Word { line: 2, start_col: 0, end_col: 3 };
    assert_eq!(w, HoverTarget::Word { line: 2, start_col: 0, end_col: 3 });
    assert_ne!(w, HoverTarget::Word { line: 2, start_col: 0, end_col: 4 });
    assert_ne!(w, HoverTarget::Word { line: 3, start_col: 0, end_col: 3 });
    assert_ne!(w, HoverTarget::Line(2));
    assert_ne!(HoverTarget::Line(1), HoverTarget::Line(2));
    assert_eq!(HoverTarget::Line(5), HoverTarget::Line(5));
    assert_ne!(HoverTarget::Nothing, HoverTarget::Line(0));
}

#[test]
fn parses_hosts_skipping_wildcards_and_negations() {
    let cfg = "# comment\nHost moo\n  HostName 1.2.3.4\n\nhost dev staging\nHost *\n  Compression yes\nHost *.internal !bastion prod\n";
    assert_eq!(parse_ssh_hosts(cfg), vec!["dev", "moo", "prod", "staging"]);
}

#[test]
fn any_white_space_ends_the_keyword() {
    assert_eq!(parse_ssh_hosts("Host\tmoo\n  hOST \t b a\nhosts c\nHost=d\n"), vec!["a", "b", "moo"]);
}

#[test]
fn empty_or_hostless_config_yields_nothing() {
    assert!(parse_ssh_hosts("").is_empty());
    assert!(parse_ssh_hosts("Port 22\nUser root\n").is_empty());
}

#[test]
fn word_characters_are_those_of_unicode() {
    for c in ['a', 'Z', '0', '_', '\u{e9}', '\u{3b1}', ' ', '-', '.', '\u{2014}'] {
        assert_eq!(is_word_char(c), c.is_alphanumeric() || c == '_');
    }
}

#[test]
fn digits_are_counted() {
    for n in [0usize, 1, 9, 10, 99, 100, 12345, usize::MAX] {
        assert_eq!(digit_count(n), n.to_string().len());
    }
}

#[test]
fn the_selection_is_kept_in_view() {
    for n in 0..12usize {
        for cap in 1..6usize {
            for sel in 0..n {
                let start = windowed_start(sel, n, cap);
                assert!(start <= sel && sel < start + cap);
                assert!(start + cap <= n || start == 0);
            }
        }
    }
}

#[test]
fn the_nearer_deadline_counts() {
    assert_eq!(min_deadline(None, 5), Some(5));
    assert_eq!(min_deadline(Some(3), 5), Some(3));
    assert_eq!(min_deadline(Some(7), 5), Some(5));
    assert_eq!(reschedule(None, Some(9), false, 5), Some(9));
    assert_eq!(reschedule(None, Some(9), true, 5), None);
    assert_eq!(reschedule(Some(7), Some(9), false, 5), Some(7));
}

#[test]
fn switches_are_shown_in_words() {
    assert_eq!(onoff(true), "ON");
    assert_eq!(onoff(false), "OFF");
}

#[test]
fn resident_memory_is_read_in_megabytes() {
    let status = "Name:\tumber\nVmRSS:\t  204800 kB\nThreads:\t4\n";
    assert_eq!(read_vmrss(status), Some("200.0 MB (204800 kB)".to_string()));
    assert_eq!(read_vmrss("Name:\tumber\n"), None);
    for kb in [1u64, 511, 1000, 1024, 123_456, 9_999_999] {
        let text = format!("VmRSS: {kb} kB\n");
        assert_eq!(read_vmrss(&text), Some(format!("{:.1} MB ({kb} kB)", kb as f64 / 1024.0)));
    }
}

#[test]
fn white_space_is_neither_a_letter_nor_changed_by_case() {
    let mut seen = 0;
    for c in '\0'..=char::MAX {
        if c.is_whitespace() {
            seen += 1;
            assert!(!c.is_alphanumeric() && !is_word_char(c), "{c:?}");
            assert_eq!(c.to_lowercase().collect::<Vec<char>>(), vec![c]);
        }
    }
    assert!(seen > 20);
}
