use umber::agent_rpc::{
    classify_line, prompt_command, simple_command, AgentLiveState, AgentRunState, RpcInbound,
    OUTPUT_TAIL_CAP,
};
use umber::agents::{
    age_secs, fmt_age, fmt_tokens, newest_files, parse_session, read_session, session_transcript,
};
use umber::dashboard::session_thread_rows;

fn assistant(id: &str, parent: &str, total: u64) -> String {
    format!(
        r#"{{"type":"message","id":"{id}","parentId":"{parent}","timestamp":"2026-07-15T22:33:12.865Z","message":{{"role":"assistant","content":[],"provider":"provider-max","model":"model-fable-5","usage":{{"input":2,"output":5,"cacheRead":0,"cacheWrite":0,"totalTokens":{total},"cost":{{"input":0,"output":0,"cacheRead":0,"cacheWrite":0,"total":0}},"cacheWrite1h":0,"reasoning":1}}}}}}"#
    )
}

fn user(id: &str, parent: Option<&str>) -> String {
    let parent = match parent {
        Some(p) => format!(r#""{p}""#),
        None => "null".to_string(),
    };
    format!(
        r#"{{"type":"message","id":"{id}","parentId":{parent},"timestamp":"2026-07-15T22:32:40.000Z","message":{{"role":"user","content":"hi"}}}}"#
    )
}

const HEADER: &str = r#"{"type":"session","version":3,"id":"019f","timestamp":"2026-07-15T22:32:31.197Z","cwd":"/home/asmartcow"}"#;

#[test]
fn sums_usage_and_reads_model_on_active_branch() {
    let text = [
        HEADER.to_string(),
        r#"{"type":"model_change","id":"aaaaaaaa","parentId":null,"timestamp":"2026-07-15T22:32:32.140Z","provider":"provider-max","modelId":"model-fable-5"}"#.to_string(),
        user("bbbbbbbb", Some("aaaaaaaa")),
        assistant("cccccccc", "bbbbbbbb", 1000),
        assistant("dddddddd", "cccccccc", 2500),
    ]
    .join("\n");
    let s = parse_session(&text, "/tmp/x.jsonl").unwrap();
    assert_eq!(s.cwd, "/home/asmartcow");
    assert_eq!(s.messages, 3);
    assert_eq!(s.tokens_total, 3500);
    assert_eq!(s.context_tokens, 2500);
    assert_eq!(s.provider, "provider-max");
    assert_eq!(s.model, "model-fable-5");
}

#[test]
fn abandoned_branch_does_not_count() {
    let text = [
        HEADER.to_string(),
        user("bbbbbbbb", None),
        assistant("c1c1c1c1", "bbbbbbbb", 9999),
        assistant("c2c2c2c2", "bbbbbbbb", 100),
    ]
    .join("\n");
    let s = parse_session(&text, "/tmp/x.jsonl").unwrap();
    assert_eq!(s.tokens_total, 100, "abandoned sibling must not count");
    assert_eq!(s.messages, 2);
}

#[test]
fn rejects_non_session_files_and_survives_garbage() {
    assert!(parse_session("not json", "/tmp/x").is_none());
    assert!(parse_session(r#"{"type":"other"}"#, "/tmp/x").is_none());
    let with_garbage = format!("{HEADER}\nnot-json-line\n{}", user("bbbbbbbb", None));
    let s = parse_session(&with_garbage, "/tmp/x").unwrap();
    assert_eq!(s.messages, 1);
}

#[test]
fn parent_cycle_terminates() {
    let text = [
        HEADER.to_string(),
        r#"{"type":"message","id":"aaaaaaaa","parentId":"bbbbbbbb","timestamp":"","message":{"role":"user","content":"x"}}"#.to_string(),
        r#"{"type":"message","id":"bbbbbbbb","parentId":"aaaaaaaa","timestamp":"","message":{"role":"user","content":"y"}}"#.to_string(),
    ]
    .join("\n");
    assert!(parse_session(&text, "/tmp/x").is_some());
}

#[test]
fn token_formatting() {
    assert_eq!(fmt_tokens(950), "950");
    assert_eq!(fmt_tokens(143_586), "143.6k");
    assert_eq!(fmt_tokens(2_400_000), "2.4M");
}

#[test]
fn token_formatting_agrees_with_floating_point() {
    let mut n: u64 = 1;
    for i in 0..4000u64 {
        n = n.wrapping_mul(6364136223846793005).wrapping_add(i) >> (i % 50);
        let expected = if n >= 1_000_000 {
            format!("{:.1}M", n as f64 / 1_000_000.0)
        } else if n >= 1_000 {
            format!("{:.1}k", n as f64 / 1_000.0)
        } else {
            n.to_string()
        };
        assert_eq!(fmt_tokens(n), expected);
    }
    assert_eq!(fmt_tokens(1050), format!("{:.1}k", 1050u64 as f64 / 1000.0));
    assert_eq!(fmt_tokens(1250), format!("{:.1}k", 1250u64 as f64 / 1000.0));
}

#[test]
fn ages_are_told_in_the_largest_unit() {
    assert_eq!(fmt_age(30), "30s ago");
    assert_eq!(fmt_age(120), "2m ago");
    assert_eq!(fmt_age(7200), "2h ago");
    assert_eq!(fmt_age(172_800), "2d ago");
    assert_eq!(age_secs(10_000_000_000, 4_000_000_000), 6);
    assert_eq!(age_secs(4, 10), u64::MAX);
    assert_eq!(fmt_age(u64::MAX), "?");
}

#[test]
fn the_newest_files_come_first() {
    assert_eq!(newest_files(&vec![5, 9, 7], 2), vec![1, 2]);
    assert_eq!(newest_files(&vec![5], 0), Vec::<usize>::new());
}

#[test]
fn a_sum_beyond_the_machine_is_refused() {
    let text = [
        HEADER.to_string(),
        user("b", None),
        assistant("c", "b", u64::MAX),
        assistant("d", "c", u64::MAX),
    ]
    .join("\n");
    assert!(read_session(&text, "/tmp/x").is_none());
}

#[test]
fn responses_are_distinguished_from_events_by_type() {
    let r = classify_line(r#"{"type":"response","id":7,"success":true}"#).unwrap();
    assert_eq!(r, RpcInbound::Response { id: Some(7), success: true });
    let e = classify_line(r#"{"type":"agent_start"}"#).unwrap();
    assert_eq!(e, RpcInbound::State(AgentRunState::Running));
}

#[test]
fn settled_is_idle_but_end_is_not() {
    assert_eq!(
        classify_line(r#"{"type":"agent_settled"}"#).unwrap(),
        RpcInbound::State(AgentRunState::AwaitingInstruction)
    );
    assert_eq!(classify_line(r#"{"type":"agent_end"}"#).unwrap(), RpcInbound::Other);
}

#[test]
fn text_deltas_extracted_other_updates_ignored() {
    let t = classify_line(
        r#"{"type":"message_update","assistantMessageEvent":{"type":"text_delta","delta":"hello"}}"#,
    )
    .unwrap();
    assert_eq!(t, RpcInbound::TextDelta("hello".to_string()));
    let th = classify_line(
        r#"{"type":"message_update","assistantMessageEvent":{"type":"thinking_delta","delta":"x"}}"#,
    )
    .unwrap();
    assert_eq!(th, RpcInbound::Other);
}

#[test]
fn queue_update_state_depends_on_contents() {
    assert_eq!(
        classify_line(r#"{"type":"queue_update","steering":["m"],"followUp":[]}"#).unwrap(),
        RpcInbound::State(AgentRunState::Queued)
    );
    assert_eq!(
        classify_line(r#"{"type":"queue_update","steering":[],"followUp":[]}"#).unwrap(),
        RpcInbound::Other
    );
}

#[test]
fn framing_tolerates_cr_blank_and_garbage() {
    assert!(classify_line("").is_none());
    assert!(classify_line("   ").is_none());
    assert!(classify_line("not json").is_none());
    assert_eq!(
        classify_line("{\"type\":\"agent_start\"}\r").unwrap(),
        RpcInbound::State(AgentRunState::Running)
    );
}

#[test]
fn commands_serialize_to_expected_json() {
    assert_eq!(prompt_command(3, "hi", None), r#"{"id":3,"text":"hi","type":"prompt"}"#);
    assert_eq!(
        prompt_command(4, "stop", Some("steer")),
        r#"{"id":4,"streamingBehavior":"steer","text":"stop","type":"prompt"}"#
    );
    assert_eq!(simple_command(9, "abort"), r#"{"id":9,"type":"abort"}"#);
}

#[test]
fn output_tail_is_bounded_and_char_safe() {
    let mut state = AgentLiveState::default();
    for _ in 0..5000 {
        state.apply(&RpcInbound::TextDelta("\u{1f600}".to_string()));
    }
    let tail = state.output_tail();
    assert!(tail.len() <= OUTPUT_TAIL_CAP);
    assert!(tail.chars().all(|c| c == '\u{1f600}'));
}

#[test]
fn states_and_tools_are_kept_apart() {
    let mut state = AgentLiveState::default();
    assert_eq!(state.run_state(), None);
    state.apply(&RpcInbound::State(AgentRunState::Running));
    state.apply(&RpcInbound::ToolStart("bash".to_string()));
    state.apply(&RpcInbound::TextDelta("out".to_string()));
    state.apply(&RpcInbound::Other);
    assert_eq!(state.run_state(), Some(AgentRunState::Running));
    assert_eq!(state.last_tool(), Some("bash".to_string()));
    assert_eq!(state.output_tail(), "out");
}

#[test]
fn the_transcript_is_what_was_said_on_the_active_branch() {
    let text = [
        HEADER.to_string(),
        user("a", None),
        user("left-behind", Some("a")),
        r#"{"type":"message","id":"b","parentId":"a","message":{"role":"assistant","content":[{"type":"text","text":"one"},{"type":"image"},{"type":"text","text":"two"}]}}"#.to_string(),
        r#"{"type":"message","id":"c","parentId":"b","message":{"role":"toolResult","content":"no"}}"#.to_string(),
        assistant("d", "c", 1),
        r#"{"type":"message","id":"e","parentId":"d","message":{"role":"user","content":"bye"}}"#.to_string(),
    ]
    .join("\n");
    let said = |speaker: &str, text: &str| (speaker.to_string(), text.to_string());
    let all = vec![said("you", "hi"), said("assistant", "one\ntwo"), said("you", "bye")];
    assert_eq!(session_transcript(&text, 80), all);
    assert_eq!(session_transcript(&text, 2), all[1..].to_vec());
    assert!(session_transcript("nonsense", 80).is_empty());
    let rows: Vec<String> = session_thread_rows(&all).into_iter().map(|r| r.0).collect();
    assert_eq!(
        rows,
        vec!["you \u{25b8} hi", "", "  \u{25cf} one two", "", "you \u{25b8} bye", ""]
    );
    assert_eq!(session_thread_rows(&Vec::new())[0].0, "(no conversation on the active branch)");
}
