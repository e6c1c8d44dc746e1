//! The line protocol of a running agent: what its lines mean, what is sent to it,
//! and the live state that the lines build up.

use vstd::prelude::*;
use vstd::utf8::encode_utf8;
use crate::bytes::{byte_len, lemma_byte_len_concat, lemma_byte_len_first, len_of, width_of};
use crate::json::{canonical, depth, json_in_text, json_text, lemma_object_depth, lemma_pairs, members_are_found_by_name, parse_text, write_text, Json, Tree};
use crate::text::{chars, chars_of, is_white, push_text, same, string_of, text_of, text_or, text_or_else, trim, trimmed, trimming_takes_white_space_off, without_cr};

verus! {

/// What an attached agent is doing.
#[derive(Clone, Copy, Debug, PartialEq, Eq, Structural)]
pub enum AgentRunState {
    /// Spawned, and not yet heard of.
    Starting,
    /// Working.
    Running,
    /// Idle, waiting for an instruction.
    AwaitingInstruction,
    /// Instructions are queued.
    Queued,
    /// The process is gone.
    Exited,
}

/// One line from the agent, classified.
#[derive(Debug, PartialEq)]
pub enum RpcInbound {
    /// The answer to a command, with the id that it echoes.
    Response { id: Option<u64>, success: bool },
    /// A piece of the assistant's text.
    TextDelta(String),
    /// The agent's state changed.
    State(AgentRunState),
    /// A tool was started.
    ToolStart(String),
    /// A line that changes nothing.
    Other,
}

/// What an [`RpcInbound`] stands for.
pub enum Inbound {
    Response { id: Option<u64>, success: bool },
    TextDelta(Seq<char>),
    State(AgentRunState),
    ToolStart(Seq<char>),
    Other,
}

impl View for RpcInbound {
    type V = Inbound;

    open spec fn view(&self) -> Inbound {
        match *self {
            RpcInbound::Response { id, success } => Inbound::Response { id, success },
            RpcInbound::TextDelta(s) => Inbound::TextDelta(s@),
            RpcInbound::State(s) => Inbound::State(s),
            RpcInbound::ToolStart(s) => Inbound::ToolStart(s@),
            RpcInbound::Other => Inbound::Other,
        }
    }
}

/// The text of a streaming message update, where it is one of text.
pub open spec fn text_delta(v: Tree) -> Option<Seq<char>> {
    match v.get("assistantMessageEvent"@) {
        Some(ev) => if ev.get_text("type"@) == Some("text_delta"@) {
            Some(text_or(ev.get_text("delta"@), Seq::empty()))
        } else {
            None
        },
        None => None,
    }
}

/// Whether a response says that its command succeeded: it does unless it says not.
pub open spec fn success_of(v: Tree) -> bool {
    match v.get("success"@) {
        Some(Tree::Bool(b)) => b,
        _ => true,
    }
}

/// What a line's value means. It is a response if its type says so, and an event
/// otherwise; the end of a turn does not make the agent idle, only settling does.
pub open spec fn meaning(v: Tree) -> Inbound {
    let ty = text_or(v.get_text("type"@), Seq::empty());
    if ty == "response"@ {
        Inbound::Response { id: v.get_uint("id"@), success: success_of(v) }
    } else if ty == "agent_start"@ {
        Inbound::State(AgentRunState::Running)
    } else if ty == "agent_settled"@ {
        Inbound::State(AgentRunState::AwaitingInstruction)
    } else if ty == "queue_update"@ {
        if v.count_in("steering"@) + v.count_in("followUp"@) > 0 {
            Inbound::State(AgentRunState::Queued)
        } else {
            Inbound::Other
        }
    } else if ty == "message_update"@ {
        match text_delta(v) {
            Some(delta) => Inbound::TextDelta(delta),
            None => Inbound::Other,
        }
    } else if ty == "tool_execution_start"@ {
        Inbound::ToolStart(text_or(v.get_text("toolName"@), "tool"@))
    } else {
        Inbound::Other
    }
}

/// Classifies one line's value.
pub fn classify(v: &Json) -> (r: RpcInbound)
    ensures
        r@ == meaning(v@),
{
    let ty = match v.get_str("type") {
        Some(t) => t,
        None => "",
    };
    proof {
        reveal_strlit("");
        assert(""@ =~= Seq::<char>::empty());
    }
    if same(ty, "response") {
        let success = match v.get("success") {
            Some(s) => match s.as_bool() {
                Some(b) => b,
                None => true,
            },
            None => true,
        };
        RpcInbound::Response { id: v.get_u64("id"), success }
    } else if same(ty, "agent_start") {
        RpcInbound::State(AgentRunState::Running)
    } else if same(ty, "agent_settled") {
        RpcInbound::State(AgentRunState::AwaitingInstruction)
    } else if same(ty, "queue_update") {
        if v.count("steering") > 0 || v.count("followUp") > 0 {
            RpcInbound::State(AgentRunState::Queued)
        } else {
            RpcInbound::Other
        }
    } else if same(ty, "message_update") {
        match v.get("assistantMessageEvent") {
            Some(ev) => {
                let is_text = match ev.get_str("type") {
                    Some(t) => same(t, "text_delta"),
                    None => false,
                };
                if is_text {
                    RpcInbound::TextDelta(text_or_else(ev.get_str("delta"), ""))
                } else {
                    RpcInbound::Other
                }
            },
            None => RpcInbound::Other,
        }
    } else if same(ty, "tool_execution_start") {
        RpcInbound::ToolStart(text_or_else(v.get_str("toolName"), "tool"))
    } else {
        RpcInbound::Other
    }
}

/// What a raw line means: nothing where it is blank or not JSON. One carriage return
/// at its end is no part of it.
pub open spec fn line_meaning(line: Seq<char>) -> Option<Inbound> {
    let l = without_cr(line);
    if trimmed(l).len() == 0 {
        None
    } else {
        match json_in_text(l) {
            Some(v) => Some(meaning(v)),
            None => None,
        }
    }
}

/// Parses and classifies one raw line.
pub fn classify_line(line: &str) -> (r: Option<RpcInbound>)
    ensures
        match r {
            Some(i) => line_meaning(line@) == Some(i@),
            None => line_meaning(line@) is None,
        },
{
    let cs = chars_of(line);
    let end: usize = if cs.len() > 0 && cs[cs.len() - 1] == '\r' {
        cs.len() - 1
    } else {
        cs.len()
    };
    let l = &cs.as_slice()[0..end];
    assert(l@ =~= without_cr(line@));
    if trim(l).len() == 0 {
        return None;
    }
    match parse_text(&string_of(l)) {
        Ok(v) => Some(classify(&v)),
        Err(_) => None,
    }
}

/// The value that a `prompt` command sends.
pub open spec fn prompt_value(id: u64, text: Seq<char>, behavior: Option<Seq<char>>) -> Tree {
    match behavior {
        Some(b) => Tree::Object(
            seq![
                ("id"@, Tree::UInt(id)),
                ("streamingBehavior"@, Tree::Str(b)),
                ("text"@, Tree::Str(text)),
                ("type"@, Tree::Str("prompt"@)),
            ],
        ),
        None => Tree::Object(
            seq![
                ("id"@, Tree::UInt(id)),
                ("text"@, Tree::Str(text)),
                ("type"@, Tree::Str("prompt"@)),
            ],
        ),
    }
}

proof fn lemma_commands_are_canonical(id: u64, text: Seq<char>, behavior: Option<Seq<char>>)
    ensures
        canonical(prompt_value(id, text, behavior)),
        depth(prompt_value(id, text, behavior)) <= 127,
        canonical(simple_value(id, text)),
        depth(simple_value(id, text)) <= 127,
{
    reveal_strlit("id");
    reveal_strlit("streamingBehavior");
    reveal_strlit("text");
    reveal_strlit("type");
    reveal_with_fuel(canonical, 2);
    assert("id"@.len() == 2);
    assert("streamingBehavior"@.len() == 17);
    assert("text"@.len() == 4);
    assert("type"@.len() == 4);
    assert("text"@[1] != "type"@[1]);
    lemma_object_depth(prompt_value(id, text, behavior)->Object_0, 0);
    lemma_object_depth(simple_value(id, text)->Object_0, 0);
}

/// A text is one line: no byte of it is a line feed.
pub open spec fn one_line(text: Seq<char>) -> bool {
    forall|i: int| 0 <= i < encode_utf8(text).len() ==> #[trigger] encode_utf8(text)[i] != 10
}

/// A `prompt` command. While a run is active the agent wants to be told how the
/// prompt joins it: `steer` or `followUp`.
pub fn prompt_command(id: u64, text: &str, streaming_behavior: Option<&str>) -> (r: String)
    ensures
        r@ == json_text(prompt_value(id, text@, chars(streaming_behavior))),
        json_in_text(r@) == Some(prompt_value(id, text@, chars(streaming_behavior))),
        one_line(r@),
{
    let mut pairs: Vec<(String, Json)> = Vec::new();
    pairs.push(("id".to_owned(), Json::UInt(id)));
    if let Some(b) = streaming_behavior {
        pairs.push(("streamingBehavior".to_owned(), Json::Str(b.to_owned())));
    }
    pairs.push(("text".to_owned(), Json::Str(text.to_owned())));
    pairs.push(("type".to_owned(), Json::Str("prompt".to_owned())));
    proof {
        lemma_pairs(pairs);
    }
    let value = Json::Object(pairs);
    let ghost want = prompt_value(id, text@, chars(streaming_behavior));
    assert(value@->Object_0 =~= want->Object_0);
    proof {
        lemma_commands_are_canonical(id, text@, chars(streaming_behavior));
    }
    write_text(&value)
}

/// The value that a bare command sends.
pub open spec fn simple_value(id: u64, ty: Seq<char>) -> Tree {
    Tree::Object(seq![("id"@, Tree::UInt(id)), ("type"@, Tree::Str(ty))])
}

/// A command that carries only its type and id.
pub fn simple_command(id: u64, ty: &str) -> (r: String)
    ensures
        r@ == json_text(simple_value(id, ty@)),
        json_in_text(r@) == Some(simple_value(id, ty@)),
        one_line(r@),
{
    let mut pairs: Vec<(String, Json)> = Vec::new();
    pairs.push(("id".to_owned(), Json::UInt(id)));
    pairs.push(("type".to_owned(), Json::Str(ty.to_owned())));
    proof {
        lemma_pairs(pairs);
    }
    let value = Json::Object(pairs);
    assert(value@->Object_0 =~= simple_value(id, ty@)->Object_0);
    proof {
        lemma_commands_are_canonical(id, ty@, None);
    }
    write_text(&value)
}

/// The most bytes kept of what the agent streamed.
pub const OUTPUT_TAIL_CAP: usize = 8192;

/// The longest end of `s` that takes at most `cap` bytes.
pub open spec fn tail_within(s: Seq<char>, cap: nat) -> Seq<char>
    decreases s.len(),
{
    if s.len() == 0 || byte_len(s) <= cap {
        s
    } else {
        tail_within(s.skip(1), cap)
    }
}

/// The live view of an attached agent.
pub struct AgentLiveState {
    pub run_state: Option<AgentRunState>,
    pub output_tail: String,
    pub last_tool: Option<String>,
}

impl Default for AgentLiveState {
    fn default() -> (r: Self)
        ensures
            r.run_state is None,
            r.output_tail@.len() == 0,
            r.last_tool is None,
    {
        AgentLiveState { run_state: None, output_tail: String::new(), last_tool: None }
    }
}

impl AgentLiveState {
    /// Takes in one classified line.
    pub fn apply(&mut self, inbound: &RpcInbound)
        ensures
            final(self).run_state == match inbound@ {
                Inbound::State(s) => Some(s),
                _ => old(self).run_state,
            },
            final(self).output_tail@ == match inbound@ {
                Inbound::TextDelta(d) => tail_within(old(self).output_tail@ + d, OUTPUT_TAIL_CAP as nat),
                _ => old(self).output_tail@,
            },
            text_of(final(self).last_tool) == match inbound@ {
                Inbound::ToolStart(n) => Some(n),
                _ => text_of(old(self).last_tool),
            },
    {
        match inbound {
            RpcInbound::State(s) => {
                self.run_state = Some(*s);
            },
            RpcInbound::TextDelta(d) => {
                let mut tail = self.output_tail.clone();
                push_text(&mut tail, d);
                self.output_tail = keep_tail(tail, OUTPUT_TAIL_CAP);
            },
            RpcInbound::ToolStart(name) => {
                self.last_tool = Some(name.clone());
            },
            _ => {},
        }
    }

    /// The state last heard of.
    pub fn run_state(&self) -> (r: Option<AgentRunState>)
        ensures
            r == self.run_state,
    {
        self.run_state
    }

    /// The end of the streamed text.
    pub fn output_tail(&self) -> (r: String)
        ensures
            r@ == self.output_tail@,
    {
        self.output_tail.clone()
    }

    /// The tool started last.
    pub fn last_tool(&self) -> (r: Option<String>)
        ensures
            text_of(r) == text_of(self.last_tool),
    {
        self.last_tool.clone()
    }
}

/// Cuts the front of `s` off until at most `cap` bytes are left.
fn keep_tail(s: String, cap: usize) -> (r: String)
    ensures
        r@ == tail_within(s@, cap as nat),
{
    let total: usize = len_of(&s);
    if total <= cap {
        return s;
    }
    let cs = chars_of(&s);
    let mut left: usize = total;
    let mut i: usize = 0;
    assert(cs@.skip(0) =~= cs@);
    while left > cap
        invariant
            i <= cs.len(),
            left == byte_len(cs@.skip(i as int)),
            tail_within(cs@.skip(i as int), cap as nat) == tail_within(cs@, cap as nat),
        decreases left,
    {
        proof {
            assert(i < cs.len()) by {
                if i == cs.len() {
                    assert(byte_len(cs@.skip(i as int)) == 0);
                }
            }
            lemma_byte_len_first(cs@.skip(i as int));
            assert(cs@.skip(i as int).skip(1) =~= cs@.skip(i + 1));
        }
        left -= width_of(cs[i]);
        i += 1;
    }
    assert(cs@.skip(i as int) =~= cs@.subrange(i as int, cs@.len() as int));
    string_of(&cs.as_slice()[i..cs.len()])
}

/// What is kept of the streamed text is bounded, is the end of it, and holds whole
/// characters only: nothing more of the end would fit.
pub proof fn output_tail_is_bounded(s: Seq<char>, cap: nat)
    ensures
        byte_len(tail_within(s, cap)) <= cap,
        tail_within(s, cap).len() <= s.len(),
        tail_within(s, cap) == s.skip(s.len() - tail_within(s, cap).len()),
        tail_within(s, cap).len() < s.len() ==> byte_len(
            s.skip(s.len() - tail_within(s, cap).len() - 1),
        ) > cap,
    decreases s.len(),
{
    if s.len() == 0 || byte_len(s) <= cap {
        assert(s.skip(0) =~= s);
    } else {
        let u = s.skip(1);
        output_tail_is_bounded(u, cap);
        let n = tail_within(s, cap).len();
        assert(u.skip(u.len() - n) =~= s.skip(s.len() - n));
        if n < u.len() {
            assert(u.skip(u.len() - n - 1) =~= s.skip(s.len() - n - 1));
        } else {
            assert(s.skip(0) =~= s);
        }
    }
}

/// What a line means goes by its type: a running agent was started, one that awaits something has
/// settled, one that is queued has something to do, and what is written and which tool is started is
/// said by the lines for that.
pub proof fn lines_mean_what_their_type_says(v: Tree)
    ensures
        ({
            let ty = v.get_text("type"@);
            let m = meaning(v);
            &&& m == Inbound::State(AgentRunState::Running) <==> ty == Some("agent_start"@)
            &&& m == Inbound::State(AgentRunState::AwaitingInstruction) <==> ty == Some("agent_settled"@)
            &&& m == Inbound::State(AgentRunState::Queued) <==> ty == Some("queue_update"@) && v.count_in(
                "steering"@,
            ) + v.count_in("followUp"@) > 0
            &&& m is Response <==> ty == Some("response"@)
            &&& m is ToolStart <==> ty == Some("tool_execution_start"@)
            &&& m is TextDelta <==> ty == Some("message_update"@) && text_delta(v) is Some
            &&& m matches Inbound::Response { id, success } ==> id == v.get_uint("id"@) && (!success <==> v.get(
                "success"@,
            ) == Some(Tree::Bool(false)))
            &&& m matches Inbound::ToolStart(name) ==> (v.get_text("toolName"@) is Some ==> v.get_text(
                "toolName"@,
            ) == Some(name))
            &&& m matches Inbound::TextDelta(d) ==> text_delta(v) == Some(d)
        }),
{
    reveal_strlit("response");
    reveal_strlit("agent_start");
    reveal_strlit("agent_settled");
    reveal_strlit("queue_update");
    reveal_strlit("message_update");
    reveal_strlit("tool_execution_start");
    assert("response"@.len() == 8 && "agent_start"@.len() == 11 && "agent_settled"@.len() == 13);
    assert("queue_update"@.len() == 12 && "message_update"@.len() == 14 && "tool_execution_start"@.len() == 20);
}

/// A message to the agent says what it is to say: its number, its text, and how a running agent is to
/// take it, where that is said.
pub proof fn prompts_say_their_text(id: u64, text: Seq<char>, behavior: Option<Seq<char>>, ty: Seq<char>)
    ensures
        prompt_value(id, text, behavior).get_uint("id"@) == Some(id),
        prompt_value(id, text, behavior).get_text("text"@) == Some(text),
        prompt_value(id, text, behavior).get_text("type"@) == Some("prompt"@),
        prompt_value(id, text, behavior).get_text("streamingBehavior"@) == behavior,
        simple_value(id, ty).get_uint("id"@) == Some(id),
        simple_value(id, ty).get_text("type"@) == Some(ty),
        simple_value(id, ty).get("text"@) is None,
{
    reveal_strlit("id");
    reveal_strlit("text");
    reveal_strlit("type");
    reveal_strlit("streamingBehavior");
    assert("id"@.len() == 2 && "text"@.len() == 4 && "type"@.len() == 4 && "streamingBehavior"@.len() == 17);
    assert("text"@[1] == 'e' && "type"@[1] == 'y');
    let b = text_or(behavior, Seq::empty());
    let long = seq![
        ("id"@, Tree::UInt(id)),
        ("streamingBehavior"@, Tree::Str(b)),
        ("text"@, Tree::Str(text)),
        ("type"@, Tree::Str("prompt"@)),
    ];
    let short = seq![("id"@, Tree::UInt(id)), ("text"@, Tree::Str(text)), ("type"@, Tree::Str("prompt"@))];
    let least = seq![("id"@, Tree::UInt(id)), ("type"@, Tree::Str(ty))];
    members_are_found_by_name(long, "id"@, 0);
    members_are_found_by_name(long, "streamingBehavior"@, 1);
    members_are_found_by_name(long, "text"@, 2);
    members_are_found_by_name(long, "type"@, 3);
    members_are_found_by_name(short, "id"@, 0);
    members_are_found_by_name(short, "text"@, 1);
    members_are_found_by_name(short, "type"@, 2);
    members_are_found_by_name(short, "streamingBehavior"@, 3);
    members_are_found_by_name(least, "id"@, 0);
    members_are_found_by_name(least, "type"@, 1);
    members_are_found_by_name(least, "text"@, 2);
}

/// A carriage return behind a line does not matter, and a blank line means nothing.
pub proof fn line_ends_do_not_matter(line: Seq<char>)
    requires
        line.len() > 0 ==> line.last() != '\r',
    ensures
        line_meaning(line.push('\r')) == line_meaning(line),
        (forall|i: int| 0 <= i < line.len() ==> is_white(#[trigger] line[i])) ==> line_meaning(line) is None,
{
    assert(line.push('\r').drop_last() =~= line);
    if forall|i: int| 0 <= i < line.len() ==> is_white(#[trigger] line[i]) {
        trimming_takes_white_space_off(line, Seq::empty(), Seq::empty());
        assert(line + Seq::<char>::empty() + Seq::<char>::empty() =~= line);
    }
}

/// Text that is streamed in pieces is kept as if it had come at once.
pub proof fn streamed_pieces_add_up(s: Seq<char>, a: Seq<char>, b: Seq<char>, cap: nat)
    ensures
        tail_within(tail_within(s + a, cap) + b, cap) == tail_within(s + (a + b), cap),
{
    assert(s + (a + b) =~= (s + a) + b);
    lemma_tail_of_tail(s + a, b, cap);
}

proof fn lemma_tail_of_tail(s: Seq<char>, b: Seq<char>, cap: nat)
    ensures
        tail_within(tail_within(s, cap) + b, cap) == tail_within(s + b, cap),
    decreases s.len(),
{
    if s.len() > 0 && byte_len(s) > cap {
        let t = s.skip(1);
        lemma_tail_of_tail(t, b, cap);
        lemma_byte_len_concat(s, b);
        assert((s + b).skip(1) =~= t + b);
    }
}

} // verus!
