//! Agent sessions on disk: what a session file says of its active branch.
//!
//! A session file is a header line and then a tree of entries, one JSON line
//! each, that name their parent. The active branch is the parent chain of the
//! entry appended last: siblings that were left behind do not count.

use vstd::prelude::*;
use crate::fixed::{one_decimal, show_one_decimal, whole_quotients_are_shown_whole, DOUBLE};
use crate::json::{items_view, json_in_text, lemma_items, parse_text, Json, Tree};
use crate::number::{decimal, decimal_text};
use crate::order::{in_order, larger_first, order_larger_first, places};
use crate::text::{chars_of, is_line, lines, lines_end_either_way, own, push_text, same, separated, split_lines, string_of, text_of, text_or, text_or_else, views};

verus! {

/// A session file, summed up.
#[derive(Debug)]
pub struct SessionSummary {
    pub path: String,
    pub cwd: String,
    pub started: String,
    pub last_active: String,
    /// Messages on the active branch.
    pub messages: usize,
    pub provider: String,
    pub model: String,
    /// What the assistant messages on the active branch spent together.
    pub tokens_total: u64,
    /// What the last assistant message spent: about the size of the context.
    pub context_tokens: u64,
    /// Seconds since the file was last written.
    pub age_secs: u64,
}

/// What a [`SessionSummary`] says.
pub struct Summary {
    pub path: Seq<char>,
    pub cwd: Seq<char>,
    pub started: Seq<char>,
    pub last_active: Seq<char>,
    pub messages: nat,
    pub provider: Seq<char>,
    pub model: Seq<char>,
    pub tokens_total: nat,
    pub context_tokens: u64,
    pub age_secs: u64,
}

impl View for SessionSummary {
    type V = Summary;

    open spec fn view(&self) -> Summary {
        Summary {
            path: self.path@,
            cwd: self.cwd@,
            started: self.started@,
            last_active: self.last_active@,
            messages: self.messages as nat,
            provider: self.provider@,
            model: self.model@,
            tokens_total: self.tokens_total as nat,
            context_tokens: self.context_tokens,
            age_secs: self.age_secs,
        }
    }
}

/// The provider and the model that an entry names.
pub struct ModelName {
    pub provider: String,
    pub model: String,
}

pub open spec fn model_view(m: Option<ModelName>) -> Option<(Seq<char>, Seq<char>)> {
    match m {
        Some(n) => Some((n.provider@, n.model@)),
        None => None,
    }
}

/// What an entry of a session is.
pub enum EntryKind {
    /// A message that the assistant did not write.
    Message,
    /// A message of the assistant: what it spent, and the model it names.
    Assistant(u64, Option<ModelName>),
    ModelChange(ModelName),
    Other,
}

/// One line of a session's tree.
pub struct Entry {
    pub id: String,
    pub parent: Option<String>,
    pub timestamp: String,
    pub kind: EntryKind,
    /// Who said what, where the entry is a message of the user or the assistant with a text.
    pub said: Option<(String, String)>,
}

/// What an [`EntryKind`] stands for.
pub enum Kind {
    Message,
    Assistant(u64, Option<(Seq<char>, Seq<char>)>),
    ModelChange(Seq<char>, Seq<char>),
    Other,
}

/// What an [`Entry`] stands for.
pub struct Node {
    pub id: Seq<char>,
    pub parent: Option<Seq<char>>,
    pub timestamp: Seq<char>,
    pub kind: Kind,
    pub said: Option<(Seq<char>, Seq<char>)>,
}

impl View for Entry {
    type V = Node;

    open spec fn view(&self) -> Node {
        Node {
            id: self.id@,
            parent: text_of(self.parent),
            timestamp: self.timestamp@,
            kind: match self.kind {
                EntryKind::Message => Kind::Message,
                EntryKind::Assistant(n, m) => Kind::Assistant(n, model_view(m)),
                EntryKind::ModelChange(m) => Kind::ModelChange(m.provider@, m.model@),
                EntryKind::Other => Kind::Other,
            },
            said: said_view(self.said),
        }
    }
}

/// Who said what.
pub open spec fn said_view(s: Option<(String, String)>) -> Option<(Seq<char>, Seq<char>)> {
    match s {
        Some((speaker, text)) => Some((speaker@, text@)),
        None => None,
    }
}

/// The nodes of a list of entries.
pub open spec fn nodes(v: Seq<Entry>) -> Seq<Node> {
    Seq::new(v.len(), |i: int| v[i]@)
}

/// The member `key` of a member that may be there.
pub open spec fn part(t: Option<Tree>, key: Seq<char>) -> Option<Tree> {
    match t {
        Some(m) => m.get(key),
        None => None,
    }
}

/// The string under `key` of a member that may be there.
pub open spec fn part_text(t: Option<Tree>, key: Seq<char>) -> Option<Seq<char>> {
    match part(t, key) {
        Some(m) => m.text(),
        None => None,
    }
}

/// The provider and the model of a message, where it names both.
pub open spec fn message_model(msg: Option<Tree>) -> Option<(Seq<char>, Seq<char>)> {
    match (part_text(msg, "provider"@), part_text(msg, "model"@)) {
        (Some(p), Some(m)) => Some((p, m)),
        _ => None,
    }
}

/// The tokens that a message reports, 0 where it reports none.
pub open spec fn message_tokens(msg: Option<Tree>) -> u64 {
    match part(part(msg, "usage"@), "totalTokens"@) {
        Some(Tree::UInt(n)) => n,
        _ => 0,
    }
}

/// What kind of entry a line's value is.
pub open spec fn kind_of(t: Tree) -> Kind {
    let ty = t.get_text("type"@);
    if ty == Some("message"@) {
        let msg = t.get("message"@);
        if part_text(msg, "role"@) == Some("assistant"@) {
            Kind::Assistant(message_tokens(msg), message_model(msg))
        } else {
            Kind::Message
        }
    } else if ty == Some("model_change"@) {
        Kind::ModelChange(
            text_or(t.get_text("provider"@), "?"@),
            text_or(t.get_text("modelId"@), "?"@),
        )
    } else {
        Kind::Other
    }
}

/// The texts among the first `n` parts of a message, a line feed between them.
pub open spec fn parts_text(a: Seq<Tree>, n: nat) -> Seq<char>
    decreases n,
{
    if n == 0 {
        Seq::empty()
    } else {
        let before = parts_text(a, (n - 1) as nat);
        match a[n - 1].get_text("text"@) {
            Some(t) => if before.len() == 0 {
                t
            } else {
                before.push('\n') + t
            },
            None => before,
        }
    }
}

/// The text of a message: its content, or the texts among the parts of it.
pub open spec fn content_text(t: Option<Tree>) -> Seq<char> {
    match t {
        Some(Tree::Str(s)) => s,
        Some(Tree::Array(a)) => parts_text(a, a.len()),
        _ => Seq::empty(),
    }
}

/// Who said what in an entry, where it is a message of the user or the assistant with a text.
pub open spec fn said_of(t: Tree) -> Option<(Seq<char>, Seq<char>)> {
    let msg = t.get("message"@);
    let role = part_text(msg, "role"@);
    let text = content_text(part(msg, "content"@));
    if t.get_text("type"@) != Some("message"@) || text.len() == 0 {
        None
    } else if role == Some("user"@) {
        Some(("you"@, text))
    } else if role == Some("assistant"@) {
        Some(("assistant"@, text))
    } else {
        None
    }
}

/// The entry that a line's value is: none unless it has an id.
pub open spec fn node_of(t: Tree) -> Option<Node> {
    match t.get_text("id"@) {
        Some(id) => Some(
            Node {
                id,
                parent: t.get_text("parentId"@),
                timestamp: text_or(t.get_text("timestamp"@), Seq::empty()),
                kind: kind_of(t),
                said: said_of(t),
            },
        ),
        None => None,
    }
}

/// Where the entry `id` stands in a table, if it does; an index past the end if not.
pub open spec fn index_of(table: Seq<Node>, id: Seq<char>) -> int
    decreases table.len(),
{
    if table.len() == 0 || table[0].id == id {
        0
    } else {
        1 + index_of(table.skip(1), id)
    }
}

/// The table with `n` in it: in place of the entry of the same id, or behind the rest.
pub open spec fn put(table: Seq<Node>, n: Node) -> Seq<Node> {
    let i = index_of(table, n.id);
    if 0 <= i < table.len() {
        table.update(i, n)
    } else {
        table.push(n)
    }
}

/// The entries of the first `n` lines, each id once, the last line of an id counting.
/// A line that is not JSON, or has no id, is passed over.
pub open spec fn table_of(values: Seq<Option<Tree>>, n: nat) -> Seq<Node>
    decreases n,
{
    if n == 0 {
        Seq::empty()
    } else {
        let before = table_of(values, (n - 1) as nat);
        match values[n - 1] {
            Some(t) => match node_of(t) {
                Some(node) => put(before, node),
                None => before,
            },
            None => before,
        }
    }
}

/// The id of the last entry among the first `n` lines.
pub open spec fn last_id(values: Seq<Option<Tree>>, n: nat) -> Option<Seq<char>>
    decreases n,
{
    if n == 0 {
        None
    } else {
        match values[n - 1] {
            Some(t) => match node_of(t) {
                Some(node) => Some(node.id),
                None => last_id(values, (n - 1) as nat),
            },
            None => last_id(values, (n - 1) as nat),
        }
    }
}

/// The parent chain of the entry `at`, the entry first, cut off after `fuel` entries
/// so that a chain that closes on itself ends.
pub open spec fn chain(table: Seq<Node>, at: Option<Seq<char>>, fuel: nat) -> Seq<Node>
    decreases fuel,
{
    match at {
        None => Seq::empty(),
        Some(id) => {
            let i = index_of(table, id);
            if fuel == 0 || !(0 <= i < table.len()) {
                Seq::empty()
            } else {
                seq![table[i]] + chain(table, table[i].parent, (fuel - 1) as nat)
            }
        },
    }
}

/// The active branch, newest entry first.
pub open spec fn active_branch(values: Seq<Option<Tree>>) -> Seq<Node> {
    let table = table_of(values, values.len());
    chain(table, last_id(values, values.len()), table.len() + 1)
}

/// How many messages a branch has.
pub open spec fn message_count(b: Seq<Node>) -> nat
    decreases b.len(),
{
    if b.len() == 0 {
        0
    } else {
        message_count(b.drop_last()) + if b.last().kind is Message || b.last().kind is Assistant {
            1nat
        } else {
            0nat
        }
    }
}

/// What the assistant messages of a branch spent together.
pub open spec fn spent(b: Seq<Node>) -> nat
    decreases b.len(),
{
    if b.len() == 0 {
        0
    } else {
        spent(b.drop_last()) + match b.last().kind {
            Kind::Assistant(n, _) => n as nat,
            _ => 0nat,
        }
    }
}

/// What the newest assistant message of a branch spent, 0 where there is none.
pub open spec fn newest_spent(b: Seq<Node>) -> u64
    decreases b.len(),
{
    if b.len() == 0 {
        0
    } else if let Kind::Assistant(n, _) = b[0].kind {
        n
    } else {
        newest_spent(b.skip(1))
    }
}

/// The newest model change of a branch that names a model.
pub open spec fn newest_change(b: Seq<Node>) -> Option<(Seq<char>, Seq<char>)>
    decreases b.len(),
{
    if b.len() == 0 {
        None
    } else {
        match b[0].kind {
            Kind::ModelChange(p, m) => if m.len() > 0 {
                Some((p, m))
            } else {
                newest_change(b.skip(1))
            },
            _ => newest_change(b.skip(1)),
        }
    }
}

/// The model that the newest assistant message with one names.
pub open spec fn newest_named(b: Seq<Node>) -> Option<(Seq<char>, Seq<char>)>
    decreases b.len(),
{
    if b.len() == 0 {
        None
    } else {
        match b[0].kind {
            Kind::Assistant(_, Some(pm)) => if pm.1.len() > 0 {
                Some(pm)
            } else {
                newest_named(b.skip(1))
            },
            _ => newest_named(b.skip(1)),
        }
    }
}

/// The provider and the model in force: of the newest model change, else of the
/// newest assistant message that names one, else unknown.
pub open spec fn in_force(b: Seq<Node>) -> (Seq<char>, Seq<char>) {
    match newest_change(b) {
        Some(pm) => pm,
        None => match newest_named(b) {
            Some(pm) => pm,
            None => ("?"@, "?"@),
        },
    }
}

/// The newest time on a branch that is not the one it started at.
pub open spec fn newest_time(b: Seq<Node>, started: Seq<char>) -> Seq<char>
    decreases b.len(),
{
    if b.len() == 0 {
        started
    } else if b[0].timestamp.len() > 0 && b[0].timestamp != started {
        b[0].timestamp
    } else {
        newest_time(b.skip(1), started)
    }
}

/// What a session says, given its header and the values of its other lines.
pub open spec fn session(header: Tree, values: Seq<Option<Tree>>, path: Seq<char>) -> Option<Summary> {
    if header.get_text("type"@) == Some("session"@) {
        let b = active_branch(values);
        let started = text_or(header.get_text("timestamp"@), "?"@);
        Some(
            Summary {
                path,
                cwd: text_or(header.get_text("cwd"@), "?"@),
                started,
                last_active: newest_time(b, started),
                messages: message_count(b),
                provider: in_force(b).0,
                model: in_force(b).1,
                tokens_total: spent(b),
                context_tokens: newest_spent(b),
                age_secs: u64::MAX,
            },
        )
    } else {
        None
    }
}

/// The string under `key` of a member that may be there.
fn part_str<'a>(t: Option<&'a Json>, key: &str) -> (r: Option<&'a str>)
    ensures
        match r {
            Some(s) => part_text(opt_tree(t), key@) == Some(s@),
            None => part_text(opt_tree(t), key@) is None,
        },
{
    match t {
        Some(j) => j.get_str(key),
        None => None,
    }
}

/// The tree of a value that may be there.
pub open spec fn opt_tree(t: Option<&Json>) -> Option<Tree> {
    match t {
        Some(j) => Some(j@),
        None => None,
    }
}

/// The trees of values that may be there.
pub open spec fn opt_trees(v: Seq<Option<Json>>) -> Seq<Option<Tree>> {
    Seq::new(
        v.len(),
        |i: int|
            match v[i] {
                Some(j) => Some(j@),
                None => None,
            },
    )
}

fn kind(v: &Json) -> (r: EntryKind)
    ensures
        kind_of(v@) == (match r {
            EntryKind::Message => Kind::Message,
            EntryKind::Assistant(n, m) => Kind::Assistant(n, model_view(m)),
            EntryKind::ModelChange(m) => Kind::ModelChange(m.provider@, m.model@),
            EntryKind::Other => Kind::Other,
        }),
{
    let ty = match v.get_str("type") {
        Some(t) => t,
        None => return EntryKind::Other,
    };
    if same(ty, "message") {
        let msg = v.get("message");
        let assistant = match part_str(msg, "role") {
            Some(role) => same(role, "assistant"),
            None => false,
        };
        if !assistant {
            return EntryKind::Message;
        }
        let usage = match msg {
            Some(m) => m.get("usage"),
            None => None,
        };
        let total: u64 = match usage {
            Some(u) => match u.get_u64("totalTokens") {
                Some(n) => n,
                None => 0,
            },
            None => 0,
        };
        let model = match (part_str(msg, "provider"), part_str(msg, "model")) {
            (Some(p), Some(m)) => Some(ModelName { provider: p.to_owned(), model: m.to_owned() }),
            _ => None,
        };
        EntryKind::Assistant(total, model)
    } else if same(ty, "model_change") {
        EntryKind::ModelChange(
            ModelName {
                provider: text_or_else(v.get_str("provider"), "?"),
                model: text_or_else(v.get_str("modelId"), "?"),
            },
        )
    } else {
        EntryKind::Other
    }
}

fn read_parts(a: &Vec<Json>) -> (r: String)
    ensures
        r@ == parts_text(items_view(*a), a@.len()),
{
    let mut out = String::new();
    let ghost all = items_view(*a);
    proof {
        lemma_items(*a);
    }
    for i in 0..a.len()
        invariant
            all == items_view(*a),
            all.len() == a@.len(),
            forall|k: int| 0 <= k < a@.len() ==> #[trigger] all[k] == a[k]@,
            out@ == parts_text(all, i as nat),
    {
        assert(all[i as int] == a[i as int]@);
        if let Some(t) = a[i].get_str("text") {
            let first = out.as_str().is_empty();
            if !first {
                out.push('\n');
            }
            let ghost before = out@;
            push_text(&mut out, t);
            if first {
                assert(out@ =~= t@);
            }
        }
    }
    out
}

fn said(v: &Json) -> (r: Option<(String, String)>)
    ensures
        said_view(r) == said_of(v@),
{
    let is_message = match v.get_str("type") {
        Some(t) => same(t, "message"),
        None => false,
    };
    if !is_message {
        return None;
    }
    let msg = v.get("message");
    let content = match msg {
        Some(m) => m.get("content"),
        None => None,
    };
    let text = match content {
        Some(Json::Str(s)) => s.clone(),
        Some(Json::Array(a)) => {
            proof {
                lemma_items(*a);
            }
            read_parts(a)
        },
        _ => String::new(),
    };
    if text.as_str().is_empty() {
        return None;
    }
    match part_str(msg, "role") {
        Some(role) => if same(role, "user") {
            Some(("you".to_owned(), text))
        } else if same(role, "assistant") {
            Some(("assistant".to_owned(), text))
        } else {
            None
        },
        None => None,
    }
}

fn entry(v: &Json) -> (r: Option<Entry>)
    ensures
        match r {
            Some(e) => node_of(v@) == Some(e@),
            None => node_of(v@) is None,
        },
{
    match v.get_str("id") {
        Some(id) => {
            let timestamp = match v.get_str("timestamp") {
                Some(t) => t.to_owned(),
                None => String::new(),
            };
            Some(
                Entry {
                    id: id.to_owned(),
                    parent: own(v.get_str("parentId")),
                    timestamp,
                    kind: kind(v),
                    said: said(v),
                },
            )
        },
        None => None,
    }
}

fn position(table: &Vec<Entry>, id: &str) -> (r: usize)
    ensures
        r == index_of(nodes(table@), id@),
        r <= table@.len(),
{
    let mut i: usize = 0;
    let ghost all = nodes(table@);
    assert(all.skip(0) =~= all);
    while i < table.len() && !same(&table[i].id, id)
        invariant
            i <= table.len(),
            all == nodes(table@),
            index_of(all, id@) == i + index_of(all.skip(i as int), id@),
        decreases table.len() - i,
    {
        assert(all.skip(i as int)[0] == all[i as int]);
        assert(all.skip(i as int).skip(1) =~= all.skip(i + 1));
        i += 1;
    }
    if i < table.len() {
        assert(all.skip(i as int)[0] == all[i as int]);
    }
    i
}

/// The entries in the values of a session's lines, and the id of the last one.
fn read_table(values: &Vec<Option<Json>>) -> (r: (Vec<Entry>, Option<String>))
    ensures
        nodes(r.0@) == table_of(opt_trees(values@), values@.len()),
        text_of(r.1) == last_id(opt_trees(values@), values@.len()),
{
    let mut table: Vec<Entry> = Vec::new();
    let mut last: Option<String> = None;
    let ghost trees = opt_trees(values@);
    assert(nodes(table@) =~= Seq::<Node>::empty());
    for i in 0..values.len()
        invariant
            trees == opt_trees(values@),
            nodes(table@) == table_of(trees, i as nat),
            text_of(last) == last_id(trees, i as nat),
    {
        if let Some(v) = &values[i] {
            if let Some(e) = entry(v) {
                let ghost before = nodes(table@);
                let ghost node = e@;
                let at = position(&table, &e.id);
                last = Some(e.id.clone());
                if at < table.len() {
                    table.set(at, e);
                    assert(nodes(table@) =~= before.update(at as int, node));
                } else {
                    table.push(e);
                    assert(nodes(table@) =~= before.push(node));
                }
            }
        }
    }
    (table, last)
}

/// The entries at `at` in a table.
pub open spec fn nodes_at(table: Seq<Entry>, at: Seq<usize>) -> Seq<Node> {
    Seq::new(at.len(), |i: int| table[at[i] as int]@)
}

/// The active branch, as places in the table.
fn walk_branch(table: &Vec<Entry>, last: Option<String>) -> (r: Vec<usize>)
    ensures
        forall|i: int| 0 <= i < r@.len() ==> #[trigger] r@[i] < table@.len(),
        nodes_at(table@, r@) == chain(nodes(table@), text_of(last), table@.len() + 1),
{
    let mut out: Vec<usize> = Vec::new();
    let mut cursor: Option<String> = last;
    let ghost mut fuel = table@.len() + 1;
    let ghost all = nodes(table@);
    let ghost whole = chain(all, text_of(last), table@.len() + 1);
    assert(nodes_at(table@, out@) + chain(all, text_of(cursor), fuel) =~= whole);
    loop
        invariant
            all == nodes(table@),
            fuel + out@.len() == table@.len() + 1,
            forall|i: int| 0 <= i < out@.len() ==> #[trigger] out@[i] < table@.len(),
            nodes_at(table@, out@) + chain(all, text_of(cursor), fuel) == whole,
        ensures
            forall|i: int| 0 <= i < out@.len() ==> #[trigger] out@[i] < table@.len(),
            nodes_at(table@, out@) == whole,
        decreases fuel,
    {
        let ghost before = nodes_at(table@, out@);
        let at: usize = match &cursor {
            Some(id) => position(table, id),
            None => table.len(),
        };
        if out.len() > table.len() || at >= table.len() {
            assert(before + chain(all, text_of(cursor), fuel) =~= before);
            break;
        }
        out.push(at);
        cursor = table[at].parent.clone();
        assert(text_of(cursor) == all[at as int].parent);
        proof {
            fuel = (fuel - 1) as nat;
        }
        assert(nodes_at(table@, out@) =~= before.push(all[at as int]));
        assert(nodes_at(table@, out@) + chain(all, text_of(cursor), fuel) =~= before + (seq![
            all[at as int],
        ] + chain(all, text_of(cursor), fuel)));
    }
    out
}

fn count_messages(table: &Vec<Entry>, at: &Vec<usize>) -> (r: usize)
    requires
        forall|i: int| 0 <= i < at@.len() ==> #[trigger] at@[i] < table@.len(),
    ensures
        r == message_count(nodes_at(table@, at@)),
{
    let mut n: usize = 0;
    let ghost b = nodes_at(table@, at@);
    for i in 0..at.len()
        invariant
            forall|i: int| 0 <= i < at@.len() ==> #[trigger] at@[i] < table@.len(),
            b == nodes_at(table@, at@),
            n <= i,
            n == message_count(b.take(i as int)),
    {
        assert(b.take(i + 1).drop_last() =~= b.take(i as int));
        match table[at[i]].kind {
            EntryKind::Message => {
                n += 1;
            },
            EntryKind::Assistant(_, _) => {
                n += 1;
            },
            _ => {},
        }
    }
    assert(b.take(at@.len() as int) =~= b);
    n
}

proof fn lemma_spent_prefix(b: Seq<Node>, k: int)
    requires
        0 <= k <= b.len(),
    ensures
        spent(b.take(k)) <= spent(b),
    decreases b.len(),
{
    if k < b.len() {
        lemma_spent_prefix(b.drop_last(), k);
        assert(b.drop_last().take(k) =~= b.take(k));
    } else {
        assert(b.take(k) =~= b);
    }
}

/// The spend of a branch, where it fits.
fn sum_spent(table: &Vec<Entry>, at: &Vec<usize>) -> (r: Option<u64>)
    requires
        forall|i: int| 0 <= i < at@.len() ==> #[trigger] at@[i] < table@.len(),
    ensures
        match r {
            Some(n) => n == spent(nodes_at(table@, at@)),
            None => spent(nodes_at(table@, at@)) > u64::MAX,
        },
{
    let mut n: u64 = 0;
    let ghost b = nodes_at(table@, at@);
    for i in 0..at.len()
        invariant
            forall|i: int| 0 <= i < at@.len() ==> #[trigger] at@[i] < table@.len(),
            b == nodes_at(table@, at@),
            n == spent(b.take(i as int)),
    {
        assert(b.take(i + 1).drop_last() =~= b.take(i as int));
        match table[at[i]].kind {
            EntryKind::Assistant(t, _) => {
                match n.checked_add(t) {
                    Some(m) => {
                        n = m;
                    },
                    None => {
                        proof {
                            lemma_spent_prefix(b, i + 1);
                        }
                        return None;
                    },
                }
            },
            _ => {},
        }
    }
    assert(b.take(at@.len() as int) =~= b);
    Some(n)
}

fn find_newest_spent(table: &Vec<Entry>, at: &Vec<usize>) -> (r: u64)
    requires
        forall|i: int| 0 <= i < at@.len() ==> #[trigger] at@[i] < table@.len(),
    ensures
        r == newest_spent(nodes_at(table@, at@)),
{
    let ghost b = nodes_at(table@, at@);
    assert(b.skip(0) =~= b);
    for i in 0..at.len()
        invariant
            forall|i: int| 0 <= i < at@.len() ==> #[trigger] at@[i] < table@.len(),
            b == nodes_at(table@, at@),
            newest_spent(b) == newest_spent(b.skip(i as int)),
    {
        assert(b.skip(i as int).skip(1) =~= b.skip(i + 1));
        match table[at[i]].kind {
            EntryKind::Assistant(t, _) => {
                return t;
            },
            _ => {},
        }
    }
    0
}

/// The model in force on a branch.
fn find_in_force(table: &Vec<Entry>, at: &Vec<usize>) -> (r: (String, String))
    requires
        forall|i: int| 0 <= i < at@.len() ==> #[trigger] at@[i] < table@.len(),
    ensures
        (r.0@, r.1@) == in_force(nodes_at(table@, at@)),
{
    let ghost b = nodes_at(table@, at@);
    assert(b.skip(0) =~= b);
    for i in 0..at.len()
        invariant
            forall|i: int| 0 <= i < at@.len() ==> #[trigger] at@[i] < table@.len(),
            b == nodes_at(table@, at@),
            newest_change(b) == newest_change(b.skip(i as int)),
    {
        assert(b.skip(i as int).skip(1) =~= b.skip(i + 1));
        match &table[at[i]].kind {
            EntryKind::ModelChange(m) => {
                if !m.model.as_str().is_empty() {
                    return (m.provider.clone(), m.model.clone());
                }
            },
            _ => {},
        }
    }
    assert(newest_change(b.skip(at@.len() as int)) is None);
    for i in 0..at.len()
        invariant
            forall|i: int| 0 <= i < at@.len() ==> #[trigger] at@[i] < table@.len(),
            b == nodes_at(table@, at@),
            newest_change(b) is None,
            newest_named(b) == newest_named(b.skip(i as int)),
    {
        assert(b.skip(i as int).skip(1) =~= b.skip(i + 1));
        match &table[at[i]].kind {
            EntryKind::Assistant(_, Some(m)) => {
                if !m.model.as_str().is_empty() {
                    return (m.provider.clone(), m.model.clone());
                }
            },
            _ => {},
        }
    }
    ("?".to_owned(), "?".to_owned())
}

fn find_newest_time(table: &Vec<Entry>, at: &Vec<usize>, started: &str) -> (r: String)
    requires
        forall|i: int| 0 <= i < at@.len() ==> #[trigger] at@[i] < table@.len(),
    ensures
        r@ == newest_time(nodes_at(table@, at@), started@),
{
    let ghost b = nodes_at(table@, at@);
    assert(b.skip(0) =~= b);
    for i in 0..at.len()
        invariant
            forall|i: int| 0 <= i < at@.len() ==> #[trigger] at@[i] < table@.len(),
            b == nodes_at(table@, at@),
            newest_time(b, started@) == newest_time(b.skip(i as int), started@),
    {
        assert(b.skip(i as int).skip(1) =~= b.skip(i + 1));
        let t = &table[at[i]].timestamp;
        if !t.as_str().is_empty() && !same(t, started) {
            return t.clone();
        }
    }
    started.to_owned()
}

/// Whether the spend on the active branch of a session fits in 64 bits.
pub fn spend_fits(values: &Vec<Option<Json>>) -> (r: bool)
    ensures
        r == (spent(active_branch(opt_trees(values@))) <= u64::MAX),
{
    let (table, last) = read_table(values);
    let at = walk_branch(&table, last);
    sum_spent(&table, &at).is_some()
}

/// Sums up a session from its header and the values of its other lines, `None` for a
/// line that is not JSON. There is no summary without a session header.
pub fn session_of(header: &Json, values: &Vec<Option<Json>>, path: &str) -> (r: Option<SessionSummary>)
    requires
        spent(active_branch(opt_trees(values@))) <= u64::MAX,
    ensures
        match r {
            Some(s) => session(header@, opt_trees(values@), path@) == Some(s@),
            None => session(header@, opt_trees(values@), path@) is None,
        },
{
    let is_session = match header.get_str("type") {
        Some(t) => same(t, "session"),
        None => false,
    };
    if !is_session {
        return None;
    }
    let cwd = text_or_else(header.get_str("cwd"), "?");
    let started = text_or_else(header.get_str("timestamp"), "?");
    let (table, last) = read_table(values);
    let at = walk_branch(&table, last);
    let tokens_total: u64 = match sum_spent(&table, &at) {
        Some(n) => n,
        None => return None,
    };
    let (provider, model) = find_in_force(&table, &at);
    let last_active = find_newest_time(&table, &at, &started);
    Some(
        SessionSummary {
            path: path.to_owned(),
            cwd,
            started,
            last_active,
            messages: count_messages(&table, &at),
            provider,
            model,
            tokens_total,
            context_tokens: find_newest_spent(&table, &at),
            age_secs: u64::MAX,
        },
    )
}

/// The values of the lines of a session file after its first.
pub open spec fn line_values(text: Seq<char>) -> Seq<Option<Tree>> {
    let ls = lines(text);
    Seq::new((ls.len() - 1) as nat, |i: int| json_in_text(ls[i + 1]))
}

/// What a session file says; nothing without a valid header in its first line.
pub open spec fn session_in(text: Seq<char>, path: Seq<char>) -> Option<Summary> {
    if lines(text).len() == 0 {
        None
    } else {
        match json_in_text(lines(text)[0]) {
            Some(header) => session(header, line_values(text), path),
            None => None,
        }
    }
}

/// The header of a session file and the values of its other lines.
fn read_values(text: &str) -> (r: Option<(Json, Vec<Option<Json>>)>)
    ensures
        match r {
            Some(hv) => {
                &&& lines(text@).len() > 0
                &&& json_in_text(lines(text@)[0]) == Some(hv.0@)
                &&& opt_trees(hv.1@) == line_values(text@)
            },
            None => lines(text@).len() == 0 || json_in_text(lines(text@)[0]) is None,
        },
{
    let ls = split_lines(&chars_of(text));
    let ghost all = lines(text@);
    assert(views(ls@) == all);
    if ls.len() == 0 {
        return None;
    }
    let header = match parse_text(&string_of(&ls[0])) {
        Ok(h) => h,
        Err(_) => return None,
    };
    let mut values: Vec<Option<Json>> = Vec::new();
    let mut i: usize = 1;
    while i < ls.len()
        invariant
            1 <= i <= ls.len(),
            views(ls@) == all,
            values@.len() == i - 1,
            forall|k: int|
                0 <= k < i - 1 ==> #[trigger] opt_trees(values@)[k] == json_in_text(all[k + 1]),
        decreases ls.len() - i,
    {
        let ghost before = opt_trees(values@);
        let v = match parse_text(&string_of(&ls[i])) {
            Ok(j) => Some(j),
            Err(_) => None,
        };
        values.push(v);
        assert forall|k: int| 0 <= k < i implies #[trigger] opt_trees(values@)[k] == json_in_text(
            all[k + 1],
        ) by {
            if k < i - 1 {
                assert(opt_trees(values@)[k] == before[k]);
            }
        }
        i += 1;
    }
    assert(opt_trees(values@) =~= line_values(text@));
    Some((header, values))
}

/// Sums up the session file `text`; `None` without a valid session header.
pub fn parse_session(text: &str, path: &str) -> (r: Option<SessionSummary>)
    requires
        spent(active_branch(line_values(text@))) <= u64::MAX,
    ensures
        match r {
            Some(s) => session_in(text@, path@) == Some(s@),
            None => session_in(text@, path@) is None,
        },
{
    match read_values(text) {
        Some((header, values)) => session_of(&header, &values, path),
        None => None,
    }
}

/// [`parse_session`] for any text: `None` also where the spend does not fit in 64 bits.
pub fn read_session(text: &str, path: &str) -> (r: Option<SessionSummary>)
    ensures
        match r {
            Some(s) => session_in(text@, path@) == Some(s@),
            None => session_in(text@, path@) is None || spent(active_branch(line_values(text@)))
                > u64::MAX,
        },
{
    match read_values(text) {
        Some((_, values)) => if spend_fits(&values) {
            parse_session(text, path)
        } else {
            None
        },
        None => None,
    }
}

/// What was said in the first `n` entries of a branch, newest first, at most `limit` messages.
pub open spec fn newest_said(b: Seq<Node>, limit: nat, n: nat) -> Seq<(Seq<char>, Seq<char>)>
    decreases n,
{
    if n == 0 {
        Seq::empty()
    } else {
        let before = newest_said(b, limit, (n - 1) as nat);
        match b[n - 1].said {
            Some(m) => if before.len() < limit {
                before.push(m)
            } else {
                before
            },
            None => before,
        }
    }
}

/// Who said what, as a list.
pub open spec fn said_views(v: Seq<(String, String)>) -> Seq<(Seq<char>, Seq<char>)> {
    Seq::new(v.len(), |i: int| (v[i].0@, v[i].1@))
}

/// What was said on the active branch of a session, given the values of its lines, oldest first: the
/// newest `limit` messages.
pub fn transcript_of(values: &Vec<Option<Json>>, limit: usize) -> (r: Vec<(String, String)>)
    ensures
        ({
            let b = active_branch(opt_trees(values@));
            said_views(r@) == newest_said(b, limit as nat, b.len()).reverse()
        }),
{
    let (table, last) = read_table(values);
    let at = walk_branch(&table, last);
    let ghost b = nodes_at(table@, at@);
    let mut newest: Vec<(String, String)> = Vec::new();
    assert(said_views(newest@) =~= Seq::empty());
    for i in 0..at.len()
        invariant
            forall|i: int| 0 <= i < at@.len() ==> #[trigger] at@[i] < table@.len(),
            b == nodes_at(table@, at@),
            said_views(newest@) == newest_said(b, limit as nat, i as nat),
    {
        let ghost before = said_views(newest@);
        if newest.len() < limit {
            if let Some((speaker, text)) = &table[at[i]].said {
                newest.push((speaker.clone(), text.clone()));
                assert(said_views(newest@) =~= before.push((speaker@, text@)));
            }
        }
    }
    let ghost all = said_views(newest@);
    let n: usize = newest.len();
    let mut out: Vec<(String, String)> = Vec::new();
    for i in 0..n
        invariant
            n == newest@.len(),
            all == said_views(newest@),
            out@.len() == i,
            forall|k: int| 0 <= k < i ==> #[trigger] said_views(out@)[k] == all[n - 1 - k],
    {
        let ghost before = said_views(out@);
        let m = &newest[n - 1 - i];
        out.push((m.0.clone(), m.1.clone()));
        assert(said_views(out@) =~= before.push(all[n - 1 - i]));
    }
    assert(said_views(out@) =~= all.reverse());
    out
}

/// What was said on the active branch of the session file `text`, oldest first: the newest `limit`
/// messages of the user and the assistant. Nothing where the first line is not JSON.
pub fn session_transcript(text: &str, limit: usize) -> (r: Vec<(String, String)>)
    ensures
        said_views(r@) == if lines(text@).len() > 0 && json_in_text(lines(text@)[0]) is Some {
            let b = active_branch(line_values(text@));
            newest_said(b, limit as nat, b.len()).reverse()
        } else {
            Seq::empty()
        },
{
    match read_values(text) {
        Some((_, values)) => transcript_of(&values, limit),
        None => {
            let none: Vec<(String, String)> = Vec::new();
            assert(said_views(none@) =~= Seq::empty());
            none
        },
    }
}

/// The places of the `limit` newest files, newest first, given when each was written.
pub fn newest_files(mtimes: &Vec<i128>, limit: usize) -> (r: Vec<usize>)
    ensures
        exists|all: Seq<usize>|
            {
                &&& #[trigger] places(all, mtimes@.len() as int)
                &&& in_order(all, larger_first(mtimes@))
                &&& r@ == all.take(
                    if limit <= all.len() {
                        limit as int
                    } else {
                        all.len() as int
                    },
                )
            },
{
    let mut all = order_larger_first(mtimes);
    let ghost whole = all@;
    if all.len() > limit {
        all.truncate(limit);
    }
    assert(all@ =~= whole.take(
        if limit <= whole.len() {
            limit as int
        } else {
            whole.len() as int
        },
    ));
    all
}

/// Whole seconds from `mtime` to `now`, both in nanoseconds; `u64::MAX` for a time to come.
pub open spec fn age(now: int, mtime: int) -> u64 {
    if mtime <= now {
        ((now - mtime) / 1_000_000_000) as u64
    } else {
        u64::MAX
    }
}

/// How long ago `mtime` was, in seconds.
pub fn age_secs(now: i128, mtime: i128) -> (r: u64)
    requires
        -0x8000_0000_0000_0000_0000_0000_0000 <= now <= 0x8000_0000_0000_0000_0000_0000_0000,
        -0x8000_0000_0000_0000_0000_0000_0000 <= mtime <= 0x8000_0000_0000_0000_0000_0000_0000,
        (now - mtime) / 1_000_000_000 <= u64::MAX,
    ensures
        r == age(now as int, mtime as int),
{
    if mtime <= now {
        ((now - mtime) / 1_000_000_000) as u64
    } else {
        u64::MAX
    }
}

/// A compact age: seconds, minutes, hours or days.
pub open spec fn age_text(secs: u64) -> Seq<char> {
    if secs == u64::MAX {
        "?"@
    } else if secs < 60 {
        decimal(secs as nat) + "s ago"@
    } else if secs < 3600 {
        decimal((secs / 60) as nat) + "m ago"@
    } else if secs < 86400 {
        decimal((secs / 3600) as nat) + "h ago"@
    } else {
        decimal((secs / 86400) as nat) + "d ago"@
    }
}

/// A compact age for a row: `95` gives `1m ago`.
pub fn fmt_age(secs: u64) -> (r: String)
    ensures
        r@ == age_text(secs),
{
    if secs == u64::MAX {
        "?".to_owned()
    } else if secs < 60 {
        with_unit(secs, "s ago")
    } else if secs < 3600 {
        with_unit(secs / 60, "m ago")
    } else if secs < 86400 {
        with_unit(secs / 3600, "h ago")
    } else {
        with_unit(secs / 86400, "d ago")
    }
}

fn with_unit(n: u64, unit: &str) -> (r: String)
    ensures
        r@ == decimal(n as nat) + unit@,
{
    let mut out = decimal_text(n);
    push_text(&mut out, unit);
    out
}

/// A compact token count: as it is, or in thousands or millions with one decimal.
pub open spec fn tokens_text(n: u64) -> Seq<char> {
    if n >= 1_000_000 {
        one_decimal(n as nat, 1_000_000, DOUBLE as nat) + "M"@
    } else if n >= 1_000 {
        one_decimal(n as nat, 1_000, DOUBLE as nat) + "k"@
    } else {
        decimal(n as nat)
    }
}

/// A compact token count for a row: `143586` gives `143.6k`.
pub fn fmt_tokens(n: u64) -> (r: String)
    ensures
        r@ == tokens_text(n),
{
    if n >= 1_000_000 {
        let mut out = show_one_decimal(n, 1_000_000, DOUBLE);
        push_text(&mut out, "M");
        out
    } else if n >= 1_000 {
        let mut out = show_one_decimal(n, 1_000, DOUBLE);
        push_text(&mut out, "k");
        out
    } else {
        decimal_text(n)
    }
}

proof fn lemma_index_of(table: Seq<Node>, id: Seq<char>)
    ensures
        0 <= index_of(table, id) <= table.len(),
        index_of(table, id) < table.len() ==> table[index_of(table, id)].id == id,
    decreases table.len(),
{
    if table.len() > 0 {
        lemma_index_of(table.skip(1), id);
    }
}

proof fn lemma_chain(table: Seq<Node>, at: Option<Seq<char>>, fuel: nat)
    ensures
        chain(table, at, fuel).len() <= fuel,
        chain(table, at, fuel).len() > 0 ==> at == Some(chain(table, at, fuel)[0].id),
        forall|i: int|
            0 <= i < chain(table, at, fuel).len() - 1 ==> #[trigger] chain(table, at, fuel)[i].parent
                == Some(chain(table, at, fuel)[i + 1].id),
    decreases fuel,
{
    if let Some(id) = at {
        lemma_index_of(table, id);
        let i = index_of(table, id);
        if fuel > 0 && i < table.len() {
            let rest = chain(table, table[i].parent, (fuel - 1) as nat);
            lemma_chain(table, table[i].parent, (fuel - 1) as nat);
            let whole = chain(table, at, fuel);
            assert(whole =~= seq![table[i]] + rest);
            assert forall|k: int| 0 <= k < whole.len() - 1 implies #[trigger] whole[k].parent == Some(
                whole[k + 1].id,
            ) by {
                if k > 0 {
                    assert(whole[k] == rest[k - 1]);
                }
                assert(whole[k + 1] == rest[k]);
            }
        }
    }
}

/// The active branch begins at the entry appended last and goes from each entry to
/// its parent, so an abandoned sibling is not on it. It ends, though the parents in
/// a broken file may go round: it has at most one entry more than the file has ids.
pub proof fn branch_is_the_parent_chain(values: Seq<Option<Tree>>)
    ensures
        active_branch(values).len() <= table_of(values, values.len()).len() + 1,
        active_branch(values).len() > 0 ==> last_id(values, values.len()) == Some(
            active_branch(values)[0].id,
        ),
        forall|i: int|
            0 <= i < active_branch(values).len() - 1 ==> #[trigger] active_branch(values)[i].parent
                == Some(active_branch(values)[i + 1].id),
{
    let table = table_of(values, values.len());
    lemma_chain(table, last_id(values, values.len()), table.len() + 1);
}

// --- what a session says of its entries ---

/// The entry with an id in a table, if there is one.
pub open spec fn found(table: Seq<Node>, id: Seq<char>) -> Option<Node> {
    if index_of(table, id) < table.len() {
        Some(table[index_of(table, id)])
    } else {
        None
    }
}

proof fn lemma_index_is(table: Seq<Node>, id: Seq<char>, k: int)
    requires
        0 <= k <= table.len(),
        k < table.len() ==> table[k].id == id,
        forall|i: int| 0 <= i < k ==> (#[trigger] table[i]).id != id,
    ensures
        index_of(table, id) == k,
    decreases table.len(),
{
    if table.len() > 0 && k > 0 {
        assert(table[0].id != id);
        let rest = table.skip(1);
        assert forall|i: int| 0 <= i < k - 1 implies (#[trigger] rest[i]).id != id by {
            assert(rest[i] == table[i + 1]);
        }
        lemma_index_is(rest, id, k - 1);
    }
}

proof fn lemma_index_first(table: Seq<Node>, id: Seq<char>)
    ensures
        0 <= index_of(table, id) <= table.len(),
        index_of(table, id) < table.len() ==> table[index_of(table, id)].id == id,
        forall|i: int| 0 <= i < index_of(table, id) ==> (#[trigger] table[i]).id != id,
    decreases table.len(),
{
    if table.len() > 0 {
        let rest = table.skip(1);
        lemma_index_first(rest, id);
        assert forall|i: int| 0 <= i < index_of(table, id) implies (#[trigger] table[i]).id != id by {
            if i > 0 {
                assert(rest[i - 1] == table[i]);
            }
        }
    }
}

/// An entry that is put into a table is found there, and every other entry as before.
pub proof fn entries_are_found_by_id(table: Seq<Node>, n: Node, id: Seq<char>)
    ensures
        found(put(table, n), n.id) == Some(n),
        id != n.id ==> found(put(table, n), id) == found(table, id),
        found(table, id) matches Some(m) ==> m.id == id,
        put(table, n).len() == table.len() + (if found(table, n.id) is Some {
            0int
        } else {
            1
        }),
{
    let t = put(table, n);
    lemma_index_first(table, n.id);
    let k = index_of(table, n.id);
    assert forall|i: int| 0 <= i < k implies (#[trigger] t[i]).id != n.id by {
        assert(t[i] == table[i]);
    }
    lemma_index_is(t, n.id, k);
    lemma_index_first(table, id);
    if id != n.id {
        let j = index_of(table, id);
        assert forall|i: int| 0 <= i < j implies (#[trigger] t[i]).id != id by {
            if i != k {
                assert(t[i] == table[i]);
            }
        }
        if j < table.len() {
            assert(j != k);
            lemma_index_is(t, id, j);
        } else {
            assert forall|i: int| 0 <= i < t.len() implies (#[trigger] t[i]).id != id by {
                if i != k {
                    assert(t[i] == table[i]);
                }
            }
            lemma_index_is(t, id, t.len() as int);
        }
    }
}

/// The entry that a line is, if it is one.
pub open spec fn entry_on(v: Option<Tree>) -> Option<Node> {
    match v {
        Some(t) => node_of(t),
        None => None,
    }
}

/// The last line with an id counts for it, and the last line with any id is where the branch begins.
pub proof fn the_last_line_of_an_id_counts(values: Seq<Option<Tree>>, n: nat, i: int, m: Node)
    requires
        0 <= i < n <= values.len(),
        entry_on(values[i]) == Some(m),
        forall|j: int|
            i < j < n ==> (entry_on(#[trigger] values[j]) matches Some(other) ==> other.id != m.id),
    ensures
        found(table_of(values, n), m.id) == Some(m),
        (forall|j: int| i < j < n ==> entry_on(#[trigger] values[j]) is None) ==> last_id(values, n) == Some(m.id),
    decreases n,
{
    let before = table_of(values, (n - 1) as nat);
    let last = entry_on(values[n - 1]);
    if i == n - 1 {
        entries_are_found_by_id(before, m, m.id);
    } else {
        the_last_line_of_an_id_counts(values, (n - 1) as nat, i, m);
        if let Some(other) = last {
            entries_are_found_by_id(before, other, m.id);
        }
    }
}

proof fn lemma_chain_end(table: Seq<Node>, at: Option<Seq<char>>, fuel: nat)
    ensures
        ({
            let c = chain(table, at, fuel);
            &&& forall|i: int| 0 <= i < c.len() ==> found(table, (#[trigger] c[i]).id) == Some(c[i])
            &&& c.len() == 0 && fuel > 0 ==> at is None || found(table, at->0) is None
            &&& 0 < c.len() < fuel ==> c.last().parent is None || found(table, c.last().parent->0) is None
        }),
    decreases fuel,
{
    if let Some(id) = at {
        lemma_index_first(table, id);
        let i = index_of(table, id);
        if fuel > 0 && i < table.len() {
            let rest = chain(table, table[i].parent, (fuel - 1) as nat);
            let c = chain(table, at, fuel);
            lemma_chain_end(table, table[i].parent, (fuel - 1) as nat);
            assert(c == seq![table[i]] + rest);
            assert forall|k: int| 0 <= k < c.len() implies found(table, (#[trigger] c[k]).id) == Some(c[k]) by {
                if k > 0 {
                    assert(c[k] == rest[k - 1]);
                }
            }
            if rest.len() > 0 {
                assert(c.last() == rest.last());
            }
        }
    }
}

/// The branch holds entries of the session only, and ends at one whose parent is not among them, unless
/// the parents lead round in a circle.
pub proof fn branches_go_to_the_root(values: Seq<Option<Tree>>)
    ensures
        ({
            let table = table_of(values, values.len());
            let b = active_branch(values);
            &&& forall|i: int| 0 <= i < b.len() ==> found(table, (#[trigger] b[i]).id) == Some(b[i])
            &&& 0 < b.len() <= table.len() ==> b.last().parent is None || found(table, b.last().parent->0) is None
            &&& b.len() == 0 ==> last_id(values, values.len()) is None || found(
                table,
                last_id(values, values.len())->0,
            ) is None
        }),
{
    let table = table_of(values, values.len());
    lemma_chain_end(table, last_id(values, values.len()), table.len() + 1);
}

/// Messages and what they cost are counted entry by entry: those of two stretches of a branch add up,
/// and of a single entry only a message counts, and costs only if it is the assistant's.
pub proof fn counts_add_up(a: Seq<Node>, b: Seq<Node>, x: Node)
    ensures
        message_count(a + b) == message_count(a) + message_count(b),
        spent(a + b) == spent(a) + spent(b),
        message_count(seq![x]) == (if x.kind is Message || x.kind is Assistant {
            1nat
        } else {
            0
        }),
        x.kind matches Kind::Assistant(n, _) ==> spent(seq![x]) == n,
        !(x.kind is Assistant) ==> spent(seq![x]) == 0,
    decreases b.len(),
{
    let one = seq![x];
    assert(one.drop_last() =~= Seq::<Node>::empty());
    assert(one.last() == x);
    assert(message_count(Seq::<Node>::empty()) == 0 && spent(Seq::<Node>::empty()) == 0);
    if b.len() > 0 {
        counts_add_up(a, b.drop_last(), x);
        assert((a + b).drop_last() =~= a + b.drop_last());
        assert((a + b).last() == b.last());
    } else {
        assert(a + b =~= a);
    }
}

/// What the newest entry says goes before what any older one does: the cost, the model that was changed
/// to, the model that is named, and the time.
pub proof fn the_newest_entry_counts(x: Node, b: Seq<Node>, started: Seq<char>)
    ensures
        ({
            let all = seq![x] + b;
            &&& x.kind matches Kind::Assistant(n, _) ==> newest_spent(all) == n
            &&& !(x.kind is Assistant) ==> newest_spent(all) == newest_spent(b)
            &&& x.kind matches Kind::ModelChange(p, m) ==> m.len() > 0 ==> in_force(all) == (p, m)
            &&& x.kind is Message || x.kind is Other ==> in_force(all) == in_force(b)
            &&& x.kind matches Kind::Assistant(_, Some(pm)) ==> pm.1.len() > 0 ==> newest_change(b) is None
                ==> in_force(all) == pm
            &&& newest_change(b) is Some && !(x.kind is ModelChange) ==> in_force(all) == in_force(b)
            &&& x.timestamp.len() > 0 && x.timestamp != started ==> newest_time(all, started) == x.timestamp
            &&& x.timestamp.len() == 0 || x.timestamp == started ==> newest_time(all, started) == newest_time(
                b,
                started,
            )
            &&& newest_spent(Seq::empty()) == 0
            &&& newest_time(Seq::empty(), started) == started
            &&& in_force(Seq::empty()) == ("?"@, "?"@)
        }),
{
    let all = seq![x] + b;
    assert(all[0] == x);
    assert(all.skip(1) =~= b);
}

/// A transcript is the newest of what was said: all of it where there is room, and otherwise as many
/// messages as there is room for.
pub proof fn transcripts_are_the_newest(b: Seq<Node>, x: Node, limit: nat, n: nat)
    requires
        n <= b.len(),
    ensures
        newest_said(b, limit, n).len() <= limit,
        newest_said(b, limit, n) == newest_said(b, n, n).take(
            if limit < newest_said(b, n, n).len() {
                limit as int
            } else {
                newest_said(b, n, n).len() as int
            },
        ),
        newest_said(b, n, n).len() <= n,
        n == b.len() ==> newest_said(b.push(x), n + 1, n + 1) == (match x.said {
            Some(m) => newest_said(b, n, n).push(m),
            None => newest_said(b, n, n),
        }),
    decreases n,
{
    lemma_room(b, b, limit, n, n);
    lemma_room(b, b.push(x), n, n + 1, n);
    let all = newest_said(b, n, n);
    assert(newest_said(b.push(x), n + 1, n) == all.take(all.len() as int));
    assert(all.take(all.len() as int) =~= all);
}

proof fn lemma_room(b: Seq<Node>, c: Seq<Node>, limit: nat, room: nat, n: nat)
    requires
        n <= b.len() <= c.len(),
        forall|i: int| 0 <= i < n ==> b[i] == c[i],
        n <= room || limit <= room,
    ensures
        newest_said(c, limit, n).len() <= limit,
        newest_said(c, limit, n).len() <= n,
        newest_said(b, limit, n) == newest_said(c, limit, n),
        newest_said(b, limit, n) == newest_said(c, room, n).take(
            if limit < newest_said(c, room, n).len() {
                limit as int
            } else {
                newest_said(c, room, n).len() as int
            },
        ),
        n <= limit ==> newest_said(b, limit, n) == newest_said(c, room, n),
    decreases n,
{
    if n > 0 {
        lemma_room(b, c, limit, room, (n - 1) as nat);
        lemma_room(c, c, room, room, (n - 1) as nat);
        let few = newest_said(c, limit, (n - 1) as nat);
        let many = newest_said(c, room, (n - 1) as nat);
        if let Some(m) = b[n - 1].said {
            assert(c[n - 1].said == Some(m));
            if many.len() < room {
                if many.len() < limit {
                    assert(many.take(many.len() as int) =~= many);
                    assert(many.push(m).take((many.len() + 1) as int) =~= many.push(m));
                } else {
                    assert(many.push(m).take(limit as int) =~= many.take(limit as int));
                }
            }
        }
        let full = newest_said(c, room, n);
        assert(full.take(full.len() as int) =~= full);
    } else {
        assert(newest_said(c, room, 0).take(0) =~= Seq::empty());
    }
}

/// Who is said to have spoken fits the entry: the assistant in its own messages, and the user in
/// others; only a message that has a text says anything.
pub proof fn speakers_fit_their_messages(t: Tree)
    ensures
        said_of(t) matches Some((who, text)) ==> {
            &&& text.len() > 0
            &&& kind_of(t) is Assistant ==> who == "assistant"@
            &&& kind_of(t) is Message ==> who == "you"@
            &&& kind_of(t) is Assistant || kind_of(t) is Message
        },
        kind_of(t) is Assistant && content_text(part(t.get("message"@), "content"@)).len() > 0 ==> said_of(t)
            == Some(("assistant"@, content_text(part(t.get("message"@), "content"@)))),
{
    reveal_strlit("user");
    reveal_strlit("assistant");
    reveal_strlit("message");
    reveal_strlit("model_change");
    assert("user"@.len() != "assistant"@.len());
    assert("message"@.len() != "model_change"@.len());
}

/// The text of a message is that of its parts, each on lines of its own.
pub proof fn parts_stand_on_lines(a: Seq<Tree>, ts: Seq<Seq<char>>, n: nat)
    requires
        n <= a.len() == ts.len(),
        forall|i: int| 0 <= i < a.len() ==> (#[trigger] a[i]).get_text("text"@) == Some(ts[i]),
        forall|i: int| 0 <= i < ts.len() ==> (#[trigger] ts[i]).len() > 0,
    ensures
        parts_text(a, n) == separated(ts.take(n as int), seq!['\n']),
        n > 0 ==> parts_text(a, n).len() > 0,
    decreases n,
{
    if n > 0 {
        parts_stand_on_lines(a, ts, (n - 1) as nat);
        let now = ts.take(n as int);
        assert(now.drop_last() =~= ts.take(n - 1));
        assert(now.last() == ts[n - 1]);
        assert(a[n - 1].get_text("text"@) == Some(ts[n - 1]));
        let before = parts_text(a, (n - 1) as nat);
        assert(before.push('\n') + ts[n - 1] =~= before + seq!['\n'] + ts[n - 1]);
        if n == 1 {
            assert(now =~= seq![ts[0]]);
        }
    } else {
        assert(ts.take(0) =~= Seq::empty());
    }
}

/// An age is told in the largest unit that there is one of: days of twenty-four hours, hours of sixty
/// minutes, minutes of sixty seconds. What has no age, and what is still to come, is not told.
pub proof fn ages_are_told_in_their_unit(d: int, h: int, m: int, s: int, rest: int, now: int)
    requires
        0 <= d,
        0 <= h < 24,
        0 <= m < 60,
        0 <= s < 60,
        0 <= rest < 1_000_000_000,
        ((d * 24 + h) * 60 + m) * 60 + s < u64::MAX,
    ensures
        ({
            let secs = ((d * 24 + h) * 60 + m) * 60 + s;
            let told = age_text(age(now, now - secs * 1_000_000_000 - rest));
            &&& age(now, now - secs * 1_000_000_000 - rest) == secs
            &&& d > 0 ==> told == decimal(d as nat) + "d ago"@
            &&& d == 0 && h > 0 ==> told == decimal(h as nat) + "h ago"@
            &&& d == 0 && h == 0 && m > 0 ==> told == decimal(m as nat) + "m ago"@
            &&& d == 0 && h == 0 && m == 0 ==> told == decimal(s as nat) + "s ago"@
            &&& rest > 0 ==> age_text(age(now, now + rest)) == "?"@
        }),
{
    let secs = ((d * 24 + h) * 60 + m) * 60 + s;
    assert((secs * 1_000_000_000 + rest) / 1_000_000_000 == secs);
}

/// A count of tokens is told as it is below a thousand, then in thousands, and from a million on in
/// millions; a round one with a nought behind the point.
pub proof fn tokens_are_told_in_their_unit(k: u64)
    requires
        0 < k < 1_000,
    ensures
        tokens_text(k) == decimal(k as nat),
        tokens_text((k * 1_000) as u64) == decimal(k as nat) + seq!['.', '0'] + "k"@,
        tokens_text((k * 1_000_000) as u64) == decimal(k as nat) + seq!['.', '0'] + "M"@,
{
    whole_quotients_are_shown_whole(k as nat, 1_000, DOUBLE as nat);
    whole_quotients_are_shown_whole(k as nat, 1_000_000, DOUBLE as nat);
}

/// A session is what its header says it is: only one of that type counts, it ran where the header says,
/// and it began when the header says; the rest is that of the active branch.
pub proof fn sessions_go_by_their_header(header: Tree, values: Seq<Option<Tree>>, path: Seq<char>)
    ensures
        session(header, values, path) is Some <==> header.get_text("type"@) == Some("session"@),
        session(header, values, path) matches Some(s) ==> {
            let b = active_branch(values);
            &&& s.path == path
            &&& header.get_text("cwd"@) matches Some(c) ==> s.cwd == c
            &&& header.get_text("timestamp"@) matches Some(t) ==> s.started == t
            &&& s.messages == message_count(b)
            &&& s.tokens_total == spent(b)
            &&& s.context_tokens == newest_spent(b)
            &&& (s.provider, s.model) == in_force(b)
            &&& b.len() == 0 ==> s.last_active == s.started && s.messages == 0 && s.tokens_total == 0
            &&& b.len() > 0 && b[0].timestamp.len() > 0 && b[0].timestamp != s.started ==> s.last_active
                == b[0].timestamp
        },
{
}

/// A line that is no entry, be it no JSON or without an id, changes nothing of a session.
pub proof fn lines_that_are_no_entries_do_not_matter(values: Seq<Option<Tree>>, v: Option<Tree>)
    requires
        entry_on(v) is None,
    ensures
        active_branch(values.push(v)) == active_branch(values),
{
    lemma_same_values(values, values.push(v), values.len());
}

proof fn lemma_same_values(a: Seq<Option<Tree>>, b: Seq<Option<Tree>>, n: nat)
    requires
        n <= a.len(),
        n <= b.len(),
        forall|i: int| 0 <= i < n ==> a[i] == b[i],
    ensures
        table_of(a, n) == table_of(b, n),
        last_id(a, n) == last_id(b, n),
    decreases n,
{
    if n > 0 {
        lemma_same_values(a, b, (n - 1) as nat);
    }
}

/// The first line of a session file is its header, and each of the others stands for itself.
pub proof fn session_files_begin_with_the_header(head: Seq<char>, rest: Seq<char>, path: Seq<char>)
    requires
        is_line(head),
    ensures
        ({
            let text = head + seq!['\n'] + rest;
            &&& line_values(text).len() == lines(rest).len()
            &&& forall|i: int|
                0 <= i < lines(rest).len() ==> #[trigger] line_values(text)[i] == json_in_text(lines(rest)[i])
            &&& session_in(text, path) == match json_in_text(head) {
                Some(h) => session(h, line_values(text), path),
                None => None,
            }
        }),
        session_in(Seq::empty(), path) is None,
{
    lines_end_either_way(head, rest);
    let text = head + seq!['\n'] + rest;
    assert(lines(text)[0] == head);
    assert(forall|i: int| 0 <= i < lines(rest).len() ==> lines(text)[i + 1] == lines(rest)[i]);
    assert(lines(Seq::<char>::empty()).len() == 0);
}

} // verus!
