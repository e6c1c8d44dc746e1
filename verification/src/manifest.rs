//! The `umber.toml` manifest of a module.
//!
//! A manifest has sections, and in them keys with a scalar or with a list of strings on
//! one line:
//!
//! ```toml
//! [module]
//! name = "agent-dashboard"
//! version = "0.1.0"
//! kind = "wasm"            # wasm | lua
//! entry = "agent_dashboard.wasm"
//! default_on = true
//!
//! [permissions]
//! fs  = ["read:workspace"]
//!
//! [ui]
//! commands = ["agents.dashboard.open"]
//!
//! [config]
//! greeting = "hello"
//! ```

use vstd::prelude::*;
use crate::number::{decimal, decimal_text};
use crate::table::Table;
use crate::text::{chars_of, find_char, first_at, is_white, lemma_first_at_is, lines, pieces, push_text, same, separated, separated_texts_fall_apart, split_char, split_lines, string_of, text_of, texts, to_chars, trim, trimmed, trimming_takes_white_space_off, views};

verus! {

/// What runs a module.
#[derive(Clone, Copy, Debug, PartialEq, Eq, Structural)]
pub enum ModuleKind {
    /// A core WebAssembly module.
    Wasm,
    /// A Lua script.
    Lua,
}

impl ModuleKind {
    /// How a manifest spells it.
    pub open spec fn spelling(self) -> Seq<char> {
        match self {
            ModuleKind::Wasm => "wasm"@,
            ModuleKind::Lua => "lua"@,
        }
    }

    /// How a manifest spells it.
    pub fn as_str(self) -> (r: &'static str)
        ensures
            r@ == self.spelling(),
    {
        match self {
            ModuleKind::Wasm => "wasm",
            ModuleKind::Lua => "lua",
        }
    }
}

/// What a module asks for.
#[derive(Debug, PartialEq)]
pub struct Permissions {
    pub fs: Vec<String>,
    pub net: Vec<String>,
    pub programs: Vec<String>,
}

/// One count of a summary; nothing where there is none.
pub open spec fn counted(name: Seq<char>, n: nat) -> Seq<Seq<char>> {
    if n == 0 {
        Seq::empty()
    } else {
        seq![name + decimal(n)]
    }
}

/// Texts with a space between them.
pub open spec fn spaced(parts: Seq<Seq<char>>) -> Seq<char>
    decreases parts.len(),
{
    if parts.len() == 0 {
        Seq::empty()
    } else if parts.len() == 1 {
        parts[0]
    } else {
        spaced(parts.drop_last()) + seq![' '] + parts.last()
    }
}

impl Permissions {
    /// How much is asked for, such as `fs:1 net:1 exec:1`.
    pub open spec fn summed_up(self) -> Seq<char> {
        if self.fs@.len() == 0 && self.net@.len() == 0 && self.programs@.len() == 0 {
            "no perms"@
        } else {
            spaced(
                counted("fs:"@, self.fs@.len()) + counted("net:"@, self.net@.len()) + counted(
                    "exec:"@,
                    self.programs@.len(),
                ),
            )
        }
    }

    /// How much is asked for, such as `fs:1 net:1 exec:1`, or `no perms`.
    pub fn summary(&self) -> (r: String)
        ensures
            r@ == self.summed_up(),
    {
        let mut parts: Vec<String> = Vec::new();
        push_count(&mut parts, "fs:", self.fs.len());
        push_count(&mut parts, "net:", self.net.len());
        push_count(&mut parts, "exec:", self.programs.len());
        assert(texts(parts@) =~= counted("fs:"@, self.fs@.len()) + counted("net:"@, self.net@.len())
            + counted("exec:"@, self.programs@.len()));
        if parts.len() == 0 {
            return "no perms".to_owned();
        }
        join_spaced(&parts)
    }
}

fn push_count(parts: &mut Vec<String>, name: &str, n: usize)
    ensures
        texts(final(parts)@) == texts(old(parts)@) + counted(name@, n as nat),
{
    let ghost before = texts(parts@);
    if n > 0 {
        let mut t = name.to_owned();
        push_text(&mut t, &decimal_text(n as u64));
        let ghost v = t@;
        parts.push(t);
        assert(texts(parts@) =~= before + seq![v]);
    } else {
        assert(before + counted(name@, 0) =~= before);
    }
}

fn join_spaced(parts: &Vec<String>) -> (r: String)
    ensures
        r@ == spaced(texts(parts@)),
{
    let mut out = String::new();
    let ghost all = texts(parts@);
    for i in 0..parts.len()
        invariant
            all == texts(parts@),
            out@ == spaced(all.take(i as int)),
    {
        assert(all.take(i + 1).drop_last() =~= all.take(i as int));
        if i > 0 {
            out.push(' ');
        }
        push_text(&mut out, &parts[i]);
        assert(out@ =~= spaced(all.take(i + 1)));
    }
    assert(all.take(all.len() as int) =~= all);
    out
}

// --- reading lines ---

/// Where the comment of a line begins, from `i` on: at the first `#` that is not between
/// double quotes; at the end where there is none.
pub open spec fn comment_at(s: Seq<char>, i: int, quoted: bool) -> int
    decreases s.len() - i,
{
    if i >= s.len() {
        s.len() as int
    } else if s[i] == '#' && !quoted {
        i
    } else {
        comment_at(s, i + 1, quoted != (s[i] == '"'))
    }
}

/// A line without its comment.
pub open spec fn uncommented(s: Seq<char>) -> Seq<char> {
    s.take(comment_at(s, 0, false))
}

/// `s` between a first and a last character, where it begins and ends with them.
pub open spec fn between(s: Seq<char>, first: char, last: char) -> Option<Seq<char>> {
    if s.len() >= 2 && s[0] == first && s.last() == last {
        Some(s.subrange(1, s.len() - 1))
    } else {
        None
    }
}

/// `s` without white space and then without one pair of double quotes around it.
pub open spec fn unquoted(s: Seq<char>) -> Seq<char> {
    match between(trimmed(s), '"', '"') {
        Some(t) => t,
        None => trimmed(s),
    }
}

/// `s` without the `c`s it begins with.
pub open spec fn without_first(s: Seq<char>, c: char) -> Seq<char>
    decreases s.len(),
{
    if s.len() > 0 && s[0] == c {
        without_first(s.skip(1), c)
    } else {
        s
    }
}

/// `s` without the `c`s it ends with.
pub open spec fn without_last(s: Seq<char>, c: char) -> Seq<char>
    decreases s.len(),
{
    if s.len() > 0 && s.last() == c {
        without_last(s.drop_last(), c)
    } else {
        s
    }
}

/// The first `n` pieces, unquoted, without those that are then empty.
pub open spec fn items_to(ps: Seq<Seq<char>>, n: nat) -> Seq<Seq<char>>
    decreases n,
{
    if n == 0 {
        Seq::empty()
    } else {
        let before = items_to(ps, (n - 1) as nat);
        let item = unquoted(ps[n - 1]);
        if item.len() == 0 {
            before
        } else {
            before.push(item)
        }
    }
}

/// The items of a list such as `["a", "b"]`. Brackets and commas may be missing or too many.
pub open spec fn list_items(value: Seq<char>) -> Seq<Seq<char>> {
    let inner = trimmed(without_last(without_first(trimmed(value), '['), ']'));
    items_to(pieces(inner, ','), pieces(inner, ',').len())
}

/// A line without its comment.
pub fn strip_comment(line: &[char]) -> (r: &[char])
    ensures
        r@ == uncommented(line@),
{
    let mut quoted = false;
    let mut i: usize = 0;
    while i < line.len()
        invariant
            i <= line.len(),
            comment_at(line@, i as int, quoted) == comment_at(line@, 0, false),
        decreases line.len() - i,
    {
        if line[i] == '#' && !quoted {
            assert(line@.subrange(0, i as int) =~= line@.take(i as int));
            return &line[0..i];
        }
        if line[i] == '"' {
            quoted = !quoted;
        }
        i += 1;
    }
    assert(line@.take(line@.len() as int) =~= line@);
    line
}

/// `value` without white space and then without one pair of double quotes around it.
pub fn unquote(value: &[char]) -> (r: &[char])
    ensures
        r@ == unquoted(value@),
{
    let v = trim(value);
    if v.len() >= 2 && v[0] == '"' && v[v.len() - 1] == '"' {
        &v[1..v.len() - 1]
    } else {
        v
    }
}

fn strip_around(s: &[char], first: char, last: char) -> (r: &[char])
    ensures
        r@ == without_last(without_first(s@, first), last),
{
    let mut i: usize = 0;
    assert(s@.skip(0) =~= s@);
    while i < s.len() && s[i] == first
        invariant
            i <= s.len(),
            without_first(s@.skip(i as int), first) == without_first(s@, first),
        decreases s.len() - i,
    {
        assert(s@.skip(i as int).skip(1) =~= s@.skip(i + 1));
        i += 1;
    }
    let ghost front = s@.skip(i as int);
    let mut j: usize = s.len();
    assert(s@.subrange(i as int, j as int) =~= front);
    while j > i && s[j - 1] == last
        invariant
            i <= j <= s.len(),
            without_last(s@.subrange(i as int, j as int), last) == without_last(front, last),
        decreases j,
    {
        assert(s@.subrange(i as int, j as int).drop_last() =~= s@.subrange(i as int, j - 1));
        j -= 1;
    }
    &s[i..j]
}

/// The items of a list on one line.
pub fn parse_array(value: &[char]) -> (r: Vec<String>)
    ensures
        texts(r@) == list_items(value@),
{
    let inner = trim(strip_around(trim(value), '[', ']'));
    let ps = split_char(inner, ',');
    let ghost all = pieces(inner@, ',');
    let mut out: Vec<String> = Vec::new();
    assert(texts(out@) =~= Seq::<Seq<char>>::empty());
    for i in 0..ps.len()
        invariant
            views(ps@) == all,
            texts(out@) == items_to(all, i as nat),
    {
        assert(all[i as int] == ps@[i as int]@);
        let ghost before = texts(out@);
        let item = unquote(&ps[i]);
        if item.len() > 0 {
            let t = string_of(item);
            out.push(t);
            assert(texts(out@) =~= before.push(item@));
        }
    }
    out
}

// --- the manifest ---

/// One key with the text behind its equals sign, in its section.
pub struct Assignment {
    pub section: String,
    pub key: String,
    pub value: Vec<char>,
}

/// What an [`Assignment`] says.
pub struct Assigned {
    pub section: Seq<char>,
    pub key: Seq<char>,
    pub value: Seq<char>,
}

impl View for Assignment {
    type V = Assigned;

    open spec fn view(&self) -> Assigned {
        Assigned { section: self.section@, key: self.key@, value: self.value@ }
    }
}

/// What a list of assignments says.
pub open spec fn assigned(v: Seq<Assignment>) -> Seq<Assigned> {
    Seq::new(v.len(), |i: int| v[i]@)
}

/// What one line means to a reader in a section.
pub enum Line {
    /// Nothing.
    Blank,
    /// Another section begins.
    Section(Seq<char>),
    /// A key gets a value.
    Pair(Seq<char>, Seq<char>),
}

/// What a line means.
pub open spec fn line_in(raw: Seq<char>) -> Line {
    let l = trimmed(uncommented(raw));
    let k = first_at(l, '=');
    match between(l, '[', ']') {
        Some(name) => Line::Section(trimmed(name)),
        None => if k >= l.len() {
            Line::Blank
        } else {
            Line::Pair(trimmed(l.take(k)), trimmed(l.skip(k + 1)))
        },
    }
}

/// The section in force after the first `n` lines.
pub open spec fn section_after(ls: Seq<Seq<char>>, n: nat) -> Seq<char>
    decreases n,
{
    if n == 0 {
        Seq::empty()
    } else {
        match line_in(ls[n - 1]) {
            Line::Section(name) => name,
            _ => section_after(ls, (n - 1) as nat),
        }
    }
}

/// The assignments in the first `n` lines.
pub open spec fn assignments(ls: Seq<Seq<char>>, n: nat) -> Seq<Assigned>
    decreases n,
{
    if n == 0 {
        Seq::empty()
    } else {
        let before = assignments(ls, (n - 1) as nat);
        match line_in(ls[n - 1]) {
            Line::Pair(key, value) => before.push(
                Assigned { section: section_after(ls, (n - 1) as nat), key, value },
            ),
            _ => before,
        }
    }
}

/// Whether the text behind an equals sign is a list.
pub open spec fn is_list(value: Seq<char>) -> bool {
    value.len() > 0 && value[0] == '['
}

/// The text last given to a key, as a list or not.
pub open spec fn last_value(a: Seq<Assigned>, section: Seq<char>, key: Seq<char>, list: bool) -> Option<
    Seq<char>,
>
    decreases a.len(),
{
    if a.len() == 0 {
        None
    } else if a.last().section == section && a.last().key == key && is_list(a.last().value) == list {
        Some(a.last().value)
    } else {
        last_value(a.drop_last(), section, key, list)
    }
}

/// The scalar that a key has.
pub open spec fn scalar(a: Seq<Assigned>, section: Seq<char>, key: Seq<char>) -> Option<Seq<char>> {
    match last_value(a, section, key, false) {
        Some(v) => Some(unquoted(v)),
        None => None,
    }
}

/// The list that a key has, empty where it has none.
pub open spec fn list(a: Seq<Assigned>, section: Seq<char>, key: Seq<char>) -> Seq<Seq<char>> {
    match last_value(a, section, key, true) {
        Some(v) => list_items(v),
        None => Seq::empty(),
    }
}

/// A parsed manifest.
#[derive(Debug, PartialEq)]
pub struct Manifest {
    pub name: String,
    pub version: String,
    pub kind: ModuleKind,
    pub entry: String,
    pub default_on: bool,
    pub permissions: Permissions,
    pub ui_panels: Vec<String>,
    pub ui_commands: Vec<String>,
    pub ui_surfaces: Vec<String>,
    /// The configuration that the module may read back.
    pub config: Table<String>,
}

/// Why a manifest was refused.
#[derive(Debug, PartialEq)]
pub enum ManifestError {
    /// A required field is not there.
    MissingField(&'static str),
    /// The kind is none that is known.
    UnknownKind(String),
    /// The file could not be read.
    Io(String),
}

/// What a [`ManifestError`] says.
pub enum Refusal {
    MissingField(Seq<char>),
    UnknownKind(Seq<char>),
    Io(Seq<char>),
}

impl View for ManifestError {
    type V = Refusal;

    open spec fn view(&self) -> Refusal {
        match *self {
            ManifestError::MissingField(f) => Refusal::MissingField(f@),
            ManifestError::UnknownKind(k) => Refusal::UnknownKind(k@),
            ManifestError::Io(e) => Refusal::Io(e@),
        }
    }
}

impl Refusal {
    /// The refusal in words.
    pub open spec fn words(self) -> Seq<char> {
        match self {
            Refusal::MissingField(k) => "missing required field `"@ + k + "`"@,
            Refusal::UnknownKind(k) => "unknown module kind `"@ + k + "` (expected `wasm` or `lua`)"@,
            Refusal::Io(e) => "cannot read manifest: "@ + e,
        }
    }
}

fn three(a: &str, b: &str, c: &str) -> (r: String)
    ensures
        r@ == a@ + b@ + c@,
{
    let mut out = a.to_owned();
    push_text(&mut out, b);
    push_text(&mut out, c);
    out
}

impl ManifestError {
    /// The error in words.
    pub fn message(&self) -> (r: String)
        ensures
            r@ == self@.words(),
    {
        match self {
            ManifestError::MissingField(k) => three("missing required field `", k, "`"),
            ManifestError::UnknownKind(k) => three(
                "unknown module kind `",
                k,
                "` (expected `wasm` or `lua`)",
            ),
            ManifestError::Io(e) => {
                let mut out = "cannot read manifest: ".to_owned();
                push_text(&mut out, e);
                out
            },
        }
    }
}

/// The kind that a spelling names.
pub open spec fn kind_named(s: Seq<char>) -> Option<ModuleKind> {
    if s == "wasm"@ {
        Some(ModuleKind::Wasm)
    } else if s == "lua"@ {
        Some(ModuleKind::Lua)
    } else {
        None
    }
}

/// Why a manifest with these assignments is refused, if it is.
pub open spec fn refused(a: Seq<Assigned>) -> Option<Refusal> {
    if scalar(a, "module"@, "name"@) is None {
        Some(Refusal::MissingField("module.name"@))
    } else if scalar(a, "module"@, "version"@) is None {
        Some(Refusal::MissingField("module.version"@))
    } else {
        match scalar(a, "module"@, "kind"@) {
            None => Some(Refusal::MissingField("module.kind"@)),
            Some(k) => if kind_named(k) is None {
                Some(Refusal::UnknownKind(k))
            } else if scalar(a, "module"@, "entry"@) is None {
                Some(Refusal::MissingField("module.entry"@))
            } else {
                None
            },
        }
    }
}

/// The configuration in a table of strings.
pub open spec fn strings(t: Map<Seq<char>, String>) -> Map<Seq<char>, Seq<char>> {
    t.map_values(|s: String| s@)
}

/// The configuration that assignments give: every scalar of the section `config`.
pub open spec fn config_in(a: Seq<Assigned>) -> Map<Seq<char>, Seq<char>> {
    Map::new(
        |k: Seq<char>| scalar(a, "config"@, k) is Some,
        |k: Seq<char>| scalar(a, "config"@, k)->0,
    )
}

impl Manifest {
    /// The manifest says what the assignments say.
    pub open spec fn says(&self, a: Seq<Assigned>) -> bool {
        &&& Some(self.name@) == scalar(a, "module"@, "name"@)
        &&& Some(self.version@) == scalar(a, "module"@, "version"@)
        &&& scalar(a, "module"@, "kind"@) is Some
        &&& Some(self.kind) == kind_named(scalar(a, "module"@, "kind"@)->0)
        &&& Some(self.entry@) == scalar(a, "module"@, "entry"@)
        &&& self.default_on == (scalar(a, "module"@, "default_on"@) == Some("true"@))
        &&& texts(self.permissions.fs@) == list(a, "permissions"@, "fs"@)
        &&& texts(self.permissions.net@) == list(a, "permissions"@, "net"@)
        &&& texts(self.permissions.programs@) == list(a, "permissions"@, "exec"@)
        &&& texts(self.ui_panels@) == list(a, "ui"@, "panels"@)
        &&& texts(self.ui_commands@) == list(a, "ui"@, "commands"@)
        &&& texts(self.ui_surfaces@) == list(a, "ui"@, "surfaces"@)
        &&& self.config.wf()
        &&& strings(self.config@) == config_in(a)
    }
}

/// The assignments in a manifest's text.
pub open spec fn assignments_in(text: Seq<char>) -> Seq<Assigned> {
    assignments(lines(text), lines(text).len())
}

fn read_assignments(text: &str) -> (r: Vec<Assignment>)
    ensures
        assigned(r@) == assignments_in(text@),
{
    let ls = split_lines(&chars_of(text));
    let ghost all = lines(text@);
    let mut section = String::new();
    let mut out: Vec<Assignment> = Vec::new();
    assert(assigned(out@) =~= Seq::<Assigned>::empty());
    for i in 0..ls.len()
        invariant
            views(ls@) == all,
            section@ == section_after(all, i as nat),
            assigned(out@) == assignments(all, i as nat),
    {
        assert(all[i as int] == ls@[i as int]@);
        let ghost before = assigned(out@);
        let l = trim(strip_comment(&ls[i]));
        if l.len() >= 2 && l[0] == '[' && l[l.len() - 1] == ']' {
            section = string_of(trim(&l[1..l.len() - 1]));
        } else {
            let k = find_char(l, '=');
            if k < l.len() {
                assert(l@.subrange(0, k as int) =~= l@.take(k as int));
                assert(l@.subrange(k + 1, l@.len() as int) =~= l@.skip(k + 1));
                let key = string_of(trim(&l[0..k]));
                let value = to_chars(trim(&l[k + 1..l.len()]));
                let item = Assignment { section: section.clone(), key, value };
                let ghost v = item@;
                out.push(item);
                assert(assigned(out@) =~= before.push(v));
            }
        }
    }
    out
}

fn find_last(a: &Vec<Assignment>, section: &str, key: &str, list: bool) -> (r: Option<usize>)
    ensures
        match r {
            Some(i) => i < a@.len() && last_value(assigned(a@), section@, key@, list) == Some(a@[i as int].value@),
            None => last_value(assigned(a@), section@, key@, list) is None,
        },
{
    let ghost all = assigned(a@);
    let mut i: usize = a.len();
    assert(all.take(i as int) =~= all);
    while i > 0
        invariant
            i <= a@.len(),
            all == assigned(a@),
            last_value(all.take(i as int), section@, key@, list) == last_value(all, section@, key@, list),
        decreases i,
    {
        i -= 1;
        assert(all.take(i + 1).last() == a@[i as int]@);
        assert(all.take(i + 1).drop_last() =~= all.take(i as int));
        let value = &a[i].value;
        let is_a_list = value.len() > 0 && value[0] == '[';
        if same(&a[i].section, section) && same(&a[i].key, key) && is_a_list == list {
            return Some(i);
        }
    }
    None
}

fn read_scalar(a: &Vec<Assignment>, section: &str, key: &str) -> (r: Option<String>)
    ensures
        text_of(r) == scalar(assigned(a@), section@, key@),
{
    match find_last(a, section, key, false) {
        Some(i) => Some(string_of(unquote(&a[i].value))),
        None => None,
    }
}

fn read_list(a: &Vec<Assignment>, section: &str, key: &str) -> (r: Vec<String>)
    ensures
        texts(r@) == list(assigned(a@), section@, key@),
{
    match find_last(a, section, key, true) {
        Some(i) => parse_array(&a[i].value),
        None => {
            let none: Vec<String> = Vec::new();
            assert(texts(none@) =~= Seq::<Seq<char>>::empty());
            none
        },
    }
}

/// Collects the scalars of the section `config`, the last of a key counting.
fn read_config(a: &Vec<Assignment>) -> (r: Table<String>)
    ensures
        r.wf(),
        strings(r@) == config_in(assigned(a@)),
{
    let mut out: Table<String> = Table::new();
    let ghost all = assigned(a@);
    assert(strings(out@) =~= config_in(all.take(0)));
    for i in 0..a.len()
        invariant
            all == assigned(a@),
            out.wf(),
            strings(out@) == config_in(all.take(i as int)),
    {
        let ghost before = out@;
        let ghost now = all.take(i + 1);
        assert(now.last() == a@[i as int]@);
        assert(now.drop_last() =~= all.take(i as int));
        let value = &a[i].value;
        if same(&a[i].section, "config") && !(value.len() > 0 && value[0] == '[') {
            let text = string_of(unquote(value));
            let ghost t = text@;
            out.insert(a[i].key.clone(), text);
            assert(strings(out@) =~= config_in(now)) by {
                assert(strings(out@) =~= strings(before).insert(a@[i as int].key@, t));
                assert forall|k: Seq<char>| strings(out@).dom().contains(k) <==> config_in(now).dom().contains(k) by {
                    assert(strings(before).dom().contains(k) <==> config_in(all.take(i as int)).dom().contains(k));
                }
                assert forall|k: Seq<char>| strings(out@).dom().contains(k) implies strings(out@)[k]
                    == config_in(now)[k] by {
                    if k != a@[i as int].key@ {
                        assert(strings(before)[k] == config_in(all.take(i as int))[k]);
                    }
                }
            }
        } else {
            assert(config_in(now) =~= config_in(all.take(i as int)));
        }
    }
    assert(all.take(all.len() as int) =~= all);
    out
}

impl Manifest {
    /// Parses the text of a manifest.
    pub fn parse(text: &str) -> (r: Result<Manifest, ManifestError>)
        ensures
            match r {
                Ok(m) => refused(assignments_in(text@)) is None && m.says(assignments_in(text@)),
                Err(e) => refused(assignments_in(text@)) == Some(e@),
            },
    {
        let a = read_assignments(text);
        let name = match read_scalar(&a, "module", "name") {
            Some(n) => n,
            None => return Err(ManifestError::MissingField("module.name")),
        };
        let version = match read_scalar(&a, "module", "version") {
            Some(v) => v,
            None => return Err(ManifestError::MissingField("module.version")),
        };
        let spelled = match read_scalar(&a, "module", "kind") {
            Some(k) => k,
            None => return Err(ManifestError::MissingField("module.kind")),
        };
        let kind = if same(&spelled, "wasm") {
            ModuleKind::Wasm
        } else if same(&spelled, "lua") {
            ModuleKind::Lua
        } else {
            return Err(ManifestError::UnknownKind(spelled));
        };
        let entry = match read_scalar(&a, "module", "entry") {
            Some(e) => e,
            None => return Err(ManifestError::MissingField("module.entry")),
        };
        let default_on = match read_scalar(&a, "module", "default_on") {
            Some(d) => same(&d, "true"),
            None => false,
        };
        let permissions = Permissions {
            fs: read_list(&a, "permissions", "fs"),
            net: read_list(&a, "permissions", "net"),
            programs: read_list(&a, "permissions", "exec"),
        };
        Ok(
            Manifest {
                name,
                version,
                kind,
                entry,
                default_on,
                permissions,
                ui_panels: read_list(&a, "ui", "panels"),
                ui_commands: read_list(&a, "ui", "commands"),
                ui_surfaces: read_list(&a, "ui", "surfaces"),
                config: read_config(&a),
            },
        )
    }
}

// --- what is written is read ---

proof fn lemma_no_comment(s: Seq<char>, i: int, j: int, quoted: bool)
    requires
        0 <= i <= j <= s.len(),
        forall|k: int| i <= k < j ==> #[trigger] s[k] != '"' && (quoted || s[k] != '#'),
    ensures
        comment_at(s, i, quoted) == comment_at(s, j, quoted),
    decreases j - i,
{
    if i < j {
        assert(s[i] != '"');
        lemma_no_comment(s, i + 1, j, quoted);
    }
}

/// A comment begins at a `#`, but not at one between double quotes.
pub proof fn comments_stand_outside_quotes(a: Seq<char>, q: Seq<char>, b: Seq<char>, rest: Seq<char>)
    requires
        forall|k: int| 0 <= k < a.len() ==> #[trigger] a[k] != '"' && a[k] != '#',
        forall|k: int| 0 <= k < q.len() ==> #[trigger] q[k] != '"',
        forall|k: int| 0 <= k < b.len() ==> #[trigger] b[k] != '"' && b[k] != '#',
    ensures
        uncommented(a) == a,
        uncommented(a + seq!['#'] + rest) == a,
        uncommented(a + seq!['"'] + q + seq!['"'] + b) == a + seq!['"'] + q + seq!['"'] + b,
        uncommented(a + seq!['"'] + q + seq!['"'] + b + seq!['#'] + rest) == a + seq!['"'] + q + seq!['"'] + b,
{
    let s = a + seq!['#'] + rest;
    let n = a.len() as int;
    assert(forall|k: int| 0 <= k < n ==> s[k] == a[k]);
    assert(s[n] == '#');
    lemma_no_comment(a, 0, n, false);
    lemma_no_comment(s, 0, n, false);
    assert(s.take(n) =~= a);
    assert(a.take(n) =~= a);
    let t = a + seq!['"'] + q + seq!['"'] + b;
    let u = t + seq!['#'] + rest;
    let m = n + 1 + q.len();
    lemma_quoted(t, a, q, b);
    assert(forall|k: int| 0 <= k < t.len() ==> u[k] == t[k]);
    lemma_quoted(u, a, q, b);
    assert(u[t.len() as int] == '#');
    assert(u.take(t.len() as int) =~= t);
    assert(t.take(t.len() as int) =~= t);
}

proof fn lemma_quoted(t: Seq<char>, a: Seq<char>, q: Seq<char>, b: Seq<char>)
    requires
        forall|k: int| 0 <= k < a.len() ==> #[trigger] a[k] != '"' && a[k] != '#',
        forall|k: int| 0 <= k < q.len() ==> #[trigger] q[k] != '"',
        forall|k: int| 0 <= k < b.len() ==> #[trigger] b[k] != '"' && b[k] != '#',
        a.len() + q.len() + b.len() + 2 <= t.len(),
        forall|k: int|
            0 <= k < a.len() + q.len() + b.len() + 2 ==> t[k] == #[trigger] (a + seq!['"'] + q + seq!['"'] + b)[k],
    ensures
        comment_at(t, 0, false) == comment_at(t, (a.len() + q.len() + b.len() + 2) as int, false),
{
    let v = a + seq!['"'] + q + seq!['"'] + b;
    let n = a.len() as int;
    let m = n + 1 + q.len();
    let e = m + 1 + b.len();
    assert forall|k: int| 0 <= k < n implies #[trigger] t[k] != '"' && t[k] != '#' by {
        assert(v[k] == a[k]);
    }
    lemma_no_comment(t, 0, n, false);
    assert(v[n] == (a + seq!['"'])[n]);
    assert(t[n] == v[n]);
    assert forall|k: int| n + 1 <= k < m implies #[trigger] t[k] != '"' by {
        assert(v[k] == q[k - n - 1]);
    }
    lemma_no_comment(t, n + 1, m, true);
    assert(v[m] == (a + seq!['"'] + q + seq!['"'])[m]);
    assert(t[m] == v[m]);
    assert forall|k: int| m + 1 <= k < e implies #[trigger] t[k] != '"' && t[k] != '#' by {
        assert(v[k] == b[k - m - 1]);
    }
    lemma_no_comment(t, m + 1, e, false);
}

/// A text in double quotes is read without them, with white space around it or not; a bare one is
/// read without the white space around it.
pub proof fn quotes_are_taken_off(a: Seq<char>, q: Seq<char>, b: Seq<char>)
    requires
        forall|i: int| 0 <= i < a.len() ==> is_white(#[trigger] a[i]),
        forall|i: int| 0 <= i < b.len() ==> is_white(#[trigger] b[i]),
    ensures
        unquoted(a + (seq!['"'] + q + seq!['"']) + b) == q,
        q.len() > 0 && !is_white(q[0]) && !is_white(q.last()) && q[0] != '"' ==> unquoted(a + q + b) == q,
{
    let s = seq!['"'] + q + seq!['"'];
    assert(s[0] == '"' && s.last() == '"');
    trimming_takes_white_space_off(a, s, b);
    assert(s.subrange(1, s.len() - 1) =~= q);
    if q.len() > 0 && !is_white(q[0]) && !is_white(q.last()) {
        trimming_takes_white_space_off(a, q, b);
    }
}

proof fn lemma_items(ps: Seq<Seq<char>>, items: Seq<Seq<char>>, n: nat)
    requires
        n <= ps.len(),
        ps.len() == items.len(),
        forall|i: int| 0 <= i < ps.len() ==> (#[trigger] items[i]).len() > 0,
        forall|i: int| 0 <= i < ps.len() ==> unquoted(#[trigger] ps[i]) == items[i],
    ensures
        items_to(ps, n) == items.take(n as int),
    decreases n,
{
    if n > 0 {
        lemma_items(ps, items, (n - 1) as nat);
        assert(unquoted(ps[n - 1]) == items[n - 1]);
        assert(items.take(n as int) =~= items.take(n - 1).push(items[n - 1]));
    } else {
        assert(items.take(0) =~= Seq::empty());
    }
}

/// A list that is written out is read as its items, in order: between brackets, with commas between
/// them, each bare or in quotes.
pub proof fn lists_read_back(parts: Seq<Seq<char>>, items: Seq<Seq<char>>)
    requires
        parts.len() == items.len() > 0,
        forall|i: int| 0 <= i < parts.len() ==> (#[trigger] items[i]).len() > 0,
        forall|i: int| 0 <= i < parts.len() ==> unquoted(#[trigger] parts[i]) == items[i],
        forall|i: int, j: int| 0 <= i < parts.len() && 0 <= j < parts[i].len() ==> #[trigger] parts[i][j] != ',',
        parts[0].len() > 0 && !is_white(parts[0][0]) && parts[0][0] != '[',
        parts.last().len() > 0 && !is_white(parts.last().last()) && parts.last().last() != ']',
    ensures
        list_items(seq!['['] + separated(parts, seq![',']) + seq![']']) == items,
{
    let inner = separated(parts, seq![',']);
    let s = seq!['['] + inner + seq![']'];
    lemma_ends(parts, seq![',']);
    assert(s[0] == '[' && s.last() == ']');
    trimming_takes_white_space_off(Seq::empty(), s, Seq::empty());
    assert(Seq::<char>::empty() + s + Seq::<char>::empty() =~= s);
    let t = inner + seq![']'];
    assert(s.skip(1) =~= t);
    assert(t[0] == inner[0]);
    assert(without_first(t, '[') == t);
    assert(without_first(s, '[') == t);
    assert(t.drop_last() =~= inner);
    assert(without_last(inner, ']') == inner);
    assert(without_last(t, ']') == inner);
    trimming_takes_white_space_off(Seq::empty(), inner, Seq::empty());
    assert(Seq::<char>::empty() + inner + Seq::<char>::empty() =~= inner);
    separated_texts_fall_apart(parts, ',');
    lemma_items(parts, items, parts.len());
    assert(items.take(items.len() as int) =~= items);
}

proof fn lemma_ends(parts: Seq<Seq<char>>, sep: Seq<char>)
    requires
        parts.len() > 0,
        parts[0].len() > 0,
        parts.last().len() > 0,
    ensures
        separated(parts, sep).len() > 0,
        separated(parts, sep)[0] == parts[0][0],
        separated(parts, sep).last() == parts.last().last(),
{
    lemma_first_char(parts, sep);
    if parts.len() > 1 {
        assert(separated(parts, sep) == separated(parts.drop_last(), sep) + sep + parts.last());
    }
}

proof fn lemma_first_char(parts: Seq<Seq<char>>, sep: Seq<char>)
    requires
        parts.len() > 0,
        parts[0].len() > 0,
    ensures
        separated(parts, sep).len() > 0,
        separated(parts, sep)[0] == parts[0][0],
    decreases parts.len(),
{
    if parts.len() > 1 {
        lemma_first_char(parts.drop_last(), sep);
    }
}

/// A name in brackets is a heading, and a key with an equals sign sets the text behind it; a comment
/// behind either makes no difference.
pub proof fn lines_are_told_apart(name: Seq<char>, v: Seq<char>, q: Seq<char>, comment: Seq<char>)
    requires
        name.len() > 0 && !is_white(name[0]) && !is_white(name.last()),
        name[0] != '[',
        forall|k: int| 0 <= k < name.len() ==> #[trigger] name[k] != '"' && name[k] != '#' && name[k] != '=',
        v.len() > 0 && !is_white(v[0]) && !is_white(v.last()),
        forall|k: int| 0 <= k < v.len() ==> #[trigger] v[k] != '"' && v[k] != '#',
        forall|k: int| 0 <= k < q.len() ==> #[trigger] q[k] != '"',
    ensures
        line_in(seq!['['] + name + seq![']']) == Line::Section(name),
        line_in(seq!['['] + name + seq![']'] + seq!['#'] + comment) == Line::Section(name),
        line_in(name + seq![' ', '=', ' '] + v) == Line::Pair(name, v),
        line_in(name + seq![' ', '=', ' '] + v + seq!['#'] + comment) == Line::Pair(name, v),
        line_in(name + seq![' ', '=', ' '] + (seq!['"'] + q + seq!['"'])) == Line::Pair(
            name,
            seq!['"'] + q + seq!['"'],
        ),
        line_in(seq!['#'] + comment) == Line::Blank,
        line_in(name) == Line::Blank,
{
    let none = Seq::<char>::empty();
    let h = seq!['['] + name + seq![']'];
    assert forall|k: int| 0 <= k < h.len() implies #[trigger] h[k] != '"' && h[k] != '#' by {
        if 0 < k < h.len() - 1 {
            assert(h[k] == name[k - 1]);
        }
    }
    comments_stand_outside_quotes(h, none, none, comment);
    assert(h[0] == '[' && h.last() == ']');
    trimming_takes_white_space_off(none, h, none);
    assert(none + h + none =~= h);
    assert(h.subrange(1, h.len() - 1) =~= name);
    trimming_takes_white_space_off(none, name, none);
    assert(none + name + none =~= name);
    let lead = name + seq![' ', '=', ' '];
    assert forall|k: int| 0 <= k < lead.len() implies #[trigger] lead[k] != '"' && lead[k] != '#' by {
        if k < name.len() {
            assert(lead[k] == name[k]);
        }
    }
    let l = lead + v;
    assert forall|k: int| 0 <= k < l.len() implies #[trigger] l[k] != '"' && l[k] != '#' by {
        if k < lead.len() {
            assert(l[k] == lead[k]);
        } else {
            assert(l[k] == v[k - lead.len()]);
        }
    }
    comments_stand_outside_quotes(l, none, none, comment);
    lemma_pair(name, v);
    let quoted = seq!['"'] + q + seq!['"'];
    comments_stand_outside_quotes(lead, q, none, comment);
    assert(lead + seq!['"'] + q + seq!['"'] + none =~= lead + quoted);
    assert(quoted[0] == '"' && quoted.last() == '"');
    lemma_pair(name, quoted);
    comments_stand_outside_quotes(none, none, none, comment);
    assert(none + seq!['#'] + comment =~= seq!['#'] + comment);
    trimming_takes_white_space_off(none, none, none);
    assert(none + none + none =~= none);
    comments_stand_outside_quotes(name, none, none, comment);
    lemma_first_at_is(name, '=', name.len() as int);
}

proof fn lemma_pair(name: Seq<char>, v: Seq<char>)
    requires
        name.len() > 0 && !is_white(name[0]) && !is_white(name.last()),
        name[0] != '[',
        forall|k: int| 0 <= k < name.len() ==> #[trigger] name[k] != '=',
        v.len() > 0 && !is_white(v[0]) && !is_white(v.last()),
    ensures
        ({
            let l = name + seq![' ', '=', ' '] + v;
            let k = first_at(l, '=');
            &&& trimmed(l) == l
            &&& between(l, '[', ']') is None
            &&& 0 <= k < l.len()
            &&& trimmed(l.take(k)) == name
            &&& trimmed(l.skip(k + 1)) == v
        }),
{
    let none = Seq::<char>::empty();
    let l = name + seq![' ', '=', ' '] + v;
    let k = (name.len() + 1) as int;
    assert(l[0] == name[0] && l.last() == v.last());
    trimming_takes_white_space_off(none, l, none);
    assert(none + l + none =~= l);
    assert forall|i: int| 0 <= i < k implies l[i] != '=' by {
        if i < name.len() {
            assert(l[i] == name[i]);
        }
    }
    assert(l[k] == '=');
    lemma_first_at_is(l, '=', k);
    let blank = seq![' '];
    assert(forall|i: int| 0 <= i < blank.len() ==> is_white(#[trigger] blank[i]));
    trimming_takes_white_space_off(none, name, blank);
    assert(none + name + blank =~= l.take(k));
    trimming_takes_white_space_off(blank, v, none);
    assert(blank + v + none =~= l.skip(k + 1));
}

/// A key belongs to the last heading before it, and to none where there is no heading; blank lines
/// set nothing.
pub proof fn keys_belong_to_their_heading(
    ls: Seq<Seq<char>>,
    n: nat,
    heading: Seq<char>,
    name: Seq<char>,
    line: Seq<char>,
    key: Seq<char>,
    value: Seq<char>,
)
    requires
        n == ls.len(),
        line_in(heading) == Line::Section(name),
        line_in(line) == Line::Pair(key, value),
    ensures
        section_after(ls.push(heading), n + 1) == name,
        assignments(ls.push(heading), n + 1) == assignments(ls, n),
        section_after(ls.push(line), n + 1) == section_after(ls, n),
        assignments(ls.push(line), n + 1) == assignments(ls, n).push(
            Assigned { section: section_after(ls, n), key, value },
        ),
        assignments(ls.push(heading).push(line), n + 2) == assignments(ls, n).push(
            Assigned { section: name, key, value },
        ),
        section_after(Seq::empty(), 0) == Seq::<char>::empty(),
{
    let a = ls.push(heading);
    let b = ls.push(line);
    lemma_same_lines(ls, a, n);
    lemma_same_lines(ls, b, n);
    lemma_same_lines(a, a.push(line), n + 1);
    assert(a[n as int] == heading && b[n as int] == line && a.push(line)[(n + 1) as int] == line);
}

proof fn lemma_same_lines(a: Seq<Seq<char>>, b: Seq<Seq<char>>, n: nat)
    requires
        n <= a.len(),
        n <= b.len(),
        forall|i: int| 0 <= i < n ==> a[i] == b[i],
    ensures
        section_after(a, n) == section_after(b, n),
        assignments(a, n) == assignments(b, n),
    decreases n,
{
    if n > 0 {
        lemma_same_lines(a, b, (n - 1) as nat);
    }
}

/// The last text that was given to a key counts, a list and a single text each for itself.
pub proof fn the_last_text_counts(a: Seq<Assigned>, section: Seq<char>, key: Seq<char>, list: bool, i: int)
    requires
        0 <= i < a.len(),
        a[i].section == section && a[i].key == key && is_list(a[i].value) == list,
        forall|j: int|
            i < j < a.len() ==> !((#[trigger] a[j]).section == section && a[j].key == key && is_list(a[j].value)
                == list),
    ensures
        last_value(a, section, key, list) == Some(a[i].value),
    decreases a.len(),
{
    if i < a.len() - 1 {
        let b = a.drop_last();
        assert(b[i] == a[i]);
        assert forall|j: int| i < j < b.len() implies !((#[trigger] b[j]).section == section && b[j].key == key
            && is_list(b[j].value) == list) by {
            assert(b[j] == a[j]);
        }
        the_last_text_counts(b, section, key, list, i);
    }
}

/// A key that is nowhere has no text.
pub proof fn absent_keys_have_no_text(a: Seq<Assigned>, section: Seq<char>, key: Seq<char>, list: bool)
    requires
        forall|j: int| 0 <= j < a.len() ==> !((#[trigger] a[j]).section == section && a[j].key == key),
    ensures
        last_value(a, section, key, list) is None,
    decreases a.len(),
{
    if a.len() > 0 {
        let b = a.drop_last();
        assert forall|j: int| 0 <= j < b.len() implies !((#[trigger] b[j]).section == section && b[j].key
            == key) by {
            assert(b[j] == a[j]);
        }
        absent_keys_have_no_text(b, section, key, list);
    }
}

/// A manifest is accepted where it names the module, its version, its kind, which must be known, and
/// what to run; the refusal says which of them is missing.
pub proof fn refusals_name_what_is_missing(a: Seq<Assigned>, kind: ModuleKind)
    ensures
        kind_named(kind.spelling()) == Some(kind),
        refused(a) is None <==> scalar(a, "module"@, "name"@) is Some && scalar(a, "module"@, "version"@) is Some
            && scalar(a, "module"@, "entry"@) is Some && (scalar(a, "module"@, "kind"@) matches Some(k)
            && kind_named(k) is Some),
        refused(a) matches Some(Refusal::MissingField(f)) ==> {
            ||| f == "module.name"@ && scalar(a, "module"@, "name"@) is None
            ||| f == "module.version"@ && scalar(a, "module"@, "version"@) is None
            ||| f == "module.kind"@ && scalar(a, "module"@, "kind"@) is None
            ||| f == "module.entry"@ && scalar(a, "module"@, "entry"@) is None
        },
        refused(a) matches Some(Refusal::UnknownKind(k)) ==> scalar(a, "module"@, "kind"@) == Some(k)
            && k != "wasm"@ && k != "lua"@,
        !(refused(a) matches Some(Refusal::Io(_))),
{
    reveal_strlit("wasm");
    reveal_strlit("lua");
    assert("wasm"@.len() != "lua"@.len());
}

/// What is asked for is counted by kind, and a kind that nothing is asked of is left out.
pub proof fn permissions_are_counted(p: Permissions)
    ensures
        p.net@.len() == 0 && p.programs@.len() == 0 && p.fs@.len() > 0 ==> p.summed_up() == "fs:"@ + decimal(
            p.fs@.len(),
        ),
        p.fs@.len() == 0 && p.programs@.len() == 0 && p.net@.len() > 0 ==> p.summed_up() == "net:"@ + decimal(
            p.net@.len(),
        ),
        p.fs@.len() == 0 && p.net@.len() == 0 && p.programs@.len() > 0 ==> p.summed_up() == "exec:"@ + decimal(
            p.programs@.len(),
        ),
        p.fs@.len() == 0 && p.net@.len() == 0 && p.programs@.len() == 0 ==> p.summed_up() == "no perms"@,
        p.fs@.len() > 0 && p.net@.len() > 0 && p.programs@.len() > 0 ==> p.summed_up() == "fs:"@ + decimal(
            p.fs@.len(),
        ) + seq![' '] + ("net:"@ + decimal(p.net@.len())) + seq![' '] + ("exec:"@ + decimal(p.programs@.len())),
{
    let f = "fs:"@ + decimal(p.fs@.len());
    let n = "net:"@ + decimal(p.net@.len());
    let e = "exec:"@ + decimal(p.programs@.len());
    let none = Seq::<Seq<char>>::empty();
    assert(seq![f] + none + none =~= seq![f]);
    assert(none + seq![n] + none =~= seq![n]);
    assert(none + none + seq![e] =~= seq![e]);
    let all = seq![f] + seq![n] + seq![e];
    assert(all.drop_last() =~= seq![f, n]);
    assert(seq![f, n].drop_last() =~= seq![f]);
    assert(spaced(seq![f]) == f);
    assert(spaced(seq![f, n]) == f + seq![' '] + n);
    assert(spaced(all) == f + seq![' '] + n + seq![' '] + e);
}

} // verus!
