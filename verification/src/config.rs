//! The user's configuration: a flat TOML table of booleans and numbers.

use vstd::prelude::*;
use crate::number::{decimal, decimal_reads_back, decimal_text, lemma_decimal_digits, parse_number, parsed_to};
use crate::single::{clamp, clamped};
use crate::paths::{config_file, config_path};
use crate::text::{chars, chars_of, find_char, first_at, free_of, is_line, is_white, join_lines, lemma_first_at, lemma_first_at_is, lemma_free_of, lemma_trimmed_start, lines, lines_read_back, push_text, same, split_lines, string_of, text_of, texts, trim, trimmed, trimmed_end, trimmed_start, trimming_takes_white_space_off, unlines, views};

verus! {

/// The bits of the least font size, 6.
pub const FONT_MIN: u32 = 0x40c0_0000;

/// The bits of the greatest font size, 32.
pub const FONT_MAX: u32 = 0x4200_0000;

/// The bits of the least line height, 10.
pub const LINE_MIN: u32 = 0x4120_0000;

/// The bits of the greatest line height, 48.
pub const LINE_MAX: u32 = 0x4240_0000;

/// The shortest time that the scrollbar lingers, in milliseconds.
pub const LINGER_MIN: u64 = 100;

/// The longest time that the scrollbar lingers, in milliseconds.
pub const LINGER_MAX: u64 = 5000;

/// The user's configuration. The font size and the line height are single-precision
/// numbers, kept by their bits.
#[derive(Clone, Copy, Debug, PartialEq, Eq, Structural)]
pub struct Config {
    pub font_size: u32,
    pub line_height: u32,
    pub scrollbar_linger_ms: u64,
    pub gutter: bool,
    pub scrollbar: bool,
    pub latency_hud: bool,
}

/// The configuration without a file: size 14, height 20, everything shown.
pub open spec fn default_config() -> Config {
    Config {
        font_size: 0x4160_0000,
        line_height: 0x41a0_0000,
        scrollbar_linger_ms: 800,
        gutter: true,
        scrollbar: true,
        latency_hud: true,
    }
}

impl Default for Config {
    fn default() -> (r: Self)
        ensures
            r == default_config(),
    {
        Config {
            font_size: 0x4160_0000,
            line_height: 0x41a0_0000,
            scrollbar_linger_ms: 800,
            gutter: true,
            scrollbar: true,
            latency_hud: true,
        }
    }
}

/// `s` without the double quotes it begins with.
pub open spec fn unquoted_start(s: Seq<char>) -> Seq<char>
    decreases s.len(),
{
    if s.len() > 0 && s[0] == '"' {
        unquoted_start(s.skip(1))
    } else {
        s
    }
}

/// `s` without the double quotes it ends with.
pub open spec fn unquoted_end(s: Seq<char>) -> Seq<char>
    decreases s.len(),
{
    if s.len() > 0 && s.last() == '"' {
        unquoted_end(s.drop_last())
    } else {
        s
    }
}

/// The value in what stands behind an equals sign: up to a comment, without white space
/// and then without double quotes around it.
pub open spec fn value_in(s: Seq<char>) -> Seq<char> {
    unquoted_end(unquoted_start(trimmed(s.take(first_at(s, '#')))))
}

/// The key and the value of a line; none on a blank line, a comment, a section header or
/// a line without an equals sign.
pub open spec fn entry_in(line: Seq<char>) -> Option<(Seq<char>, Seq<char>)> {
    let l = trimmed(line);
    let k = first_at(l, '=');
    if l.len() == 0 || l[0] == '#' || l[0] == '[' || k >= l.len() {
        None
    } else {
        Some((trimmed(l.take(k)), value_in(l.skip(k + 1))))
    }
}

/// The entries of the first `n` lines.
pub open spec fn entries_to(ls: Seq<Seq<char>>, n: nat) -> Seq<(Seq<char>, Seq<char>)>
    decreases n,
{
    if n == 0 {
        Seq::empty()
    } else {
        match entry_in(ls[n - 1]) {
            Some(e) => entries_to(ls, (n - 1) as nat).push(e),
            None => entries_to(ls, (n - 1) as nat),
        }
    }
}

/// The entries of a configuration file.
pub open spec fn entries_in(text: Seq<char>) -> Seq<(Seq<char>, Seq<char>)> {
    entries_to(lines(text), lines(text).len())
}

/// A key with its value.
#[derive(Debug)]
pub struct ConfigEntry {
    pub key: String,
    pub value: String,
}

/// What a list of entries says.
pub open spec fn entry_views(v: Seq<ConfigEntry>) -> Seq<(Seq<char>, Seq<char>)> {
    Seq::new(v.len(), |i: int| (v[i].key@, v[i].value@))
}

fn strip_quotes(s: &[char]) -> (r: &[char])
    ensures
        r@ == unquoted_end(unquoted_start(s@)),
{
    let mut i: usize = 0;
    assert(s@.skip(0) =~= s@);
    while i < s.len() && s[i] == '"'
        invariant
            i <= s.len(),
            unquoted_start(s@.skip(i as int)) == unquoted_start(s@),
        decreases s.len() - i,
    {
        assert(s@.skip(i as int).skip(1) =~= s@.skip(i + 1));
        i += 1;
    }
    let ghost front = s@.skip(i as int);
    let mut j: usize = s.len();
    assert(s@.subrange(i as int, j as int) =~= front);
    while j > i && s[j - 1] == '"'
        invariant
            i <= j <= s.len(),
            unquoted_end(s@.subrange(i as int, j as int)) == unquoted_end(front),
        decreases j,
    {
        assert(s@.subrange(i as int, j as int).drop_last() =~= s@.subrange(i as int, j - 1));
        j -= 1;
    }
    &s[i..j]
}

fn read_entry(line: &[char]) -> (r: Option<ConfigEntry>)
    ensures
        match r {
            Some(e) => entry_in(line@) == Some((e.key@, e.value@)),
            None => entry_in(line@) is None,
        },
{
    let l = trim(line);
    if l.len() == 0 || l[0] == '#' || l[0] == '[' {
        return None;
    }
    let k = find_char(l, '=');
    if k >= l.len() {
        return None;
    }
    let key = trim(&l[0..k]);
    assert(l@.subrange(0, k as int) =~= l@.take(k as int));
    let rest = &l[k + 1..l.len()];
    assert(rest@ =~= l@.skip(k + 1));
    let stop = find_char(rest, '#');
    assert(rest@.subrange(0, stop as int) =~= rest@.take(stop as int));
    let value = strip_quotes(trim(&rest[0..stop]));
    Some(ConfigEntry { key: string_of(key), value: string_of(value) })
}

/// Reads the entries of a configuration file.
pub fn toml_entries(text: &str) -> (r: Vec<ConfigEntry>)
    ensures
        entry_views(r@) == entries_in(text@),
{
    let ls = split_lines(&chars_of(text));
    let ghost all = lines(text@);
    let mut out: Vec<ConfigEntry> = Vec::new();
    assert(entry_views(out@) =~= Seq::empty());
    for i in 0..ls.len()
        invariant
            views(ls@) == all,
            entry_views(out@) == entries_to(all, i as nat),
    {
        let ghost before = entry_views(out@);
        assert(all[i as int] == ls@[i as int]@);
        if let Some(e) = read_entry(&ls[i]) {
            let ghost v = (e.key@, e.value@);
            out.push(e);
            assert(entry_views(out@) =~= before.push(v));
        }
    }
    out
}

/// The boolean that a value writes.
pub open spec fn bool_in(s: Seq<char>) -> Option<bool> {
    if s == "true"@ {
        Some(true)
    } else if s == "false"@ {
        Some(false)
    } else {
        None
    }
}

/// The boolean that `s` writes.
pub fn parse_bool(s: &str) -> (r: Option<bool>)
    ensures
        r == bool_in(s@),
{
    if same(s, "true") {
        Some(true)
    } else if same(s, "false") {
        Some(false)
    } else {
        None
    }
}

/// A value, or `other` where there is none.
pub open spec fn or<T>(v: Option<T>, other: T) -> T {
    match v {
        Some(x) => x,
        None => other,
    }
}

/// A configuration with one entry taken in. `number` is the single-precision number that
/// the value writes, if it writes one. An unknown key or a value that cannot be read
/// changes nothing.
pub open spec fn with_entry(c: Config, entry: (Seq<char>, Seq<char>), number: Option<u32>) -> Config {
    let (key, value) = entry;
    if key == "font_size"@ {
        Config { font_size: or(number, c.font_size), ..c }
    } else if key == "line_height"@ {
        Config { line_height: or(number, c.line_height), ..c }
    } else if key == "scrollbar_linger_ms"@ {
        match parsed_to(value, u64::MAX as nat) {
            Some(n) => Config { scrollbar_linger_ms: n as u64, ..c },
            None => c,
        }
    } else if key == "gutter"@ {
        Config { gutter: or(bool_in(value), c.gutter), ..c }
    } else if key == "scrollbar"@ {
        Config { scrollbar: or(bool_in(value), c.scrollbar), ..c }
    } else if key == "latency_hud"@ {
        Config { latency_hud: or(bool_in(value), c.latency_hud), ..c }
    } else {
        c
    }
}

/// A configuration with the first `n` entries taken in.
pub open spec fn with_entries(
    c: Config,
    entries: Seq<(Seq<char>, Seq<char>)>,
    numbers: Seq<Option<u32>>,
    n: nat,
) -> Config
    decreases n,
{
    if n == 0 {
        c
    } else {
        with_entry(with_entries(c, entries, numbers, (n - 1) as nat), entries[n - 1], numbers[n - 1])
    }
}

impl Config {
    /// Where the configuration is kept, given `$XDG_CONFIG_HOME` and `$HOME`.
    pub fn path(xdg: Option<&str>, home: Option<&str>) -> (r: Option<String>)
        ensures
            text_of(r) == config_path(chars(xdg), chars(home), "config.toml"@),
    {
        config_file(xdg, home, "config.toml")
    }

    /// Takes in a configuration file. `numbers` says of each entry in it, as
    /// [`toml_entries`] lists them, which single-precision number its value writes.
    pub fn apply_toml(&mut self, text: &str, numbers: &Vec<Option<u32>>)
        requires
            numbers@.len() == entries_in(text@).len(),
        ensures
            *final(self) == with_entries(
                *old(self),
                entries_in(text@),
                numbers@,
                numbers@.len(),
            ),
    {
        let entries = toml_entries(text);
        let ghost es = entries_in(text@);
        let ghost start = *self;
        for i in 0..entries.len()
            invariant
                entry_views(entries@) == es,
                numbers@.len() == entries@.len(),
                *self == with_entries(start, es, numbers@, i as nat),
        {
            assert(es[i as int] == (entries@[i as int].key@, entries@[i as int].value@));
            self.apply_entry(&entries[i].key, &entries[i].value, numbers[i]);
        }
    }

    fn apply_entry(&mut self, key: &str, value: &str, number: Option<u32>)
        ensures
            *final(self) == with_entry(*old(self), (key@, value@), number),
    {
        if same(key, "font_size") {
            if let Some(n) = number {
                self.font_size = n;
            }
        } else if same(key, "line_height") {
            if let Some(n) = number {
                self.line_height = n;
            }
        } else if same(key, "scrollbar_linger_ms") {
            if let Some(n) = parse_number(&chars_of(value), u64::MAX) {
                self.scrollbar_linger_ms = n;
            }
        } else if same(key, "gutter") {
            if let Some(b) = parse_bool(value) {
                self.gutter = b;
            }
        } else if same(key, "scrollbar") {
            if let Some(b) = parse_bool(value) {
                self.scrollbar = b;
            }
        } else if same(key, "latency_hud") {
            if let Some(b) = parse_bool(value) {
                self.latency_hud = b;
            }
        }
    }

    /// Moves every number into its range.
    pub fn clamp(&mut self)
        ensures
            *final(self) == in_range(*old(self)),
            within_limits(*final(self)),
    {
        self.font_size = clamp(self.font_size, FONT_MIN, FONT_MAX);
        self.line_height = clamp(self.line_height, LINE_MIN, LINE_MAX);
        if self.scrollbar_linger_ms < LINGER_MIN {
            self.scrollbar_linger_ms = LINGER_MIN;
        } else if self.scrollbar_linger_ms > LINGER_MAX {
            self.scrollbar_linger_ms = LINGER_MAX;
        }
    }
}

/// Every number is in its range.
pub open spec fn within_limits(c: Config) -> bool {
    &&& FONT_MIN <= c.font_size <= FONT_MAX
    &&& LINE_MIN <= c.line_height <= LINE_MAX
    &&& LINGER_MIN <= c.scrollbar_linger_ms <= LINGER_MAX
}

/// A configuration with every number moved into its range.
pub open spec fn in_range(c: Config) -> Config {
    Config {
        font_size: clamped(c.font_size, FONT_MIN, FONT_MAX),
        line_height: clamped(c.line_height, LINE_MIN, LINE_MAX),
        scrollbar_linger_ms: if c.scrollbar_linger_ms < LINGER_MIN {
            LINGER_MIN
        } else if c.scrollbar_linger_ms > LINGER_MAX {
            LINGER_MAX
        } else {
            c.scrollbar_linger_ms
        },
        ..c
    }
}

/// A boolean as a value.
pub open spec fn bool_text(b: bool) -> Seq<char> {
    if b {
        "true"@
    } else {
        "false"@
    }
}

/// The lines of the file for a configuration, `font` and `line` being the texts of its two
/// single-precision numbers.
pub open spec fn toml_lines(c: Config, font: Seq<char>, line: Seq<char>) -> Seq<Seq<char>> {
    seq![
        "# Umber configuration (D13). Edited live via the settings page"@,
        "# (Ctrl+, or \"Preferences: Open Settings\")."@,
        "font_size = "@ + font,
        "line_height = "@ + line,
        "scrollbar_linger_ms = "@ + decimal(c.scrollbar_linger_ms as nat),
        "gutter = "@ + bool_text(c.gutter),
        "scrollbar = "@ + bool_text(c.scrollbar),
        "latency_hud = "@ + bool_text(c.latency_hud),
    ]
}

fn setting(key: &str, value: &str) -> (r: String)
    ensures
        r@ == key@ + value@,
{
    let mut out = key.to_owned();
    push_text(&mut out, value);
    out
}

fn show_bool(b: bool) -> (r: &'static str)
    ensures
        r@ == bool_text(b),
{
    if b {
        "true"
    } else {
        "false"
    }
}

impl Config {
    /// The configuration in force, given the file that holds it, if one could be read, and
    /// the numbers in it as [`Config::apply_toml`] takes them.
    pub fn load(file: Option<&str>, numbers: &Vec<Option<u32>>) -> (r: Config)
        requires
            file matches Some(text) ==> numbers@.len() == entries_in(text@).len(),
        ensures
            r == in_range(
                match file {
                    Some(text) => with_entries(
                        default_config(),
                        entries_in(text@),
                        numbers@,
                        numbers@.len(),
                    ),
                    None => default_config(),
                },
            ),
            within_limits(r),
    {
        let mut cfg = Config::default();
        if let Some(text) = file {
            cfg.apply_toml(text, numbers);
        }
        cfg.clamp();
        cfg
    }

    /// The file for this configuration, `font` and `line` being the texts of the font size
    /// and the line height.
    pub fn to_toml(&self, font: &str, line: &str) -> (r: String)
        ensures
            r@ == unlines(toml_lines(*self, font@, line@)),
    {
        let mut ls: Vec<String> = Vec::new();
        ls.push("# Umber configuration (D13). Edited live via the settings page".to_owned());
        ls.push("# (Ctrl+, or \"Preferences: Open Settings\").".to_owned());
        ls.push(setting("font_size = ", font));
        ls.push(setting("line_height = ", line));
        ls.push(setting("scrollbar_linger_ms = ", &decimal_text(self.scrollbar_linger_ms)));
        ls.push(setting("gutter = ", show_bool(self.gutter)));
        ls.push(setting("scrollbar = ", show_bool(self.scrollbar)));
        ls.push(setting("latency_hud = ", show_bool(self.latency_hud)));
        assert(texts(ls@) =~= toml_lines(*self, font@, line@));
        join_lines(&ls)
    }
}

/// A text that stands for itself as a value: no comment, line feed, quotes or white space
/// would be taken out of it.
pub open spec fn plain(s: Seq<char>) -> bool {
    &&& s.len() > 0
    &&& !is_white(s[0]) && !is_white(s.last())
    &&& s[0] != '"' && s.last() != '"'
    &&& forall|i: int| 0 <= i < s.len() ==> #[trigger] s[i] != '#' && s[i] != '\n'
}

proof fn lemma_entry(key: Seq<char>, lead: Seq<char>, value: Seq<char>)
    requires
        key.len() > 0,
        !is_white(key[0]),
        !is_white(key.last()),
        key[0] != '#',
        key[0] != '[',
        forall|i: int| 0 <= i < key.len() ==> #[trigger] key[i] != '=' && key[i] != '\n',
        lead == key + seq![' ', '=', ' '],
        plain(value),
    ensures
        entry_in(lead + value) == Some((key, value)),
        is_line(lead + value),
{
    let l = lead + value;
    assert(l[0] == key[0]);
    assert(l.last() == value.last());
    assert(trimmed(l) == l);
    let k = key.len() as int + 1;
    assert forall|i: int| 0 <= i < k implies l[i] != '=' by {
        if i < key.len() {
            assert(l[i] == key[i]);
        }
    }
    assert(l[k] == '=');
    lemma_first_at_is(l, '=', k);
    let left = l.take(k);
    assert(left =~= key.push(' '));
    assert(left[0] == key[0]);
    assert(trimmed_start(left) == left);
    assert(left.drop_last() =~= key);
    assert(trimmed_end(key) == key);
    assert(trimmed(left) == key);
    let right = l.skip(k + 1);
    assert(right =~= seq![' '] + value);
    assert forall|i: int| 0 <= i < right.len() implies right[i] != '#' by {
        if i > 0 {
            assert(right[i] == value[i - 1]);
        }
    }
    lemma_first_at_is(right, '#', right.len() as int);
    assert(right.take(right.len() as int) =~= right);
    assert(right.skip(1) =~= value);
    assert(trimmed_start(value) == value);
    assert(trimmed_start(right) == value);
    assert(trimmed(right) == value);
    assert(unquoted_start(value) == value);
    assert(value_in(right) == value);
    assert forall|i: int| 0 <= i < l.len() implies l[i] != '\n' by {
        if i < key.len() {
            assert(l[i] == key[i]);
        } else if i >= lead.len() {
            assert(l[i] == value[i - lead.len()]);
        }
    }
    assert(is_white('\r'));
}

proof fn lemma_comment(s: Seq<char>)
    requires
        s.len() > 0,
        s[0] == '#',
        !is_white(s.last()),
    ensures
        entry_in(s) is None,
{
    assert(trimmed(s) == s);
}

/// The numbers in the file that is written for a configuration: those of its first two
/// entries, and whatever one makes of the others.
pub open spec fn numbers_of(c: Config, numbers: Seq<Option<u32>>) -> bool {
    &&& numbers.len() == 6
    &&& numbers[0] == Some(c.font_size)
    &&& numbers[1] == Some(c.line_height)
}

/// A configuration that is written out and read back is the same, whatever was in force
/// before it is read, provided that the texts of its two numbers stand for themselves and
/// read back as those numbers.
pub proof fn toml_reads_back(
    c: Config,
    font: Seq<char>,
    line: Seq<char>,
    before: Config,
    numbers: Seq<Option<u32>>,
)
    requires
        plain(font),
        plain(line),
        numbers_of(c, numbers),
    ensures
        entries_in(unlines(toml_lines(c, font, line))).len() == 6,
        entries_in(unlines(toml_lines(c, font, line)))[0].1 == font,
        entries_in(unlines(toml_lines(c, font, line)))[1].1 == line,
        with_entries(before, entries_in(unlines(toml_lines(c, font, line))), numbers, 6) == c,
{
    lemma_toml_entries(c, font, line);
    let es = toml_pairs(c, font, line);
    lemma_keys();
    decimal_reads_back(c.scrollbar_linger_ms as nat);
    assert("true"@ != "false"@) by {
        reveal_strlit("true");
        reveal_strlit("false");
    }
    let c0 = with_entries(before, es, numbers, 0);
    let c1 = with_entries(before, es, numbers, 1);
    let c2 = with_entries(before, es, numbers, 2);
    let c3 = with_entries(before, es, numbers, 3);
    let c4 = with_entries(before, es, numbers, 4);
    let c5 = with_entries(before, es, numbers, 5);
    let c6 = with_entries(before, es, numbers, 6);
    assert(c1 == with_entry(c0, es[0], numbers[0]));
    assert(c2 == with_entry(c1, es[1], numbers[1]));
    assert(c3 == with_entry(c2, es[2], numbers[2]));
    assert(c3.scrollbar_linger_ms == c.scrollbar_linger_ms);
    assert(c4 == with_entry(c3, es[3], numbers[3]));
    assert(c4.gutter == c.gutter);
    assert(c5 == with_entry(c4, es[4], numbers[4]));
    assert(c5.scrollbar == c.scrollbar);
    assert(c6 == with_entry(c5, es[5], numbers[5]));
}

/// The keys of a configuration file with their values.
spec fn toml_pairs(c: Config, font: Seq<char>, line: Seq<char>) -> Seq<(Seq<char>, Seq<char>)> {
    seq![
        ("font_size"@, font),
        ("line_height"@, line),
        ("scrollbar_linger_ms"@, decimal(c.scrollbar_linger_ms as nat)),
        ("gutter"@, bool_text(c.gutter)),
        ("scrollbar"@, bool_text(c.scrollbar)),
        ("latency_hud"@, bool_text(c.latency_hud)),
    ]
}

proof fn lemma_comments(c: Config, font: Seq<char>, line: Seq<char>)
    ensures
        is_line(toml_lines(c, font, line)[0]),
        is_line(toml_lines(c, font, line)[1]),
        entry_in(toml_lines(c, font, line)[0]) is None,
        entry_in(toml_lines(c, font, line)[1]) is None,
{
    let c1 = "# Umber configuration (D13). Edited live via the settings page"@;
    let c2 = "# (Ctrl+, or \"Preferences: Open Settings\")."@;
    assert(is_line(c1) && entry_in(c1) is None) by {
        reveal_strlit("# Umber configuration (D13). Edited live via the settings page");
        reveal_with_fuel(free_of, 70);
        assert(free_of(c1, '\n', c1.len()));
        lemma_free_of(c1, '\n', c1.len());
        lemma_comment(c1);
    }
    assert(is_line(c2) && entry_in(c2) is None) by {
        reveal_strlit("# (Ctrl+, or \"Preferences: Open Settings\").");
        reveal_with_fuel(free_of, 70);
        assert(free_of(c2, '\n', c2.len()));
        lemma_free_of(c2, '\n', c2.len());
        lemma_comment(c2);
    }
}

proof fn lemma_values(c: Config)
    ensures
        plain(decimal(c.scrollbar_linger_ms as nat)),
        plain("true"@),
        plain("false"@),
{
    let linger = decimal(c.scrollbar_linger_ms as nat);
    lemma_decimal_digits(c.scrollbar_linger_ms as nat);
    assert('0' <= linger[0] <= '9');
    assert('0' <= linger[linger.len() - 1] <= '9');
    assert forall|i: int| 0 <= i < linger.len() implies #[trigger] linger[i] != '#' && linger[i] != '\n' by {
        assert('0' <= linger[i] <= '9');
    }
    reveal_strlit("true");
    reveal_strlit("false");
}

proof fn lemma_toml_entries(c: Config, font: Seq<char>, line: Seq<char>)
    requires
        plain(font),
        plain(line),
    ensures
        entries_in(unlines(toml_lines(c, font, line))) == toml_pairs(c, font, line),
{
    let ls = toml_lines(c, font, line);
    let es = toml_pairs(c, font, line);
    lemma_comments(c, font, line);
    lemma_values(c);
    lemma_keys();
    lemma_entry(es[0].0, "font_size = "@, es[0].1);
    lemma_entry(es[1].0, "line_height = "@, es[1].1);
    lemma_entry(es[2].0, "scrollbar_linger_ms = "@, es[2].1);
    lemma_entry(es[3].0, "gutter = "@, es[3].1);
    lemma_entry(es[4].0, "scrollbar = "@, es[4].1);
    lemma_entry(es[5].0, "latency_hud = "@, es[5].1);
    lines_read_back(ls);
    assert(entries_to(ls, 0) =~= es.take(0));
    assert(entries_to(ls, 1) =~= es.take(0));
    assert(entries_to(ls, 2) =~= es.take(0));
    assert(entries_to(ls, 3) =~= es.take(1));
    assert(entries_to(ls, 4) =~= es.take(2));
    assert(entries_to(ls, 5) =~= es.take(3));
    assert(entries_to(ls, 6) =~= es.take(4));
    assert(entries_to(ls, 7) =~= es.take(5));
    assert(entries_to(ls, 8) =~= es);
}

proof fn lemma_keys()
    ensures
        key_like("font_size"@, "font_size = "@),
        key_like("line_height"@, "line_height = "@),
        key_like("scrollbar_linger_ms"@, "scrollbar_linger_ms = "@),
        key_like("gutter"@, "gutter = "@),
        key_like("scrollbar"@, "scrollbar = "@),
        key_like("latency_hud"@, "latency_hud = "@),
        "font_size"@.len() == 9,
        "line_height"@.len() == 11,
        "scrollbar_linger_ms"@.len() == 19,
        "gutter"@.len() == 6,
        "scrollbar"@.len() == 9,
        "latency_hud"@.len() == 11,
        "font_size"@[0] == 'f',
        "scrollbar"@[0] == 's',
        "line_height"@[1] == 'i',
        "latency_hud"@[1] == 'a',
{
    reveal_with_fuel(free_of, 21);
    reveal_strlit("font_size");
    reveal_strlit("font_size = ");
    lemma_key("font_size"@, "font_size = "@);
    reveal_strlit("line_height");
    reveal_strlit("line_height = ");
    lemma_key("line_height"@, "line_height = "@);
    reveal_strlit("scrollbar_linger_ms");
    reveal_strlit("scrollbar_linger_ms = ");
    lemma_key("scrollbar_linger_ms"@, "scrollbar_linger_ms = "@);
    reveal_strlit("gutter");
    reveal_strlit("gutter = ");
    lemma_key("gutter"@, "gutter = "@);
    reveal_strlit("scrollbar");
    reveal_strlit("scrollbar = ");
    lemma_key("scrollbar"@, "scrollbar = "@);
    reveal_strlit("latency_hud");
    reveal_strlit("latency_hud = ");
    lemma_key("latency_hud"@, "latency_hud = "@);
}

spec fn key_like(key: Seq<char>, lead: Seq<char>) -> bool {
    &&& key.len() > 0
    &&& !is_white(key[0])
    &&& !is_white(key.last())
    &&& key[0] != '#'
    &&& key[0] != '['
    &&& forall|i: int| 0 <= i < key.len() ==> #[trigger] key[i] != '=' && key[i] != '\n'
    &&& lead == key + seq![' ', '=', ' ']
}

proof fn lemma_key(key: Seq<char>, lead: Seq<char>)
    requires
        0 < key.len() <= 19,
        free_of(key, '=', key.len()),
        free_of(key, '\n', key.len()),
        !is_white(key[0]),
        !is_white(key.last()),
        key[0] != '#',
        key[0] != '[',
        lead =~= key + seq![' ', '=', ' '],
    ensures
        key_like(key, lead),
{
    lemma_free_of(key, '=', key.len());
    lemma_free_of(key, '\n', key.len());
}

/// Moving the numbers into their ranges leaves each in its range, whatever bits it had, and those
/// that are in their ranges already as they are, so that moving them twice is moving them once.
pub proof fn clamping_settles(c: Config)
    ensures
        within_limits(in_range(c)),
        within_limits(c) ==> in_range(c) == c,
        in_range(in_range(c)) == in_range(c),
{
}

proof fn lemma_unquote(v: Seq<char>)
    requires
        v.len() > 0 ==> v[0] != '"' && v.last() != '"',
    ensures
        unquoted_end(unquoted_start(seq!['"'] + v + seq!['"'])) == v,
        unquoted_end(unquoted_start(v)) == v,
{
    let s = seq!['"'] + v + seq!['"'];
    assert(s.skip(1) =~= v + seq!['"']);
    let t = v + seq!['"'];
    if v.len() > 0 {
        assert(t[0] == v[0]);
        assert(unquoted_start(t) == t);
        assert(unquoted_start(s) == t);
        assert(t.drop_last() =~= v);
        assert(unquoted_end(t) == unquoted_end(v));
    } else {
        assert(t.skip(1) =~= Seq::empty());
        assert(unquoted_start(t) == unquoted_start(t.skip(1)));
        assert(unquoted_start(s) == unquoted_start(s.skip(1)));
        assert(unquoted_start(s) =~= v);
    }
}

/// A value is read the same bare and in quotes, with white space around it and with a comment behind
/// it.
pub proof fn values_are_read_plainly(v: Seq<char>, a: Seq<char>, b: Seq<char>, comment: Seq<char>)
    requires
        plain(v),
        forall|i: int| 0 <= i < a.len() ==> is_white(#[trigger] a[i]),
        forall|i: int| 0 <= i < b.len() ==> is_white(#[trigger] b[i]),
    ensures
        value_in(a + v + b) == v,
        value_in(a + (seq!['"'] + v + seq!['"']) + b) == v,
        value_in(a + v + b + seq!['#'] + comment) == v,
        value_in(a + (seq!['"'] + v + seq!['"']) + b + seq!['#'] + comment) == v,
{
    let q = seq!['"'] + v + seq!['"'];
    lemma_unquote(v);
    trimming_takes_white_space_off(a, v, b);
    assert(q[0] == '"' && q.last() == '"');
    trimming_takes_white_space_off(a, q, b);
    lemma_value_up_to(a, v, b, comment);
    assert forall|i: int| 0 <= i < q.len() implies #[trigger] q[i] != '#' by {
        if 0 < i < q.len() - 1 {
            assert(q[i] == v[i - 1]);
        }
    }
    lemma_value_up_to(a, q, b, comment);
}

proof fn lemma_value_up_to(a: Seq<char>, v: Seq<char>, b: Seq<char>, comment: Seq<char>)
    requires
        forall|i: int| 0 <= i < v.len() ==> #[trigger] v[i] != '#',
        forall|i: int| 0 <= i < a.len() ==> is_white(#[trigger] a[i]),
        forall|i: int| 0 <= i < b.len() ==> is_white(#[trigger] b[i]),
    ensures
        value_in(a + v + b) == unquoted_end(unquoted_start(trimmed(a + v + b))),
        value_in(a + v + b + seq!['#'] + comment) == value_in(a + v + b),
{
    let s = a + v + b;
    let t = s + seq!['#'] + comment;
    let n = s.len() as int;
    assert forall|i: int| 0 <= i < n implies s[i] != '#' by {
        if i < a.len() {
            assert(s[i] == a[i]);
        } else if i < a.len() + v.len() {
            assert(s[i] == v[i - a.len()]);
        } else {
            assert(s[i] == b[i - a.len() - v.len()]);
        }
    }
    assert forall|i: int| 0 <= i < n implies t[i] != '#' by {
        assert(t[i] == s[i]);
    }
    assert(t[n] == '#');
    lemma_first_at_is(s, '#', n);
    lemma_first_at_is(t, '#', n);
    assert(s.take(n) =~= s);
    assert(t.take(n) =~= s);
}

/// A line with a key and a value is read as these, however it is indented; a comment, a heading and
/// a line that sets nothing are not read.
pub proof fn lines_set_one_key(pad: Seq<char>, key: Seq<char>, v: Seq<char>, line: Seq<char>)
    requires
        plain(v),
        key.len() > 0,
        !is_white(key[0]) && !is_white(key.last()),
        key[0] != '#' && key[0] != '[',
        forall|i: int| 0 <= i < key.len() ==> #[trigger] key[i] != '=' && key[i] != '\n',
        forall|i: int| 0 <= i < pad.len() ==> is_white(#[trigger] pad[i]),
    ensures
        entry_in(pad + (key + seq![' ', '=', ' '] + v)) == Some((key, v)),
        entry_in(pad + seq!['#'] + line) is None,
        entry_in(pad + seq!['['] + line) is None,
        (forall|i: int| 0 <= i < line.len() ==> #[trigger] line[i] != '=') ==> entry_in(line) is None,
{
    let lead = key + seq![' ', '=', ' '];
    lemma_entry(key, lead, v);
    let l = lead + v;
    assert(l[0] == key[0] && l.last() == v.last());
    lemma_same_trimmed(pad, l);
    lemma_starts_with(pad, '#', line);
    lemma_starts_with(pad, '[', line);
    if forall|i: int| 0 <= i < line.len() ==> #[trigger] line[i] != '=' {
        lemma_trimmed_within(line);
        let t = trimmed(line);
        lemma_first_at(t, '=');
        if first_at(t, '=') < t.len() {
            let i = first_at(t, '=');
            let j = choose|j: int| 0 <= j < line.len() && line[j] == t[i];
            assert(line[j] == '=');
        }
    }
}

proof fn lemma_same_trimmed(pad: Seq<char>, l: Seq<char>)
    requires
        l.len() > 0,
        !is_white(l[0]) && !is_white(l.last()),
        forall|i: int| 0 <= i < pad.len() ==> is_white(#[trigger] pad[i]),
    ensures
        trimmed(pad + l) == trimmed(l),
{
    trimming_takes_white_space_off(pad, l, Seq::empty());
    trimming_takes_white_space_off(Seq::empty(), l, Seq::empty());
    assert(pad + l + Seq::<char>::empty() =~= pad + l);
    assert(Seq::<char>::empty() + l + Seq::<char>::empty() =~= l);
}

proof fn lemma_starts_with(pad: Seq<char>, c: char, line: Seq<char>)
    requires
        c == '#' || c == '[',
        forall|i: int| 0 <= i < pad.len() ==> is_white(#[trigger] pad[i]),
    ensures
        trimmed(pad + seq![c] + line).len() > 0,
        trimmed(pad + seq![c] + line)[0] == c,
{
    let s = pad + seq![c] + line;
    lemma_trimmed_from(pad, c, line);
    let t = trimmed_start(s);
    assert(t == seq![c] + line);
    lemma_trimmed_end_keeps(t);
}

proof fn lemma_trimmed_from(pad: Seq<char>, c: char, line: Seq<char>)
    requires
        !is_white(c),
        forall|i: int| 0 <= i < pad.len() ==> is_white(#[trigger] pad[i]),
    ensures
        trimmed_start(pad + seq![c] + line) == seq![c] + line,
    decreases pad.len(),
{
    let s = pad + seq![c] + line;
    if pad.len() > 0 {
        let p = pad.skip(1);
        assert(s[0] == pad[0]);
        assert(s.skip(1) =~= p + seq![c] + line);
        assert forall|i: int| 0 <= i < p.len() implies is_white(#[trigger] p[i]) by {
            assert(p[i] == pad[i + 1]);
        }
        lemma_trimmed_from(p, c, line);
    } else {
        assert(s =~= seq![c] + line);
        assert(s[0] == c);
    }
}

proof fn lemma_trimmed_end_keeps(t: Seq<char>)
    requires
        t.len() > 0,
        !is_white(t[0]),
    ensures
        trimmed_end(t).len() > 0,
        trimmed_end(t)[0] == t[0],
    decreases t.len(),
{
    if is_white(t.last()) {
        assert(t.drop_last()[0] == t[0]);
        lemma_trimmed_end_keeps(t.drop_last());
    }
}

proof fn lemma_end_within(t: Seq<char>)
    ensures
        forall|i: int|
            0 <= i < trimmed_end(t).len() ==> exists|j: int|
                0 <= j < t.len() && #[trigger] t[j] == #[trigger] trimmed_end(t)[i],
    decreases t.len(),
{
    if t.len() > 0 && is_white(t.last()) {
        lemma_end_within(t.drop_last());
        assert forall|i: int| 0 <= i < trimmed_end(t).len() implies exists|j: int|
            0 <= j < t.len() && #[trigger] t[j] == #[trigger] trimmed_end(t)[i] by {
            let j = choose|j: int|
                0 <= j < t.drop_last().len() && #[trigger] t.drop_last()[j] == trimmed_end(t.drop_last())[i];
            assert(t[j] == trimmed_end(t)[i]);
        }
    }
}

proof fn lemma_trimmed_within(s: Seq<char>)
    ensures
        forall|i: int|
            0 <= i < trimmed(s).len() ==> exists|j: int|
                0 <= j < s.len() && #[trigger] s[j] == #[trigger] trimmed(s)[i],
{
    let t = trimmed_start(s);
    lemma_trimmed_start(s);
    lemma_end_within(t);
    assert forall|i: int| 0 <= i < trimmed(s).len() implies exists|j: int|
        0 <= j < s.len() && #[trigger] s[j] == #[trigger] trimmed(s)[i] by {
        let j = choose|j: int| 0 <= j < t.len() && #[trigger] t[j] == trimmed_end(t)[i];
        assert(s[j + (s.len() - t.len())] == trimmed(s)[i]);
    }
}

/// A later entry counts over an earlier one of the same key, and one whose value cannot be read, or
/// whose key is not known, as nothing.
pub proof fn later_entries_count(
    c: Config,
    key: Seq<char>,
    v: Seq<char>,
    n: Option<u32>,
    w: Seq<char>,
    m: Option<u32>,
)
    ensures
        n is Some && bool_in(v) is Some && parsed_to(v, u64::MAX as nat) is Some ==> with_entry(
            with_entry(c, (key, w), m),
            (key, v),
            n,
        ) == with_entry(c, (key, v), n),
        n is None && bool_in(v) is None && parsed_to(v, u64::MAX as nat) is None ==> with_entry(c, (key, v), n)
            == c,
        n is Some ==> with_entry(c, ("font_size"@, v), n) == (Config { font_size: n->0, ..c }),
        n is Some ==> with_entry(c, ("line_height"@, v), n) == (Config { line_height: n->0, ..c }),
        bool_in(v) is Some ==> with_entry(c, ("gutter"@, v), n) == (Config { gutter: bool_in(v)->0, ..c }),
        bool_in(v) is Some ==> with_entry(c, ("scrollbar"@, v), n) == (Config { scrollbar: bool_in(v)->0, ..c }),
        bool_in(v) is Some ==> with_entry(c, ("latency_hud"@, v), n) == (Config {
            latency_hud: bool_in(v)->0,
            ..c
        }),
{
    lemma_keys();
    lemma_key_names();
}

proof fn lemma_key_names()
    ensures
        "font_size"@ != "line_height"@,
        "font_size"@ != "gutter"@ && "line_height"@ != "gutter"@ && "scrollbar_linger_ms"@ != "gutter"@,
        "font_size"@ != "scrollbar"@ && "line_height"@ != "scrollbar"@ && "scrollbar_linger_ms"@ != "scrollbar"@
            && "gutter"@ != "scrollbar"@,
        "font_size"@ != "latency_hud"@ && "line_height"@ != "latency_hud"@ && "scrollbar_linger_ms"@
            != "latency_hud"@ && "gutter"@ != "latency_hud"@ && "scrollbar"@ != "latency_hud"@,
{
    reveal_strlit("font_size");
    reveal_strlit("line_height");
    reveal_strlit("scrollbar_linger_ms");
    reveal_strlit("gutter");
    reveal_strlit("scrollbar");
    reveal_strlit("latency_hud");
    assert("font_size"@[0] == 'f' && "line_height"@[0] == 'l' && "scrollbar_linger_ms"@[0] == 's');
    assert("gutter"@[0] == 'g' && "scrollbar"@[0] == 's' && "latency_hud"@[0] == 'l');
    assert("line_height"@[1] == 'i' && "latency_hud"@[1] == 'a');
    assert("scrollbar"@.len() == 9 && "scrollbar_linger_ms"@.len() == 19);
}

/// What is beyond a bound goes to that bound, and the switches stay as they are.
pub proof fn bounds_are_met(c: Config)
    ensures
        c.scrollbar_linger_ms > LINGER_MAX ==> in_range(c).scrollbar_linger_ms == LINGER_MAX,
        c.scrollbar_linger_ms < LINGER_MIN ==> in_range(c).scrollbar_linger_ms == LINGER_MIN,
        FONT_MAX < c.font_size <= 0x7f80_0000 ==> in_range(c).font_size == FONT_MAX,
        c.font_size < FONT_MIN ==> in_range(c).font_size == FONT_MIN,
        LINE_MAX < c.line_height <= 0x7f80_0000 ==> in_range(c).line_height == LINE_MAX,
        c.line_height < LINE_MIN ==> in_range(c).line_height == LINE_MIN,
        in_range(c).gutter == c.gutter && in_range(c).scrollbar == c.scrollbar && in_range(c).latency_hud
            == c.latency_hud,
        within_limits(default_config()),
{
}

} // verus!
