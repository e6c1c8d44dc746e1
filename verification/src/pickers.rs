//! The pages that ask for something: an SSH host, a text to search for, a line, a remote file.

use vstd::prelude::*;
use crate::case::{ascii_lower, lower_text, text_lower};
use crate::lists::{accepted, bumped, inputs_take_their_characters, shorten, shortened, takes, type_into, wrap_down, wrap_up, wrapped_down, wrapped_up, wrapping_goes_round, Accepts, PageKey};
use crate::search::Match;
use crate::table::{ascending, Table};
use crate::text::{chars, chars_of, find_char, find_text, first_at, is_white, lemma_first_at, lemma_occurrence, lines, occurrence, push_text, same, split_lines, split_words, string_of, text_of, texts, trim, trimmed, views, words, words_end_at_white_space};

verus! {

// --- the hosts of an ssh_config ---

/// Whether a line names hosts, given its words: the first is `host`, whatever the case.
pub open spec fn is_host_line(ws: Seq<Seq<char>>) -> bool {
    ws.len() > 0 && Seq::new(ws[0].len(), |i: int| ascii_lower(ws[0][i])) == "host"@
}

/// Whether a name is that of one host: it holds no wild card and is not negated.
pub open spec fn is_host(name: Seq<char>) -> bool {
    &&& first_at(name, '*') == name.len()
    &&& first_at(name, '?') == name.len()
    &&& !(name.len() > 0 && name[0] == '!')
}

/// A name is that of one host where no character of it is a wild card and it is not negated.
pub proof fn hosts_hold_no_wild_cards(name: Seq<char>)
    ensures
        is_host(name) <==> (forall|i: int|
            0 <= i < name.len() ==> #[trigger] name[i] != '*' && name[i] != '?') && (name.len() == 0
            || name[0] != '!'),
{
    lemma_first_at(name, '*');
    lemma_first_at(name, '?');
}

/// Whether `host` is one of the first `n` words behind the keyword of a line that names hosts.
pub open spec fn among(ws: Seq<Seq<char>>, host: Seq<char>, n: int) -> bool {
    is_host_line(ws) && is_host(host) && exists|k: int| 1 <= k < n && #[trigger] ws[k] == host
}

/// Whether a line names `host`.
pub open spec fn names_host(line: Seq<char>, host: Seq<char>) -> bool {
    among(words(line), host, words(line).len() as int)
}

fn lower_ascii(c: char) -> (r: char)
    ensures
        r == ascii_lower(c),
{
    if 'A' <= c && c <= 'Z' {
        (c as u8 + 32) as char
    } else {
        c
    }
}

fn is_keyword(word: &[char]) -> (r: bool)
    ensures
        r == (Seq::new(word@.len(), |i: int| ascii_lower(word@[i])) == "host"@),
{
    let mut lower: Vec<char> = Vec::new();
    for i in 0..word.len()
        invariant
            lower@ == Seq::new(i as nat, |k: int| ascii_lower(word@[k])),
    {
        lower.push(lower_ascii(word[i]));
        assert(lower@ =~= Seq::new((i + 1) as nat, |k: int| ascii_lower(word@[k])));
    }
    same(&string_of(&lower), "host")
}

fn names_one(name: &[char]) -> (r: bool)
    ensures
        r == is_host(name@),
{
    find_char(name, '*') == name.len() && find_char(name, '?') == name.len() && !(name.len() > 0
        && name[0] == '!')
}

/// The hosts that an ssh_config names, in order, each once: every name behind the keyword, but for
/// wild cards and negated names.
pub fn parse_ssh_hosts(text: &str) -> (r: Vec<String>)
    ensures
        ascending(texts(r@)),
        forall|host: Seq<char>| #[trigger]
            texts(r@).contains(host) <==> exists|i: int|
                0 <= i < lines(text@).len() && #[trigger] names_host(lines(text@)[i], host),
{
    let mut found: Table<()> = Table::new();
    let ls = split_lines(&chars_of(text));
    let ghost all = lines(text@);
    for i in 0..ls.len()
        invariant
            views(ls@) == all,
            found.wf(),
            forall|host: Seq<char>| #[trigger]
                found@.dom().contains(host) <==> exists|j: int|
                    0 <= j < i && #[trigger] names_host(all[j], host),
    {
        assert(all[i as int] == ls@[i as int]@);
        let ws = split_words(&ls[i]);
        let ghost vs = words(all[i as int]);
        let ghost before = found@.dom();
        if ws.len() > 0 {
            assert(vs[0] == ws@[0]@);
        }
        if ws.len() > 0 && is_keyword(&ws[0]) {
            assert(is_host_line(vs));
            for k in 1..ws.len()
                invariant
                    views(ws@) == vs,
                    is_host_line(vs),
                    found.wf(),
                    1 <= k <= ws@.len(),
                    forall|host: Seq<char>| #[trigger]
                        found@.dom().contains(host) <==> before.contains(host) || among(vs, host, k as int),
            {
                assert(vs[k as int] == ws@[k as int]@);
                let ghost earlier = found@.dom();
                if names_one(&ws[k]) {
                    found.insert(string_of(&ws[k]), ());
                    assert(found@.dom() =~= earlier.insert(vs[k as int]));
                }
                assert forall|host: Seq<char>| #[trigger] found@.dom().contains(host) <==> before.contains(host)
                    || among(vs, host, k + 1) by {
                    assert(earlier.contains(host) <==> before.contains(host) || among(vs, host, k as int));
                    assert(is_host(host) && vs[k as int] == host ==> among(vs, host, k + 1));
                }
            }
        }
        assert forall|host: Seq<char>| #[trigger] found@.dom().contains(host) <==> exists|j: int|
            0 <= j < i + 1 && #[trigger] names_host(all[j], host) by {
            assert(before.contains(host) <==> exists|j: int|
                0 <= j < i && #[trigger] names_host(all[j], host));
            assert(found@.dom().contains(host) <==> before.contains(host) || names_host(all[i as int], host));
        }
    }
    let r = found.names();
    proof {
        found.lemma_keys();
        assert forall|host: Seq<char>| #[trigger] texts(r@).contains(host) <==> exists|i: int|
            0 <= i < all.len() && #[trigger] names_host(all[i], host) by {
            assert(found@.dom().contains(host) <==> found.keys().contains(host));
        }
    }
    r
}

// --- the SSH picker ---

/// The places of the first `n` hosts that hold a query, which is in lower case.
pub open spec fn hosts_matching(hosts: Seq<Seq<char>>, query: Seq<char>, n: nat) -> Seq<usize>
    decreases n,
{
    if n == 0 {
        Seq::empty()
    } else {
        let before = hosts_matching(hosts, query, (n - 1) as nat);
        if query.len() == 0 || occurrence(text_lower(hosts[n - 1]), query) is Some {
            before.push((n - 1) as usize)
        } else {
            before
        }
    }
}

/// The hosts that hold the query are shown, every one of them once and in order, and no others; an
/// empty query shows them all.
pub proof fn hosts_that_match_are_shown(hosts: Seq<Seq<char>>, query: Seq<char>, n: nat)
    requires
        n <= hosts.len() <= usize::MAX,
    ensures
        ({
            let shown = hosts_matching(hosts, query, n);
            &&& shown.len() <= n
            &&& forall|a: int, b: int| 0 <= a < b < shown.len() ==> #[trigger] shown[a] < #[trigger] shown[b]
            &&& forall|k: int| 0 <= k < shown.len() ==> (#[trigger] shown[k]) < n
            &&& query.len() == 0 ==> shown.len() == n
        }),
        forall|i: usize|
            i < n ==> (hosts_matching(hosts, query, n).contains(i) <==> #[trigger] holds(
                text_lower(hosts[i as int]),
                query,
            )),
    decreases n,
{
    let shown = hosts_matching(hosts, query, n);
    if n > 0 {
        let before = hosts_matching(hosts, query, (n - 1) as nat);
        let last = (n - 1) as usize;
        hosts_that_match_are_shown(hosts, query, (n - 1) as nat);
        lemma_holds(text_lower(hosts[n - 1]), query);
        assert forall|i: usize| i < n implies (shown.contains(i) <==> #[trigger] holds(
            text_lower(hosts[i as int]),
            query,
        )) by {
            if i == last {
                if shown.contains(i) && shown == before {
                    let k = choose|k: int| 0 <= k < before.len() && before[k] == i;
                    assert(before[k] < n - 1);
                }
                if shown != before {
                    assert(shown[shown.len() - 1] == last);
                }
            } else {
                if before.contains(i) {
                    let k = choose|k: int| 0 <= k < before.len() && before[k] == i;
                    assert(shown[k] == i);
                }
                if shown.contains(i) {
                    let k = choose|k: int| 0 <= k < shown.len() && shown[k] == i;
                    assert(before[k] == i);
                }
            }
        }
    }
}

/// Whether a text holds another as a stretch of its own.
pub open spec fn holds(s: Seq<char>, t: Seq<char>) -> bool {
    exists|i: int| 0 <= i && i + t.len() <= s.len() && #[trigger] s.subrange(i, i + t.len()) == t
}

proof fn lemma_holds(s: Seq<char>, t: Seq<char>)
    ensures
        holds(s, t) <==> t.len() == 0 || occurrence(s, t) is Some,
{
    lemma_occurrence(s, t);
    if t.len() == 0 {
        assert(s.subrange(0, t.len() as int) =~= t);
        assert(s.subrange(0, 0 + t.len() as int) =~= t);
    }
}

/// The picker: the hosts, what is typed, the hosts shown and the one selected.
#[derive(Debug)]
pub struct SshPicker {
    pub hosts: Vec<String>,
    pub input: String,
    pub filtered: Vec<usize>,
    pub sel: usize,
}

/// What a key on a picker asks for.
#[derive(Debug)]
pub enum PickerStep {
    /// Nothing.
    Nothing,
    /// The page is to be drawn anew.
    Refresh,
    /// The page is to be closed.
    Close,
    /// The page is to be closed and this connected to, if there is one.
    Connect(Option<String>),
}

impl SshPicker {
    /// What is shown is there.
    pub open spec fn wf(&self) -> bool {
        &&& forall|k: int| 0 <= k < self.filtered@.len() ==> #[trigger] self.filtered@[k] < self.hosts@.len()
        &&& self.filtered@.len() <= self.hosts@.len()
        &&& self.sel <= self.filtered@.len()
        &&& 2 * self.hosts@.len() < usize::MAX
    }

    /// What the picker shows for its input, from the start.
    pub open spec fn shows(&self) -> bool {
        &&& self.filtered@ == hosts_matching(texts(self.hosts@), text_lower(self.input@), self.hosts@.len())
        &&& self.sel == 0
    }

    /// The picker over `hosts`, with nothing typed.
    pub fn open(hosts: Vec<String>) -> (r: Self)
        requires
            2 * hosts@.len() < usize::MAX,
        ensures
            r.wf(),
            r.shows(),
            r.hosts == hosts,
            r.input@.len() == 0,
    {
        let mut p = SshPicker { hosts, input: String::new(), filtered: Vec::new(), sel: 0 };
        p.refilter();
        p
    }

    /// Shows the hosts for the input anew.
    pub fn refilter(&mut self)
        requires
            2 * old(self).hosts@.len() < usize::MAX,
        ensures
            final(self).wf(),
            final(self).shows(),
            final(self).hosts == old(self).hosts,
            final(self).input@ == old(self).input@,
    {
        let q = lower_text(&self.input);
        let needle = chars_of(&q);
        let ghost hs = texts(self.hosts@);
        let mut out: Vec<usize> = Vec::new();
        for i in 0..self.hosts.len()
            invariant
                hs == texts(self.hosts@),
                needle@ == text_lower(self.input@),
                out@ == hosts_matching(hs, needle@, i as nat),
                out@.len() <= i,
                forall|k: int| 0 <= k < out@.len() ==> #[trigger] out@[k] < i,
        {
            assert(hs[i as int] == self.hosts@[i as int]@);
            let hit = needle.len() == 0 || find_text(&chars_of(&lower_text(&self.hosts[i])), &needle).is_some();
            if hit {
                out.push(i);
            }
        }
        self.filtered = out;
        self.sel = 0;
    }

    /// The host to connect to: the selected one, else what is typed.
    pub open spec fn chosen(&self) -> Option<Seq<char>> {
        if self.sel < self.filtered@.len() {
            Some(self.hosts@[self.filtered@[self.sel as int] as int]@)
        } else if trimmed(self.input@).len() > 0 {
            Some(trimmed(self.input@))
        } else {
            None
        }
    }

    /// The host to connect to.
    pub fn choice(&self) -> (r: Option<String>)
        requires
            self.wf(),
        ensures
            text_of(r) == self.chosen(),
    {
        if self.sel < self.filtered.len() {
            return Some(self.hosts[self.filtered[self.sel]].clone());
        }
        let cs = chars_of(&self.input);
        let t = trim(&cs);
        if t.len() > 0 {
            Some(string_of(t))
        } else {
            None
        }
    }

    /// What a key does on the picker, and what it asks for.
    pub fn key(&mut self, key: PageKey, text: Option<&str>) -> (r: PickerStep)
        requires
            old(self).wf(),
        ensures
            final(self).wf(),
            ssh_pressed(*old(self), key, chars(text), *final(self), r),
    {
        match key {
            PageKey::Escape => PickerStep::Close,
            PageKey::Enter => PickerStep::Connect(self.choice()),
            PageKey::Down => {
                self.sel = wrap_down(self.sel, self.filtered.len());
                PickerStep::Refresh
            },
            PageKey::Up => {
                self.sel = wrap_up(self.sel, self.filtered.len());
                PickerStep::Refresh
            },
            PageKey::Backspace => {
                self.input = shorten(&self.input);
                self.refilter();
                PickerStep::Refresh
            },
            _ => if type_into(&mut self.input, Accepts::Solid, text) {
                self.refilter();
                PickerStep::Refresh
            } else {
                PickerStep::Nothing
            },
        }
    }
}

/// What a key does on the picker, and what it asks for.
pub open spec fn ssh_pressed(
    before: SshPicker,
    key: PageKey,
    text: Option<Seq<char>>,
    after: SshPicker,
    step: PickerStep,
) -> bool {
    let n = before.filtered@.len() as int;
    &&& after.hosts == before.hosts
    &&& match key {
        PageKey::Escape => step is Close && after == before,
        PageKey::Enter => after == before && (step matches PickerStep::Connect(h) && text_of(h)
            == before.chosen()),
        PageKey::Down => {
            &&& step is Refresh
            &&& after.sel == wrapped_down(before.sel as int, n)
            &&& after.filtered == before.filtered
            &&& after.input@ == before.input@
        },
        PageKey::Up => {
            &&& step is Refresh
            &&& after.sel == wrapped_up(before.sel as int, n)
            &&& after.filtered == before.filtered
            &&& after.input@ == before.input@
        },
        PageKey::Backspace => step is Refresh && after.shows() && after.input@ == shortened(before.input@),
        _ => {
            let more = accepted(Accepts::Solid, text);
            &&& after.input@ == before.input@ + more
            &&& if more.len() == 0 {
                step is Nothing && after.filtered == before.filtered && after.sel == before.sel
            } else {
                step is Refresh && after.shows()
            }
        },
    }
}

// --- the search page ---

/// The search page: what is typed, the hits and the one selected.
#[derive(Debug)]
pub struct SearchPage {
    pub input: String,
    pub results: Vec<Match>,
    pub sel: usize,
}

/// What a key on the search page asks for.
#[derive(Debug)]
pub enum SearchStep {
    /// Nothing.
    Nothing,
    /// The page is to be drawn anew.
    Refresh,
    /// The page is to be closed.
    Close,
    /// The hit that is selected is to be opened.
    Open,
    /// This is to be searched for.
    Run(String),
}

impl SearchPage {
    /// The selection can be moved.
    pub open spec fn wf(&self) -> bool {
        &&& self.sel <= self.results@.len()
        &&& 2 * self.results@.len() < usize::MAX
    }

    /// Nothing typed and nothing found.
    pub fn open() -> (r: Self)
        ensures
            r.wf(),
            r.input@.len() == 0,
            r.results@.len() == 0,
            r.sel == 0,
    {
        SearchPage { input: String::new(), results: Vec::new(), sel: 0 }
    }

    /// Takes in what was found.
    pub fn show(&mut self, results: Vec<Match>)
        requires
            2 * results@.len() < usize::MAX,
        ensures
            final(self).wf(),
            final(self).results == results,
            final(self).sel == 0,
            final(self).input@ == old(self).input@,
    {
        self.results = results;
        self.sel = 0;
    }

    fn sought(&self) -> (r: String)
        ensures
            r@ == trimmed(self.input@),
    {
        let cs = chars_of(&self.input);
        string_of(trim(&cs))
    }

    /// What a key does on the search page, and what it asks for.
    pub fn key(&mut self, key: PageKey, text: Option<&str>) -> (r: SearchStep)
        requires
            old(self).wf(),
        ensures
            final(self).wf(),
            search_pressed(*old(self), key, chars(text), *final(self), r),
    {
        match key {
            PageKey::Escape => SearchStep::Close,
            PageKey::Enter => if self.sel < self.results.len() {
                SearchStep::Open
            } else {
                SearchStep::Nothing
            },
            PageKey::Down => {
                self.sel = wrap_down(self.sel, self.results.len());
                SearchStep::Refresh
            },
            PageKey::Up => {
                self.sel = wrap_up(self.sel, self.results.len());
                SearchStep::Refresh
            },
            PageKey::Backspace => {
                self.input = shorten(&self.input);
                SearchStep::Run(self.sought())
            },
            _ => if type_into(&mut self.input, Accepts::Printable, text) {
                SearchStep::Run(self.sought())
            } else {
                SearchStep::Nothing
            },
        }
    }
}

/// What a key does on the search page, and what it asks for.
pub open spec fn search_pressed(
    before: SearchPage,
    key: PageKey,
    text: Option<Seq<char>>,
    after: SearchPage,
    step: SearchStep,
) -> bool {
    let n = before.results@.len() as int;
    &&& after.results == before.results
    &&& match key {
        PageKey::Escape => step is Close && after == before,
        PageKey::Enter => after == before && if before.sel < n {
            step is Open
        } else {
            step is Nothing
        },
        PageKey::Down => step is Refresh && after.sel == wrapped_down(before.sel as int, n) && after.input@
            == before.input@,
        PageKey::Up => step is Refresh && after.sel == wrapped_up(before.sel as int, n) && after.input@
            == before.input@,
        PageKey::Backspace => {
            &&& after.input@ == shortened(before.input@)
            &&& after.sel == before.sel
            &&& step matches SearchStep::Run(q) && q@ == trimmed(after.input@)
        },
        _ => {
            let more = accepted(Accepts::Printable, text);
            &&& after.input@ == before.input@ + more
            &&& after.sel == before.sel
            &&& if more.len() == 0 {
                step is Nothing
            } else {
                step matches SearchStep::Run(q) && q@ == trimmed(after.input@)
            }
        },
    }
}

// --- prompts ---

/// What a key on a prompt asks for.
#[derive(Clone, Copy, Debug, PartialEq, Eq, Structural)]
pub enum PromptStep {
    /// Nothing.
    Nothing,
    /// The page is to be drawn anew.
    Refresh,
    /// The page is to be closed.
    Close,
    /// What is typed is to be used.
    Accept,
}

/// What a key does to what is typed into a prompt, and what it asks for.
pub open spec fn prompt_pressed(
    before: Seq<char>,
    accepts: Accepts,
    key: PageKey,
    text: Option<Seq<char>>,
    after: Seq<char>,
    step: PromptStep,
) -> bool {
    match key {
        PageKey::Escape => step is Close && after == before,
        PageKey::Enter => step is Accept && after == before,
        PageKey::Backspace => step is Refresh && after == shortened(before),
        _ => {
            let more = accepted(accepts, text);
            &&& after == before + more
            &&& step == if more.len() > 0 {
                PromptStep::Refresh
            } else {
                PromptStep::Nothing
            }
        },
    }
}

/// What a key does to what is typed into a prompt, and what it asks for.
pub fn prompt_key(input: &mut String, accepts: Accepts, key: PageKey, text: Option<&str>) -> (r: PromptStep)
    ensures
        prompt_pressed(old(input)@, accepts, key, chars(text), final(input)@, r),
{
    match key {
        PageKey::Escape => PromptStep::Close,
        PageKey::Enter => PromptStep::Accept,
        PageKey::Backspace => {
            *input = shorten(input.as_str());
            PromptStep::Refresh
        },
        _ => if type_into(input, accepts, text) {
            PromptStep::Refresh
        } else {
            PromptStep::Nothing
        },
    }
}

/// Whether a prompt holds more than white space.
pub fn is_filled(input: &str) -> (r: bool)
    ensures
        r == (trimmed(input@).len() > 0),
{
    trim(&chars_of(input)).len() > 0
}

/// What the host prompt shows after a connection failed.
pub fn failed_host(host: &str, what: &str, error: &str) -> (r: String)
    ensures
        r@ == host@ + "  ("@ + what@ + " failed: "@ + error@ + ")"@,
{
    let mut out = host.to_owned();
    push_text(&mut out, "  (");
    push_text(&mut out, what);
    push_text(&mut out, " failed: ");
    push_text(&mut out, error);
    push_text(&mut out, ")");
    out
}

/// What is typed on a prompt goes behind what stands there, and taking back as many characters leaves
/// what stood there; only Enter accepts.
pub proof fn prompts_are_typed_and_taken_back(
    before: Seq<char>,
    a: Accepts,
    c: char,
    typed: Seq<char>,
    s1: PromptStep,
    back: Seq<char>,
    s2: PromptStep,
    key: PageKey,
    other: Seq<char>,
    s3: PromptStep,
)
    requires
        takes(a, c),
        prompt_pressed(before, a, PageKey::Other, Some(seq![c]), typed, s1),
        prompt_pressed(typed, a, PageKey::Backspace, None, back, s2),
        prompt_pressed(before, a, key, None, other, s3),
    ensures
        typed == before.push(c),
        back == before,
        s1 is Refresh && s2 is Refresh,
        s3 is Accept <==> key is Enter,
        s3 is Close <==> key is Escape,
        !(key is Backspace) ==> other == before,
{
    inputs_take_their_characters(a, seq![c], seq![], c);
    assert(forall|i: int| 0 <= i < seq![c].len() ==> takes(a, #[trigger] seq![c][i]));
    assert(before + seq![c] =~= before.push(c));
    assert(typed.drop_last() =~= before);
    assert(before + Seq::<char>::empty() =~= before);
}

/// A host is connected to by its row, or else as it is typed, without the blanks around it; typing
/// filters the hosts anew, and taking back what was typed shows what was shown.
pub proof fn pickers_are_typed_and_taken_back(
    p: SshPicker,
    c: char,
    q: SshPicker,
    s1: PickerStep,
    b: SshPicker,
    s2: PickerStep,
)
    requires
        p.shows(),
        takes(Accepts::Solid, c),
        ssh_pressed(p, PageKey::Other, Some(seq![c]), q, s1),
        ssh_pressed(q, PageKey::Backspace, None, b, s2),
    ensures
        q.input@ == p.input@.push(c),
        q.shows(),
        b.input@ == p.input@,
        b.hosts == p.hosts,
        b.filtered@ == p.filtered@,
        b.sel == p.sel,
        p.filtered@.len() > 0 ==> p.chosen() == Some(p.hosts@[p.filtered@[0] as int]@),
        p.filtered@.len() == 0 && trimmed(p.input@).len() > 0 ==> p.chosen() == Some(trimmed(p.input@)),
{
    inputs_take_their_characters(Accepts::Solid, seq![c], seq![], c);
    assert(forall|i: int| 0 <= i < seq![c].len() ==> takes(Accepts::Solid, #[trigger] seq![c][i]));
    assert(p.input@ + seq![c] =~= p.input@.push(c));
    assert(q.input@.drop_last() =~= p.input@);
}

/// What is searched for is what stands in the input, without the blanks around it, after every key
/// that changes it; Enter opens the hit that is selected, where there is one.
pub proof fn searches_follow_the_input(p: SearchPage, key: PageKey, text: Option<Seq<char>>, q: SearchPage, s: SearchStep)
    requires
        search_pressed(p, key, text, q, s),
    ensures
        s matches SearchStep::Run(t) ==> t@ == trimmed(q.input@),
        q.input@.len() != p.input@.len() ==> s is Run,
        s is Open <==> key is Enter && p.sel < p.results@.len(),
        s is Close <==> key is Escape,
        key is Enter || key is Escape || key is Up || key is Down ==> q.input@ == p.input@,
        key is Backspace ==> q.input@ == shortened(p.input@),
        !(key is Up || key is Down) ==> q.sel == p.sel,
        p.sel + 1 < p.results@.len() && key is Down ==> q.sel == p.sel + 1,
        0 < p.sel < p.results@.len() && key is Up ==> q.sel == p.sel - 1,
{
    if p.sel < p.results@.len() {
        wrapping_goes_round(p.sel as int, p.results@.len() as int);
    }
    if !(key is Enter || key is Escape || key is Up || key is Down || key is Backspace) {
        assert(q.input@.len() == p.input@.len() + accepted(Accepts::Printable, text).len());
    }
}

/// The help page scrolls by one row, like a list that does not go round.
pub proof fn help_scrolls_by_rows(scroll: int, n: int)
    requires
        0 <= scroll < n,
    ensures
        help_scrolled(scroll, n, PageKey::Down) == bumped(scroll, n, true, 1),
        help_scrolled(scroll, n, PageKey::PageDown) == bumped(scroll, n, true, 1),
        help_scrolled(scroll, n, PageKey::Up) == bumped(scroll, n, false, 1),
        help_scrolled(scroll, n, PageKey::PageUp) == bumped(scroll, n, false, 1),
        help_scrolled(scroll, n, PageKey::Enter) == scroll,
{
}

/// How far a page of `n` rows is scrolled after a key, a row at a time.
pub open spec fn help_scrolled(scroll: int, n: int, key: PageKey) -> int {
    match key {
        PageKey::Down | PageKey::PageDown => if n == 0 {
            0
        } else if scroll + 1 < n {
            scroll + 1
        } else {
            n - 1
        },
        PageKey::Up | PageKey::PageUp => if scroll > 0 {
            scroll - 1
        } else {
            0
        },
        _ => scroll,
    }
}

/// What a key does on the help page of `n` rows, and what it asks for.
pub fn help_key(scroll: &mut usize, n: usize, key: PageKey) -> (r: PromptStep)
    requires
        *old(scroll) < usize::MAX,
    ensures
        *final(scroll) == help_scrolled(*old(scroll) as int, n as int, key),
        r == match key {
            PageKey::Escape => PromptStep::Close,
            PageKey::Down | PageKey::PageDown | PageKey::Up | PageKey::PageUp => PromptStep::Refresh,
            _ => PromptStep::Nothing,
        },
{
    match key {
        PageKey::Escape => PromptStep::Close,
        PageKey::Down | PageKey::PageDown => {
            *scroll = if n == 0 {
                0
            } else if *scroll + 1 < n {
                *scroll + 1
            } else {
                n - 1
            };
            PromptStep::Refresh
        },
        PageKey::Up | PageKey::PageUp => {
            if *scroll > 0 {
                *scroll = *scroll - 1;
            }
            PromptStep::Refresh
        },
        _ => PromptStep::Nothing,
    }
}

/// A line names hosts where its first word is the keyword, in capitals or not, and nothing longer.
pub proof fn the_keyword_names_hosts(ws: Seq<Seq<char>>)
    ensures
        is_host_line(ws) <==> ws.len() > 0 && ws[0].len() == 4 && (ws[0][0] == 'h' || ws[0][0] == 'H') && (ws[0][1]
            == 'o' || ws[0][1] == 'O') && (ws[0][2] == 's' || ws[0][2] == 'S') && (ws[0][3] == 't' || ws[0][3]
            == 'T'),
{
    if ws.len() > 0 {
        let low = Seq::new(ws[0].len(), |i: int| ascii_lower(ws[0][i]));
        assert(is_host_line(ws) == (low == "host"@));
        assert forall|i: int| 0 <= i < ws[0].len() implies #[trigger] low[i] == ascii_lower(ws[0][i]) by {}
        lemma_keyword(ws[0], low);
    }
}

proof fn lemma_keyword(w: Seq<char>, low: Seq<char>)
    requires
        low.len() == w.len(),
        forall|i: int| 0 <= i < w.len() ==> #[trigger] low[i] == ascii_lower(w[i]),
    ensures
        low == "host"@ <==> w.len() == 4 && (w[0] == 'h' || w[0] == 'H') && (w[1] == 'o' || w[1] == 'O') && (w[2]
            == 's' || w[2] == 'S') && (w[3] == 't' || w[3] == 'T'),
{
    reveal_strlit("host");
    let host = "host"@;
    assert(host.len() == 4 && host[0] == 'h' && host[1] == 'o' && host[2] == 's' && host[3] == 't');
    if w.len() == 4 {
        assert(low[0] == ascii_lower(w[0]));
        assert(low[1] == ascii_lower(w[1]));
        assert(low[2] == ascii_lower(w[2]));
        assert(low[3] == ascii_lower(w[3]));
        lemma_lowered(w[0], 'h', 'H');
        lemma_lowered(w[1], 'o', 'O');
        lemma_lowered(w[2], 's', 'S');
        lemma_lowered(w[3], 't', 'T');
        if low[0] == 'h' && low[1] == 'o' && low[2] == 's' && low[3] == 't' {
            assert(low =~= host);
        }
    }
}

proof fn lemma_lowered(c: char, small: char, capital: char)
    requires
        'A' <= capital <= 'Z',
        small as int == capital as int + 32,
    ensures
        ascii_lower(c) == small <==> c == small || c == capital,
{
}

/// Behind the keyword every word is a host, but for a pattern; what stands behind another word is not.
pub proof fn words_behind_the_keyword_are_hosts(key: Seq<char>, c: char, name: Seq<char>, d: char, more: Seq<char>, other: Seq<char>)
    requires
        is_white(c) && is_white(d),
        key.len() > 0,
        forall|i: int| 0 <= i < key.len() ==> !is_white(#[trigger] key[i]),
        name.len() > 0,
        forall|i: int| 0 <= i < name.len() ==> !is_white(#[trigger] name[i]),
    ensures
        ({
            let line = key.push(c) + (name.push(d) + more);
            &&& is_host_line(seq![key]) && is_host(name) ==> names_host(line, name)
            &&& is_host_line(seq![key]) && is_host(other) && words(more).contains(other) ==> names_host(line, other)
            &&& !is_host_line(seq![key]) ==> !names_host(line, name)
            &&& !is_host(name) ==> !names_host(line, name)
            &&& names_host(line, other) ==> other == name || words(more).contains(other)
        }),
{
    let rest = name.push(d) + more;
    let line = key.push(c) + rest;
    words_end_at_white_space(key, c, rest);
    words_end_at_white_space(name, d, more);
    let ws = words(line);
    assert(ws =~= seq![key] + (seq![name] + words(more)));
    assert(ws[0] == key && ws[1] == name);
    assert(is_host_line(ws) == is_host_line(seq![key])) by {
        assert(seq![key][0] == key);
    }
    if words(more).contains(other) {
        let k = choose|k: int| 0 <= k < words(more).len() && words(more)[k] == other;
        assert(ws[k + 2] == other);
    }
    if names_host(line, other) {
        let k = choose|k: int| 1 <= k < ws.len() && #[trigger] ws[k] == other;
        if k > 1 {
            assert(words(more)[k - 2] == other);
        }
    }
}

} // verus!
