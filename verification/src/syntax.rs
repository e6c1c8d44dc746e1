//! Syntax highlighting: from the events of a parser to flat spans of text.

use vstd::prelude::*;
use crate::bytes::byte_len;
use crate::text::same;

verus! {

/// A language with a grammar.
#[derive(Clone, Copy, Debug, PartialEq, Eq, Structural)]
pub enum Lang {
    Rust,
    Toml,
    Json,
}

/// The language of a file extension.
pub open spec fn lang_of(ext: Seq<char>) -> Option<Lang> {
    if ext == "rs"@ {
        Some(Lang::Rust)
    } else if ext == "toml"@ || ext == "lock"@ {
        Some(Lang::Toml)
    } else if ext == "json"@ {
        Some(Lang::Json)
    } else {
        None
    }
}

/// The language of a file extension, in lower case and without the dot.
pub fn lang_for_ext(ext: &str) -> (r: Option<Lang>)
    ensures
        r == lang_of(ext@),
{
    if same(ext, "rs") {
        Some(Lang::Rust)
    } else if same(ext, "toml") || same(ext, "lock") {
        Some(Lang::Toml)
    } else if same(ext, "json") {
        Some(Lang::Json)
    } else {
        None
    }
}

/// How a stretch of text is shown.
#[derive(Clone, Copy, Debug, PartialEq, Eq, Structural)]
pub enum Style {
    Keyword,
    Function,
    Type,
    String,
    Number,
    Comment,
    Property,
    Punct,
}

/// A stretch of bytes with its style.
#[derive(Clone, Copy, Debug, PartialEq, Eq, Structural)]
pub struct Span {
    pub start: usize,
    pub end: usize,
    pub style: Style,
}

/// The names of what a grammar captures, in the order of their numbers.
pub open spec fn capture_names() -> Seq<Seq<char>> {
    seq![
        "keyword"@,
        "function"@,
        "constructor"@,
        "type"@,
        "attribute"@,
        "string"@,
        "escape"@,
        "number"@,
        "constant"@,
        "comment"@,
        "property"@,
        "punctuation"@,
        "operator"@,
        "variable.builtin"@,
    ]
}

/// The style of what is captured under a name.
pub open spec fn style_named(name: Seq<char>) -> Style {
    if name == "keyword"@ || name == "variable.builtin"@ {
        Style::Keyword
    } else if name == "function"@ || name == "constructor"@ {
        Style::Function
    } else if name == "type"@ || name == "attribute"@ {
        Style::Type
    } else if name == "string"@ || name == "escape"@ {
        Style::String
    } else if name == "number"@ || name == "constant"@ {
        Style::Number
    } else if name == "comment"@ {
        Style::Comment
    } else if name == "property"@ {
        Style::Property
    } else {
        Style::Punct
    }
}

/// The style of what is captured under a number.
pub open spec fn capture_style(idx: usize) -> Style {
    if idx < capture_names().len() {
        style_named(capture_names()[idx as int])
    } else {
        Style::Punct
    }
}

/// The names of what a grammar captures.
fn captures() -> (r: Vec<&'static str>)
    ensures
        r@.len() == 14,
        forall|i: int| 0 <= i < 14 ==> (#[trigger] r@[i])@ == capture_names()[i],
{
    vec![
        "keyword",
        "function",
        "constructor",
        "type",
        "attribute",
        "string",
        "escape",
        "number",
        "constant",
        "comment",
        "property",
        "punctuation",
        "operator",
        "variable.builtin",
    ]
}

/// The style of what is captured under a number.
pub fn style_for_capture(idx: usize) -> (r: Style)
    ensures
        r == capture_style(idx),
{
    let names = captures();
    if idx >= names.len() {
        return Style::Punct;
    }
    let name = names[idx];
    if same(name, "keyword") || same(name, "variable.builtin") {
        Style::Keyword
    } else if same(name, "function") || same(name, "constructor") {
        Style::Function
    } else if same(name, "type") || same(name, "attribute") {
        Style::Type
    } else if same(name, "string") || same(name, "escape") {
        Style::String
    } else if same(name, "number") || same(name, "constant") {
        Style::Number
    } else if same(name, "comment") {
        Style::Comment
    } else if same(name, "property") {
        Style::Property
    } else {
        Style::Punct
    }
}

/// What a highlighter reports.
#[derive(Clone, Copy, Debug, PartialEq, Eq, Structural)]
pub enum Event {
    /// What is captured under a number begins.
    Start(usize),
    /// What began last ends.
    End,
    /// A stretch of the text.
    Source { start: usize, end: usize },
    /// The highlighter failed.
    Failed,
}

/// What is open, and the spans so far, after the first `n` events; nothing changes from a
/// failure on.
pub struct Highlighting {
    pub stack: Seq<Style>,
    pub spans: Seq<Span>,
    pub failed: bool,
}

/// The spans with one more stretch: one that goes on where the last ends, in the same style,
/// makes that longer.
pub open spec fn with_stretch(spans: Seq<Span>, start: usize, end: usize, style: Style) -> Seq<Span> {
    if spans.len() > 0 && spans.last().end == start && spans.last().style == style {
        spans.drop_last().push(Span { start: spans.last().start, end, style })
    } else {
        spans.push(Span { start, end, style })
    }
}

/// The state after one more event.
pub open spec fn after_event(h: Highlighting, e: Event) -> Highlighting {
    if h.failed {
        h
    } else {
        match e {
            Event::Start(idx) => Highlighting { stack: h.stack.push(capture_style(idx)), ..h },
            Event::End => if h.stack.len() > 0 {
                Highlighting { stack: h.stack.drop_last(), ..h }
            } else {
                h
            },
            Event::Source { start, end } => if h.stack.len() > 0 {
                Highlighting { spans: with_stretch(h.spans, start, end, h.stack.last()), ..h }
            } else {
                h
            },
            Event::Failed => Highlighting { failed: true, ..h },
        }
    }
}

/// The state after the first `n` events.
pub open spec fn highlighting(es: Seq<Event>, n: nat) -> Highlighting
    decreases n,
{
    if n == 0 {
        Highlighting { stack: Seq::empty(), spans: Seq::empty(), failed: false }
    } else {
        after_event(highlighting(es, (n - 1) as nat), es[n - 1])
    }
}

/// The spans that events describe: each stretch in the style of what began last.
pub open spec fn spans_of(es: Seq<Event>) -> Seq<Span> {
    highlighting(es, es.len()).spans
}

proof fn lemma_failed(es: Seq<Event>, k: nat, n: nat)
    requires
        k <= n,
        highlighting(es, k).failed,
    ensures
        highlighting(es, n) == highlighting(es, k),
    decreases n,
{
    if k < n {
        lemma_failed(es, k, (n - 1) as nat);
    }
}

/// The spans that events describe.
pub fn merge_events(events: &Vec<Event>) -> (r: Vec<Span>)
    ensures
        r@ == spans_of(events@),
{
    let mut stack: Vec<Style> = Vec::new();
    let mut spans: Vec<Span> = Vec::new();
    for i in 0..events.len()
        invariant
            highlighting(events@, i as nat) == (Highlighting {
                stack: stack@,
                spans: spans@,
                failed: false,
            }),
    {
        match events[i] {
            Event::Start(idx) => {
                stack.push(style_for_capture(idx));
            },
            Event::End => {
                let ghost before = stack@;
                let _ = stack.pop();
                assert(before.len() > 0 ==> stack@ =~= before.drop_last());
            },
            Event::Source { start, end } => {
                if stack.len() > 0 {
                    let style = stack[stack.len() - 1];
                    let n = spans.len();
                    let ghost before = spans@;
                    if n > 0 && spans[n - 1].end == start && spans[n - 1].style == style {
                        let longer = Span { start: spans[n - 1].start, end, style };
                        spans.set(n - 1, longer);
                        assert(spans@ =~= before.drop_last().push(longer));
                    } else {
                        spans.push(Span { start, end, style });
                    }
                }
            },
            Event::Failed => {
                proof {
                    lemma_failed(events@, (i + 1) as nat, events@.len());
                }
                return spans;
            },
        }
    }
    spans
}

/// The stretches come one after the other, each with something in it.
pub open spec fn stretches_ascend(es: Seq<Event>) -> bool {
    &&& forall|i: int|
        0 <= i < es.len() ==> ((#[trigger] es[i]) matches Event::Source { start, end } ==> start < end)
    &&& forall|i: int, j: int|
        0 <= i < j < es.len() ==> ((#[trigger] es[i]) matches Event::Source { start: _, end } ==> ((
        #[trigger] es[j]) matches Event::Source { start, end: _ } ==> end <= start))
}

/// The spans come one after the other, each with something in it.
pub open spec fn spans_ascend(s: Seq<Span>) -> bool {
    &&& forall|i: int| 0 <= i < s.len() ==> (#[trigger] s[i]).start < s[i].end
    &&& forall|i: int, j: int| 0 <= i < j < s.len() ==> (#[trigger] s[i]).end <= (#[trigger] s[j]).start
}

proof fn lemma_ascend(es: Seq<Event>, n: nat)
    requires
        stretches_ascend(es),
        n <= es.len(),
    ensures
        spans_ascend(highlighting(es, n).spans),
        forall|k: int, j: int|
            0 <= k < highlighting(es, n).spans.len() && n <= j < es.len() ==> ((#[trigger] es[j]) matches
            Event::Source { start, end: _ } ==> (#[trigger] highlighting(es, n).spans[k]).end <= start),
    decreases n,
{
    if n > 0 {
        let m = (n - 1) as nat;
        lemma_ascend(es, m);
        let before = highlighting(es, m);
        let now = highlighting(es, n);
        let e = es[n - 1];
        if !before.failed && before.stack.len() > 0 {
            if let Event::Source { start, end } = e {
                assert forall|k: int| 0 <= k < before.spans.len() implies (#[trigger] before.spans[k]).end
                    <= start by {
                    assert(es[m as int] == e);
                }
                assert forall|k: int, j: int| 0 <= k < now.spans.len() && n <= j < es.len() implies ((
                #[trigger] es[j]) matches Event::Source { start, end: _ } ==> (#[trigger] now.spans[k]).end
                    <= start) by {
                    assert(es[m as int] == e);
                    if k < before.spans.len() && now.spans[k].end != end {
                        assert(now.spans[k] == before.spans[k]);
                    }
                }
                assert(spans_ascend(now.spans)) by {
                    let s = now.spans;
                    assert forall|i: int| 0 <= i < s.len() implies (#[trigger] s[i]).start < s[i].end by {
                        if i < s.len() - 1 {
                            assert(s[i] == before.spans[i]);
                        }
                    }
                    assert forall|i: int, j: int| 0 <= i < j < s.len() implies (#[trigger] s[i]).end <= (
                    #[trigger] s[j]).start by {
                        assert(s[i] == before.spans[i]);
                        if j < s.len() - 1 {
                            assert(s[j] == before.spans[j]);
                        } else if s.len() == before.spans.len() {
                            assert(s[j].start == before.spans[j].start);
                        }
                    }
                }
            }
        }
    }
}

/// Where the stretches ascend, so do the spans: they do not overlap.
pub proof fn spans_do_not_overlap(es: Seq<Event>)
    requires
        stretches_ascend(es),
    ensures
        spans_ascend(spans_of(es)),
{
    lemma_ascend(es, es.len());
}

/// No stretch ends further on than `size`.
pub open spec fn stretches_within(es: Seq<Event>, size: nat) -> bool {
    forall|i: int| 0 <= i < es.len() ==> ((#[trigger] es[i]) matches Event::Source { start: _, end } ==> end
        <= size)
}

/// No span ends further on than `size`.
pub open spec fn spans_within(s: Seq<Span>, size: nat) -> bool {
    forall|i: int| 0 <= i < s.len() ==> (#[trigger] s[i]).end <= size
}

/// Where one span begins at the end of the one before, their styles differ.
pub open spec fn neighbours_differ(s: Seq<Span>) -> bool {
    forall|i: int, j: int|
        0 <= i < j < s.len() && j == i + 1 && (#[trigger] s[i]).end == (#[trigger] s[j]).start ==> s[i].style
            != s[j].style
}

proof fn lemma_merged(es: Seq<Event>, size: nat, n: nat)
    requires
        n <= es.len(),
    ensures
        stretches_within(es, size) ==> spans_within(highlighting(es, n).spans, size),
        neighbours_differ(highlighting(es, n).spans),
    decreases n,
{
    if n > 0 {
        let m = (n - 1) as nat;
        lemma_merged(es, size, m);
        let before = highlighting(es, m);
        let now = highlighting(es, n);
        if !before.failed && before.stack.len() > 0 {
            if let Event::Source { start, end } = es[n - 1] {
                let old = before.spans;
                let s = now.spans;
                assert forall|i: int, j: int|
                    0 <= i < j < s.len() && j == i + 1 && (#[trigger] s[i]).end == (#[trigger] s[j]).start implies s[i].style
                    != s[j].style by {
                    assert(s[i] == old[i]);
                    if j < old.len() {
                        assert(s[j].start == old[j].start && s[j].style == old[j].style);
                    }
                }
                if stretches_within(es, size) {
                    assert forall|i: int| 0 <= i < s.len() implies (#[trigger] s[i]).end <= size by {
                        assert(es[m as int] == es[n - 1]);
                        if i < s.len() - 1 {
                            assert(s[i] == old[i]);
                        }
                    }
                }
            }
        }
    }
}

/// Stretches of one style that touch are one span, and where no stretch ends further on than `size`,
/// no span does.
pub proof fn spans_are_merged(es: Seq<Event>, size: nat)
    ensures
        neighbours_differ(spans_of(es)),
        stretches_within(es, size) ==> spans_within(spans_of(es), size),
{
    lemma_merged(es, size, es.len());
}

/// The outside highlighter: a parser and its scratch space.
#[verifier::external_type_specification]
#[verifier::external_body]
pub struct ExHighlighter(tree_sitter_highlight::Highlighter);

/// The outside configuration of a highlighter for one language.
#[verifier::external_type_specification]
#[verifier::external_body]
pub struct ExHighlightConfiguration(tree_sitter_highlight::HighlightConfiguration);

/// `Highlighter::new` makes a highlighter; nothing is claimed of it.
pub assume_specification[ tree_sitter_highlight::Highlighter::new ]() -> tree_sitter_highlight::Highlighter
;

/// What a highlighter reports of a text under a configuration; `None` where it cannot begin.
pub uninterp spec fn config_events(
    config: tree_sitter_highlight::HighlightConfiguration,
    text: Seq<char>,
) -> Option<Seq<Event>>;

/// What a highlighter reports of a text in a language whose captures are numbered as in a
/// list of names.
pub uninterp spec fn language_events(lang: Lang, names: Seq<Seq<char>>, text: Seq<char>) -> Option<
    Seq<Event>,
>;

/// Whether the grammar of a language and its highlight query fit each other.
pub uninterp spec fn grammar_fits(lang: Lang) -> bool;

/// The names in a list.
pub open spec fn name_views(v: Seq<&'static str>) -> Seq<Seq<char>> {
    Seq::new(v.len(), |i: int| v[i]@)
}

/// `HighlightConfiguration::new` with the language and the highlight query of the bundled
/// grammar crate, and `HighlightConfiguration::configure` with the names. The first compiles the
/// query against the grammar and fails only where that does, so whether there is a result
/// depends on the language alone: under the name [`grammar_fits`]. The second cannot fail. What
/// a highlighter reports under the result goes by the name [`language_events`]: it depends on
/// the language, the names and the text.
#[verifier::external_body]
fn configure(lang: Lang, names: &Vec<&'static str>) -> (r: Option<tree_sitter_highlight::HighlightConfiguration>)
    ensures
        r is Some == grammar_fits(lang),
        r matches Some(c) ==> forall|t: Seq<char>| #[trigger]
            config_events(c, t) == language_events(lang, name_views(names@), t),
{
    let (language, name, query): (tree_sitter::Language, &str, &str) = match lang {
        Lang::Rust => (tree_sitter_rust::LANGUAGE.into(), "rust", tree_sitter_rust::HIGHLIGHTS_QUERY),
        Lang::Toml => (tree_sitter_toml_ng::LANGUAGE.into(), "toml", tree_sitter_toml_ng::HIGHLIGHTS_QUERY),
        Lang::Json => (tree_sitter_json::LANGUAGE.into(), "json", tree_sitter_json::HIGHLIGHTS_QUERY),
    };
    let mut c = tree_sitter_highlight::HighlightConfiguration::new(language, name, query, "", "").ok()?;
    c.configure(names);
    Some(c)
}

/// `Highlighter::highlight` on the text's bytes, without cancellation or injected languages,
/// its events collected, an error as [`Event::Failed`]: under the name [`config_events`]. The
/// iterator keeps the offset up to which it has reported, and each stretch begins there and
/// ends further on, so the stretches ascend. It ends where a node of the parsed text begins or ends,
/// or at the end of the text, so no stretch ends behind the text.
#[verifier::external_body]
fn run_highlighter(
    highlighter: &mut tree_sitter_highlight::Highlighter,
    config: &tree_sitter_highlight::HighlightConfiguration,
    text: &str,
) -> (r: Option<Vec<Event>>)
    ensures
        match r {
            Some(es) => config_events(*config, text@) == Some(es@) && stretches_ascend(es@)
                && stretches_within(es@, byte_len(text@)),
            None => config_events(*config, text@) is None,
        },
{
    let events = highlighter.highlight(config, text.as_bytes(), None, None, |_| None).ok()?;
    Some(events.map(|e| match e {
        Ok(tree_sitter_highlight::HighlightEvent::HighlightStart(h)) => Event::Start(h.0),
        Ok(tree_sitter_highlight::HighlightEvent::HighlightEnd) => Event::End,
        Ok(tree_sitter_highlight::HighlightEvent::Source { start, end }) => Event::Source { start, end },
        Err(_) => Event::Failed,
    }).collect())
}

/// A highlighter with the configurations of the bundled languages.
pub struct SyntaxSet {
    highlighter: tree_sitter_highlight::Highlighter,
    rust: Option<tree_sitter_highlight::HighlightConfiguration>,
    toml: Option<tree_sitter_highlight::HighlightConfiguration>,
    json: Option<tree_sitter_highlight::HighlightConfiguration>,
}

/// A configuration reports what its language does.
pub open spec fn speaks(config: Option<tree_sitter_highlight::HighlightConfiguration>, lang: Lang) -> bool {
    config matches Some(c) ==> forall|t: Seq<char>| #[trigger]
        config_events(c, t) == language_events(lang, capture_names(), t)
}

impl SyntaxSet {
    /// Whether the language could be configured.
    pub closed spec fn knows(&self, lang: Lang) -> bool {
        match lang {
            Lang::Rust => self.rust is Some,
            Lang::Toml => self.toml is Some,
            Lang::Json => self.json is Some,
        }
    }

    /// Each configuration is that of its language.
    pub closed spec fn wf(&self) -> bool {
        &&& speaks(self.rust, Lang::Rust)
        &&& speaks(self.toml, Lang::Toml)
        &&& speaks(self.json, Lang::Json)
    }

    /// Configures the bundled languages: each whose grammar and query fit, and no other.
    pub fn new() -> (r: Self)
        ensures
            r.wf(),
            forall|l: Lang| r.knows(l) == grammar_fits(l),
    {
        let names = captures();
        assert(name_views(names@) =~= capture_names());
        SyntaxSet {
            highlighter: tree_sitter_highlight::Highlighter::new(),
            rust: configure(Lang::Rust, &names),
            toml: configure(Lang::Toml, &names),
            json: configure(Lang::Json, &names),
        }
    }

    /// Highlights `text`: spans that ascend, do not overlap and lie in the text, those of one style
    /// that touch made one; none in a language that is not configured or where the highlighter
    /// cannot begin.
    pub fn highlight(&mut self, lang: Lang, text: &str) -> (r: Vec<Span>)
        requires
            old(self).wf(),
        ensures
            final(self).wf(),
            forall|l: Lang| final(self).knows(l) == old(self).knows(l),
            r@ == if old(self).knows(lang) {
                match language_events(lang, capture_names(), text@) {
                    Some(es) => spans_of(es),
                    None => Seq::empty(),
                }
            } else {
                Seq::empty()
            },
            spans_ascend(r@),
            spans_within(r@, byte_len(text@)),
            neighbours_differ(r@),
    {
        let config = match lang {
            Lang::Rust => &self.rust,
            Lang::Toml => &self.toml,
            Lang::Json => &self.json,
        };
        match config {
            Some(c) => match run_highlighter(&mut self.highlighter, c, text) {
                Some(events) => {
                    proof {
                        spans_do_not_overlap(events@);
                        spans_are_merged(events@, byte_len(text@));
                    }
                    merge_events(&events)
                },
                None => Vec::new(),
            },
            None => Vec::new(),
        }
    }
}

impl Default for SyntaxSet {
    fn default() -> (r: Self)
        ensures
            r.wf(),
            forall|l: Lang| r.knows(l) == grammar_fits(l),
    {
        SyntaxSet::new()
    }
}

/// A language is known by the endings of its files, and a file with another ending is not coloured.
pub proof fn endings_name_languages(ext: Seq<char>)
    ensures
        lang_of(ext) == Some(Lang::Rust) <==> ext == "rs"@,
        lang_of(ext) == Some(Lang::Toml) <==> ext == "toml"@ || ext == "lock"@,
        lang_of(ext) == Some(Lang::Json) <==> ext == "json"@,
{
    reveal_strlit("rs");
    reveal_strlit("toml");
    reveal_strlit("lock");
    reveal_strlit("json");
    assert("rs"@.len() == 2 && "toml"@.len() == 4 && "lock"@.len() == 4 && "json"@.len() == 4);
    assert("toml"@[0] == 't' && "lock"@[0] == 'l' && "json"@[0] == 'j');
}

proof fn lemma_names_apart()
    ensures
        "keyword"@ != "function"@ && "variable.builtin"@ != "constructor"@ && "keyword"@ != "constructor"@,
        "variable.builtin"@ != "function"@,
        "string"@ != "keyword"@ && "string"@ != "variable.builtin"@ && "string"@ != "function"@ && "string"@
            != "constructor"@ && "string"@ != "type"@ && "string"@ != "attribute"@,
        "comment"@ != "keyword"@ && "comment"@ != "variable.builtin"@ && "comment"@ != "function"@
            && "comment"@ != "constructor"@ && "comment"@ != "type"@ && "comment"@ != "attribute"@
            && "comment"@ != "string"@ && "comment"@ != "escape"@ && "comment"@ != "number"@ && "comment"@
            != "constant"@,
        "number"@ != "keyword"@ && "number"@ != "variable.builtin"@ && "number"@ != "function"@ && "number"@
            != "constructor"@ && "number"@ != "type"@ && "number"@ != "attribute"@ && "number"@ != "string"@
            && "number"@ != "escape"@,
        "type"@ != "keyword"@ && "type"@ != "variable.builtin"@ && "type"@ != "function"@ && "type"@
            != "constructor"@,
        "property"@ != "keyword"@ && "property"@ != "variable.builtin"@ && "property"@ != "function"@
            && "property"@ != "constructor"@ && "property"@ != "type"@ && "property"@ != "attribute"@
            && "property"@ != "string"@ && "property"@ != "escape"@ && "property"@ != "number"@ && "property"@
            != "constant"@ && "property"@ != "comment"@,
{
    reveal_strlit("keyword");
    reveal_strlit("variable.builtin");
    reveal_strlit("function");
    reveal_strlit("constructor");
    reveal_strlit("type");
    reveal_strlit("attribute");
    reveal_strlit("string");
    reveal_strlit("escape");
    reveal_strlit("number");
    reveal_strlit("constant");
    reveal_strlit("comment");
    reveal_strlit("property");
    assert("keyword"@[0] == 'k' && "variable.builtin"@[0] == 'v' && "function"@[0] == 'f' && "constructor"@.len()
        == 11);
    assert("type"@[0] == 't' && "attribute"@[0] == 'a' && "string"@[0] == 's' && "escape"@[0] == 'e');
    assert("number"@[0] == 'n' && "constant"@.len() == 8 && "comment"@.len() == 7 && "property"@[0] == 'p');
    assert("comment"@[0] == 'c' && "constant"@[0] == 'c' && "constructor"@[0] == 'c');
}

/// What is captured is coloured as what it is called: a string as a string, a comment as a comment.
pub proof fn captures_are_coloured_by_name(i: usize)
    requires
        i < capture_names().len(),
    ensures
        capture_names()[i as int] == "keyword"@ ==> capture_style(i) is Keyword,
        capture_names()[i as int] == "function"@ ==> capture_style(i) is Function,
        capture_names()[i as int] == "type"@ ==> capture_style(i) is Type,
        capture_names()[i as int] == "string"@ ==> capture_style(i) is String,
        capture_names()[i as int] == "number"@ ==> capture_style(i) is Number,
        capture_names()[i as int] == "comment"@ ==> capture_style(i) is Comment,
        capture_names()[i as int] == "property"@ ==> capture_style(i) is Property,
{
    lemma_names_apart();
}

/// Whether a byte is coloured in a style.
pub open spec fn coloured(spans: Seq<Span>, at: int, style: Style) -> bool {
    exists|k: int| 0 <= k < spans.len() && (#[trigger] spans[k]).start <= at < spans[k].end && spans[k].style == style
}

/// A stretch that is put behind the spans colours its own bytes, and leaves the others as they are.
pub proof fn stretches_colour_their_bytes(
    spans: Seq<Span>,
    start: usize,
    end: usize,
    style: Style,
    at: int,
    other: Style,
)
    requires
        start <= end,
        spans.len() > 0 ==> spans.last().start <= spans.last().end,
    ensures
        coloured(with_stretch(spans, start, end, style), at, other) <==> coloured(spans, at, other) || (start
            <= at < end && other == style),
{
    let now = with_stretch(spans, start, end, style);
    let last = now.len() - 1;
    if coloured(spans, at, other) {
        let k = choose|k: int|
            0 <= k < spans.len() && (#[trigger] spans[k]).start <= at < spans[k].end && spans[k].style == other;
        if k < last {
            assert(now[k] == spans[k]);
        } else {
            assert(now[k].start <= at < now[k].end);
        }
        assert(now[k].start <= at < now[k].end && now[k].style == other);
    }
    if start <= at < end && other == style {
        assert(now[last].start <= at < now[last].end);
    }
    if coloured(now, at, other) {
        let k = choose|k: int|
            0 <= k < now.len() && (#[trigger] now[k]).start <= at < now[k].end && now[k].style == other;
        if k < last {
            assert(now[k] == spans[k]);
            assert(coloured(spans, at, other));
        } else if !(start <= at < end) {
            assert(spans[last].start <= at < spans[last].end);
            assert(coloured(spans, at, other));
        }
    }
}

/// A stretch is coloured as the innermost of what is open there, and what began inside is over once it
/// ends; outside of everything nothing is coloured, and after a failure nothing more.
pub proof fn the_innermost_capture_counts(h: Highlighting, outer: usize, inner: usize, start: usize, end: usize)
    requires
        !h.failed,
    ensures
        ({
            let source = Event::Source { start, end };
            let o = after_event(h, Event::Start(outer));
            let i = after_event(o, Event::Start(inner));
            &&& after_event(o, source).spans == with_stretch(h.spans, start, end, capture_style(outer))
            &&& after_event(i, source).spans == with_stretch(h.spans, start, end, capture_style(inner))
            &&& after_event(i, Event::End) == o
            &&& after_event(o, Event::End) == h
            &&& h.stack.len() == 0 ==> after_event(h, source) == h
            &&& after_event(after_event(h, Event::Failed), source).spans == h.spans
        }),
{
    let o = after_event(h, Event::Start(outer));
    let i = after_event(o, Event::Start(inner));
    assert(o.stack.drop_last() =~= h.stack);
    assert(i.stack.drop_last() =~= o.stack);
}

} // verus!
