//! The settings page and the modules page.

use vstd::prelude::*;
use crate::config::{Config, FONT_MAX, FONT_MIN, LINE_MAX, LINE_MIN, LINGER_MAX, LINGER_MIN};
use crate::discovery::Discovered;
use crate::features::{enabled_in, mirrors, the_first_feature_counts, Feature, FeatureRegistry};
use crate::host::HostError;
use crate::lists::PageKey;
use crate::manifest::Manifest;
use crate::single::{clamp, clamped};
use crate::table::Table;
use crate::text::{chars, chars_of, lemma_first_at_is, lemma_trimmed_start, lines, push_text, push_chars, same, split_lines, text_of, trim, trimmed, views};

verus! {

/// How many rows the settings page has.
pub const SETTINGS_ROWS: usize = 7;

/// What a key on the settings page asks for.
#[derive(Clone, Copy, Debug, PartialEq, Eq, Structural)]
pub enum SettingsStep {
    /// Nothing.
    Nothing,
    /// The page is to be drawn anew.
    Refresh,
    /// The configuration is to be saved and the page closed.
    SaveAndClose,
    /// The selected setting goes up.
    More,
    /// The selected setting goes down.
    Less,
}

/// What a key does to the selected row of the settings page.
pub open spec fn row_after(sel: int, key: PageKey) -> int {
    match key {
        PageKey::Up => if sel > 0 {
            sel - 1
        } else {
            0
        },
        PageKey::Down => if sel + 1 < SETTINGS_ROWS {
            sel + 1
        } else {
            SETTINGS_ROWS - 1
        },
        _ => sel,
    }
}

/// What a key on the settings page asks for. Enter changes only what is switched on and off.
pub open spec fn settings_step(sel: int, key: PageKey, text: Option<Seq<char>>) -> SettingsStep {
    match key {
        PageKey::Escape => SettingsStep::SaveAndClose,
        PageKey::Up => SettingsStep::Refresh,
        PageKey::Down => SettingsStep::Refresh,
        PageKey::Enter => if sel >= 3 {
            SettingsStep::More
        } else {
            SettingsStep::Nothing
        },
        PageKey::Left => SettingsStep::Less,
        PageKey::Right => SettingsStep::More,
        _ => match text {
            Some(t) => if t == "+"@ || t == "="@ {
                SettingsStep::More
            } else if t == "-"@ || t == "_"@ {
                SettingsStep::Less
            } else {
                SettingsStep::Nothing
            },
            None => SettingsStep::Nothing,
        },
    }
}

/// What a key does on the settings page, and what it asks for.
pub fn settings_key(sel: &mut usize, key: PageKey, text: Option<&str>) -> (r: SettingsStep)
    requires
        *old(sel) < usize::MAX,
    ensures
        *final(sel) == row_after(*old(sel) as int, key),
        r == settings_step(*old(sel) as int, key, chars(text)),
{
    match key {
        PageKey::Escape => SettingsStep::SaveAndClose,
        PageKey::Up => {
            if *sel > 0 {
                *sel = *sel - 1;
            }
            SettingsStep::Refresh
        },
        PageKey::Down => {
            *sel = if *sel + 1 < SETTINGS_ROWS {
                *sel + 1
            } else {
                SETTINGS_ROWS - 1
            };
            SettingsStep::Refresh
        },
        PageKey::Enter => if *sel >= 3 {
            SettingsStep::More
        } else {
            SettingsStep::Nothing
        },
        PageKey::Left => SettingsStep::Less,
        PageKey::Right => SettingsStep::More,
        _ => match text {
            Some(t) => if same(t, "+") || same(t, "=") {
                SettingsStep::More
            } else if same(t, "-") || same(t, "_") {
                SettingsStep::Less
            } else {
                SettingsStep::Nothing
            },
            None => SettingsStep::Nothing,
        },
    }
}

/// The time that the scrollbar lingers, a step more or less.
pub open spec fn linger_after(ms: int, up: bool) -> int {
    let v = if up {
        ms + 100
    } else {
        ms - 100
    };
    if v < LINGER_MIN {
        LINGER_MIN as int
    } else if v > LINGER_MAX {
        LINGER_MAX as int
    } else {
        v
    }
}

/// A configuration with the selected setting a step up or down. `stepped` has the bits of the
/// font size or the line height a step up or down, where one of these is selected.
pub open spec fn adjusted(c: Config, sel: int, up: bool, stepped: u32) -> Config {
    if sel == 0 {
        Config { font_size: clamped(stepped, FONT_MIN, FONT_MAX), ..c }
    } else if sel == 1 {
        Config { line_height: clamped(stepped, LINE_MIN, LINE_MAX), ..c }
    } else if sel == 2 {
        Config { scrollbar_linger_ms: linger_after(c.scrollbar_linger_ms as int, up) as u64, ..c }
    } else if sel == 3 {
        Config { gutter: !c.gutter, ..c }
    } else if sel == 4 {
        Config { scrollbar: !c.scrollbar, ..c }
    } else if sel == 5 {
        Config { latency_hud: !c.latency_hud, ..c }
    } else {
        c
    }
}

/// What a step of a setting asks for.
#[derive(Clone, Copy, Debug, PartialEq, Eq, Structural)]
pub enum Adjusted {
    /// The configuration is to be saved and put in force.
    Apply,
    /// The page is to be closed and the terminal opened.
    OpenTerminal,
}

/// Takes the selected setting a step up or down.
pub fn settings_adjust(
    config: &mut Config,
    features: &mut FeatureRegistry,
    sel: usize,
    up: bool,
    stepped: u32,
) -> (r: Adjusted)
    requires
        old(config).scrollbar_linger_ms < u64::MAX - 100,
    ensures
        sel == 6 ==> r is OpenTerminal && *final(config) == *old(config) && final(features)@ == old(features)@,
        sel != 6 ==> r is Apply && *final(config) == adjusted(*old(config), sel as int, up, stepped)
            && mirrors(final(features)@, *final(config)),
{
    if sel == 6 {
        return Adjusted::OpenTerminal;
    }
    if sel == 0 {
        config.font_size = clamp(stepped, FONT_MIN, FONT_MAX);
    } else if sel == 1 {
        config.line_height = clamp(stepped, LINE_MIN, LINE_MAX);
    } else if sel == 2 {
        let ms = config.scrollbar_linger_ms;
        config.scrollbar_linger_ms = if up {
            if ms + 100 > LINGER_MAX {
                LINGER_MAX
            } else if ms + 100 < LINGER_MIN {
                LINGER_MIN
            } else {
                ms + 100
            }
        } else if ms < LINGER_MIN + 100 {
            LINGER_MIN
        } else if ms - 100 > LINGER_MAX {
            LINGER_MAX
        } else {
            ms - 100
        };
    } else if sel == 3 {
        config.gutter = !config.gutter;
    } else if sel == 4 {
        config.scrollbar = !config.scrollbar;
    } else if sel == 5 {
        config.latency_hud = !config.latency_hud;
    }
    *features = FeatureRegistry::from_config(config);
    Adjusted::Apply
}

/// Switches the feature with the id `id` and puts it into the configuration; the hint where it
/// belongs to the kernel. Nothing happens where there is no such feature.
pub fn toggle_feature(features: &mut FeatureRegistry, config: &mut Config, id: &str) -> (r: Option<
    Result<bool, &'static str>,
>)
    ensures
        match r {
            None => {
                &&& forall|j: int| 0 <= j < old(features)@.len() ==> (#[trigger] old(features)@[j]).id@ != id@
                &&& final(features)@ == old(features)@
                &&& *final(config) == *old(config)
            },
            Some(Err(hint)) => {
                &&& hint@ == "kernel module \u{2014} cannot be disabled (D10)"@
                &&& exists|i: int| 0 <= i < old(features)@.len() && #[trigger] first_named(old(features)@, id@, i)
                    && !old(features)@[i].removable
                &&& final(features)@ == old(features)@
                &&& *final(config) == *old(config)
            },
            Some(Ok(on)) => {
                &&& exists|i: int|
                    {
                        &&& 0 <= i < old(features)@.len()
                        &&& #[trigger] first_named(old(features)@, id@, i)
                        &&& old(features)@[i].removable
                        &&& on == !old(features)@[i].enabled
                        &&& final(features)@ == old(features)@.update(
                            i,
                            (Feature { enabled: on, ..old(features)@[i] }),
                        )
                    }
                &&& *final(config) == (Config {
                    gutter: enabled_in(final(features)@, "gutter"@),
                    scrollbar: enabled_in(final(features)@, "scrollbar"@),
                    latency_hud: enabled_in(final(features)@, "latency-hud"@),
                    ..*old(config)
                })
            },
        },
{
    match features.index_of(id) {
        None => None,
        Some(idx) => {
            assert(first_named(features@, id@, idx as int));
            match features.toggle(idx) {
                Ok(on) => {
                    features.apply_to_config(config);
                    Some(Ok(on))
                },
                Err(e) => Some(Err(e)),
            }
        },
    }
}

/// Whether the feature at `i` is the first with an id.
pub open spec fn first_named(fs: Seq<Feature>, id: Seq<char>, i: int) -> bool {
    &&& 0 <= i < fs.len()
    &&& fs[i].id@ == id
    &&& forall|j: int| 0 <= j < i ==> (#[trigger] fs[j]).id@ != id
}

// --- modules ---

/// A module that was found, whether it is loaded, and what went wrong with it last.
pub struct ExternalModule {
    /// The name in its manifest, or that of its directory.
    pub name: String,
    pub base_dir: String,
    /// Its manifest, or why that was refused.
    pub manifest: Result<Manifest, String>,
    pub loaded: bool,
    pub error: Option<String>,
}

/// The modules page: the modules, those that are enabled, the row selected and a hint.
pub struct ModulesPage {
    pub modules: Vec<ExternalModule>,
    pub enabled: Table<()>,
    pub sel: usize,
    pub hint: Option<String>,
}

/// What a key on the modules page asks for.
#[derive(Clone, Copy, Debug, PartialEq, Eq, Structural)]
pub enum ModulesStep {
    /// Nothing.
    Nothing,
    /// The page is to be drawn anew.
    Refresh,
    /// The configuration is to be saved and the page closed.
    SaveAndClose,
    /// The configuration is to be saved and put in force.
    Apply,
    /// A module is to be loaded.
    Load(usize),
    /// A module is to be unloaded.
    Unload(usize),
}

/// What is enabled on the first run, among the first `n` modules found: those whose manifests say
/// so.
pub open spec fn default_names(ds: Seq<Discovered>, n: nat) -> Set<Seq<char>>
    decreases n,
{
    if n == 0 {
        Set::empty()
    } else {
        let before = default_names(ds, (n - 1) as nat);
        match ds[n - 1].manifest {
            Ok(m) => if m.default_on {
                before.insert(ds[n - 1].shown())
            } else {
                before
            },
            Err(_) => before,
        }
    }
}

/// The entry of a module that was found: not loaded, and with nothing gone wrong yet.
pub open spec fn is_entry(m: ExternalModule, d: Discovered) -> bool {
    &&& m.name@ == d.shown()
    &&& m.base_dir == d.base_dir
    &&& !m.loaded
    &&& m.error is None
    &&& match d.manifest {
        Ok(x) => m.manifest == Ok::<Manifest, String>(x),
        Err(e) => m.manifest matches Err(t) && t@ == e@.words(),
    }
}

/// What a key does on the page of the modules, where `features` rows come before them.
pub open spec fn modules_pressed(p: ModulesPage, features: int, key: PageKey, q: ModulesPage, step: ModulesStep) -> bool {
    &&& q.modules == p.modules
    &&& q.enabled == p.enabled
    &&& match key {
        PageKey::Escape => step is SaveAndClose && q.sel == p.sel && q.hint == p.hint,
        PageKey::Up => step is Refresh && q.hint is None && q.sel == (if p.sel > 0 {
            p.sel - 1
        } else {
            0
        }),
        PageKey::Down => {
            let n = features + p.modules@.len();
            step is Refresh && q.hint is None && q.sel == (if n == 0 {
                0
            } else if p.sel + 1 < n {
                p.sel + 1
            } else {
                n - 1
            })
        },
        _ => step is Nothing && q.sel == p.sel && q.hint == p.hint,
    }
}

/// What switching the selected row does to the page, the features and the configuration.
pub open spec fn toggled(
    p: ModulesPage,
    fs: Seq<Feature>,
    c: Config,
    q: ModulesPage,
    gs: Seq<Feature>,
    d: Config,
    step: ModulesStep,
) -> bool {
    let sel = p.sel as int;
    &&& q.modules == p.modules
    &&& q.enabled == p.enabled
    &&& q.sel == p.sel
    &&& if sel < fs.len() {
        if fs[sel].removable {
            &&& step is Apply
            &&& q.hint is None
            &&& gs == fs.update(sel, (Feature { enabled: !fs[sel].enabled, ..fs[sel] }))
            &&& d == (Config {
                gutter: enabled_in(gs, "gutter"@),
                scrollbar: enabled_in(gs, "scrollbar"@),
                latency_hud: enabled_in(gs, "latency-hud"@),
                ..c
            })
        } else {
            &&& step is Refresh
            &&& text_of(q.hint) == Some("kernel module \u{2014} cannot be disabled (D10)"@)
            &&& gs == fs
            &&& d == c
        }
    } else {
        &&& gs == fs
        &&& d == c
        &&& q.hint == p.hint
        &&& step == if sel - fs.len() >= p.modules@.len() {
            ModulesStep::Nothing
        } else if p.modules@[sel - fs.len()].loaded {
            ModulesStep::Unload((sel - fs.len()) as usize)
        } else {
            ModulesStep::Load((sel - fs.len()) as usize)
        }
    }
}

/// What the page shows once module `idx` was loaded, or was not because of `error`.
pub open spec fn after_loading(p: ModulesPage, idx: int, error: Option<Seq<char>>, chosen: bool, q: ModulesPage) -> bool {
    &&& q.sel == p.sel
    &&& q.modules@.len() == p.modules@.len()
    &&& forall|i: int| 0 <= i < p.modules@.len() && i != idx ==> #[trigger] q.modules@[i] == p.modules@[i]
    &&& q.modules@[idx].name@ == p.modules@[idx].name@
    &&& q.modules@[idx].manifest == p.modules@[idx].manifest
    &&& q.modules@[idx].loaded == (error is None)
    &&& text_of(q.modules@[idx].error) == error
    &&& q.enabled@.dom() == if chosen && error is None {
        p.enabled@.dom().insert(p.modules@[idx].name@)
    } else {
        p.enabled@.dom()
    }
    &&& text_of(q.hint) == if chosen {
        error
    } else {
        text_of(p.hint)
    }
}

/// What the page shows once module `idx` was unloaded.
pub open spec fn after_unloading(p: ModulesPage, idx: int, q: ModulesPage) -> bool {
    &&& q.sel == p.sel
    &&& q.hint is None
    &&& q.modules@.len() == p.modules@.len()
    &&& forall|i: int| 0 <= i < p.modules@.len() && i != idx ==> #[trigger] q.modules@[i] == p.modules@[i]
    &&& q.modules@[idx].name@ == p.modules@[idx].name@
    &&& q.modules@[idx].manifest == p.modules@[idx].manifest
    &&& !q.modules@[idx].loaded
    &&& q.modules@[idx].error is None
    &&& q.enabled@.dom() == p.enabled@.dom().remove(p.modules@[idx].name@)
}

impl ModulesPage {
    /// The page for what was found. On the first run, before any choice was saved, what the
    /// manifests say is enabled.
    pub fn begin(found: Vec<Discovered>, enabled: Table<()>, first_run: bool) -> (r: Self)
        requires
            enabled.wf(),
        ensures
            r.enabled.wf(),
            r.enabled@.dom() == if first_run {
                enabled@.dom().union(default_names(found@, found@.len()))
            } else {
                enabled@.dom()
            },
            r.modules@.len() == found@.len(),
            forall|i: int| 0 <= i < found@.len() ==> is_entry(#[trigger] r.modules@[i], found@[i]),
            r.sel == 0,
            r.hint is None,
    {
        let mut names = enabled;
        let mut left = found;
        let mut rev: Vec<ExternalModule> = Vec::new();
        let ghost n = found@.len();
        if first_run {
            assert(names@.dom() =~= enabled@.dom().union(default_names(found@, 0)));
            for i in 0..left.len()
                invariant
                    left@ == found@,
                    names.wf(),
                    names@.dom() == enabled@.dom().union(default_names(found@, i as nat)),
            {
                let ghost before = names@.dom();
                if let Ok(m) = &left[i].manifest {
                    if m.default_on {
                        let name = left[i].name().to_owned();
                        names.insert(name, ());
                        assert(names@.dom() =~= before.insert(found@[i as int].shown()));
                    }
                }
                assert(names@.dom() =~= enabled@.dom().union(default_names(found@, (i + 1) as nat)));
            }
        }
        while left.len() > 0
            invariant
                n == found@.len(),
                left@.len() + rev@.len() == n,
                left@ == found@.take(left@.len() as int),
                forall|k: int| 0 <= k < rev@.len() ==> is_entry(#[trigger] rev@[k], found@[n - 1 - k]),
            decreases left@.len(),
        {
            let ghost before = left@;
            let d = match left.pop() {
                Some(d) => d,
                None => return ModulesPage { modules: rev, enabled: names, sel: 0, hint: None },
            };
            assert(d == found@[before.len() - 1]);
            let name = d.name().to_owned();
            let manifest = match d.manifest {
                Ok(m) => Ok(m),
                Err(e) => Err(e.message()),
            };
            rev.push(
                ExternalModule { name, base_dir: d.base_dir, manifest, loaded: false, error: None },
            );
            assert(left@ =~= found@.take(left@.len() as int));
        }
        let mut modules: Vec<ExternalModule> = Vec::new();
        while rev.len() > 0
            invariant
                n == found@.len(),
                modules@.len() + rev@.len() == n,
                forall|k: int| 0 <= k < rev@.len() ==> is_entry(#[trigger] rev@[k], found@[n - 1 - k]),
                forall|k: int| 0 <= k < modules@.len() ==> is_entry(#[trigger] modules@[k], found@[k]),
            decreases rev@.len(),
        {
            let ghost before = rev@;
            let m = match rev.pop() {
                Some(m) => m,
                None => return ModulesPage { modules, enabled: names, sel: 0, hint: None },
            };
            assert(m == before[before.len() - 1]);
            modules.push(m);
        }
        ModulesPage { modules, enabled: names, sel: 0, hint: None }
    }

    /// Whether the module at `idx` is enabled.
    pub fn is_enabled(&self, idx: usize) -> (r: bool)
        requires
            self.enabled.wf(),
            idx < self.modules@.len(),
        ensures
            r == self.enabled@.dom().contains(self.modules@[idx as int].name@),
    {
        self.enabled.contains(&self.modules[idx].name)
    }

    /// What a key does on the page, of whose rows the first `features` are features, and what it
    /// asks for. Enter is left to [`ModulesPage::toggle_current`].
    pub fn key(&mut self, features: usize, key: PageKey) -> (r: ModulesStep)
        requires
            old(self).sel < usize::MAX,
            features + old(self).modules@.len() <= usize::MAX,
        ensures
            modules_pressed(*old(self), features as int, key, *final(self), r),
    {
        match key {
            PageKey::Escape => ModulesStep::SaveAndClose,
            PageKey::Up => {
                if self.sel > 0 {
                    self.sel = self.sel - 1;
                }
                self.hint = None;
                ModulesStep::Refresh
            },
            PageKey::Down => {
                let n: usize = features + self.modules.len();
                self.sel = if n == 0 {
                    0
                } else if self.sel + 1 < n {
                    self.sel + 1
                } else {
                    n - 1
                };
                self.hint = None;
                ModulesStep::Refresh
            },
            _ => ModulesStep::Nothing,
        }
    }

    /// Switches what is selected: a feature at once, which a kernel feature refuses with a hint; of
    /// a module it says whether to load or to unload it.
    pub fn toggle_current(&mut self, features: &mut FeatureRegistry, config: &mut Config) -> (r: ModulesStep)
        ensures
            toggled(*old(self), old(features)@, *old(config), *final(self), final(features)@, *final(config), r),
    {
        let count = features.features().len();
        if self.sel < count {
            match features.toggle(self.sel) {
                Ok(_) => {
                    self.hint = None;
                    features.apply_to_config(config);
                    return ModulesStep::Apply;
                },
                Err(hint) => {
                    self.hint = Some(hint.to_owned());
                    return ModulesStep::Refresh;
                },
            }
        }
        let idx: usize = self.sel - count;
        if idx >= self.modules.len() {
            return ModulesStep::Nothing;
        }
        if self.modules[idx].loaded {
            ModulesStep::Unload(idx)
        } else {
            ModulesStep::Load(idx)
        }
    }

    /// Why a module cannot be loaded before anything was tried: its manifest was refused, or there
    /// is no host.
    pub fn refusal(&self, idx: usize, host: bool) -> (r: Option<String>)
        requires
            idx < self.modules@.len(),
        ensures
            text_of(r) == if self.modules@[idx as int].manifest is Err {
                Some("manifest failed to parse"@)
            } else if !host {
                Some("module host unavailable"@)
            } else {
                None
            },
    {
        if self.modules[idx].manifest.is_err() {
            Some("manifest failed to parse".to_owned())
        } else if !host {
            Some("module host unavailable".to_owned())
        } else {
            None
        }
    }

    /// Takes in that a module was loaded, or why it was not. The choice of the user is kept where
    /// `chosen`.
    pub fn loaded(&mut self, idx: usize, error: Option<String>, chosen: bool)
        requires
            old(self).enabled.wf(),
            idx < old(self).modules@.len(),
        ensures
            final(self).enabled.wf(),
            after_loading(*old(self), idx as int, text_of(error), chosen, *final(self)),
    {
        let ghost before = self.enabled@;
        if chosen {
            if error.is_none() {
                let name = self.modules[idx].name.clone();
                self.enabled.insert(name, ());
                assert(self.enabled@.dom() =~= before.dom().insert(old(self).modules@[idx as int].name@));
            }
            self.hint = error.clone();
        }
        self.modules[idx].loaded = error.is_none();
        self.modules[idx].error = error;
    }

    /// Takes in that a module was unloaded by the user.
    pub fn unloaded(&mut self, idx: usize)
        requires
            old(self).enabled.wf(),
            idx < old(self).modules@.len(),
        ensures
            final(self).enabled.wf(),
            after_unloading(*old(self), idx as int, *final(self)),
    {
        let ghost before = self.enabled@;
        let name = self.modules[idx].name.clone();
        let _ = self.enabled.remove(&name);
        assert(self.enabled@.dom() =~= before.dom().remove(name@));
        self.modules[idx].loaded = false;
        self.modules[idx].error = None;
        self.hint = None;
    }
}

/// What is said of a module's command that ran: the first line of its output.
pub open spec fn ran_words(id: Seq<char>, output: Seq<char>) -> Seq<char> {
    let line = if lines(output).len() > 0 {
        trimmed(lines(output)[0])
    } else {
        Seq::empty()
    };
    if line.len() == 0 {
        id + ": ran (no output)"@
    } else {
        id + ": "@ + line
    }
}

/// What is said of a module's command: its output, or why there is none.
pub fn invoke_status(id: &str, outcome: &Result<String, HostError>) -> (r: String)
    ensures
        r@ == match *outcome {
            Ok(output) => ran_words(id@, output@),
            Err(e) => id@ + " failed: "@ + e.words(),
        },
{
    let mut out = id.to_owned();
    match outcome {
        Ok(output) => {
            let ls = split_lines(&chars_of(output));
            assert(views(ls@) == lines(output@));
            if ls.len() > 0 {
                let line = trim(&ls[0]);
                if line.len() > 0 {
                    push_text(&mut out, ": ");
                    push_chars(&mut out, line);
                    return out;
                }
            }
            push_text(&mut out, ": ran (no output)");
            out
        },
        Err(e) => {
            push_text(&mut out, " failed: ");
            push_text(&mut out, &e.message());
            out
        },
    }
}

/// The keys for more and for less are told apart the same way: the arrows and the signs, with or
/// without shift, do the same; only Escape leaves, and Up and Down undo each other.
pub proof fn settings_keys_agree(sel: int, key: PageKey)
    ensures
        settings_step(sel, PageKey::Other, Some("+"@)) == settings_step(sel, PageKey::Right, None),
        settings_step(sel, PageKey::Other, Some("="@)) == settings_step(sel, PageKey::Right, None),
        settings_step(sel, PageKey::Other, Some("-"@)) == settings_step(sel, PageKey::Left, None),
        settings_step(sel, PageKey::Other, Some("_"@)) == settings_step(sel, PageKey::Left, None),
        settings_step(sel, PageKey::Right, None) is More,
        settings_step(sel, PageKey::Left, None) is Less,
        settings_step(sel, PageKey::Enter, None) is More <==> sel >= 3,
        settings_step(sel, key, None) is SaveAndClose <==> key is Escape,
        0 <= sel < SETTINGS_ROWS - 1 ==> row_after(row_after(sel, PageKey::Down), PageKey::Up) == sel
            && row_after(sel, PageKey::Down) == sel + 1,
        row_after(SETTINGS_ROWS - 1, PageKey::Down) == SETTINGS_ROWS - 1,
        row_after(0, PageKey::Up) == 0,
        !(key is Up || key is Down) ==> row_after(sel, key) == sel,
{
    reveal_strlit("+");
    reveal_strlit("=");
    reveal_strlit("-");
    reveal_strlit("_");
    assert("-"@[0] != "+"@[0] && "-"@[0] != "="@[0] && "_"@[0] != "+"@[0] && "_"@[0] != "="@[0]);
}

/// The time that the scrollbar lingers goes up and down by a tenth of a second, within its bounds, and
/// a step back leads to where it was where no bound was met.
pub proof fn lingering_goes_by_tenths(ms: int)
    ensures
        LINGER_MIN <= linger_after(ms, true) <= LINGER_MAX,
        LINGER_MIN <= linger_after(ms, false) <= LINGER_MAX,
        LINGER_MIN <= ms <= LINGER_MAX - 100 ==> linger_after(ms, true) == ms + 100 && linger_after(
            ms + 100,
            false,
        ) == ms,
        LINGER_MIN + 100 <= ms <= LINGER_MAX ==> linger_after(ms, false) == ms - 100 && linger_after(
            ms - 100,
            true,
        ) == ms,
{
}

/// A step changes one setting only, and switching one twice leaves it as it was.
pub proof fn steps_change_one_setting(c: Config, sel: int, up: bool, stepped: u32)
    ensures
        ({
            let d = adjusted(c, sel, up, stepped);
            &&& sel != 0 ==> d.font_size == c.font_size
            &&& sel != 1 ==> d.line_height == c.line_height
            &&& sel != 2 ==> d.scrollbar_linger_ms == c.scrollbar_linger_ms
            &&& d.gutter != c.gutter <==> sel == 3
            &&& d.scrollbar != c.scrollbar <==> sel == 4
            &&& d.latency_hud != c.latency_hud <==> sel == 5
            &&& 3 <= sel ==> adjusted(d, sel, up, stepped) == c
            &&& sel == 0 ==> d.font_size == clamped(stepped, FONT_MIN, FONT_MAX)
            &&& sel == 1 ==> d.line_height == clamped(stepped, LINE_MIN, LINE_MAX)
        }),
{
}

/// On the first run a module is enabled where one that was found says so of itself, and no other is.
pub proof fn modules_say_whether_they_start(ds: Seq<Discovered>, n: nat, name: Seq<char>)
    requires
        n <= ds.len(),
    ensures
        default_names(ds, n).contains(name) <==> exists|i: int|
            0 <= i < n && (#[trigger] ds[i]).shown() == name && (ds[i].manifest matches Ok(m) && m.default_on),
    decreases n,
{
    if n > 0 {
        modules_say_whether_they_start(ds, (n - 1) as nat, name);
        let last = ds[n - 1];
        if default_names(ds, (n - 1) as nat).contains(name) {
            let i = choose|i: int|
                0 <= i < n - 1 && (#[trigger] ds[i]).shown() == name && (ds[i].manifest matches Ok(m)
                    && m.default_on);
            assert(ds[i].shown() == name);
        }
        assert(last.shown() == ds[n - 1].shown());
    }
}

/// Of what a command puts out only the first line is said.
pub proof fn the_first_line_is_said(id: Seq<char>, line: Seq<char>, rest: Seq<char>)
    requires
        line.len() > 0,
        forall|i: int| 0 <= i < line.len() ==> #[trigger] line[i] != '\n',
        line.last() != '\r',
    ensures
        ran_words(id, line.push('\n') + rest) == ran_words(id, line),
        ran_words(id, line) == if trimmed(line).len() == 0 {
            id + ": ran (no output)"@
        } else {
            id + ": "@ + trimmed(line)
        },
        ran_words(id, Seq::empty()) == id + ": ran (no output)"@,
{
    let s = line.push('\n') + rest;
    lemma_first_at_is(s, '\n', line.len() as int);
    lemma_first_at_is(line, '\n', line.len() as int);
    assert(s.take(line.len() as int) =~= line);
    assert(lines(s)[0] == line);
    assert(lines(line) == seq![line]);
    assert(lines(line)[0] == line);
    assert(lines(Seq::<char>::empty()).len() == 0);
    assert(trimmed(Seq::<char>::empty()).len() == 0) by {
        lemma_trimmed_start(Seq::<char>::empty());
    }
}

/// On the page of the modules a step down and a step up cancel out, the selection stays among the
/// rows, a step takes the hint away, and only Escape leaves the page.
pub proof fn modules_are_selected_by_rows(
    p: ModulesPage,
    features: int,
    q: ModulesPage,
    down: ModulesStep,
    r: ModulesPage,
    up: ModulesStep,
    key: PageKey,
    o: ModulesPage,
    other: ModulesStep,
)
    requires
        features >= 0,
        p.sel < features + p.modules@.len(),
        modules_pressed(p, features, PageKey::Down, q, down),
        modules_pressed(q, features, PageKey::Up, r, up),
        modules_pressed(p, features, key, o, other),
    ensures
        p.sel <= q.sel < features + p.modules@.len(),
        q.sel == p.sel <==> p.sel + 1 == features + p.modules@.len(),
        q.sel != p.sel ==> r.sel == p.sel && q.sel == p.sel + 1,
        o.sel != p.sel ==> o.hint is None && other is Refresh && (key is Up || key is Down),
        o.modules == p.modules && o.enabled == p.enabled,
        other is SaveAndClose <==> key is Escape,
{
}

/// A feature that is switched twice is as it was, and so is the configuration; one that cannot be
/// taken out stays, with a hint.
pub proof fn features_are_switched_back(
    p: ModulesPage,
    fs: Seq<Feature>,
    c: Config,
    q: ModulesPage,
    gs: Seq<Feature>,
    d: Config,
    first: ModulesStep,
    r: ModulesPage,
    hs: Seq<Feature>,
    e: Config,
    second: ModulesStep,
)
    requires
        p.sel < fs.len(),
        mirrors(fs, c),
        toggled(p, fs, c, q, gs, d, first),
        toggled(q, gs, d, r, hs, e, second),
    ensures
        hs == fs,
        e == c,
        gs[p.sel as int].enabled != fs[p.sel as int].enabled <==> fs[p.sel as int].removable,
        q.hint is None <==> fs[p.sel as int].removable,
        first is Apply <==> fs[p.sel as int].removable,
        forall|i: int| 0 <= i < fs.len() && i != p.sel ==> #[trigger] gs[i] == fs[i],
{
    assert(hs =~= fs);
    reveal_strlit("gutter");
    reveal_strlit("scrollbar");
    reveal_strlit("latency-hud");
    assert("gutter"@[0] == 'g' && "scrollbar"@[0] == 's' && "latency-hud"@[0] == 'l');
    the_first_feature_counts(fs, "gutter"@, 0);
    the_first_feature_counts(fs, "scrollbar"@, 1);
    the_first_feature_counts(fs, "latency-hud"@, 2);
}

/// Switching the row of a module loads it where it is not loaded and unloads it where it is; once
/// both are done the page is as before, and the module starts by itself just while it is loaded.
pub proof fn modules_are_switched_back(
    p: ModulesPage,
    fs: Seq<Feature>,
    c: Config,
    idx: usize,
    q: ModulesPage,
    r: ModulesPage,
    a: ModulesPage,
    b: ModulesPage,
    o: ModulesPage,
    steps: (ModulesStep, ModulesStep, ModulesStep),
)
    requires
        p.sel == fs.len() + idx,
        idx < p.modules@.len(),
        toggled(p, fs, c, a, fs, c, steps.0),
        !p.modules@[idx as int].loaded,
        after_loading(p, idx as int, None, true, q),
        toggled(q, fs, c, b, fs, c, steps.1),
        after_unloading(q, idx as int, r),
        toggled(r, fs, c, o, fs, c, steps.2),
    ensures
        steps.0 == ModulesStep::Load(idx),
        steps.1 == ModulesStep::Unload(idx),
        steps.2 == ModulesStep::Load(idx),
        q.enabled@.dom().contains(p.modules@[idx as int].name@),
        !r.enabled@.dom().contains(p.modules@[idx as int].name@),
        !p.enabled@.dom().contains(p.modules@[idx as int].name@) ==> r.enabled@.dom() == p.enabled@.dom(),
        forall|i: int| 0 <= i < p.modules@.len() && i != idx ==> #[trigger] r.modules@[i] == p.modules@[i],
        r.modules@[idx as int].name@ == p.modules@[idx as int].name@,
{
    assert(r.enabled@.dom() =~= p.enabled@.dom().remove(p.modules@[idx as int].name@));
    if !p.enabled@.dom().contains(p.modules@[idx as int].name@) {
        assert(r.enabled@.dom() =~= p.enabled@.dom());
    }
}

/// A module that fails to load is not started by itself, is shown with its error, and leaves the
/// others alone.
pub proof fn failed_modules_show_their_error(p: ModulesPage, idx: int, error: Seq<char>, chosen: bool, q: ModulesPage)
    requires
        0 <= idx < p.modules@.len(),
        after_loading(p, idx, Some(error), chosen, q),
    ensures
        q.enabled@.dom() == p.enabled@.dom(),
        text_of(q.modules@[idx].error) == Some(error),
        !q.modules@[idx].loaded,
        chosen ==> text_of(q.hint) == Some(error),
        !chosen ==> text_of(q.hint) == text_of(p.hint),
        forall|i: int| 0 <= i < p.modules@.len() && i != idx ==> #[trigger] q.modules@[i] == p.modules@[i],
{
}

} // verus!
