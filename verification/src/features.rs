//! The features that can be switched, and the kernel's own that cannot.

use vstd::prelude::*;
use crate::config::Config;
use crate::text::same;

verus! {

/// A feature. One that is not removable belongs to the kernel and stays on.
#[derive(Clone, Copy, Debug)]
pub struct Feature {
    pub id: &'static str,
    pub name: &'static str,
    pub description: &'static str,
    pub default_on: bool,
    pub enabled: bool,
    pub removable: bool,
}

/// The features.
pub struct FeatureRegistry {
    features: Vec<Feature>,
}

impl View for FeatureRegistry {
    type V = Seq<Feature>;

    closed spec fn view(&self) -> Seq<Feature> {
        self.features@
    }
}

/// Whether the first feature with an id is enabled; one that is not there is not.
pub open spec fn enabled_in(fs: Seq<Feature>, id: Seq<char>) -> bool
    decreases fs.len(),
{
    if fs.len() == 0 {
        false
    } else if fs[0].id@ == id {
        fs[0].enabled
    } else {
        enabled_in(fs.skip(1), id)
    }
}

/// The kernel's features are on.
pub open spec fn kernel_on(fs: Seq<Feature>) -> bool {
    forall|i: int| 0 <= i < fs.len() && !(#[trigger] fs[i]).removable ==> fs[i].enabled
}

/// The features are those of a configuration, in their order.
pub open spec fn mirrors(fs: Seq<Feature>, c: Config) -> bool {
    &&& fs.len() == 5
    &&& fs[0].id@ == "gutter"@ && fs[0].name@ == "Line-number gutter"@ && fs[0].description@
        == "Line numbers down the left edge"@ && fs[0].enabled == c.gutter && fs[0].removable
    &&& fs[1].id@ == "scrollbar"@ && fs[1].name@ == "Overlay scrollbar"@ && fs[1].description@
        == "Ghostty-style auto-hiding scrollbar"@ && fs[1].enabled == c.scrollbar && fs[1].removable
    &&& fs[2].id@ == "latency-hud"@ && fs[2].name@ == "Latency HUD"@ && fs[2].description@
        == "Keystroke->present p50/p99 in the banner"@ && fs[2].enabled == c.latency_hud
        && fs[2].removable
    &&& fs[3].id@ == "command-palette"@ && fs[3].name@ == "Command palette"@ && fs[3].description@
        == "Ctrl+Shift+P fuzzy command launcher"@ && fs[3].enabled && !fs[3].removable
    &&& fs[4].id@ == "keybinds"@ && fs[4].name@ == "Keybind engine"@ && fs[4].description@
        == "Chord keymap dispatch (D6)"@ && fs[4].enabled && !fs[4].removable
    &&& forall|i: int| 0 <= i < 5 ==> (#[trigger] fs[i]).default_on
}

impl FeatureRegistry {
    /// The features, those that can be switched as the configuration has them.
    pub fn from_config(cfg: &Config) -> (r: Self)
        ensures
            mirrors(r@, *cfg),
            kernel_on(r@),
    {
        let mut features: Vec<Feature> = Vec::new();
        features.push(
            Feature {
                id: "gutter",
                name: "Line-number gutter",
                description: "Line numbers down the left edge",
                default_on: true,
                enabled: cfg.gutter,
                removable: true,
            },
        );
        features.push(
            Feature {
                id: "scrollbar",
                name: "Overlay scrollbar",
                description: "Ghostty-style auto-hiding scrollbar",
                default_on: true,
                enabled: cfg.scrollbar,
                removable: true,
            },
        );
        features.push(
            Feature {
                id: "latency-hud",
                name: "Latency HUD",
                description: "Keystroke->present p50/p99 in the banner",
                default_on: true,
                enabled: cfg.latency_hud,
                removable: true,
            },
        );
        features.push(
            Feature {
                id: "command-palette",
                name: "Command palette",
                description: "Ctrl+Shift+P fuzzy command launcher",
                default_on: true,
                enabled: true,
                removable: false,
            },
        );
        features.push(
            Feature {
                id: "keybinds",
                name: "Keybind engine",
                description: "Chord keymap dispatch (D6)",
                default_on: true,
                enabled: true,
                removable: false,
            },
        );
        FeatureRegistry { features }
    }

    /// All features.
    pub fn features(&self) -> (r: &[Feature])
        ensures
            r@ == self@,
    {
        self.features.as_slice()
    }

    /// Where the first feature with the id `id` stands.
    pub fn index_of(&self, id: &str) -> (r: Option<usize>)
        ensures
            match r {
                Some(i) => {
                    &&& i < self@.len()
                    &&& self@[i as int].id@ == id@
                    &&& forall|j: int| 0 <= j < i ==> (#[trigger] self@[j]).id@ != id@
                },
                None => forall|j: int| 0 <= j < self@.len() ==> (#[trigger] self@[j]).id@ != id@,
            },
    {
        for i in 0..self.features.len()
            invariant
                forall|j: int| 0 <= j < i ==> (#[trigger] self@[j]).id@ != id@,
        {
            if same(self.features[i].id, id) {
                return Some(i);
            }
        }
        None
    }

    /// Whether the feature with the id `id` is enabled; one that is not there is not.
    pub fn is_enabled(&self, id: &str) -> (r: bool)
        ensures
            r == enabled_in(self@, id@),
    {
        assert(self@.skip(0) =~= self@);
        for i in 0..self.features.len()
            invariant
                enabled_in(self@.skip(i as int), id@) == enabled_in(self@, id@),
        {
            assert(self@.skip(i as int)[0] == self.features@[i as int]);
            assert(self@.skip(i as int).skip(1) =~= self@.skip(i + 1));
            if same(self.features[i].id, id) {
                return self.features[i].enabled;
            }
        }
        false
    }

    /// Switches the feature at `idx` and returns whether it is on now. A kernel feature is
    /// not switched.
    pub fn toggle(&mut self, idx: usize) -> (r: Result<bool, &'static str>)
        ensures
            idx >= old(self)@.len() ==> (r matches Err(e) && e@ == "no such feature"@) && final(self)@
                == old(self)@,
            idx < old(self)@.len() && !old(self)@[idx as int].removable ==> (r matches Err(e) && e@
                == "kernel module \u{2014} cannot be disabled (D10)"@) && final(self)@ == old(self)@,
            idx < old(self)@.len() && old(self)@[idx as int].removable ==> {
                let on = !old(self)@[idx as int].enabled;
                &&& r == Ok::<bool, &'static str>(on)
                &&& final(self)@ == switched(old(self)@, idx as int)
            },
            kernel_on(old(self)@) ==> kernel_on(final(self)@),
    {
        if idx >= self.features.len() {
            return Err("no such feature");
        }
        let f = self.features[idx];
        if !f.removable {
            return Err("kernel module \u{2014} cannot be disabled (D10)");
        }
        let on = !f.enabled;
        self.features.set(idx, Feature { enabled: on, ..f });
        Ok(on)
    }

    /// Puts the state of the features that can be switched into a configuration.
    pub fn apply_to_config(&self, cfg: &mut Config)
        ensures
            *final(cfg) == (Config {
                gutter: enabled_in(self@, "gutter"@),
                scrollbar: enabled_in(self@, "scrollbar"@),
                latency_hud: enabled_in(self@, "latency-hud"@),
                ..*old(cfg)
            }),
    {
        cfg.gutter = self.is_enabled("gutter");
        cfg.scrollbar = self.is_enabled("scrollbar");
        cfg.latency_hud = self.is_enabled("latency-hud");
    }
}

/// The features of a configuration are enabled as it says, so that putting them back into it
/// changes nothing.
pub proof fn features_mirror_config(fs: Seq<Feature>, c: Config)
    requires
        mirrors(fs, c),
    ensures
        enabled_in(fs, "gutter"@) == c.gutter,
        enabled_in(fs, "scrollbar"@) == c.scrollbar,
        enabled_in(fs, "latency-hud"@) == c.latency_hud,
        enabled_in(fs, "command-palette"@),
        enabled_in(fs, "keybinds"@),
{
    reveal_strlit("gutter");
    reveal_strlit("scrollbar");
    reveal_strlit("latency-hud");
    reveal_strlit("command-palette");
    reveal_strlit("keybinds");
    let s1 = fs.skip(1);
    let s2 = s1.skip(1);
    let s3 = s2.skip(1);
    let s4 = s3.skip(1);
    assert(s1[0] == fs[1] && s2[0] == fs[2] && s3[0] == fs[3] && s4[0] == fs[4]);
    assert("gutter"@[0] == 'g' && "scrollbar"@[0] == 's' && "latency-hud"@[0] == 'l');
    assert("command-palette"@[0] == 'c' && "keybinds"@[0] == 'k');
    reveal_with_fuel(enabled_in, 6);
}

/// Whether a feature is enabled is what the first with its id says.
pub proof fn the_first_feature_counts(fs: Seq<Feature>, id: Seq<char>, i: int)
    requires
        0 <= i < fs.len(),
        fs[i].id@ == id,
        forall|j: int| 0 <= j < i ==> (#[trigger] fs[j]).id@ != id,
    ensures
        enabled_in(fs, id) == fs[i].enabled,
    decreases i,
{
    if i > 0 {
        assert(fs[0].id@ != id);
        assert forall|j: int| 0 <= j < i - 1 implies (#[trigger] fs.skip(1)[j]).id@ != id by {
            assert(fs.skip(1)[j] == fs[j + 1]);
        }
        the_first_feature_counts(fs.skip(1), id, i - 1);
    }
}

/// A feature that nothing has the id of is not enabled.
pub proof fn unknown_features_are_off(fs: Seq<Feature>, id: Seq<char>)
    requires
        forall|j: int| 0 <= j < fs.len() ==> (#[trigger] fs[j]).id@ != id,
    ensures
        !enabled_in(fs, id),
    decreases fs.len(),
{
    if fs.len() > 0 {
        assert(fs[0].id@ != id);
        assert forall|j: int| 0 <= j < fs.skip(1).len() implies (#[trigger] fs.skip(1)[j]).id@ != id by {
            assert(fs.skip(1)[j] == fs[j + 1]);
        }
        unknown_features_are_off(fs.skip(1), id);
    }
}

/// The features with one of them switched.
pub open spec fn switched(fs: Seq<Feature>, i: int) -> Seq<Feature> {
    fs.update(i, Feature { enabled: !fs[i].enabled, ..fs[i] })
}

/// Switching a feature twice leaves it as it was; once, it changes that feature and no other.
pub proof fn switching_twice_changes_nothing(fs: Seq<Feature>, i: int, j: int)
    requires
        0 <= i < fs.len(),
        0 <= j < fs.len(),
    ensures
        switched(switched(fs, i), i) == fs,
        switched(fs, i)[i].enabled != fs[i].enabled,
        switched(fs, i)[j].id == fs[j].id,
        i != j ==> switched(fs, i)[j] == fs[j],
        switched(fs, i).len() == fs.len(),
{
    assert(switched(switched(fs, i), i) =~= fs);
}

/// A feature that is switched is switched in the configuration too, and the others stay there as they
/// are.
pub proof fn switches_reach_the_configuration(fs: Seq<Feature>, c: Config, i: int)
    requires
        mirrors(fs, c),
        0 <= i < 3,
    ensures
        enabled_in(switched(fs, i), "gutter"@) == (if i == 0 {
            !c.gutter
        } else {
            c.gutter
        }),
        enabled_in(switched(fs, i), "scrollbar"@) == (if i == 1 {
            !c.scrollbar
        } else {
            c.scrollbar
        }),
        enabled_in(switched(fs, i), "latency-hud"@) == (if i == 2 {
            !c.latency_hud
        } else {
            c.latency_hud
        }),
{
    reveal_strlit("gutter");
    reveal_strlit("scrollbar");
    reveal_strlit("latency-hud");
    assert("gutter"@[0] == 'g' && "scrollbar"@[0] == 's' && "latency-hud"@[0] == 'l');
    let t = switched(fs, i);
    assert(t[0].id@ == fs[0].id@ && t[1].id@ == fs[1].id@ && t[2].id@ == fs[2].id@);
    the_first_feature_counts(t, "gutter"@, 0);
    the_first_feature_counts(t, "scrollbar"@, 1);
    the_first_feature_counts(t, "latency-hud"@, 2);
}

} // verus!
