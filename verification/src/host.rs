//! The module host: which modules are loaded, which commands they answer, and the rules
//! of the interface between the host and a guest.

use vstd::prelude::*;
use crate::manifest::{Manifest, ManifestError, ModuleKind};
use crate::table::{ascending, Table};
use crate::order::lemma_in_both;
use crate::text::{push_text, same, texts};

verus! {

/// What one tick of the interruption clock takes, in milliseconds.
pub const TICK_MS: u64 = 10;

/// How long an invocation may take unless told otherwise, in milliseconds.
pub const DEFAULT_BUDGET_MS: u64 = 100;

/// What can go wrong with a module.
#[derive(Debug)]
pub enum HostError {
    /// The invocation ran past its budget and was interrupted.
    Timeout,
    /// The module could not be compiled, instantiated or run for the first time.
    Load(String),
    /// The module does not keep to the interface.
    Abi(String),
    /// The command failed.
    Invoke(String),
    /// No loaded module has this command.
    NoSuchCommand(String),
    /// The manifest was refused.
    Manifest(ManifestError),
    /// A module of this name is loaded already.
    AlreadyLoaded(String),
    /// The entry file could not be read.
    Io(String),
}

impl HostError {
    /// The error in words.
    pub open spec fn words(self) -> Seq<char> {
        match self {
            HostError::Timeout => "invocation exceeded its time budget"@,
            HostError::Load(e) => "load failed: "@ + e@,
            HostError::Abi(e) => "ABI error: "@ + e@,
            HostError::Invoke(e) => "invocation failed: "@ + e@,
            HostError::NoSuchCommand(id) => "no loaded module provides `"@ + id@ + "`"@,
            HostError::Manifest(e) => e@.words(),
            HostError::AlreadyLoaded(n) => "module `"@ + n@ + "` is already loaded"@,
            HostError::Io(e) => "cannot read module entry: "@ + e@,
        }
    }

    /// The error in words.
    pub fn message(&self) -> (r: String)
        ensures
            r@ == self.words(),
    {
        match self {
            HostError::Timeout => "invocation exceeded its time budget".to_owned(),
            HostError::Load(e) => two("load failed: ", e),
            HostError::Abi(e) => two("ABI error: ", e),
            HostError::Invoke(e) => two("invocation failed: ", e),
            HostError::NoSuchCommand(id) => {
                let mut out = two("no loaded module provides `", id);
                out.append("`");
                out
            },
            HostError::Manifest(e) => e.message(),
            HostError::AlreadyLoaded(n) => {
                let mut out = two("module `", n);
                out.append("` is already loaded");
                out
            },
            HostError::Io(e) => two("cannot read module entry: ", e),
        }
    }
}

fn two(a: &str, b: &str) -> (r: String)
    ensures
        r@ == a@ + b@,
{
    let mut out = a.to_owned();
    push_text(&mut out, b);
    out
}

/// A command of a loaded module.
#[derive(Debug, PartialEq)]
pub struct HostCommand {
    pub id: String,
    pub title: String,
}

/// The ids and titles that a module registered.
pub open spec fn pair_views(v: Seq<(String, String)>) -> Seq<(Seq<char>, Seq<char>)> {
    Seq::new(v.len(), |i: int| (v[i].0@, v[i].1@))
}

/// The ids and titles of commands.
pub open spec fn command_views(v: Seq<HostCommand>) -> Seq<(Seq<char>, Seq<char>)> {
    Seq::new(v.len(), |i: int| (v[i].id@, v[i].title@))
}

/// The ids of what a module registered.
pub open spec fn ids(v: Seq<(Seq<char>, Seq<char>)>) -> Seq<Seq<char>> {
    Seq::new(v.len(), |i: int| v[i].0)
}

/// A module that is loaded.
pub struct LoadedModule {
    pub manifest: Manifest,
    pub commands: Vec<HostCommand>,
}

/// The loaded modules, in the order in which they were loaded.
pub struct ModuleHost {
    budget_ms: u64,
    deadline_ticks: u64,
    modules: Vec<LoadedModule>,
}

/// How many ticks a budget is: enough to cover it, and at least one.
pub open spec fn ticks_of(budget_ms: u64) -> int {
    let n = (budget_ms + TICK_MS - 1) / TICK_MS as int;
    if n < 1 {
        1
    } else {
        n
    }
}

/// What a loaded module is to the host: its manifest, and the ids and titles that it registered.
pub struct Registration {
    pub manifest: Manifest,
    pub commands: Seq<(Seq<char>, Seq<char>)>,
}

impl Registration {
    /// The name of the module.
    pub open spec fn name(self) -> Seq<char> {
        self.manifest.name@
    }

    /// Whether the module registered a command.
    pub open spec fn provides(self, id: Seq<char>) -> bool {
        ids(self.commands).contains(id)
    }
}

/// A module of this name is among those loaded.
pub open spec fn named(mods: Seq<Registration>, name: Seq<char>) -> bool {
    exists|i: int| 0 <= i < mods.len() && (#[trigger] mods[i]).name() == name
}

/// No two modules have the same name.
pub open spec fn names_differ(mods: Seq<Registration>) -> bool {
    forall|i: int, j: int|
        0 <= i < j < mods.len() ==> (#[trigger] mods[i]).name() != (#[trigger] mods[j]).name()
}

/// The modules without the one of this name.
pub open spec fn without(mods: Seq<Registration>, name: Seq<char>) -> Seq<Registration>
    decreases mods.len(),
{
    if mods.len() == 0 {
        mods
    } else if mods.last().name() == name {
        without(mods.drop_last(), name)
    } else {
        without(mods.drop_last(), name).push(mods.last())
    }
}

/// The module that answers a command: of those that registered it, the one loaded last.
pub open spec fn answering(mods: Seq<Registration>, id: Seq<char>) -> Option<Registration>
    decreases mods.len(),
{
    if mods.len() == 0 {
        None
    } else if mods.last().provides(id) {
        Some(mods.last())
    } else {
        answering(mods.drop_last(), id)
    }
}

/// The commands of all modules, in the order in which they were registered.
pub open spec fn all_commands(mods: Seq<Registration>) -> Seq<(Seq<char>, Seq<char>)>
    decreases mods.len(),
{
    if mods.len() == 0 {
        Seq::empty()
    } else {
        all_commands(mods.drop_last()) + mods.last().commands
    }
}

/// What a loaded module is to the host.
pub open spec fn registration(m: LoadedModule) -> Registration {
    Registration { manifest: m.manifest, commands: command_views(m.commands@) }
}

impl View for ModuleHost {
    type V = Seq<Registration>;

    closed spec fn view(&self) -> Seq<Registration> {
        Seq::new(self.modules@.len(), |i: int| registration(self.modules@[i]))
    }
}

impl ModuleHost {
    /// The budget of an invocation, in milliseconds.
    pub closed spec fn budget_spec(&self) -> u64 {
        self.budget_ms
    }

    /// The deadline is that of the budget.
    pub closed spec fn deadline_fits(&self) -> bool {
        self.deadline_ticks == ticks_of(self.budget_ms)
    }

    /// The deadline is that of the budget, and no name stands twice.
    pub open spec fn wf(&self) -> bool {
        &&& self.deadline_fits()
        &&& names_differ(self@)
    }
}

/// A command is answered exactly where a loaded module registered it, and by such a module.
proof fn lemma_answering(mods: Seq<Registration>, id: Seq<char>)
    ensures
        answering(mods, id) is Some <==> exists|i: int| 0 <= i < mods.len() && (#[trigger] mods[i]).provides(id),
        answering(mods, id) matches Some(m) ==> m.provides(id) && mods.contains(m),
    decreases mods.len(),
{
    if mods.len() > 0 {
        let front = mods.drop_last();
        lemma_answering(front, id);
        assert(mods[mods.len() - 1] == mods.last());
        if exists|i: int| 0 <= i < mods.len() && (#[trigger] mods[i]).provides(id) {
            let i = choose|i: int| 0 <= i < mods.len() && (#[trigger] mods[i]).provides(id);
            if i < mods.len() - 1 {
                assert(front[i].provides(id));
            }
        }
        if !mods.last().provides(id) && answering(front, id) is Some {
            let m = answering(front, id)->0;
            let i = choose|i: int| 0 <= i < front.len() && front[i] == m;
            assert(mods[i] == m);
        }
    }
}

proof fn lemma_without_absent(mods: Seq<Registration>, name: Seq<char>)
    requires
        !named(mods, name),
    ensures
        without(mods, name) == mods,
    decreases mods.len(),
{
    if mods.len() > 0 {
        let front = mods.drop_last();
        assert(mods[mods.len() - 1].name() != name);
        assert forall|i: int| 0 <= i < front.len() implies (#[trigger] front[i]).name() != name by {
            assert(mods[i].name() != name);
        }
        lemma_without_absent(front, name);
        assert(front.push(mods.last()) =~= mods);
    }
}

proof fn lemma_without_at(mods: Seq<Registration>, i: int)
    requires
        names_differ(mods),
        0 <= i < mods.len(),
    ensures
        without(mods, mods[i].name()) == mods.remove(i),
    decreases mods.len(),
{
    let front = mods.drop_last();
    let name = mods[i].name();
    if i == mods.len() - 1 {
        assert forall|j: int| 0 <= j < front.len() implies (#[trigger] front[j]).name() != name by {
            assert(mods[j].name() != mods[i].name());
        }
        lemma_without_absent(front, name);
        assert(mods.remove(i) =~= front);
    } else {
        assert forall|j: int, k: int| 0 <= j < k < front.len() implies (#[trigger] front[j]).name() != (
        #[trigger] front[k]).name() by {
            assert(mods[j].name() != mods[k].name());
        }
        assert(front[i] == mods[i]);
        lemma_without_at(front, i);
        assert(mods[i].name() != mods[mods.len() - 1].name());
        assert(front.remove(i).push(mods.last()) =~= mods.remove(i));
    }
}

/// What is left when a module goes: the others, each as it was.
proof fn lemma_left(mods: Seq<Registration>, name: Seq<char>)
    requires
        names_differ(mods),
    ensures
        names_differ(without(mods, name)),
        !named(without(mods, name), name),
        forall|m: Registration| #[trigger]
            without(mods, name).contains(m) <==> mods.contains(m) && m.name() != name,
{
    if named(mods, name) {
        let i = choose|i: int| 0 <= i < mods.len() && (#[trigger] mods[i]).name() == name;
        lemma_without_at(mods, i);
        let left = mods.remove(i);
        assert forall|j: int| 0 <= j < left.len() implies (#[trigger] left[j]).name() != name by {
            if j < i {
                assert(left[j] == mods[j]);
                assert(mods[j].name() != mods[i].name());
            } else {
                assert(left[j] == mods[j + 1]);
                assert(mods[i].name() != mods[j + 1].name());
            }
        }
        assert forall|j: int, k: int| 0 <= j < k < left.len() implies (#[trigger] left[j]).name() != (
        #[trigger] left[k]).name() by {
            let x = if j < i {
                j
            } else {
                j + 1
            };
            let y = if k < i {
                k
            } else {
                k + 1
            };
            assert(mods[x].name() != mods[y].name());
        }
        assert forall|m: Registration| #[trigger] left.contains(m) <==> mods.contains(m) && m.name() != name by {
            if left.contains(m) {
                let j = choose|j: int| 0 <= j < left.len() && left[j] == m;
                assert(mods[if j < i {
                    j
                } else {
                    j + 1
                }] == m);
            }
            if mods.contains(m) && m.name() != name {
                let x = choose|x: int| 0 <= x < mods.len() && mods[x] == m;
                assert(left[if x < i {
                    x
                } else {
                    x - 1
                }] == m);
            }
        }
    } else {
        lemma_without_absent(mods, name);
        assert forall|m: Registration| mods.contains(m) implies m.name() != name by {
            let x = choose|x: int| 0 <= x < mods.len() && mods[x] == m;
            assert(mods[x].name() == m.name());
        }
    }
}

/// A module that is not the one to go answers as before.
proof fn lemma_still_answers(mods: Seq<Registration>, name: Seq<char>, id: Seq<char>)
    ensures
        answering(mods, id) matches Some(m) && m.name() != name ==> answering(without(mods, name), id)
            == answering(mods, id),
    decreases mods.len(),
{
    if mods.len() > 0 {
        let front = mods.drop_last();
        lemma_still_answers(front, name, id);
        let left = without(mods, name);
        if mods.last().name() != name {
            assert(left.drop_last() =~= without(front, name));
            assert(left.last() == mods.last());
        }
    }
}

impl ModuleHost {
    /// A host without modules, with the default budget.
    pub fn new() -> (r: Self)
        ensures
            r.wf(),
            r@ == Seq::<Registration>::empty(),
            r.budget_spec() == DEFAULT_BUDGET_MS,
    {
        ModuleHost::with_budget(DEFAULT_BUDGET_MS)
    }

    /// A host without modules whose invocations may take `budget_ms` milliseconds.
    pub fn with_budget(budget_ms: u64) -> (r: Self)
        ensures
            r.wf(),
            r@ == Seq::<Registration>::empty(),
            r.budget_spec() == budget_ms,
    {
        let whole: u64 = budget_ms / TICK_MS;
        let ticks: u64 = if budget_ms % TICK_MS > 0 {
            whole + 1
        } else {
            whole
        };
        let deadline_ticks: u64 = if ticks < 1 {
            1
        } else {
            ticks
        };
        assert(deadline_ticks == ticks_of(budget_ms));
        let r = ModuleHost { budget_ms, deadline_ticks, modules: Vec::new() };
        assert(r@ =~= Seq::<Registration>::empty());
        r
    }

    /// The budget of an invocation, in milliseconds.
    pub fn budget(&self) -> (r: u64)
        ensures
            r == self.budget_spec(),
    {
        self.budget_ms
    }

    /// The budget of an invocation in ticks.
    pub fn deadline_ticks(&self) -> (r: u64)
        requires
            self.wf(),
        ensures
            r == ticks_of(self.budget_spec()),
    {
        self.deadline_ticks
    }

    /// Where the module `name` stands.
    fn find(&self, name: &str) -> (r: Option<usize>)
        ensures
            match r {
                Some(i) => i < self@.len() && self@[i as int].name() == name@,
                None => !named(self@, name@),
            },
    {
        for i in 0..self.modules.len()
            invariant
                forall|j: int| 0 <= j < i ==> (#[trigger] self@[j]).name() != name@,
        {
            assert(self@[i as int] == registration(self.modules@[i as int]));
            if same(&self.modules[i].manifest.name, name) {
                return Some(i);
            }
        }
        None
    }

    /// Takes in a module that was loaded and registered its commands. A module whose name
    /// is taken is refused and changes nothing.
    pub fn load(&mut self, manifest: Manifest, registered: Vec<(String, String)>) -> (r: Result<
        Vec<HostCommand>,
        HostError,
    >)
        requires
            old(self).wf(),
        ensures
            final(self).wf(),
            final(self).budget_spec() == old(self).budget_spec(),
            match r {
                Ok(commands) => {
                    &&& !named(old(self)@, manifest.name@)
                    &&& command_views(commands@) == pair_views(registered@)
                    &&& final(self)@ == old(self)@.push(
                        (Registration { manifest, commands: pair_views(registered@) }),
                    )
                },
                Err(e) => {
                    &&& named(old(self)@, manifest.name@)
                    &&& (e matches HostError::AlreadyLoaded(n) && n@ == manifest.name@)
                    &&& *final(self) == *old(self)
                },
            },
    {
        if self.find(&manifest.name).is_some() {
            return Err(HostError::AlreadyLoaded(manifest.name.clone()));
        }
        let ghost before = *self;
        let ghost pairs = pair_views(registered@);
        let mut kept: Vec<HostCommand> = Vec::new();
        let mut commands: Vec<HostCommand> = Vec::new();
        assert(command_views(kept@) =~= pairs.take(0));
        for i in 0..registered.len()
            invariant
                pairs == pair_views(registered@),
                command_views(kept@) == pairs.take(i as int),
                command_views(commands@) == pairs.take(i as int),
        {
            let ghost old_kept = command_views(kept@);
            kept.push(HostCommand { id: registered[i].0.clone(), title: registered[i].1.clone() });
            commands.push(HostCommand { id: registered[i].0.clone(), title: registered[i].1.clone() });
            assert(command_views(kept@) =~= old_kept.push(pairs[i as int]));
            assert(command_views(commands@) =~= old_kept.push(pairs[i as int]));
            assert(pairs.take(i + 1) =~= pairs.take(i as int).push(pairs[i as int]));
        }
        assert(pairs.take(pairs.len() as int) =~= pairs);
        let ghost m = Registration { manifest, commands: pairs };
        self.modules.push(LoadedModule { manifest, commands: kept });
        assert(self@ =~= before@.push(m));
        assert forall|i: int, j: int| 0 <= i < j < self@.len() implies (#[trigger] self@[i]).name() != (
        #[trigger] self@[j]).name() by {
            assert(before@[i].name() != m.name());
            if j < before@.len() {
                assert(before@[i].name() != before@[j].name());
            }
        }
        Ok(commands)
    }

    /// Drops the module `name` with the commands it registered, and returns their ids; none
    /// where no such module is loaded. No command goes to it afterwards. One that another
    /// loaded module registered too is still answered, by the one of those loaded last.
    pub fn unload(&mut self, name: &str) -> (r: Vec<String>)
        requires
            old(self).wf(),
        ensures
            final(self).wf(),
            final(self).budget_spec() == old(self).budget_spec(),
            final(self)@ == without(old(self)@, name@),
            !named(final(self)@, name@),
            forall|id: Seq<char>|
                #![trigger answering(final(self)@, id)]
                answering(final(self)@, id) is Some <==> exists|i: int|
                    0 <= i < old(self)@.len() && (#[trigger] old(self)@[i]).name() != name@ && old(
                        self,
                    )@[i].provides(id),
            forall|i: int|
                0 <= i < old(self)@.len() && (#[trigger] old(self)@[i]).name() == name@ ==> texts(r@) == ids(
                    old(self)@[i].commands,
                ),
            !named(old(self)@, name@) ==> r@.len() == 0 && *final(self) == *old(self),
    {
        let ghost before = *self;
        proof {
            lemma_left(before@, name@);
            assert forall|id: Seq<char>|
                #![trigger answering(without(before@, name@), id)]
                answering(without(before@, name@), id) is Some <==> exists|i: int|
                    0 <= i < before@.len() && (#[trigger] before@[i]).name() != name@ && before@[i].provides(
                        id,
                    ) by {
                unloading_keeps_the_others(before@, name@, id);
            }
        }
        match self.find(name) {
            Some(at) => {
                proof {
                    lemma_without_at(before@, at as int);
                    assert forall|i: int| 0 <= i < before@.len() && (#[trigger] before@[i]).name()
                        == name@ implies i == at by {
                        if i < at {
                            assert(before@[i].name() != before@[at as int].name());
                        } else if at < i {
                            assert(before@[at as int].name() != before@[i].name());
                        }
                    }
                }
                let module = self.modules.remove(at);
                assert(self@ =~= before@.remove(at as int));
                assert(before@[at as int] == registration(module));
                let ghost all = ids(command_views(module.commands@));
                let mut gone: Vec<String> = Vec::new();
                assert(texts(gone@) =~= all.take(0));
                for i in 0..module.commands.len()
                    invariant
                        all == ids(command_views(module.commands@)),
                        texts(gone@) == all.take(i as int),
                {
                    let ghost earlier = texts(gone@);
                    gone.push(module.commands[i].id.clone());
                    assert(texts(gone@) =~= earlier.push(all[i as int]));
                    assert(all.take(i + 1) =~= all.take(i as int).push(all[i as int]));
                }
                assert(all.take(all.len() as int) =~= all);
                gone
            },
            None => {
                proof {
                    lemma_without_absent(before@, name@);
                }
                Vec::new()
            },
        }
    }

    /// The commands of the loaded modules, in the order in which they were registered.
    pub fn commands(&self) -> (r: Vec<HostCommand>)
        ensures
            command_views(r@) == all_commands(self@),
    {
        let mut out: Vec<HostCommand> = Vec::new();
        assert(command_views(out@) =~= all_commands(self@.take(0)));
        for i in 0..self.modules.len()
            invariant
                command_views(out@) == all_commands(self@.take(i as int)),
        {
            let ghost done = command_views(out@);
            let ghost more = self@[i as int].commands;
            assert(more == command_views(self.modules@[i as int].commands@));
            let commands = &self.modules[i].commands;
            assert(done =~= done + more.take(0));
            for j in 0..commands.len()
                invariant
                    more == command_views(commands@),
                    command_views(out@) == done + more.take(j as int),
            {
                let ghost earlier = command_views(out@);
                out.push(HostCommand { id: commands[j].id.clone(), title: commands[j].title.clone() });
                assert(command_views(out@) =~= earlier.push(more[j as int]));
                assert(done + more.take(j + 1) =~= (done + more.take(j as int)).push(more[j as int]));
            }
            assert(more.take(more.len() as int) =~= more);
            assert(self@.take(i + 1).drop_last() =~= self@.take(i as int));
        }
        assert(self@.take(self@.len() as int) =~= self@);
        out
    }

    /// The module that answers `command_id`, and what runs it.
    pub fn route(&self, command_id: &str) -> (r: Result<(String, ModuleKind), HostError>)
        ensures
            match r {
                Ok((owner, kind)) => {
                    &&& (answering(self@, command_id@) matches Some(m) && m.name() == owner@
                        && m.manifest.kind == kind)
                },
                Err(e) => {
                    &&& answering(self@, command_id@) is None
                    &&& (e matches HostError::NoSuchCommand(id) && id@ == command_id@)
                },
            },
    {
        let mut i: usize = self.modules.len();
        assert(self@.take(i as int) =~= self@);
        while i > 0
            invariant
                i <= self@.len(),
                answering(self@, command_id@) == answering(self@.take(i as int), command_id@),
            decreases i,
        {
            let ghost part = self@.take(i as int);
            i -= 1;
            let ghost m = self@[i as int];
            assert(part.last() == m);
            assert(part.drop_last() =~= self@.take(i as int));
            let commands = &self.modules[i].commands;
            assert(m.commands == command_views(commands@));
            for j in 0..commands.len()
                invariant
                    i < self@.len(),
                    m == self@[i as int],
                    m == registration(self.modules@[i as int]),
                    m.commands == command_views(commands@),
                    part.len() > 0,
                    part.last() == m,
                    answering(self@, command_id@) == answering(part, command_id@),
                    forall|k: int| 0 <= k < j ==> (#[trigger] ids(m.commands)[k]) != command_id@,
            {
                if same(&commands[j].id, command_id) {
                    assert(ids(m.commands)[j as int] == command_id@);
                    let manifest = &self.modules[i].manifest;
                    return Ok((manifest.name.clone(), manifest.kind));
                }
            }
        }
        Err(HostError::NoSuchCommand(command_id.to_owned()))
    }

    /// Whether a module is loaded.
    pub fn is_loaded(&self, name: &str) -> (r: bool)
        ensures
            r == named(self@, name@),
    {
        self.find(name).is_some()
    }

    /// The manifest of a loaded module.
    pub fn manifest(&self, name: &str) -> (r: Option<&Manifest>)
        ensures
            match r {
                Some(m) => exists|i: int|
                    {
                        &&& 0 <= i < self@.len()
                        &&& (#[trigger] self@[i]).manifest == *m
                        &&& self@[i].name() == name@
                    },
                None => !named(self@, name@),
            },
    {
        match self.find(name) {
            Some(i) => {
                assert(self@[i as int].manifest == self.modules@[i as int].manifest);
                Some(&self.modules[i].manifest)
            },
            None => None,
        }
    }

    /// The names of the loaded modules, in order.
    pub fn loaded(&self) -> (r: Vec<String>)
        ensures
            ascending(texts(r@)),
            forall|k: Seq<char>| #[trigger] texts(r@).contains(k) <==> named(self@, k),
    {
        let mut names: Table<()> = Table::new();
        for i in 0..self.modules.len()
            invariant
                names.wf(),
                forall|k: Seq<char>| #[trigger]
                    names@.dom().contains(k) <==> exists|j: int|
                        0 <= j < i && (#[trigger] self@[j]).name() == k,
        {
            let ghost before = names@;
            names.insert(self.modules[i].manifest.name.clone(), ());
            assert forall|k: Seq<char>| #[trigger] names@.dom().contains(k) <==> exists|j: int|
                0 <= j < i + 1 && (#[trigger] self@[j]).name() == k by {
                assert(before.dom().contains(k) ==> names@.dom().contains(k));
                assert(self@[i as int].name() == self.modules@[i as int].manifest.name@);
                if names@.dom().contains(k) && before.dom().contains(k) {
                    let j = choose|j: int| 0 <= j < i && (#[trigger] self@[j]).name() == k;
                    assert(self@[j].name() == k);
                }
            }
        }
        proof {
            names.lemma_keys();
            assert forall|k: Seq<char>| #[trigger] names.keys().contains(k) <==> named(self@, k) by {
                assert(names@.dom().contains(k) <==> names.keys().contains(k));
            }
        }
        names.names()
    }
}

/// Loading a module and unloading it again leaves the modules as they were, so that each command
/// goes where it went before.
pub proof fn unloading_undoes_loading(mods: Seq<Registration>, m: Registration)
    requires
        !named(mods, m.name()),
    ensures
        without(mods.push(m), m.name()) == mods,
        forall|id: Seq<char>| #[trigger]
            answering(without(mods.push(m), m.name()), id) == answering(mods, id),
        all_commands(without(mods.push(m), m.name())) == all_commands(mods),
{
    assert(mods.push(m).drop_last() =~= mods);
    lemma_without_absent(mods, m.name());
}

/// Unloading a module takes commands from no other: a command that another module answers is still
/// answered by it, one that another module registered is still answered, and only those that no
/// other module registered are not.
pub proof fn unloading_keeps_the_others(mods: Seq<Registration>, name: Seq<char>, id: Seq<char>)
    requires
        names_differ(mods),
    ensures
        answering(mods, id) matches Some(m) && m.name() != name ==> answering(without(mods, name), id)
            == answering(mods, id),
        answering(without(mods, name), id) is Some <==> exists|i: int|
            0 <= i < mods.len() && (#[trigger] mods[i]).name() != name && mods[i].provides(id),
        answering(without(mods, name), id) matches Some(m) ==> m.name() != name,
        forall|i: int|
            0 <= i < mods.len() && (#[trigger] mods[i]).name() != name ==> without(mods, name).contains(
                mods[i],
            ),
{
    let left = without(mods, name);
    lemma_still_answers(mods, name, id);
    lemma_left(mods, name);
    lemma_answering(left, id);
    if answering(left, id) is Some {
        let m = answering(left, id)->0;
        assert(left.contains(m));
        let i = choose|i: int| 0 <= i < mods.len() && mods[i] == m;
        assert(mods[i].provides(id));
    }
    assert forall|i: int| 0 <= i < mods.len() && (#[trigger] mods[i]).name() != name implies left.contains(
        mods[i],
    ) by {
        assert(mods.contains(mods[i]));
    }
    if exists|i: int| 0 <= i < mods.len() && (#[trigger] mods[i]).name() != name && mods[i].provides(id) {
        let i = choose|i: int|
            0 <= i < mods.len() && (#[trigger] mods[i]).name() != name && mods[i].provides(id);
        assert(left.contains(mods[i]));
        let j = choose|j: int| 0 <= j < left.len() && left[j] == mods[i];
        assert(left[j].provides(id));
    }
}

/// A module that was just loaded answers every command that it registered, and the others go where
/// they went before.
pub proof fn loaded_modules_answer(mods: Seq<Registration>, m: Registration, id: Seq<char>)
    ensures
        answering(mods.push(m), id) == if m.provides(id) {
            Some(m)
        } else {
            answering(mods, id)
        },
{
    assert(mods.push(m).drop_last() =~= mods);
}

/// A budget is given as many ticks as cover it and no more, but at least one.
pub proof fn ticks_cover_the_budget(budget_ms: u64)
    ensures
        ticks_of(budget_ms) * 10 >= budget_ms,
        budget_ms > 0 ==> (ticks_of(budget_ms) - 1) * 10 < budget_ms,
        ticks_of(0) == 1,
{
}

/// Every command of every module is listed, in the order in which the modules were loaded, and no
/// other is.
pub proof fn loaded_commands_are_listed(mods: Seq<Registration>, m: Registration, c: (Seq<char>, Seq<char>))
    ensures
        all_commands(mods.push(m)) == all_commands(mods) + m.commands,
        all_commands(mods).contains(c) <==> exists|i: int|
            0 <= i < mods.len() && (#[trigger] mods[i]).commands.contains(c),
        all_commands(Seq::empty()) == Seq::<(Seq<char>, Seq<char>)>::empty(),
    decreases mods.len(),
{
    assert(mods.push(m).drop_last() =~= mods);
    if mods.len() > 0 {
        let front = mods.drop_last();
        loaded_commands_are_listed(front, m, c);
        lemma_in_both(all_commands(front), mods.last().commands, c);
        if all_commands(front).contains(c) {
            let i = choose|i: int| 0 <= i < front.len() && (#[trigger] front[i]).commands.contains(c);
            assert(mods[i].commands.contains(c));
        }
        if exists|i: int| 0 <= i < mods.len() && (#[trigger] mods[i]).commands.contains(c) {
            let i = choose|i: int| 0 <= i < mods.len() && (#[trigger] mods[i]).commands.contains(c);
            if i < front.len() {
                assert(front[i].commands.contains(c));
            }
        }
    }
}

} // verus!
