//! Loading a WebAssembly module, step by step: what is done next, and why a module is refused.

use vstd::prelude::*;
use crate::guest::{check_abi, missing_export};
use crate::host::HostError;
use crate::number::signed_decimal;
use crate::text::push_text;

verus! {

/// What is done next.
#[derive(Clone, Copy, Debug, PartialEq, Eq, Structural)]
pub enum LoadStep {
    /// The module is compiled.
    Compile,
    /// What it imports is defined.
    Link,
    /// It is instantiated.
    Instantiate,
    /// Its memory is looked up.
    FindMemory,
    /// The function that says its version is looked up.
    FindVersion,
    /// That function is called.
    CallVersion,
    /// The function that registers its commands is looked up.
    FindRegister,
    /// That function is called.
    CallRegister,
    /// The function that runs its commands is looked up.
    FindInvoke,
    /// It is loaded.
    Done,
}

/// How a step went.
#[derive(Debug)]
pub enum LoadEvent {
    /// It was done, or what was looked up is there.
    Fine,
    /// What was looked up is not there.
    Missing,
    /// It failed.
    Failed(String),
    /// What the function returned.
    Returned(i32),
}

/// Whether a step can go that way.
pub open spec fn answers(step: LoadStep, event: LoadEvent) -> bool {
    match step {
        LoadStep::Compile | LoadStep::Link | LoadStep::Instantiate | LoadStep::CallRegister => event is Fine
            || event is Failed,
        LoadStep::FindMemory | LoadStep::FindVersion | LoadStep::FindRegister | LoadStep::FindInvoke => event is Fine
            || event is Missing,
        LoadStep::CallVersion => event is Returned || event is Failed,
        LoadStep::Done => false,
    }
}

/// The step behind another, where it went well. A module need not say a version.
pub open spec fn after_step(step: LoadStep, event: LoadEvent) -> LoadStep {
    match step {
        LoadStep::Compile => LoadStep::Link,
        LoadStep::Link => LoadStep::Instantiate,
        LoadStep::Instantiate => LoadStep::FindMemory,
        LoadStep::FindMemory => LoadStep::FindVersion,
        LoadStep::FindVersion => if event is Fine {
            LoadStep::CallVersion
        } else {
            LoadStep::FindRegister
        },
        LoadStep::CallVersion => LoadStep::FindRegister,
        LoadStep::FindRegister => LoadStep::CallRegister,
        LoadStep::CallRegister => LoadStep::FindInvoke,
        LoadStep::FindInvoke => LoadStep::Done,
        LoadStep::Done => LoadStep::Done,
    }
}

/// Why a module is refused.
pub enum Refused {
    Load(Seq<char>),
    Abi(Seq<char>),
}

/// Whether an error says why.
pub open spec fn says(e: HostError, why: Refused) -> bool {
    match why {
        Refused::Load(m) => e matches HostError::Load(s) && s@ == m,
        Refused::Abi(m) => e matches HostError::Abi(s) && s@ == m,
    }
}

/// Why a module is refused after a step, if it is.
pub open spec fn refusal(step: LoadStep, event: LoadEvent) -> Option<Refused> {
    match event {
        LoadEvent::Fine => None,
        LoadEvent::Missing => match step {
            LoadStep::FindMemory => Some(Refused::Abi("module does not export `"@ + "memory"@ + "`"@)),
            LoadStep::FindRegister => Some(
                Refused::Abi("module does not export `"@ + "umber_register"@ + "`"@),
            ),
            LoadStep::FindInvoke => Some(
                Refused::Abi("module does not export `"@ + "umber_invoke"@ + "`"@),
            ),
            _ => None,
        },
        LoadEvent::Failed(e) => match step {
            LoadStep::Compile => Some(Refused::Load("compile: "@ + e@)),
            LoadStep::Link => Some(Refused::Load("link: "@ + e@)),
            LoadStep::Instantiate => Some(Refused::Load("instantiate: "@ + e@)),
            LoadStep::CallVersion => Some(Refused::Abi("umber_abi_version trapped: "@ + e@)),
            LoadStep::CallRegister => Some(Refused::Abi("umber_register trapped: "@ + e@)),
            _ => None,
        },
        LoadEvent::Returned(v) => if v == 1 {
            None
        } else {
            Some(
                Refused::Abi(
                    "unsupported ABI version "@ + signed_decimal(v as int) + " (host speaks v1)"@,
                ),
            )
        },
    }
}

fn because(what: &str, e: &str) -> (r: String)
    ensures
        r@ == what@ + e@,
{
    let mut out = what.to_owned();
    push_text(&mut out, e);
    out
}

/// What is done after a step went some way; the error where the module is refused.
pub fn next_step(step: LoadStep, event: LoadEvent) -> (r: Result<LoadStep, HostError>)
    requires
        answers(step, event),
    ensures
        match refusal(step, event) {
            Some(why) => r matches Err(e) && says(e, why),
            None => r == Ok::<LoadStep, HostError>(after_step(step, event)),
        },
{
    match step {
        LoadStep::Compile => match event {
            LoadEvent::Failed(e) => Err(HostError::Load(because("compile: ", &e))),
            _ => Ok(LoadStep::Link),
        },
        LoadStep::Link => match event {
            LoadEvent::Failed(e) => Err(HostError::Load(because("link: ", &e))),
            _ => Ok(LoadStep::Instantiate),
        },
        LoadStep::Instantiate => match event {
            LoadEvent::Failed(e) => Err(HostError::Load(because("instantiate: ", &e))),
            _ => Ok(LoadStep::FindMemory),
        },
        LoadStep::FindMemory => match event {
            LoadEvent::Missing => Err(missing_export("memory")),
            _ => Ok(LoadStep::FindVersion),
        },
        LoadStep::FindVersion => match event {
            LoadEvent::Missing => Ok(LoadStep::FindRegister),
            _ => Ok(LoadStep::CallVersion),
        },
        LoadStep::CallVersion => match event {
            LoadEvent::Failed(e) => Err(HostError::Abi(because("umber_abi_version trapped: ", &e))),
            LoadEvent::Returned(v) => match check_abi(Some(v)) {
                Ok(_) => Ok(LoadStep::FindRegister),
                Err(e) => Err(e),
            },
            _ => Ok(LoadStep::FindRegister),
        },
        LoadStep::FindRegister => match event {
            LoadEvent::Missing => Err(missing_export("umber_register")),
            _ => Ok(LoadStep::CallRegister),
        },
        LoadStep::CallRegister => match event {
            LoadEvent::Failed(e) => Err(HostError::Abi(because("umber_register trapped: ", &e))),
            _ => Ok(LoadStep::FindInvoke),
        },
        LoadStep::FindInvoke => match event {
            LoadEvent::Missing => Err(missing_export("umber_invoke")),
            _ => Ok(LoadStep::Done),
        },
        LoadStep::Done => Ok(LoadStep::Done),
    }
}

/// Whether events lead from one step to another without the module being refused.
pub open spec fn leads(step: LoadStep, events: Seq<LoadEvent>, to: LoadStep) -> bool
    decreases events.len(),
{
    if events.len() == 0 {
        step == to
    } else {
        &&& answers(step, events[0])
        &&& refusal(step, events[0]) is None
        &&& leads(after_step(step, events[0]), events.skip(1), to)
    }
}

/// How many steps there are from one to the end, at most.
pub open spec fn steps_left(step: LoadStep) -> int {
    match step {
        LoadStep::Compile => 9,
        LoadStep::Link => 8,
        LoadStep::Instantiate => 7,
        LoadStep::FindMemory => 6,
        LoadStep::FindVersion => 5,
        LoadStep::CallVersion => 4,
        LoadStep::FindRegister => 3,
        LoadStep::CallRegister => 2,
        LoadStep::FindInvoke => 1,
        LoadStep::Done => 0,
    }
}

/// Loading ends: each step that goes well leaves fewer.
pub proof fn loading_ends(step: LoadStep, event: LoadEvent)
    requires
        answers(step, event),
    ensures
        steps_left(after_step(step, event)) < steps_left(step),
{
}

/// A module that is loaded registered its commands and exports what runs them: the last two events
/// say so.
pub proof fn loaded_modules_are_complete(step: LoadStep, events: Seq<LoadEvent>)
    requires
        leads(step, events, LoadStep::Done),
        steps_left(step) >= 2,
    ensures
        events.len() >= 2,
        events.last() is Fine,
        events[events.len() - 2] is Fine,
    decreases events.len(),
{
    reveal_with_fuel(leads, 4);
    let next = after_step(step, events[0]);
    let rest = events.skip(1);
    if steps_left(next) >= 2 {
        loaded_modules_are_complete(next, rest);
        assert(events.last() == rest.last());
        assert(events[events.len() - 2] == rest[rest.len() - 2]);
    } else {
        assert(next is FindInvoke);
        assert(rest.len() > 0);
        assert(rest[0] == events[1]);
        assert(after_step(next, rest[0]) is Done);
        assert(leads(LoadStep::Done, rest.skip(1), LoadStep::Done));
        if rest.skip(1).len() > 0 {
            assert(!answers(LoadStep::Done, rest.skip(1)[0]));
        }
        assert(events.len() == 2);
    }
}

/// Loading goes on where the step went well, where the version is not given, and where it is the one
/// that is spoken; anything else refuses the module.
pub proof fn refused_modules_failed(step: LoadStep, event: LoadEvent)
    requires
        answers(step, event),
    ensures
        refusal(step, event) is None <==> event is Fine || (event is Missing && step is FindVersion) || event
            == LoadEvent::Returned(1),
        event is Missing && step is FindVersion ==> after_step(step, event) is FindRegister,
        event is Fine && step is FindVersion ==> after_step(step, event) is CallVersion,
        refusal(step, event) matches Some(Refused::Load(_)) ==> step is Compile || step is Link || step
            is Instantiate,
        !(step is Done) ==> steps_left(after_step(step, event)) < steps_left(step),
{
}

} // verus!
