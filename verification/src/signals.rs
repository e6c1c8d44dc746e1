//! What a terminal's thread passes on: at most one wake-up until what is shown was read, and the end
//! of the shell once.

use vstd::prelude::*;
use vstd::utf8::encode_utf8;
use crate::bytes::push_bytes;

verus! {

/// What the parser of a terminal reports.
#[derive(Debug)]
pub enum TermEvent {
    /// There is something new to show.
    Wakeup,
    /// A text is to be sent to the shell.
    Write(String),
    /// The shell ended.
    Exited,
    Other,
}

/// What is passed on.
#[derive(Debug)]
pub enum Notice {
    Nothing,
    Wake,
    /// These bytes go to the shell.
    Write(Vec<u8>),
    ChildExited,
}

/// Whether there is something new to show, and whether the shell ended.
#[derive(Clone, Copy, Debug, PartialEq, Eq, Structural)]
pub struct Signals {
    pub dirty: bool,
    pub exited: bool,
}

/// The signals after what the parser reports.
pub open spec fn signalled(s: Signals, event: TermEvent) -> Signals {
    match event {
        TermEvent::Wakeup => Signals { dirty: true, ..s },
        TermEvent::Exited => Signals { exited: true, ..s },
        _ => s,
    }
}

/// Whether the editor is woken for what the parser reports: only where what was reported before was
/// read.
pub open spec fn wakes_for(s: Signals, event: TermEvent) -> bool {
    event is Wakeup && !s.dirty
}

/// Whether the editor is told of the end of the shell for what the parser reports: only once.
pub open spec fn ends_for(s: Signals, event: TermEvent) -> bool {
    event is Exited && !s.exited
}

impl Signals {
    /// Nothing was reported.
    pub fn new() -> (r: Signals)
        ensures
            r == (Signals { dirty: false, exited: false }),
    {
        Signals { dirty: false, exited: false }
    }

    /// What is passed on of what the parser reports.
    pub fn send_event(&mut self, event: TermEvent) -> (r: Notice)
        ensures
            *final(self) == signalled(*old(self), event),
            r is Wake == wakes_for(*old(self), event),
            r is ChildExited == ends_for(*old(self), event),
            r is Write == event is Write,
            event matches TermEvent::Write(text) ==> (r matches Notice::Write(b) && b@ == encode_utf8(text@)),
    {
        match event {
            TermEvent::Wakeup => {
                let first = !self.dirty;
                self.dirty = true;
                if first {
                    Notice::Wake
                } else {
                    Notice::Nothing
                }
            },
            TermEvent::Exited => {
                let first = !self.exited;
                self.exited = true;
                if first {
                    Notice::ChildExited
                } else {
                    Notice::Nothing
                }
            },
            TermEvent::Write(text) => {
                let mut bytes: Vec<u8> = Vec::new();
                push_bytes(&mut bytes, &text);
                assert(bytes@ =~= encode_utf8(text@));
                Notice::Write(bytes)
            },
            TermEvent::Other => Notice::Nothing,
        }
    }

    /// Whether there is something new to show, which is then taken as read.
    pub fn take_dirty(&mut self) -> (r: bool)
        ensures
            r == old(self).dirty,
            *final(self) == (Signals { dirty: false, ..*old(self) }),
    {
        let was = self.dirty;
        self.dirty = false;
        was
    }

    /// Something is to be shown anew though nothing was reported: the view was moved.
    pub fn touch(&mut self)
        ensures
            *final(self) == (Signals { dirty: true, ..*old(self) }),
    {
        self.dirty = true;
    }

    /// Whether the shell ended.
    pub fn has_exited(&self) -> (r: bool)
        ensures
            r == self.exited,
    {
        self.exited
    }
}

/// The signals after some events.
pub open spec fn after_events(s: Signals, events: Seq<TermEvent>) -> Signals
    decreases events.len(),
{
    if events.len() == 0 {
        s
    } else {
        signalled(after_events(s, events.drop_last()), events.last())
    }
}

/// How many wake-ups are passed on of some events.
pub open spec fn wakes(s: Signals, events: Seq<TermEvent>) -> nat
    decreases events.len(),
{
    if events.len() == 0 {
        0
    } else {
        wakes(s, events.drop_last()) + if wakes_for(after_events(s, events.drop_last()), events.last()) {
            1nat
        } else {
            0nat
        }
    }
}

/// How often the end of the shell is passed on of some events.
pub open spec fn endings(s: Signals, events: Seq<TermEvent>) -> nat
    decreases events.len(),
{
    if events.len() == 0 {
        0
    } else {
        endings(s, events.drop_last()) + if ends_for(after_events(s, events.drop_last()), events.last()) {
            1nat
        } else {
            0nat
        }
    }
}

/// However much a terminal reports, it wakes the editor at most once until what is shown was read:
/// once where it has something new to show, not at all where the editor was woken before. The end of
/// the shell is passed on at most once.
pub proof fn wakeups_are_coalesced(s: Signals, events: Seq<TermEvent>)
    ensures
        wakes(s, events) == if after_events(s, events).dirty && !s.dirty {
            1nat
        } else {
            0nat
        },
        s.dirty ==> after_events(s, events).dirty,
        endings(s, events) == if after_events(s, events).exited && !s.exited {
            1nat
        } else {
            0nat
        },
        s.exited ==> after_events(s, events).exited,
    decreases events.len(),
{
    if events.len() > 0 {
        wakeups_are_coalesced(s, events.drop_last());
    }
}

/// No wake-up is lost: the first one after what is shown was read is passed on, whatever else is
/// reported before it.
pub proof fn wakeups_are_not_lost(s: Signals, events: Seq<TermEvent>)
    requires
        !s.dirty,
        exists|i: int| 0 <= i < events.len() && #[trigger] events[i] is Wakeup,
    ensures
        wakes(s, events) == 1,
{
    wakeups_are_coalesced(s, events);
    lemma_wakeup_shows(s, events);
}

proof fn lemma_wakeup_shows(s: Signals, events: Seq<TermEvent>)
    requires
        exists|i: int| 0 <= i < events.len() && #[trigger] events[i] is Wakeup,
    ensures
        after_events(s, events).dirty,
    decreases events.len(),
{
    let front = events.drop_last();
    let i = choose|i: int| 0 <= i < events.len() && #[trigger] events[i] is Wakeup;
    if i < events.len() - 1 {
        assert(front[i] is Wakeup);
        lemma_wakeup_shows(s, front);
    }
}

} // verus!
