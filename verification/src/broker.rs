//! The permission broker: what a module may do.
//!
//! A module's requests are kept and shown, and none is granted: the interface that a
//! module is given has no file, network or process access at all.

use vstd::prelude::*;
use crate::manifest::Permissions;
use crate::text::push_text;

verus! {

/// Something that a module might want to do, with what it wants to do it to.
#[derive(Debug, PartialEq)]
pub enum Capability {
    FsRead(String),
    FsWrite(String),
    Net(String),
    Exec(String),
}

impl Capability {
    /// What is asked for, in words.
    pub open spec fn kind_words(self) -> Seq<char> {
        match self {
            Capability::FsRead(_) => "fs read"@,
            Capability::FsWrite(_) => "fs write"@,
            Capability::Net(_) => "net"@,
            Capability::Exec(_) => "exec"@,
        }
    }

    /// The path, host or program.
    pub open spec fn target_text(self) -> Seq<char> {
        match self {
            Capability::FsRead(t) => t@,
            Capability::FsWrite(t) => t@,
            Capability::Net(t) => t@,
            Capability::Exec(t) => t@,
        }
    }

    /// What is asked for, in words.
    pub fn kind(&self) -> (r: &'static str)
        ensures
            r@ == self.kind_words(),
    {
        match self {
            Capability::FsRead(_) => "fs read",
            Capability::FsWrite(_) => "fs write",
            Capability::Net(_) => "net",
            Capability::Exec(_) => "exec",
        }
    }

    /// The path, host or program.
    pub fn target(&self) -> (r: &str)
        ensures
            r@ == self.target_text(),
    {
        match self {
            Capability::FsRead(t) => t.as_str(),
            Capability::FsWrite(t) => t.as_str(),
            Capability::Net(t) => t.as_str(),
            Capability::Exec(t) => t.as_str(),
        }
    }
}

/// What the broker says to a request.
#[derive(Debug, PartialEq)]
pub enum Decision {
    Granted,
    /// Refused, with the reason.
    Denied(String),
}

impl Decision {
    /// Whether the request was granted.
    pub fn is_granted(&self) -> (r: bool)
        ensures
            r == (*self is Granted),
    {
        match self {
            Decision::Granted => true,
            Decision::Denied(_) => false,
        }
    }
}

/// The broker of one module.
pub struct PermissionBroker {
    requested: Permissions,
}

/// Why a request is refused.
pub open spec fn denial(cap: Capability) -> Seq<char> {
    cap.kind_words() + " `"@ + cap.target_text()
        + "` denied: v1 host grants no capabilities (deny-by-default, D10)"@
}

impl View for PermissionBroker {
    type V = Permissions;

    closed spec fn view(&self) -> Permissions {
        self.requested
    }
}

impl PermissionBroker {
    /// The broker of a module that asks for `requested`.
    pub fn new(requested: Permissions) -> (r: Self)
        ensures
            r@ == requested,
    {
        PermissionBroker { requested }
    }

    /// What the module asked for.
    pub fn requested(&self) -> (r: &Permissions)
        ensures
            *r == self@,
    {
        &self.requested
    }

    /// Decides on a request: it is denied, whatever it is and whatever the manifest asked for.
    pub fn check(&self, cap: &Capability) -> (r: Decision)
        ensures
            r matches Decision::Denied(reason) && reason@ == denial(*cap),
    {
        let mut reason = cap.kind().to_owned();
        push_text(&mut reason, " `");
        push_text(&mut reason, cap.target());
        push_text(
            &mut reason,
            "` denied: v1 host grants no capabilities (deny-by-default, D10)",
        );
        Decision::Denied(reason)
    }
}

/// A refusal says what was asked for and of what: requests of different kinds for the same target are
/// refused in different words.
pub proof fn refusals_say_what_was_asked(a: Capability, b: Capability)
    requires
        a.target_text() == b.target_text(),
        denial(a) == denial(b),
    ensures
        a is FsRead <==> b is FsRead,
        a is FsWrite <==> b is FsWrite,
        a is Net <==> b is Net,
        a is Exec <==> b is Exec,
{
    reveal_strlit("fs read");
    reveal_strlit("fs write");
    reveal_strlit("net");
    reveal_strlit("exec");
    let rest = |c: Capability|
        " `"@ + c.target_text() + "` denied: v1 host grants no capabilities (deny-by-default, D10)"@;
    assert(denial(a) =~= a.kind_words() + rest(a));
    assert(denial(b) =~= b.kind_words() + rest(b));
    assert(a.kind_words().len() == b.kind_words().len());
}

} // verus!
