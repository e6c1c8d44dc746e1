//! The terminal beside the document: whether it is shown, has the focus, fills the window, is shown
//! as a tab, and whether a shell runs in it.

use vstd::prelude::*;

verus! {

/// The terminal.
#[derive(Clone, Copy, Debug, PartialEq, Eq, Structural)]
pub struct Panel {
    pub open: bool,
    pub focused: bool,
    pub maximized: bool,
    pub tab: bool,
    /// Whether a shell runs.
    pub live: bool,
}

/// What showing the terminal takes.
#[derive(Clone, Copy, Debug, PartialEq, Eq, Structural)]
pub enum Opening {
    /// Nothing: there is to be no terminal.
    Disabled,
    /// A shell is to be started, once the one that runs, if one does, was ended.
    Start,
    /// The shell is to be told the size.
    Resize,
}

/// The hidden terminal, its shell as it was.
pub open spec fn hidden(p: Panel) -> Panel {
    Panel { open: false, focused: false, maximized: false, tab: false, live: p.live }
}

/// What showing the terminal asks for: a shell is started where none runs, and for a program of its own.
pub open spec fn opening(p: Panel, enabled: bool, own_program: bool) -> Opening {
    if !enabled {
        Opening::Disabled
    } else if own_program || !p.live {
        Opening::Start
    } else {
        Opening::Resize
    }
}

/// The terminal that is shown.
pub open spec fn opened(p: Panel, enabled: bool, own_program: bool) -> Panel {
    if !enabled {
        p
    } else {
        Panel { open: true, focused: true, live: p.live && !own_program, ..p }
    }
}

/// The terminal once a shell was started, or could not be.
pub open spec fn after_start(p: Panel, ok: bool) -> Panel {
    if ok {
        Panel { live: true, ..p }
    } else {
        Panel { open: false, focused: false, ..p }
    }
}

/// The terminal as a tab of its own, where a shell runs.
pub open spec fn as_tab(p: Panel) -> Panel {
    if p.live {
        Panel { tab: true, maximized: true, ..p }
    } else {
        p
    }
}

/// The terminal over the whole window, or no more, where it is shown.
pub open spec fn max_toggled(p: Panel) -> Panel {
    Panel {
        maximized: if p.open {
            !p.maximized
        } else {
            p.maximized
        },
        ..p
    }
}

impl Panel {
    /// No terminal.
    pub fn none() -> (r: Panel)
        ensures
            r == hidden(Panel { live: false, ..r }),
    {
        Panel { open: false, focused: false, maximized: false, tab: false, live: false }
    }

    /// Shows the terminal and gives it the focus. A program of its own takes the place of the one
    /// that runs.
    pub fn open_terminal_session(&mut self, enabled: bool, own_program: bool) -> (r: Opening)
        ensures
            r == opening(*old(self), enabled, own_program),
            *final(self) == opened(*old(self), enabled, own_program),
    {
        if !enabled {
            return Opening::Disabled;
        }
        if own_program {
            self.live = false;
        }
        self.open = true;
        self.focused = true;
        if self.live {
            Opening::Resize
        } else {
            Opening::Start
        }
    }

    /// A shell was started, or could not be: the terminal is then hidden.
    pub fn started(&mut self, ok: bool)
        ensures
            *final(self) == after_start(*old(self), ok),
    {
        if ok {
            self.live = true;
        } else {
            self.open = false;
            self.focused = false;
        }
    }

    /// Shows the terminal as a tab of its own, over the whole window, where a shell runs; whether
    /// one does.
    pub fn activate_terminal_tab(&mut self) -> (r: bool)
        ensures
            r == old(self).live,
            *final(self) == as_tab(*old(self)),
    {
        if !self.live {
            return false;
        }
        self.tab = true;
        self.maximized = true;
        true
    }

    /// Back to the document; the shell runs on.
    pub fn deactivate_terminal_tab(&mut self)
        ensures
            *final(self) == hidden(*old(self)),
    {
        self.tab = false;
        self.focused = false;
        self.maximized = false;
        self.open = false;
    }

    /// Leaves the tab of the terminal where it is shown; whether it is to be shown.
    pub fn terminal_toggle(&mut self) -> (r: bool)
        ensures
            r == !old(self).tab,
            *final(self) == (if r {
                *old(self)
            } else {
                hidden(*old(self))
            }),
    {
        if self.tab {
            self.deactivate_terminal_tab();
            false
        } else {
            true
        }
    }

    /// Ends the terminal; whether a shell ran that is to be ended.
    pub fn kill_terminal(&mut self) -> (r: bool)
        ensures
            r == old(self).live,
            *final(self) == hidden(Panel { live: false, ..*old(self) }),
    {
        let ran = self.live;
        self.live = false;
        self.deactivate_terminal_tab();
        ran
    }

    /// Lets a terminal that is shown fill the window, or no more; whether it is shown.
    pub fn terminal_toggle_max(&mut self) -> (r: bool)
        ensures
            r == old(self).open,
            *final(self) == max_toggled(*old(self)),
    {
        if !self.open {
            return false;
        }
        self.maximized = !self.maximized;
        true
    }

    /// Whether dragging the border resizes the terminal.
    pub fn can_resize(&self) -> (r: bool)
        ensures
            r == (self.open && !self.maximized),
    {
        self.open && !self.maximized
    }

    /// Gives the terminal the focus or takes it away.
    pub fn focus(&mut self, focused: bool)
        ensures
            *final(self) == (Panel { focused, ..*old(self) }),
    {
        self.focused = focused;
    }
}

/// Showing the terminal as a tab and leaving it keeps its shell, and leaves the document as it was
/// before the terminal was shown.
pub proof fn leaving_keeps_the_shell(before: Panel, opened: Panel, tab: Panel)
    requires
        before == hidden(before),
        before.live,
        opened == (Panel { open: true, focused: true, ..before }),
        tab == (Panel { tab: true, maximized: true, ..opened }),
    ensures
        hidden(tab) == before,
{
}

/// A shell that runs is kept when the terminal is shown again; only a program of its own takes its
/// place. What cannot be started is not shown, and where there is to be no terminal nothing happens.
pub proof fn shells_are_kept(p: Panel, own: bool)
    ensures
        opening(after_start(opened(p, true, own), true), true, false) is Resize,
        after_start(opened(p, true, own), true).live,
        after_start(opened(p, true, own), true).open && after_start(opened(p, true, own), true).focused,
        !after_start(opened(p, true, own), false).open && !after_start(opened(p, true, own), false).focused,
        opening(p, true, true) is Start,
        !opened(p, true, true).live,
        opening(p, false, own) is Disabled && opened(p, false, own) == p,
        opening(p, true, false) is Start <==> !p.live,
        opened(p, true, own).maximized == p.maximized && opened(p, true, own).tab == p.tab,
{
}

/// A terminal fills the window once and no more the second time; one that is hidden does not, and one
/// without a shell is no tab.
pub proof fn maximizing_twice_changes_nothing(p: Panel)
    ensures
        max_toggled(max_toggled(p)) == p,
        p.open ==> max_toggled(p).maximized != p.maximized,
        !p.open ==> max_toggled(p) == p,
        as_tab(p).tab ==> p.tab || p.live,
        p.live ==> as_tab(p).tab && as_tab(p).maximized && as_tab(p).live,
        !hidden(p).open && !hidden(p).focused && !hidden(p).maximized && !hidden(p).tab && hidden(p).live == p.live,
{
}

} // verus!
