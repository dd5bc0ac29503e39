//! What the launcher does about the events of its window: it asks for the light title bar once,
//! and takes in files that are dropped.

use vstd::prelude::*;

verus! {

/// The window that an event came with.
#[derive(Clone, Copy, Debug, PartialEq, Eq, Structural)]
pub enum EventWindow {
    /// There is none yet.
    Absent,
    /// A window whose handle the desktop can be told about.
    Native,
    /// A window without such a handle.
    Other,
}

/// What there is to do about an event. The event itself is passed on in any case.
#[derive(Debug)]
pub struct EventActions {
    /// Ask the desktop for the light title bar.
    pub set_theme: bool,
    /// Add this file to the list.
    pub add_file: Option<Vec<u16>>,
}

/// What is remembered from one event to the next.
#[derive(Debug)]
pub struct DndHandler {
    /// The title bar has been seen to.
    pub theme_set: bool,
}

impl DndHandler {
    /// A handler that has seen no window yet.
    pub fn new() -> (r: DndHandler)
        ensures
            !r.theme_set,
    {
        DndHandler { theme_set: false }
    }

    /// Decides what to do about an event: the title bar is seen to with the first window there is,
    /// whether or not it has a handle, and never again; a file that was dropped is added.
    pub fn window_event(&mut self, window: EventWindow, dropped: Option<Vec<u16>>) -> (r:
        EventActions)
        ensures
            final(self).theme_set == (old(self).theme_set || window != EventWindow::Absent),
            r.set_theme == (!old(self).theme_set && window == EventWindow::Native),
            r.add_file == dropped,
    {
        let set_theme = !self.theme_set && window == EventWindow::Native;
        if window != EventWindow::Absent {
            self.theme_set = true;
        }
        EventActions { set_theme, add_file: dropped }
    }
}

/// How often the desktop is asked for the light title bar over a number of events, beginning with
/// a handler that has, or has not, seen to it.
pub open spec fn themes_set(theme_set: bool, windows: Seq<EventWindow>) -> nat
    decreases windows.len(),
{
    if windows.len() == 0 {
        0
    } else {
        (if !theme_set && windows[0] == EventWindow::Native {
            1nat
        } else {
            0
        }) + themes_set(theme_set || windows[0] != EventWindow::Absent, windows.skip(1))
    }
}

/// The desktop is asked at most once: by the first event that comes with a window, if that has a
/// handle.
pub proof fn law_theme_is_set_once(windows: Seq<EventWindow>, first: int)
    requires
        0 <= first < windows.len(),
        windows[first] != EventWindow::Absent,
        forall|i: int| 0 <= i < first ==> windows[i] == EventWindow::Absent,
    ensures
        themes_set(false, windows) == (if windows[first] == EventWindow::Native {
            1nat
        } else {
            0
        }),
    decreases windows.len(),
{
    if first == 0 {
        lemma_no_theme_again(windows.skip(1));
    } else {
        law_theme_is_set_once(windows.skip(1), first - 1);
    }
}

proof fn lemma_no_theme_again(windows: Seq<EventWindow>)
    ensures
        themes_set(true, windows) == 0,
    decreases windows.len(),
{
    if windows.len() > 0 {
        lemma_no_theme_again(windows.skip(1));
    }
}

} // verus!
