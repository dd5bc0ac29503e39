//! Starting an application, and telling the user where that failed.

use crate::utf16::encode;
use crate::winpath::parent;
use vstd::prelude::*;
use vstd::string::*;

verus! {

/// How long a notice stays, in seconds.
pub const NOTICE_SECONDS: u64 = 5;

/// The directory in which the application at a path is to run, if it is there: the one that holds
/// the application.
pub fn launch_dir(path: &str) -> (r: Option<Vec<u16>>)
    ensures
        match r {
            Some(dir) => crate::winpath::parent_of(crate::utf16::encoded(path@)) == Some(dir@),
            None => crate::winpath::parent_of(crate::utf16::encoded(path@)) is None,
        },
{
    let units = encode(path);
    match parent(units.as_slice()) {
        Some(dir) => Some(vstd::slice::slice_to_vec(dir)),
        None => None,
    }
}

/// What the user is told where an application could not be started.
pub open spec fn failure_notice(path: Seq<char>, reason: Seq<char>) -> Seq<char> {
    path + "を起動できませんでした: "@ + reason
}

/// What the user is told where the application at a path could not be started.
pub fn launch_failure(path: &str, reason: &str) -> (r: String)
    ensures
        r@ == failure_notice(path@, reason@),
{
    let mut out = path.to_owned();
    out.append("を起動できませんでした: ");
    out.append(reason);
    out
}

/// The notice at the edge of the window: its text, which is empty where none is shown, and whether
/// the timer runs that will take it away.
pub struct Toast {
    text: String,
    timer: bool,
}

/// What there is to do about the timer of the notice.
#[derive(Clone, Copy, Debug, PartialEq, Eq, Structural)]
pub enum TimerAction {
    /// Let it be.
    Keep,
    /// Start it, from the beginning, for the given number of seconds.
    Start(u64),
    /// Stop it.
    Stop,
}

impl Toast {
    /// No notice stands without a timer that will take it away.
    #[verifier::type_invariant]
    spec fn goes_away(self) -> bool {
        self.text@.len() > 0 ==> self.timer
    }

    /// The text of the notice.
    pub closed spec fn shown(&self) -> Seq<char> {
        self.text@
    }

    /// The timer runs.
    pub closed spec fn timed(&self) -> bool {
        self.timer
    }

    /// No notice is shown, and no timer runs.
    pub fn new() -> (r: Toast)
        ensures
            r.shown() == Seq::<char>::empty(),
            !r.timed(),
    {
        Toast { text: String::new(), timer: false }
    }

    /// The text to show. Where there is one, the timer runs.
    pub fn text(&self) -> (r: &str)
        ensures
            r@ == self.shown(),
            r@.len() > 0 ==> self.timed(),
    {
        proof {
            use_type_invariant(self);
        }
        self.text.as_str()
    }

    /// Shows a notice for a while, in place of any that is shown.
    pub fn show(&mut self, message: &str) -> (r: TimerAction)
        ensures
            final(self).shown() == message@,
            final(self).timed(),
            r == TimerAction::Start(NOTICE_SECONDS),
            r == TimerAction::Start(5),
    {
        self.timer = true;
        self.text = message.to_owned();
        TimerAction::Start(NOTICE_SECONDS)
    }

    /// The user closes the notice.
    pub fn close(&mut self) -> (r: TimerAction)
        ensures
            final(self).shown() == Seq::<char>::empty(),
            !final(self).timed(),
            r == TimerAction::Stop,
    {
        self.text = String::new();
        self.timer = false;
        TimerAction::Stop
    }

    /// The timer has run out: it has stopped by itself, and the notice goes.
    pub fn expire(&mut self) -> (r: TimerAction)
        ensures
            final(self).shown() == Seq::<char>::empty(),
            !final(self).timed(),
            r == TimerAction::Keep,
    {
        self.text = String::new();
        self.timer = false;
        TimerAction::Keep
    }
}

/// An application in a folder runs in that folder, as it is written, whatever stands above the
/// folder.
pub proof fn law_application_runs_in_its_folder(
    above: Seq<char>,
    folder: Seq<char>,
    program: Seq<char>,
)
    requires
        crate::winpath::is_plain_name(crate::utf16::encoded(folder)),
        crate::winpath::is_plain_name(crate::utf16::encoded(program)),
        crate::winpath::prefix_kind(crate::utf16::encoded(above))
            == crate::winpath::PrefixKind::Disk || crate::winpath::prefix_kind(
            crate::utf16::encoded(above),
        ) == crate::winpath::PrefixKind::Unc,
    ensures
        crate::winpath::parent_of(
            crate::utf16::encoded(above.push('\\') + folder.push('\\') + program),
        ) == Some(crate::utf16::encoded(above.push('\\') + folder)),
{
    let a = crate::utf16::encoded(above);
    let f = crate::utf16::encoded(folder);
    let p = crate::utf16::encoded(program);
    let slash = seq!['\\'];
    let dir = above.push('\\') + folder;
    let whole = above.push('\\') + folder.push('\\') + program;
    let d = a.push(0x5C) + f;
    crate::utf16::law_units_of_a_character('\\');
    assert(crate::utf16::encoded(slash) =~= seq![0x5Cu16]);
    assert(dir =~= above + slash + folder);
    assert(whole =~= dir + slash + program);
    crate::utf16::law_encoding_goes_on(above, slash);
    crate::utf16::law_encoding_goes_on(above + slash, folder);
    crate::utf16::law_encoding_goes_on(dir, slash);
    crate::utf16::law_encoding_goes_on(dir + slash, program);
    assert(crate::utf16::encoded(dir) =~= d);
    assert(crate::utf16::encoded(whole) =~= d.push(0x5C) + p);
    assert forall|k: int| 0 <= k < f.len() implies !crate::winpath::separates(
        #[trigger] f[k],
        false,
    ) by {
        assert(!crate::winpath::is_separator(f[k]));
    }
    assert forall|k: int| 0 <= k < p.len() implies !crate::winpath::separates(
        #[trigger] p[k],
        false,
    ) by {
        assert(!crate::winpath::is_separator(p[k]));
    }
    crate::winpath::law_prefix_is_kept(a, 0x5C, f);
    crate::winpath::law_prefix_is_kept(d, 0x5C, p);
    crate::winpath::law_component_behind_a_path(a, 0x5C, f);
    assert(d.skip(d.len() - f.len()) =~= f);
    crate::winpath::law_parent_of_a_name_in_a_directory(d, 0x5C, p);
}

/// The notice of a failure begins with the path of the application and ends with the reason, both
/// whole.
pub proof fn law_notice_names_path_and_reason(path: Seq<char>, reason: Seq<char>)
    ensures
        ({
            let notice = failure_notice(path, reason);
            let between = notice.len() - reason.len();
            &&& path.len() <= between
            &&& notice.take(path.len() as int) == path
            &&& notice.subrange(path.len() as int, between) == "を起動できませんでした: "@
            &&& notice.skip(between) == reason
        }),
{
    let notice = failure_notice(path, reason);
    let between = notice.len() - reason.len();
    assert(notice.take(path.len() as int) =~= path);
    assert(notice.subrange(path.len() as int, between) =~= "を起動できませんでした: "@);
    assert(notice.skip(between) =~= reason);
}

} // verus!
