//! Shortcuts: how the target of a `.lnk` file is asked of the shell.
//!
//! The shell is a set of COM objects. `LinkResolver` says which call comes next and takes the
//! reply to each, so that whatever the shell answers, every object that was obtained is released
//! again, and COM is left where it was entered.

use crate::apps::display_name;
use crate::utf16::{decode_lossy, encode, to_wide};
use vstd::prelude::*;
use vstd::slice::slice_subrange;

verus! {

/// The one failing status of entering COM that does not end the attempt.
pub const TOLERATED_STATUS: i32 = -2147417835;

/// COM is entered for a thread of its own apartment.
pub const APARTMENT_THREADED: u32 = 2;

/// The shell link object is to live in this process.
pub const IN_PROCESS_SERVER: u32 = 1;

/// The mode in which a shortcut is loaded: for reading.
pub const LOAD_MODE: u32 = 0;

/// The number of units that the path of a target may take, with the closing zero.
pub const PATH_CAPACITY: u16 = 1024;

/// The flags with which the path of a target is read: none.
pub const PATH_FLAGS: u32 = 0;

/// A call to the shell.
#[derive(Debug)]
pub enum ComCall {
    /// Enter COM, in the given kind of apartment.
    Initialize(u32),
    /// Obtain a shell link object that lives in the given kind of server.
    CreateShellLink(u32),
    /// Obtain the file interface of the shell link.
    QueryPersistFile,
    /// Load the file at the given path, in the wide form, into the shell link, in the given mode.
    Load(Vec<u16>, u32),
    /// Read the path that the shell link leads to, into a buffer of the given number of units, with
    /// the given flags.
    GetPath(u16, u32),
    /// Release the file interface.
    ReleasePersistFile,
    /// Release the shell link object.
    ReleaseShellLink,
    /// Leave COM.
    Uninitialize,
}

/// The reply to a call: the status, whether there is an object, and what was written into the
/// buffer. A call fills in what it has; nothing else is looked at.
#[derive(Debug)]
pub struct ComReply {
    pub status: i32,
    pub object: bool,
    pub buffer: Vec<u16>,
}

/// The reply as mathematics has it.
pub ghost struct Reply {
    pub status: int,
    pub object: bool,
    pub buffer: Seq<u16>,
}

impl View for ComReply {
    type V = Reply;

    open spec fn view(&self) -> Reply {
        Reply { status: self.status as int, object: self.object, buffer: self.buffer@ }
    }
}

/// Which call is due.
#[derive(Clone, Copy, Debug, PartialEq, Eq, Structural)]
pub enum LinkState {
    Initializing,
    Creating,
    Querying,
    Loading,
    Reading,
    ReleasingFile,
    ReleasingLink,
    Uninitializing,
    Finished,
}

/// How far an attempt has come: the path of the shortcut, the call that is due, whether COM has to
/// be left at the end, and the name and path of the target, once they are known.
pub ghost struct LinkProgress {
    pub path: Seq<char>,
    pub state: LinkState,
    pub uninitialize: bool,
    pub target: Option<(Seq<char>, Seq<char>)>,
}

/// An attempt to find out where a shortcut leads.
pub struct LinkResolver {
    path: String,
    state: LinkState,
    uninitialize: bool,
    target: Option<(String, String)>,
}

impl View for LinkResolver {
    type V = LinkProgress;

    closed spec fn view(&self) -> LinkProgress {
        LinkProgress {
            path: self.path@,
            state: self.state,
            uninitialize: self.uninitialize,
            target: crate::apps::link_view(self.target),
        }
    }
}

/// The number of units before the first zero, or 0 where no zero closes the text.
pub open spec fn closed_len(buffer: Seq<u16>) -> int {
    if buffer.contains(0) {
        buffer.index_of_first(0)->0
    } else {
        0
    }
}

/// The text in a buffer, up to the closing zero.
pub open spec fn closed_text(buffer: Seq<u16>) -> Seq<char> {
    crate::utf16::lossy_text(buffer.take(closed_len(buffer)))
}

/// The name and path of the target in a buffer: the text that it holds, under the name of the file
/// at that path. An empty text leads nowhere.
pub open spec fn target_in(buffer: Seq<u16>) -> Option<(Seq<char>, Seq<char>)> {
    let path = closed_text(buffer);
    if path.len() == 0 {
        None
    } else {
        Some((crate::apps::name_of_path(crate::utf16::encoded(path)), path))
    }
}

/// An attempt that has just begun.
pub open spec fn begun(path: Seq<char>) -> LinkProgress {
    LinkProgress { path, state: LinkState::Initializing, uninitialize: false, target: None }
}

/// What is due once nothing is held but COM itself.
pub open spec fn leaving(at: LinkProgress) -> LinkState {
    if at.uninitialize {
        LinkState::Uninitializing
    } else {
        LinkState::Finished
    }
}

/// COM was entered, or the failure to do so is tolerated.
pub open spec fn may_go_on(reply: Reply) -> bool {
    reply.status >= 0 || reply.status == TOLERATED_STATUS
}

/// The call gave an object.
pub open spec fn gave_object(reply: Reply) -> bool {
    reply.status >= 0 && reply.object
}

/// Where an attempt stands after the reply to the call that was due.
pub open spec fn next(at: LinkProgress, reply: Reply) -> LinkProgress {
    match at.state {
        LinkState::Initializing => if may_go_on(reply) {
            LinkProgress {
                state: LinkState::Creating,
                uninitialize: reply.status >= 0,
                ..at
            }
        } else {
            LinkProgress { state: LinkState::Finished, ..at }
        },
        LinkState::Creating => if gave_object(reply) {
            LinkProgress { state: LinkState::Querying, ..at }
        } else {
            LinkProgress { state: leaving(at), ..at }
        },
        LinkState::Querying => if gave_object(reply) {
            LinkProgress { state: LinkState::Loading, ..at }
        } else {
            LinkProgress { state: LinkState::ReleasingLink, ..at }
        },
        LinkState::Loading => if reply.status >= 0 {
            LinkProgress { state: LinkState::Reading, ..at }
        } else {
            LinkProgress { state: LinkState::ReleasingFile, ..at }
        },
        LinkState::Reading => LinkProgress {
            state: LinkState::ReleasingFile,
            target: if reply.status >= 0 {
                target_in(reply.buffer)
            } else {
                None
            },
            ..at
        },
        LinkState::ReleasingFile => LinkProgress { state: LinkState::ReleasingLink, ..at },
        LinkState::ReleasingLink => LinkProgress { state: leaving(at), ..at },
        LinkState::Uninitializing => LinkProgress { state: LinkState::Finished, ..at },
        LinkState::Finished => at,
    }
}

/// The name and path of the target that the shell wrote into a buffer.
pub fn shell_link_target(buffer: &[u16]) -> (r: Option<(String, String)>)
    ensures
        crate::apps::link_view(r) == target_in(buffer@),
        match r {
            Some(target) => target_in(buffer@) == Some((target.0@, target.1@)),
            None => target_in(buffer@) is None,
        },
{
    let mut len: usize = 0;
    while len < buffer.len() && buffer[len] != 0
        invariant
            len <= buffer@.len(),
            forall|j: int| 0 <= j < len ==> #[trigger] buffer@[j] != 0,
        decreases buffer@.len() - len,
    {
        len = len + 1;
    }
    if len == buffer.len() {
        len = 0;
        assert(!buffer@.contains(0));
    } else {
        proof {
            buffer@.index_of_first_ensures(0);
            assert(buffer@[len as int] == 0);
        }
    }
    let units = slice_subrange(buffer, 0, len);
    assert(units@ =~= buffer@.take(closed_len(buffer@)));
    let path = decode_lossy(units);
    if path.as_str().unicode_len() == 0 {
        None
    } else {
        let name = display_name(encode(path.as_str()).as_slice());
        Some((name, path))
    }
}

impl LinkResolver {
    /// Begins an attempt to resolve the shortcut at a path.
    pub fn new(path: &str) -> (r: LinkResolver)
        ensures
            r@ == begun(path@),
    {
        LinkResolver {
            path: path.to_owned(),
            state: LinkState::Initializing,
            uninitialize: false,
            target: None,
        }
    }

    /// The call that is due, or `None` once the attempt has finished.
    pub fn pending(&self) -> (r: Option<ComCall>)
        ensures
            match self@.state {
                LinkState::Initializing => r == Some(ComCall::Initialize(APARTMENT_THREADED)),
                LinkState::Creating => r == Some(ComCall::CreateShellLink(IN_PROCESS_SERVER)),
                LinkState::Querying => r == Some(ComCall::QueryPersistFile),
                LinkState::Loading => {
                    &&& r matches Some(ComCall::Load(wide, mode))
                    &&& wide@ == crate::utf16::encoded(self@.path).push(0)
                    &&& mode == LOAD_MODE
                },
                LinkState::Reading => r == Some(ComCall::GetPath(PATH_CAPACITY, PATH_FLAGS)),
                LinkState::ReleasingFile => r == Some(ComCall::ReleasePersistFile),
                LinkState::ReleasingLink => r == Some(ComCall::ReleaseShellLink),
                LinkState::Uninitializing => r == Some(ComCall::Uninitialize),
                LinkState::Finished => r is None,
            },
    {
        match self.state {
            LinkState::Initializing => Some(ComCall::Initialize(APARTMENT_THREADED)),
            LinkState::Creating => Some(ComCall::CreateShellLink(IN_PROCESS_SERVER)),
            LinkState::Querying => Some(ComCall::QueryPersistFile),
            LinkState::Loading => Some(ComCall::Load(to_wide(self.path.as_str()), LOAD_MODE)),
            LinkState::Reading => Some(ComCall::GetPath(PATH_CAPACITY, PATH_FLAGS)),
            LinkState::ReleasingFile => Some(ComCall::ReleasePersistFile),
            LinkState::ReleasingLink => Some(ComCall::ReleaseShellLink),
            LinkState::Uninitializing => Some(ComCall::Uninitialize),
            LinkState::Finished => None,
        }
    }

    /// Takes the reply to the call that was due.
    pub fn advance(&mut self, reply: &ComReply)
        ensures
            final(self)@ == next(old(self)@, reply@),
    {
        let left = if self.uninitialize {
            LinkState::Uninitializing
        } else {
            LinkState::Finished
        };
        let object = reply.status >= 0 && reply.object;
        match self.state {
            LinkState::Initializing => {
                if reply.status < 0 && reply.status != TOLERATED_STATUS {
                    self.state = LinkState::Finished;
                } else {
                    self.uninitialize = reply.status >= 0;
                    self.state = LinkState::Creating;
                }
            },
            LinkState::Creating => {
                self.state = if object {
                    LinkState::Querying
                } else {
                    left
                };
            },
            LinkState::Querying => {
                self.state = if object {
                    LinkState::Loading
                } else {
                    LinkState::ReleasingLink
                };
            },
            LinkState::Loading => {
                self.state = if reply.status >= 0 {
                    LinkState::Reading
                } else {
                    LinkState::ReleasingFile
                };
            },
            LinkState::Reading => {
                self.target = if reply.status >= 0 {
                    shell_link_target(reply.buffer.as_slice())
                } else {
                    None
                };
                self.state = LinkState::ReleasingFile;
            },
            LinkState::ReleasingFile => {
                self.state = LinkState::ReleasingLink;
            },
            LinkState::ReleasingLink => {
                self.state = left;
            },
            LinkState::Uninitializing => {
                self.state = LinkState::Finished;
            },
            LinkState::Finished => {},
        }
    }

    /// The name and path of the target, once the attempt has found them.
    pub fn into_target(self) -> (r: Option<(String, String)>)
        ensures
            crate::apps::link_view(r) == self@.target,
            match r {
                Some(target) => self@.target == Some((target.0@, target.1@)),
                None => self@.target is None,
            },
    {
        self.target
    }
}

/// Where an attempt stands after the replies so far.
pub open spec fn after(path: Seq<char>, replies: Seq<Reply>) -> LinkProgress
    decreases replies.len(),
{
    if replies.len() == 0 {
        begun(path)
    } else {
        next(after(path, replies.drop_last()), replies.last())
    }
}

/// How often COM is entered, and how many shell links and file interfaces are held.
pub ghost struct Held {
    pub com: int,
    pub link: int,
    pub file: int,
}

/// Nothing is held.
pub open spec fn nothing_held() -> Held {
    Held { com: 0, link: 0, file: 0 }
}

/// What is held after a call, made in the given state, and its reply. A call that obtains
/// something does so where the reply says that it succeeded; a call that gives something back
/// always does.
pub open spec fn held_after_call(held: Held, state: LinkState, reply: Reply) -> Held {
    match state {
        LinkState::Initializing => if reply.status >= 0 {
            Held { com: held.com + 1, ..held }
        } else {
            held
        },
        LinkState::Creating => if reply.status >= 0 && reply.object {
            Held { link: held.link + 1, ..held }
        } else {
            held
        },
        LinkState::Querying => if reply.status >= 0 && reply.object {
            Held { file: held.file + 1, ..held }
        } else {
            held
        },
        LinkState::ReleasingFile => Held { file: held.file - 1, ..held },
        LinkState::ReleasingLink => Held { link: held.link - 1, ..held },
        LinkState::Uninitializing => Held { com: held.com - 1, ..held },
        _ => held,
    }
}

/// What is held after all calls so far.
pub open spec fn held_after(path: Seq<char>, replies: Seq<Reply>) -> Held
    decreases replies.len(),
{
    if replies.len() == 0 {
        nothing_held()
    } else {
        held_after_call(
            held_after(path, replies.drop_last()),
            after(path, replies.drop_last()).state,
            replies.last(),
        )
    }
}

/// What an attempt holds when the given call is due: the file interface as long as it is to be
/// used or released, the shell link likewise, and COM where it has to be left.
pub open spec fn held_at(at: LinkProgress) -> Held {
    let with_file = at.state == LinkState::Loading || at.state == LinkState::Reading || at.state
        == LinkState::ReleasingFile;
    let with_link = with_file || at.state == LinkState::Querying || at.state
        == LinkState::ReleasingLink;
    Held {
        com: if at.uninitialize && at.state != LinkState::Finished {
            1
        } else {
            0
        },
        link: if with_link {
            1
        } else {
            0
        },
        file: if with_file {
            1
        } else {
            0
        },
    }
}

/// COM is marked to be left only behind a call that entered it, and is due to be left only where it
/// is so marked.
proof fn lemma_marks(path: Seq<char>, replies: Seq<Reply>)
    ensures
        ({
            let at = after(path, replies);
            &&& at.state == LinkState::Initializing ==> !at.uninitialize
            &&& at.state == LinkState::Uninitializing ==> at.uninitialize
        }),
    decreases replies.len(),
{
    if replies.len() > 0 {
        lemma_marks(path, replies.drop_last());
    }
}

/// Whatever the shell replies, an attempt holds at every moment exactly what the call that is due
/// needs: no object is used or released that is not held, and no object is obtained twice.
pub proof fn law_held_is_what_is_due(path: Seq<char>, replies: Seq<Reply>)
    ensures
        held_after(path, replies) == held_at(after(path, replies)),
    decreases replies.len(),
{
    if replies.len() > 0 {
        law_held_is_what_is_due(path, replies.drop_last());
        lemma_marks(path, replies.drop_last());
    }
}

/// Whatever the shell replies, nothing is held once the attempt has finished: every object that
/// was obtained has been released, and COM has been left exactly where it was entered.
pub proof fn law_nothing_is_left_behind(path: Seq<char>, replies: Seq<Reply>)
    requires
        after(path, replies).state == LinkState::Finished,
    ensures
        held_after(path, replies) == nothing_held(),
{
    law_held_is_what_is_due(path, replies);
}

/// How many calls are due at most.
pub open spec fn calls_left(state: LinkState) -> int {
    match state {
        LinkState::Initializing => 8,
        LinkState::Creating => 7,
        LinkState::Querying => 6,
        LinkState::Loading => 5,
        LinkState::Reading => 4,
        LinkState::ReleasingFile => 3,
        LinkState::ReleasingLink => 2,
        LinkState::Uninitializing => 1,
        LinkState::Finished => 0,
    }
}

/// Every reply brings the attempt nearer to its end, which it reaches after eight calls at most.
pub proof fn law_attempts_end(path: Seq<char>, replies: Seq<Reply>)
    ensures
        calls_left(after(path, replies).state) <= 8 - replies.len() || after(path, replies).state
            == LinkState::Finished,
        replies.len() >= 8 ==> after(path, replies).state == LinkState::Finished,
    decreases replies.len(),
{
    if replies.len() > 0 {
        law_attempts_end(path, replies.drop_last());
    }
}

/// What an attempt comes to by the replies to its first five calls: the target in the buffer,
/// where COM could be used, both objects were given, and the file was loaded and read.
pub open spec fn resolution(replies: Seq<Reply>) -> Option<(Seq<char>, Seq<char>)> {
    if replies.len() >= 5 && may_go_on(replies[0]) && gave_object(replies[1]) && gave_object(
        replies[2],
    ) && replies[3].status >= 0 && replies[4].status >= 0 {
        target_in(replies[4].buffer)
    } else {
        None
    }
}

/// A finished attempt has found a target exactly where every call up to the reading of the path
/// succeeded and that path is not empty, and then it is the target that was read.
pub proof fn law_target_is_what_was_read(path: Seq<char>, replies: Seq<Reply>)
    ensures
        after(path, replies).target == resolution(replies),
{
    lemma_progress(path, replies);
}

/// How far the attempt has come tells which calls have succeeded.
proof fn lemma_progress(path: Seq<char>, replies: Seq<Reply>)
    ensures
        after(path, replies).target == resolution(replies),
        ({
            let state = after(path, replies).state;
            let n = replies.len();
            &&& n == 0 <==> state == LinkState::Initializing
            &&& state == LinkState::Creating <==> n == 1 && may_go_on(replies[0])
            &&& state == LinkState::Querying <==> n == 2 && may_go_on(replies[0]) && gave_object(
                replies[1],
            )
            &&& state == LinkState::Loading <==> n == 3 && may_go_on(replies[0]) && gave_object(
                replies[1],
            ) && gave_object(replies[2])
            &&& state == LinkState::Reading <==> n == 4 && may_go_on(replies[0]) && gave_object(
                replies[1],
            ) && gave_object(replies[2]) && replies[3].status >= 0
        }),
    decreases replies.len(),
{
    if replies.len() > 0 {
        let before = replies.drop_last();
        lemma_progress(path, before);
        assert(replies.last() == replies[replies.len() - 1]);
        assert(forall|i: int| 0 <= i < before.len() ==> before[i] == replies[i]);
    }
}

/// The calls come in their order, each where those before it have succeeded: a status that is not
/// negative, an object where one is asked for, and of the failures to enter COM only the one that
/// says that the thread has entered it otherwise. The path of the shortcut stays what it was.
pub proof fn law_calls_come_in_order(path: Seq<char>, replies: Seq<Reply>)
    ensures
        ({
            let at = after(path, replies);
            let n = replies.len();
            let entered = n >= 1 && (replies[0].status >= 0 || replies[0].status == -2147417835);
            let created = entered && n >= 2 && replies[1].status >= 0 && replies[1].object;
            let queried = created && n >= 3 && replies[2].status >= 0 && replies[2].object;
            let loaded = queried && n >= 4 && replies[3].status >= 0;
            let read = loaded && n >= 5 && replies[4].status >= 0;
            &&& at.path == path
            &&& at.state == LinkState::Initializing <==> n == 0
            &&& at.state == LinkState::Creating <==> n == 1 && entered
            &&& at.state == LinkState::Querying <==> n == 2 && created
            &&& at.state == LinkState::Loading <==> n == 3 && queried
            &&& at.state == LinkState::Reading <==> n == 4 && loaded
            &&& at.target == (if read {
                target_in(replies[4].buffer)
            } else {
                None
            })
        }),
    decreases replies.len(),
{
    lemma_progress(path, replies);
    if replies.len() > 0 {
        law_calls_come_in_order(path, replies.drop_last());
    }
}

/// What has been obtained is given back in turn: the file interface, the shell link, and COM where
/// a call entered it. Each is given back right after the last call that needs it.
pub proof fn law_everything_is_given_back_in_turn(path: Seq<char>, replies: Seq<Reply>)
    ensures
        ({
            let at = after(path, replies);
            let n = replies.len();
            let entered = n >= 1 && (replies[0].status >= 0 || replies[0].status == -2147417835);
            let created = entered && n >= 2 && replies[1].status >= 0 && replies[1].object;
            let queried = created && n >= 3 && replies[2].status >= 0 && replies[2].object;
            let loaded = queried && n >= 4 && replies[3].status >= 0;
            // The number of calls up to the last one that was made to find the target.
            let made: int = if !entered {
                1
            } else if !created {
                2
            } else if !queried {
                3
            } else if !loaded {
                4
            } else {
                5
            };
            let held: int = if queried {
                2
            } else if created {
                1
            } else {
                0
            };
            n >= made ==> {
                &&& n < made + held ==> at.state == (if n == made + held - 2 {
                    LinkState::ReleasingFile
                } else {
                    LinkState::ReleasingLink
                })
                &&& n == made + held ==> at.state == (if replies[0].status >= 0 {
                    LinkState::Uninitializing
                } else {
                    LinkState::Finished
                })
                &&& n > made + held ==> at.state == LinkState::Finished
            }
        }),
    decreases replies.len(),
{
    lemma_uninitialize(path, replies);
    law_calls_come_in_order(path, replies);
    if replies.len() > 0 {
        let before = replies.drop_last();
        assert(forall|i: int| 0 <= i < before.len() ==> before[i] == replies[i]);
        law_everything_is_given_back_in_turn(path, before);
        law_calls_come_in_order(path, before);
        lemma_uninitialize(path, before);
    }
}

/// COM is marked to be left where the first call entered it.
proof fn lemma_uninitialize(path: Seq<char>, replies: Seq<Reply>)
    ensures
        after(path, replies).uninitialize == (replies.len() > 0 && replies[0].status >= 0),
    decreases replies.len(),
{
    if replies.len() > 0 {
        let before = replies.drop_last();
        lemma_uninitialize(path, before);
        lemma_progress(path, before);
        if before.len() > 0 {
            assert(before[0] == replies[0]);
        }
    }
}

/// The path of a target is what stands in the buffer before the first zero, whatever follows that:
/// all of it, and nothing else. Where it is text it is that text, letter by letter; a surrogate
/// without a partner is replaced. A buffer that begins with a zero, or that no zero closes, holds
/// no target.
pub proof fn law_target_is_read_up_to_the_zero(units: Seq<u16>, behind: Seq<u16>)
    requires
        forall|i: int| 0 <= i < units.len() ==> #[trigger] units[i] != 0,
    ensures
        target_in(units) is None,
        units.len() == 0 ==> target_in(units.push(0) + behind) is None,
        units.len() > 0 ==> target_in(units.push(0) + behind) is Some && {
            let target = target_in(units.push(0) + behind)->0;
            &&& target.1 == crate::utf16::lossy_text(units)
            &&& target.0 == crate::apps::name_of_path(crate::utf16::encoded(target.1))
        },
        units.len() > 0 && crate::utf16::well_formed(units) ==> crate::utf16::encoded(
            (target_in(units.push(0) + behind)->0).1,
        ) == units,
{
    let buffer = units.push(0) + behind;
    let n = units.len() as int;
    assert(buffer[n] == 0);
    assert(buffer.contains(0));
    buffer.index_of_first_ensures(0);
    assert forall|i: int| 0 <= i < n implies #[trigger] buffer[i] != 0 by {
        assert(buffer[i] == units[i]);
    }
    assert(closed_len(buffer) == n);
    assert(buffer.take(n) =~= units);
    assert(!units.contains(0));
    assert(units.take(0) =~= seq![]);
    assert(crate::utf16::lossy_text(units.take(0)).len() == 0);
    if n > 0 {
        assert(crate::utf16::decoded(units).len() > 0);
        if crate::utf16::well_formed(units) {
            crate::utf16::law_encode_undoes_strict_decode(units);
        }
    }
}

/// A target that is text and holds no zero character comes back as it was written, under the stem
/// of its file name, or under `Unknown` where it has none.
pub proof fn law_target_comes_back_as_written(target: Seq<char>, behind: Seq<u16>)
    requires
        target.len() > 0,
        !target.contains('\0'),
    ensures
        target_in(crate::utf16::encoded(target).push(0) + behind) is Some,
        ({
            let found = target_in(crate::utf16::encoded(target).push(0) + behind)->0;
            &&& found.1 == target
            &&& match crate::winpath::file_stem_of(crate::utf16::encoded(target)) {
                Some(stem) => crate::utf16::encoded(found.0) == stem,
                None => found.0 == "Unknown"@,
            }
        }),
{
    let units = crate::utf16::encoded(target);
    crate::utf16::law_to_wide_ends_the_text(target);
    assert forall|i: int| 0 <= i < units.len() implies #[trigger] units[i] != 0 by {
        if units[i] == 0 {
            assert(units.contains(0));
        }
    }
    crate::utf16::law_decode_undoes_encode(target);
    assert(units.len() > 0) by {
        if units.len() == 0 {
            assert(crate::utf16::decoded(units).len() == 0);
        }
    }
    law_target_is_read_up_to_the_zero(units, behind);
    crate::apps::law_text_paths_name_their_file(target);
    if let Some(stem) = crate::winpath::file_stem_of(units) {
        crate::winpath::law_stem_of_text_is_text(units);
        crate::utf16::law_encode_undoes_strict_decode(stem);
    }
}

} // verus!
