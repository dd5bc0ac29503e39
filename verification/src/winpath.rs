//! Windows paths, as sequences of UTF-16 code units.
//!
//! A path has an optional prefix (a drive such as `C:`, a share such as `\\server\folder`, a device
//! such as `\\.\COM1`, or one of the verbatim forms behind `\\?\`), an optional root separator, and
//! a body of components. Both `\` and `/` separate components, except in the body of a verbatim
//! path, where only `\` does. Empty components are passed over, and so is `.`, except in a
//! verbatim path, where it is a component of its own.
//!
//! These are the rules of Windows on every system that the library is built for, and they work on
//! any units, well-formed UTF-16 or not.

use vstd::prelude::*;
use vstd::slice::slice_subrange;

verus! {

pub const BACKSLASH: u16 = 0x5C;

pub const SLASH: u16 = 0x2F;

pub const COLON: u16 = 0x3A;

pub const DOT: u16 = 0x2E;

pub const QUESTION_MARK: u16 = 0x3F;

/// How a path begins.
#[derive(Clone, Copy, Debug, PartialEq, Eq, Structural)]
pub enum PrefixKind {
    /// No prefix.
    Absent,
    /// `\\?\name`
    Verbatim,
    /// `\\?\UNC\server\share`
    VerbatimUnc,
    /// `\\?\C:`
    VerbatimDisk,
    /// `\\.\COM1`
    Device,
    /// `\\server\share`
    Unc,
    /// `C:`
    Disk,
}

/// The prefix of a path: its kind, and how many units it takes.
#[derive(Clone, Copy, Debug)]
pub struct Prefix {
    pub kind: PrefixKind,
    pub len: usize,
}

/// A unit that separates components.
pub open spec fn is_separator(u: u16) -> bool {
    u == BACKSLASH || u == SLASH
}

/// A unit that separates components in the body of a path, verbatim or not.
pub open spec fn separates(u: u16, verbatim: bool) -> bool {
    u == BACKSLASH || (u == SLASH && !verbatim)
}

/// A unit that may name a drive.
pub open spec fn is_drive_letter(u: u16) -> bool {
    0x41 <= u <= 0x5A || 0x61 <= u <= 0x7A
}

/// A kind of prefix behind which the path is taken as it is written.
pub open spec fn is_verbatim(kind: PrefixKind) -> bool {
    kind == PrefixKind::Verbatim || kind == PrefixKind::VerbatimUnc || kind
        == PrefixKind::VerbatimDisk
}

/// Where the component that starts at `from` ends: at the next separator, or with the path.
pub open spec fn component_end(p: Seq<u16>, from: int, verbatim: bool) -> int
    decreases p.len() - from,
{
    if from >= p.len() {
        p.len() as int
    } else if separates(p[from], verbatim) {
        from
    } else {
        component_end(p, from + 1, verbatim)
    }
}

/// Where the two components of a share, `server\share`, end that start at `from`. A separator
/// that no share name follows is not part of them.
pub open spec fn share_end(p: Seq<u16>, from: int, verbatim: bool) -> int {
    let server_end = component_end(p, from, verbatim);
    let end = component_end(p, server_end + 1, verbatim);
    if server_end + 1 < end {
        end
    } else {
        server_end
    }
}

/// Neither the server nor the share at `from` is empty.
pub open spec fn names_share(p: Seq<u16>, from: int) -> bool {
    let server_end = component_end(p, from, false);
    from < server_end && server_end + 1 < component_end(p, server_end + 1, false)
}

/// A drive, as in `C:`, stands at `at`.
pub open spec fn drive_at(p: Seq<u16>, at: int) -> bool {
    at + 1 < p.len() && is_drive_letter(p[at]) && p[at + 1] == COLON
}

/// The kind of a path's prefix.
pub open spec fn prefix_kind(p: Seq<u16>) -> PrefixKind {
    if p.len() >= 2 && is_separator(p[0]) && is_separator(p[1]) {
        if p.len() >= 4 && p[0] == BACKSLASH && p[1] == BACKSLASH && p[2] == QUESTION_MARK && p[3]
            == BACKSLASH {
            if p.len() >= 8 && p[4] == 0x55 && p[5] == 0x4E && p[6] == 0x43 && is_separator(p[7]) {
                PrefixKind::VerbatimUnc
            } else if drive_at(p, 4) && (p.len() == 6 || is_separator(p[6])) {
                PrefixKind::VerbatimDisk
            } else {
                PrefixKind::Verbatim
            }
        } else if p.len() >= 4 && p[2] == DOT && is_separator(p[3]) {
            PrefixKind::Device
        } else if names_share(p, 2) {
            PrefixKind::Unc
        } else {
            PrefixKind::Absent
        }
    } else if drive_at(p, 0) {
        PrefixKind::Disk
    } else {
        PrefixKind::Absent
    }
}

/// The number of units that a path's prefix takes.
pub open spec fn prefix_len(p: Seq<u16>) -> int {
    match prefix_kind(p) {
        PrefixKind::Absent => 0,
        PrefixKind::Verbatim => component_end(p, 4, true),
        PrefixKind::VerbatimUnc => share_end(p, 8, true),
        PrefixKind::VerbatimDisk => 6,
        PrefixKind::Device => component_end(p, 4, false),
        PrefixKind::Unc => share_end(p, 2, false),
        PrefixKind::Disk => 2,
    }
}

/// A separator follows the prefix.
pub open spec fn has_physical_root(p: Seq<u16>) -> bool {
    prefix_len(p) < p.len() && is_separator(p[prefix_len(p)])
}

/// The path starts at a root: a separator stands there, or the prefix implies one.
pub open spec fn has_root(p: Seq<u16>) -> bool {
    has_physical_root(p) || (prefix_kind(p) != PrefixKind::Absent && prefix_kind(p)
        != PrefixKind::Disk)
}

/// The path is relative and begins with the component `.`.
pub open spec fn has_leading_dot(p: Seq<u16>) -> bool {
    let at = prefix_len(p);
    !has_root(p) && at < p.len() && p[at] == DOT && (at + 1 == p.len() || is_separator(p[at + 1]))
}

/// Where the body of a path starts: behind the prefix, the root and a leading `.`.
pub open spec fn body_start(p: Seq<u16>) -> int {
    prefix_len(p) + (if has_physical_root(p) {
        1int
    } else {
        0
    }) + (if has_leading_dot(p) {
        1int
    } else {
        0
    })
}

/// Where the last component in `lo..hi` starts: behind the last separator, or at `lo`.
pub open spec fn component_start(p: Seq<u16>, lo: int, hi: int, verbatim: bool) -> int
    decreases hi - lo,
{
    if hi <= lo {
        lo
    } else if separates(p[hi - 1], verbatim) {
        hi
    } else {
        component_start(p, lo, hi - 1, verbatim)
    }
}

/// A component starts within the range that it is looked for in.
pub proof fn lemma_component_start_bounds(p: Seq<u16>, lo: int, hi: int, verbatim: bool)
    requires
        lo <= hi,
    ensures
        lo <= component_start(p, lo, hi, verbatim) <= hi,
    decreases hi - lo,
{
    if hi > lo && !separates(p[hi - 1], verbatim) {
        lemma_component_start_bounds(p, lo, hi - 1, verbatim);
    }
}

/// A component that does not count.
pub open spec fn passed_over(component: Seq<u16>, verbatim: bool) -> bool {
    component.len() == 0 || (!verbatim && component == seq![DOT])
}

/// Where the body from `lo` ends once the components at the end of `lo..hi` that do not count, and
/// the separators before them, are cut off.
pub open spec fn trimmed_end(p: Seq<u16>, lo: int, hi: int, verbatim: bool) -> int
    decreases hi - lo,
{
    if hi <= lo {
        lo
    } else {
        proof {
            lemma_component_start_bounds(p, lo, hi, verbatim);
        }
        let start = component_start(p, lo, hi, verbatim);
        if !passed_over(p.subrange(start, hi), verbatim) {
            hi
        } else if start <= lo {
            lo
        } else {
            trimmed_end(p, lo, start - 1, verbatim)
        }
    }
}

/// The last component of the body, where it has one.
pub open spec fn last_component(p: Seq<u16>) -> Option<Seq<u16>> {
    let verbatim = is_verbatim(prefix_kind(p));
    let lo = body_start(p);
    let end = trimmed_end(p, lo, p.len() as int, verbatim);
    if lo < end {
        Some(p.subrange(component_start(p, lo, end, verbatim), end))
    } else {
        None
    }
}

/// The file name of a path: its last component, unless that is `.` or `..`.
pub open spec fn file_name_of(p: Seq<u16>) -> Option<Seq<u16>> {
    match last_component(p) {
        Some(c) if c != seq![DOT] && c != seq![DOT, DOT] => Some(c),
        _ => None,
    }
}

/// Where the last dot in a file name stands, or -1.
pub open spec fn last_dot(name: Seq<u16>) -> int
    decreases name.len(),
{
    if name.len() == 0 {
        -1
    } else if name.last() == DOT {
        name.len() - 1
    } else {
        last_dot(name.drop_last())
    }
}

/// A file name without its extension. A dot at the very start does not begin an extension.
pub open spec fn stem_of_name(name: Seq<u16>) -> Seq<u16> {
    if last_dot(name) <= 0 {
        name
    } else {
        name.take(last_dot(name))
    }
}

/// What follows the last dot of a file name, unless that dot stands at the very start.
pub open spec fn extension_of_name(name: Seq<u16>) -> Option<Seq<u16>> {
    if last_dot(name) <= 0 {
        None
    } else {
        Some(name.skip(last_dot(name) + 1))
    }
}

/// The stem of a path's file name.
pub open spec fn file_stem_of(p: Seq<u16>) -> Option<Seq<u16>> {
    match file_name_of(p) {
        Some(name) => Some(stem_of_name(name)),
        None => None,
    }
}

/// The extension of a path's file name.
pub open spec fn extension_of(p: Seq<u16>) -> Option<Seq<u16>> {
    match file_name_of(p) {
        Some(name) => extension_of_name(name),
        None => None,
    }
}

/// The path without its last component. A path that holds no component but a prefix or a root has
/// no parent; that of `.` is the empty path.
pub open spec fn parent_of(p: Seq<u16>) -> Option<Seq<u16>> {
    let verbatim = is_verbatim(prefix_kind(p));
    let lo = body_start(p);
    let end = trimmed_end(p, lo, p.len() as int, verbatim);
    if lo < end {
        let start = component_start(p, lo, end, verbatim);
        Some(p.take(trimmed_end(p, lo, start - 1, verbatim)))
    } else if prefix_kind(p) == PrefixKind::Absent && has_leading_dot(p) {
        Some(seq![])
    } else {
        None
    }
}

/// A component ends no earlier than it starts, and within the path.
pub proof fn lemma_component_end_bounds(p: Seq<u16>, from: int, verbatim: bool)
    ensures
        from <= p.len() ==> from <= component_end(p, from, verbatim),
        component_end(p, from, verbatim) <= p.len(),
    decreases p.len() - from,
{
    if from < p.len() && !separates(p[from], verbatim) {
        lemma_component_end_bounds(p, from + 1, verbatim);
    }
}

/// The components of the body from `from` on that count.
pub open spec fn components_from(p: Seq<u16>, from: int, verbatim: bool) -> Seq<Seq<u16>>
    decreases p.len() + 1 - from,
{
    if from >= p.len() {
        seq![]
    } else {
        proof {
            lemma_component_end_bounds(p, from, verbatim);
        }
        let end = component_end(p, from, verbatim);
        let rest = components_from(p, end + 1, verbatim);
        if passed_over(p.subrange(from, end), verbatim) {
            rest
        } else {
            seq![p.subrange(from, end)] + rest
        }
    }
}

/// The components of a path's body.
pub open spec fn components_of(p: Seq<u16>) -> Seq<Seq<u16>> {
    components_from(p, body_start(p), is_verbatim(prefix_kind(p)))
}

/// One step on from the directory with the given components: `..` goes up, where there is a named
/// component to leave, and any other component goes down.
pub open spec fn stepped(parts: Seq<Seq<u16>>, c: Seq<u16>) -> Seq<Seq<u16>> {
    if c != seq![DOT, DOT] {
        parts.push(c)
    } else if parts.len() > 0 && parts.last() != seq![DOT] && parts.last() != seq![DOT, DOT] {
        parts.drop_last()
    } else {
        parts
    }
}

/// All the steps in `way`, in order.
pub open spec fn walked(parts: Seq<Seq<u16>>, way: Seq<Seq<u16>>) -> Seq<Seq<u16>>
    decreases way.len(),
{
    if way.len() == 0 {
        parts
    } else {
        stepped(walked(parts, way.drop_last()), way.last())
    }
}

/// The components, each behind a separator.
pub open spec fn written(parts: Seq<Seq<u16>>) -> Seq<u16>
    decreases parts.len(),
{
    if parts.len() == 0 {
        seq![]
    } else {
        written(parts.drop_last()).push(BACKSLASH) + parts.last()
    }
}

/// A verbatim path with a relative or rooted path walked from it. As nothing resolves `.` and `..`
/// behind a verbatim prefix, the steps are taken here.
pub open spec fn verbatim_joined(base: Seq<u16>, child: Seq<u16>) -> Seq<u16> {
    let from = if has_root(child) {
        seq![]
    } else {
        components_of(base)
    };
    let parts = walked(from, components_of(child));
    base.take(prefix_len(base)) + (if parts.len() > 0 {
        written(parts)
    } else if has_physical_root(base) || has_root(child) {
        seq![BACKSLASH]
    } else {
        seq![]
    })
}

/// A separator has to come between the path and a component that is put behind it. A bare drive,
/// `C:`, stands for the current directory on it and takes none.
pub open spec fn wants_separator(base: Seq<u16>) -> bool {
    base.len() > 0 && !is_separator(base.last()) && !(prefix_kind(base) == PrefixKind::Disk
        && base.len() == 2)
}

/// The path that `child` names as seen from the directory `base`.
pub open spec fn joined(base: Seq<u16>, child: Seq<u16>) -> Seq<u16> {
    if prefix_kind(child) != PrefixKind::Absent {
        child
    } else if is_verbatim(prefix_kind(base)) && child.len() > 0 {
        verbatim_joined(base, child)
    } else if has_root(child) {
        base.take(prefix_len(base)) + child
    } else if wants_separator(base) {
        base.push(BACKSLASH) + child
    } else {
        base + child
    }
}

proof fn lemma_share_end_bounds(p: Seq<u16>, from: int, verbatim: bool)
    requires
        0 <= from <= p.len(),
    ensures
        from <= share_end(p, from, verbatim) <= p.len(),
{
    lemma_component_end_bounds(p, from, verbatim);
    lemma_component_end_bounds(p, component_end(p, from, verbatim) + 1, verbatim);
}

/// The prefix, and all that stands before the body, is part of the path.
proof fn lemma_body_start_bounds(p: Seq<u16>)
    ensures
        0 <= prefix_len(p) <= body_start(p) <= p.len(),
{
    lemma_component_end_bounds(p, 4, true);
    lemma_component_end_bounds(p, 4, false);
    if p.len() >= 8 {
        lemma_share_end_bounds(p, 8, true);
    }
    if p.len() >= 2 {
        lemma_share_end_bounds(p, 2, false);
    }
}

fn is_separator_unit(u: u16) -> (r: bool)
    ensures
        r == is_separator(u),
{
    u == BACKSLASH || u == SLASH
}

fn separates_unit(u: u16, verbatim: bool) -> (r: bool)
    ensures
        r == separates(u, verbatim),
{
    u == BACKSLASH || (u == SLASH && !verbatim)
}

fn find_component_end(p: &[u16], from: usize, verbatim: bool) -> (r: usize)
    ensures
        r == component_end(p@, from as int, verbatim),
{
    let mut i: usize = from;
    while i < p.len() && !separates_unit(p[i], verbatim)
        invariant
            component_end(p@, i as int, verbatim) == component_end(p@, from as int, verbatim),
        decreases p@.len() - i,
    {
        i = i + 1;
    }
    if i < p.len() {
        i
    } else {
        p.len()
    }
}

fn find_share_end(p: &[u16], from: usize, verbatim: bool) -> (r: (usize, bool))
    requires
        from <= p@.len(),
    ensures
        r.0 == share_end(p@, from as int, verbatim),
        !verbatim ==> r.1 == names_share(p@, from as int),
{
    let server_end = find_component_end(p, from, verbatim);
    proof {
        lemma_component_end_bounds(p@, from as int, verbatim);
        lemma_component_end_bounds(p@, server_end + 1, verbatim);
    }
    if server_end < p.len() {
        let end = find_component_end(p, server_end + 1, verbatim);
        if server_end + 1 < end {
            (end, from < server_end)
        } else {
            (server_end, false)
        }
    } else {
        (server_end, false)
    }
}

fn is_drive_at(p: &[u16], at: usize) -> (r: bool)
    requires
        at + 1 <= usize::MAX,
    ensures
        r == drive_at(p@, at as int),
{
    at + 1 < p.len() && ((0x41 <= p[at] && p[at] <= 0x5A) || (0x61 <= p[at] && p[at] <= 0x7A))
        && p[at + 1] == COLON
}

/// The prefix of a path.
pub fn prefix(p: &[u16]) -> (r: Prefix)
    ensures
        r.kind == prefix_kind(p@),
        r.len == prefix_len(p@),
        r.len <= p@.len(),
{
    proof {
        lemma_body_start_bounds(p@);
    }
    if p.len() >= 2 && is_separator_unit(p[0]) && is_separator_unit(p[1]) {
        if p.len() >= 4 && p[0] == BACKSLASH && p[1] == BACKSLASH && p[2] == QUESTION_MARK && p[3]
            == BACKSLASH {
            if p.len() >= 8 && p[4] == 0x55 && p[5] == 0x4E && p[6] == 0x43 && is_separator_unit(
                p[7],
            ) {
                Prefix { kind: PrefixKind::VerbatimUnc, len: find_share_end(p, 8, true).0 }
            } else if is_drive_at(p, 4) && (p.len() == 6 || is_separator_unit(p[6])) {
                Prefix { kind: PrefixKind::VerbatimDisk, len: 6 }
            } else {
                Prefix { kind: PrefixKind::Verbatim, len: find_component_end(p, 4, true) }
            }
        } else if p.len() >= 4 && p[2] == DOT && is_separator_unit(p[3]) {
            Prefix { kind: PrefixKind::Device, len: find_component_end(p, 4, false) }
        } else {
            let (end, named) = find_share_end(p, 2, false);
            if named {
                Prefix { kind: PrefixKind::Unc, len: end }
            } else {
                Prefix { kind: PrefixKind::Absent, len: 0 }
            }
        }
    } else if is_drive_at(p, 0) {
        Prefix { kind: PrefixKind::Disk, len: 2 }
    } else {
        Prefix { kind: PrefixKind::Absent, len: 0 }
    }
}

/// Where a path's body starts, and whether the path is verbatim.
fn find_body(p: &[u16]) -> (r: (usize, bool))
    ensures
        r.0 == body_start(p@),
        r.0 <= p@.len(),
        r.1 == is_verbatim(prefix_kind(p@)),
{
    proof {
        lemma_body_start_bounds(p@);
    }
    let head = prefix(p);
    let verbatim = match head.kind {
        PrefixKind::Verbatim | PrefixKind::VerbatimUnc | PrefixKind::VerbatimDisk => true,
        _ => false,
    };
    let at = head.len;
    let rooted = at < p.len() && is_separator_unit(p[at]);
    let implied = match head.kind {
        PrefixKind::Absent | PrefixKind::Disk => false,
        _ => true,
    };
    if rooted {
        (at + 1, verbatim)
    } else if !implied && at < p.len() && p[at] == DOT && (at + 1 == p.len() || is_separator_unit(
        p[at + 1],
    )) {
        (at + 1, verbatim)
    } else {
        (at, verbatim)
    }
}

fn find_component_start(p: &[u16], lo: usize, hi: usize, verbatim: bool) -> (r: usize)
    requires
        lo <= hi <= p@.len(),
    ensures
        r == component_start(p@, lo as int, hi as int, verbatim),
        lo <= r <= hi,
{
    let mut i: usize = hi;
    while i > lo && !separates_unit(p[i - 1], verbatim)
        invariant
            lo <= i <= hi <= p@.len(),
            component_start(p@, lo as int, i as int, verbatim) == component_start(
                p@,
                lo as int,
                hi as int,
                verbatim,
            ),
        decreases i,
    {
        i = i - 1;
    }
    i
}

fn find_trimmed_end(p: &[u16], lo: usize, hi: usize, verbatim: bool) -> (r: usize)
    requires
        lo <= hi <= p@.len(),
    ensures
        r == trimmed_end(p@, lo as int, hi as int, verbatim),
        lo <= r <= hi,
{
    let mut end: usize = hi;
    while end > lo
        invariant
            lo <= end <= hi <= p@.len(),
            trimmed_end(p@, lo as int, end as int, verbatim) == trimmed_end(
                p@,
                lo as int,
                hi as int,
                verbatim,
            ),
        decreases end,
    {
        let start = find_component_start(p, lo, end, verbatim);
        let counts = end - start > 0 && (verbatim || end - start != 1 || p[start] != DOT);
        assert(counts == !passed_over(p@.subrange(start as int, end as int), verbatim)) by {
            if end - start == 1 && p@[start as int] == DOT {
                assert(p@.subrange(start as int, end as int) =~= seq![DOT]);
            } else if end - start > 0 {
                assert(p@.subrange(start as int, end as int)[0] == p@[start as int]);
            }
        }
        if counts {
            return end;
        }
        if start == lo {
            return lo;
        }
        end = start - 1;
    }
    lo
}

/// The file name of a path: its last component, unless that is `.` or `..`.
pub fn file_name(p: &[u16]) -> (r: Option<&[u16]>)
    ensures
        match r {
            Some(name) => file_name_of(p@) == Some(name@),
            None => file_name_of(p@) is None,
        },
{
    let (lo, verbatim) = find_body(p);
    let end = find_trimmed_end(p, lo, p.len(), verbatim);
    if lo < end {
        let start = find_component_start(p, lo, end, verbatim);
        let name = slice_subrange(p, start, end);
        let one_dot = name.len() == 1 && name[0] == DOT;
        let two_dots = name.len() == 2 && name[0] == DOT && name[1] == DOT;
        assert(one_dot == (name@ == seq![DOT])) by {
            if one_dot {
                assert(name@ =~= seq![DOT]);
            }
        }
        assert(two_dots == (name@ == seq![DOT, DOT])) by {
            if two_dots {
                assert(name@ =~= seq![DOT, DOT]);
            }
        }
        if one_dot || two_dots {
            None
        } else {
            Some(name)
        }
    } else {
        None
    }
}

/// Where the last dot of a file name stands that begins an extension.
fn find_extension_dot(name: &[u16]) -> (r: Option<usize>)
    ensures
        r is Some <==> last_dot(name@) > 0,
        r matches Some(dot) ==> dot == last_dot(name@) && dot < name@.len(),
{
    let mut i: usize = name.len();
    assert(name@.take(i as int) =~= name@);
    while i > 0
        invariant
            i <= name@.len(),
            last_dot(name@.take(i as int)) == last_dot(name@),
        decreases i,
    {
        assert(name@.take(i as int).drop_last() =~= name@.take(i - 1));
        i = i - 1;
        if name[i] == DOT {
            return if i > 0 {
                Some(i)
            } else {
                None
            };
        }
    }
    None
}

/// The file name of a path without its extension. A dot at the very start of the name does not
/// begin an extension.
pub fn file_stem(p: &[u16]) -> (r: Option<&[u16]>)
    ensures
        match r {
            Some(stem) => file_stem_of(p@) == Some(stem@),
            None => file_stem_of(p@) is None,
        },
{
    match file_name(p) {
        Some(name) => match find_extension_dot(name) {
            Some(dot) => {
                let stem = slice_subrange(name, 0, dot);
                assert(stem@ =~= name@.take(dot as int));
                Some(stem)
            },
            None => Some(name),
        },
        None => None,
    }
}

/// The extension of a path's file name: what follows its last dot, unless that dot stands at the
/// very start.
pub fn extension(p: &[u16]) -> (r: Option<&[u16]>)
    ensures
        match r {
            Some(ext) => extension_of(p@) == Some(ext@),
            None => extension_of(p@) is None,
        },
{
    match file_name(p) {
        Some(name) => match find_extension_dot(name) {
            Some(dot) => {
                let len = name.len();
                let ext = slice_subrange(name, dot + 1, len);
                assert(ext@ =~= name@.skip(dot + 1));
                Some(ext)
            },
            None => None,
        },
        None => None,
    }
}

/// The path without its last component, where it has one to take away.
pub fn parent(p: &[u16]) -> (r: Option<&[u16]>)
    ensures
        match r {
            Some(q) => parent_of(p@) == Some(q@),
            None => parent_of(p@) is None,
        },
{
    let (lo, verbatim) = find_body(p);
    let end = find_trimmed_end(p, lo, p.len(), verbatim);
    if lo < end {
        let start = find_component_start(p, lo, end, verbatim);
        let cut = if start > lo {
            find_trimmed_end(p, lo, start - 1, verbatim)
        } else {
            lo
        };
        let q = slice_subrange(p, 0, cut);
        assert(q@ =~= p@.take(cut as int));
        Some(q)
    } else {
        let head = prefix(p);
        let absent = match head.kind {
            PrefixKind::Absent => true,
            _ => false,
        };
        let rooted = head.len < p.len() && is_separator_unit(p[head.len]);
        if absent && !rooted && lo > head.len {
            let q = slice_subrange(p, 0, 0);
            assert(q@ =~= seq![]);
            Some(q)
        } else {
            None
        }
    }
}

fn copy_range(p: &[u16], from: usize, to: usize) -> (r: Vec<u16>)
    requires
        from <= to <= p@.len(),
    ensures
        r@ == p@.subrange(from as int, to as int),
{
    let mut out: Vec<u16> = Vec::new();
    append_range(&mut out, p, from, to);
    assert(out@ =~= p@.subrange(from as int, to as int));
    out
}

fn append_range(out: &mut Vec<u16>, p: &[u16], from: usize, to: usize)
    requires
        from <= to <= p@.len(),
    ensures
        final(out)@ == old(out)@ + p@.subrange(from as int, to as int),
{
    let mut i: usize = from;
    while i < to
        invariant
            from <= i <= to <= p@.len(),
            out@ == old(out)@ + p@.subrange(from as int, i as int),
        decreases to - i,
    {
        out.push(p[i]);
        i = i + 1;
        assert(out@ =~= old(out)@ + p@.subrange(from as int, i as int));
    }
    assert(out@ =~= old(out)@ + p@.subrange(from as int, to as int));
}

/// The contents of a list of components.
pub open spec fn views(parts: Seq<Vec<u16>>) -> Seq<Seq<u16>> {
    parts.map_values(|v: Vec<u16>| v@)
}

/// The components of a path's body.
pub fn components(p: &[u16]) -> (r: Vec<Vec<u16>>)
    ensures
        views(r@) == components_of(p@),
        r@.len() == components_of(p@).len(),
        forall|i: int| 0 <= i < r@.len() ==> (#[trigger] r@[i])@ == components_of(p@)[i],
{
    let (lo, verbatim) = find_body(p);
    let mut out: Vec<Vec<u16>> = Vec::new();
    let mut from: usize = lo;
    while from < p.len()
        invariant
            lo == body_start(p@),
            verbatim == is_verbatim(prefix_kind(p@)),
            components_of(p@) == views(out@) + components_from(p@, from as int, verbatim),
        decreases p@.len() - from,
    {
        let end = find_component_end(p, from, verbatim);
        proof {
            lemma_component_end_bounds(p@, from as int, verbatim);
        }
        let ghost c = p@.subrange(from as int, end as int);
        let ghost rest = components_from(p@, end + 1, verbatim);
        let ghost before = views(out@);
        let counts = end > from && (verbatim || end - from != 1 || p[from] != DOT);
        assert(counts == !passed_over(c, verbatim)) by {
            if end - from == 1 && p@[from as int] == DOT {
                assert(c =~= seq![DOT]);
            } else if end > from {
                assert(c[0] == p@[from as int]);
            }
        }
        if counts {
            out.push(copy_range(p, from, end));
            assert(views(out@) =~= before.push(c));
            assert(before + (seq![c] + rest) =~= views(out@) + rest);
        }
        if end == p.len() {
            assert(rest =~= seq![]);
            assert(views(out@) + rest =~= views(out@));
            return out;
        }
        from = end + 1;
    }
    assert(views(out@) + components_from(p@, from as int, verbatim) =~= views(out@));
    out
}

fn is_dots(c: &Vec<u16>, count: usize) -> (r: bool)
    requires
        count == 1 || count == 2,
    ensures
        r == (c@ == if count == 1 {
            seq![DOT]
        } else {
            seq![DOT, DOT]
        }),
{
    if c.len() != count || c[0] != DOT || (count == 2 && c[1] != DOT) {
        return false;
    }
    assert(count == 1 ==> c@ =~= seq![DOT]);
    assert(count == 2 ==> c@ =~= seq![DOT, DOT]);
    true
}

/// A verbatim path with a relative or rooted path walked from it.
fn join_verbatim(base: &[u16], child: &[u16], child_rooted: bool) -> (r: Vec<u16>)
    requires
        child_rooted == has_root(child@),
    ensures
        r@ == verbatim_joined(base@, child@),
{
    let head = prefix(base);
    let base_rooted = head.len < base.len() && is_separator_unit(base[head.len]);
    let mut parts: Vec<Vec<u16>> = if child_rooted {
        Vec::new()
    } else {
        components(base)
    };
    let ghost from = views(parts@);
    assert(child_rooted ==> from =~= seq![]);
    let way = components(child);
    let ghost steps = views(way@);
    let mut i: usize = 0;
    assert(steps.take(0) =~= seq![]);
    while i < way.len()
        invariant
            i <= way@.len(),
            steps == views(way@),
            views(parts@) == walked(from, steps.take(i as int)),
        decreases way@.len() - i,
    {
        proof {
            assert(steps.take(i + 1).drop_last() =~= steps.take(i as int));
            assert(steps.take(i + 1).last() == way@[i as int]@);
        }
        let ghost before = views(parts@);
        let len = parts.len();
        if !is_dots(&way[i], 2) {
            parts.push(copy_range(way[i].as_slice(), 0, way[i].len()));
            assert(way@[i as int]@.subrange(0, way@[i as int]@.len() as int) =~= way@[i as int]@);
            assert(views(parts@) =~= before.push(way@[i as int]@));
        } else if len > 0 && !is_dots(&parts[len - 1], 1) && !is_dots(&parts[len - 1], 2) {
            assert(before.last() == parts@.last()@);
            let _ = parts.pop();
            assert(views(parts@) =~= before.drop_last());
        } else {
            assert(len > 0 ==> before.last() == parts@.last()@);
        }
        i = i + 1;
    }
    assert(steps.take(i as int) =~= steps);
    let mut out = copy_range(base, 0, head.len);
    let ghost start = out@;
    assert(start =~= base@.take(prefix_len(base@)));
    let ghost all = views(parts@);
    let mut k: usize = 0;
    assert(start + written(all.take(0)) =~= start);
    while k < parts.len()
        invariant
            k <= parts@.len(),
            all == views(parts@),
            out@ == start + written(all.take(k as int)),
        decreases parts@.len() - k,
    {
        proof {
            assert(all.take(k + 1).drop_last() =~= all.take(k as int));
            assert(all.take(k + 1).last() == parts@[k as int]@);
        }
        out.push(BACKSLASH);
        append_range(&mut out, parts[k].as_slice(), 0, parts[k].len());
        assert(parts@[k as int]@.subrange(0, parts@[k as int]@.len() as int)
            =~= parts@[k as int]@);
        k = k + 1;
        assert(out@ =~= start + written(all.take(k as int)));
    }
    assert(all.take(k as int) =~= all);
    if parts.len() == 0 && (base_rooted || child_rooted) {
        out.push(BACKSLASH);
    }
    assert(out@ =~= verbatim_joined(base@, child@));
    out
}

/// The path that `child` names as seen from the directory `base`.
pub fn join(base: &[u16], child: &[u16]) -> (r: Vec<u16>)
    ensures
        r@ == joined(base@, child@),
{
    let child_head = prefix(child);
    let child_rooted = child.len() > 0 && is_separator_unit(child[0]);
    let base_head = prefix(base);
    let mut out: Vec<u16> = Vec::new();
    match child_head.kind {
        PrefixKind::Absent => {},
        _ => {
            append_range(&mut out, child, 0, child.len());
            assert(out@ =~= child@);
            return out;
        },
    }
    assert(child_rooted == has_root(child@));
    let (_, verbatim) = find_body(base);
    if verbatim && child.len() > 0 {
        return join_verbatim(base, child, child_rooted);
    }
    if child_rooted {
        append_range(&mut out, base, 0, base_head.len);
        append_range(&mut out, child, 0, child.len());
        assert(out@ =~= base@.take(prefix_len(base@)) + child@);
        return out;
    }
    let bare_drive = base.len() == 2 && match base_head.kind {
        PrefixKind::Disk => true,
        _ => false,
    };
    append_range(&mut out, base, 0, base.len());
    if base.len() > 0 && !is_separator_unit(base[base.len() - 1]) && !bare_drive {
        out.push(BACKSLASH);
    }
    append_range(&mut out, child, 0, child.len());
    assert(out@ =~= joined(base@, child@));
    out
}

proof fn lemma_last_dot(name: Seq<u16>)
    ensures
        -1 <= last_dot(name) < name.len(),
        last_dot(name) >= 0 ==> name[last_dot(name)] == DOT,
        forall|i: int| last_dot(name) < i < name.len() ==> #[trigger] name[i] != DOT,
    decreases name.len(),
{
    if name.len() > 0 && name.last() != DOT {
        let shorter = name.drop_last();
        lemma_last_dot(shorter);
        assert forall|i: int| last_dot(name) < i < name.len() implies #[trigger] name[i] != DOT by {
            if i < shorter.len() {
                assert(shorter[i] == name[i]);
            }
        }
    }
}

/// The stem and the extension make up the file name: with a dot between them where there is an
/// extension, which then holds no dot itself, and the stem alone where there is none, which is
/// where the name has no dot beyond its first unit. The stem is never empty.
pub proof fn law_stem_and_extension_make_the_name(p: Seq<u16>)
    ensures
        file_name_of(p) is Some <==> file_stem_of(p) is Some,
        extension_of(p) is Some ==> file_name_of(p) is Some,
        file_name_of(p) matches Some(name) ==> file_stem_of(p)->0.len() > 0 && match extension_of(
            p,
        ) {
            Some(ext) => name == file_stem_of(p)->0.push(DOT) + ext && !ext.contains(DOT),
            None => name == file_stem_of(p)->0 && forall|i: int|
                1 <= i < name.len() ==> #[trigger] name[i] != DOT,
        },
{
    if let Some(name) = file_name_of(p) {
        law_file_name_is_one_component(p);
        lemma_last_dot(name);
        if last_dot(name) > 0 {
            assert(name =~= name.take(last_dot(name)).push(DOT) + name.skip(last_dot(name) + 1));
        }
    }
}

proof fn lemma_component_start(p: Seq<u16>, lo: int, hi: int, verbatim: bool)
    requires
        0 <= lo <= hi <= p.len(),
    ensures
        ({
            let start = component_start(p, lo, hi, verbatim);
            &&& lo <= start <= hi
            &&& start == lo || separates(p[start - 1], verbatim)
            &&& forall|i: int| start <= i < hi ==> !separates(#[trigger] p[i], verbatim)
        }),
    decreases hi - lo,
{
    if hi > lo && !separates(p[hi - 1], verbatim) {
        lemma_component_start(p, lo, hi - 1, verbatim);
    }
}

/// A trimmed body ends at its last component that counts.
proof fn lemma_trimmed_end(p: Seq<u16>, lo: int, hi: int, verbatim: bool)
    requires
        0 <= lo <= hi <= p.len(),
    ensures
        ({
            let end = trimmed_end(p, lo, hi, verbatim);
            &&& lo <= end <= hi
            &&& end == lo || end == hi || separates(p[end], verbatim)
            &&& lo < end ==> !passed_over(
                p.subrange(component_start(p, lo, end, verbatim), end),
                verbatim,
            )
        }),
    decreases hi - lo,
{
    if hi > lo {
        lemma_component_start(p, lo, hi, verbatim);
        let start = component_start(p, lo, hi, verbatim);
        if passed_over(p.subrange(start, hi), verbatim) && start > lo {
            lemma_trimmed_end(p, lo, start - 1, verbatim);
        }
    }
}

/// A file name is one component: it is not empty, it stands in the path, and no separator occurs
/// in it.
pub proof fn law_file_name_is_one_component(p: Seq<u16>)
    ensures
        file_name_of(p) matches Some(name) ==> {
            &&& name.len() > 0
            &&& name != seq![DOT]
            &&& name != seq![DOT, DOT]
            &&& forall|i: int|
                0 <= i < name.len() ==> !separates(
                    #[trigger] name[i],
                    is_verbatim(prefix_kind(p)),
                )
            &&& exists|at: int|
                0 <= at && at + name.len() <= p.len() && name == #[trigger] p.subrange(
                    at,
                    at + name.len(),
                )
        },
{
    if let Some(name) = file_name_of(p) {
        let verbatim = is_verbatim(prefix_kind(p));
        let lo = body_start(p);
        lemma_body_start_bounds(p);
        lemma_trimmed_end(p, lo, p.len() as int, verbatim);
        let end = trimmed_end(p, lo, p.len() as int, verbatim);
        lemma_component_start(p, lo, end, verbatim);
        let start = component_start(p, lo, end, verbatim);
        assert(name == p.subrange(start, start + name.len()));
    }
}

/// The parent of a path is the beginning of it, and shorter.
pub proof fn law_parent_is_a_shorter_beginning(p: Seq<u16>)
    ensures
        parent_of(p) matches Some(q) ==> q.len() < p.len() && q == p.take(q.len() as int),
{
    let verbatim = is_verbatim(prefix_kind(p));
    let lo = body_start(p);
    lemma_body_start_bounds(p);
    lemma_trimmed_end(p, lo, p.len() as int, verbatim);
    let end = trimmed_end(p, lo, p.len() as int, verbatim);
    if lo < end {
        lemma_component_start(p, lo, end, verbatim);
        let start = component_start(p, lo, end, verbatim);
        if start > lo {
            lemma_trimmed_end(p, lo, start - 1, verbatim);
        }
        let cut = trimmed_end(p, lo, start - 1, verbatim);
        assert(p.take(cut).len() == cut);
    } else if parent_of(p) is Some {
        assert(p.take(0) =~= seq![]);
    }
}

/// A plain file name: a path that is one named component and nothing else. There is no separator in
/// it, it does not begin with a drive, and it is neither `.` nor `..`.
pub open spec fn is_plain_name(name: Seq<u16>) -> bool {
    &&& name.len() > 0
    &&& name != seq![DOT]
    &&& name != seq![DOT, DOT]
    &&& !drive_at(name, 0)
    &&& forall|i: int| 0 <= i < name.len() ==> !is_separator(#[trigger] name[i])
}

/// Where `lo..hi` ends in a separator and a component that counts, or is nothing but that, this is
/// the last component there.
proof fn lemma_ends_in_component(
    p: Seq<u16>,
    lo: int,
    hi: int,
    at: int,
    c: Seq<u16>,
    verbatim: bool,
)
    requires
        0 <= lo <= at < hi <= p.len(),
        p.subrange(at, hi) == c,
        !passed_over(c, verbatim),
        forall|i: int| 0 <= i < c.len() ==> !separates(#[trigger] c[i], verbatim),
        at == lo || separates(p[at - 1], verbatim),
    ensures
        component_start(p, lo, hi, verbatim) == at,
        trimmed_end(p, lo, hi, verbatim) == hi,
{
    lemma_component_start(p, lo, hi, verbatim);
    let start = component_start(p, lo, hi, verbatim);
    assert forall|i: int| at <= i < hi implies !separates(#[trigger] p[i], verbatim) by {
        assert(p.subrange(at, hi)[i - at] == p[i]);
    }
    if at > lo && start < at {
        assert(separates(p[at - 1], verbatim));
    }
}

/// Where a body ends in a separator and a plain name, or is nothing but a plain name, that name is
/// its last component.
proof fn lemma_ends_in_name(p: Seq<u16>, lo: int, at: int, name: Seq<u16>, verbatim: bool)
    requires
        is_plain_name(name),
        0 <= lo <= at,
        p.len() == at + name.len(),
        p.subrange(at, p.len() as int) == name,
        at == lo || separates(p[at - 1], verbatim),
    ensures
        component_start(p, lo, p.len() as int, verbatim) == at,
        trimmed_end(p, lo, p.len() as int, verbatim) == p.len(),
{
    lemma_ends_in_component(p, lo, p.len() as int, at, name, verbatim);
}

/// A plain name, taken as a path, is its own file name. It lies in the current directory, the
/// empty path.
pub proof fn law_plain_name_is_a_file_here(name: Seq<u16>)
    requires
        is_plain_name(name),
    ensures
        prefix_kind(name) == PrefixKind::Absent,
        file_name_of(name) == Some(name),
        parent_of(name) == Some(Seq::<u16>::empty()),
{
    if has_leading_dot(name) {
        assert(name =~= seq![DOT]);
    }
    assert(body_start(name) == 0);
    assert(name.subrange(0, name.len() as int) =~= name);
    lemma_ends_in_name(name, 0, 0, name, false);
    assert(name.take(0) =~= seq![]);
}

proof fn lemma_component_start_agrees(p: Seq<u16>, q: Seq<u16>, lo: int, hi: int, verbatim: bool)
    requires
        0 <= lo <= hi <= p.len(),
        hi <= q.len(),
        forall|i: int| lo <= i < hi ==> #[trigger] p[i] == q[i],
    ensures
        component_start(p, lo, hi, verbatim) == component_start(q, lo, hi, verbatim),
    decreases hi - lo,
{
    if hi > lo {
        assert(p[hi - 1] == q[hi - 1]);
        if !separates(p[hi - 1], verbatim) {
            lemma_component_start_agrees(p, q, lo, hi - 1, verbatim);
        }
    }
}

/// Two paths begin with the same kind and length of prefix.
pub open spec fn same_prefix(p: Seq<u16>, r: Seq<u16>) -> bool {
    prefix_kind(p) == prefix_kind(r) && prefix_len(p) == prefix_len(r)
}

proof fn lemma_component_end(p: Seq<u16>, from: int, verbatim: bool)
    requires
        0 <= from,
    ensures
        ({
            let end = component_end(p, from, verbatim);
            &&& from <= p.len() ==> from <= end
            &&& end <= p.len()
            &&& end < p.len() ==> separates(p[end], verbatim)
            &&& forall|i: int| from <= i < end ==> !separates(#[trigger] p[i], verbatim)
        }),
    decreases p.len() - from,
{
    if from < p.len() && !separates(p[from], verbatim) {
        lemma_component_end(p, from + 1, verbatim);
    }
}

/// A prefix that implies a root ends at a separator, or with the path.
proof fn lemma_prefix_end(p: Seq<u16>)
    requires
        prefix_kind(p) != PrefixKind::Absent,
        prefix_kind(p) != PrefixKind::Disk,
    ensures
        prefix_len(p) == p.len() || has_physical_root(p),
{
    lemma_body_start_bounds(p);
    lemma_component_end(p, 4, true);
    lemma_component_end(p, 4, false);
    lemma_component_end(p, 8, true);
    lemma_component_end(p, 2, false);
    lemma_component_end_bounds(p, 8, true);
    lemma_component_end_bounds(p, 2, false);
    if p.len() >= 8 {
        lemma_component_end(p, component_end(p, 8, true) + 1, true);
    }
    if p.len() >= 2 {
        lemma_component_end(p, component_end(p, 2, false) + 1, false);
    }
}

/// A verbatim path that names a server and no share, as in `\\?\UNC\server`: the first component
/// that is put behind it becomes the share.
pub open spec fn lacks_share(p: Seq<u16>) -> bool {
    prefix_kind(p) == PrefixKind::VerbatimUnc && component_end(p, 8, true) == prefix_len(p)
}

/// A server without a share, as in `\\server`: a component behind it becomes its share.
pub open spec fn is_bare_server(dir: Seq<u16>) -> bool {
    dir.len() > 2 && is_separator(dir[0]) && is_separator(dir[1]) && component_end(dir, 2, false)
        == dir.len()
}

/// A file can be put into a directory by its name: the directory does not end in a server whose
/// share the name would become.
pub open spec fn takes_files(dir: Seq<u16>) -> bool {
    &&& !(prefix_kind(dir) == PrefixKind::Absent && is_bare_server(dir))
    &&& !(lacks_share(dir) && components_of(dir).len() == 0)
}

/// A directory as it is written once a name is put into it: as it was, but a verbatim one is
/// written anew, with one separator before each component, and with one at its end where it has no
/// component beyond its prefix.
pub open spec fn dir_as_joined(dir: Seq<u16>) -> Seq<u16> {
    let anew = dir.take(prefix_len(dir)) + written(components_of(dir));
    let in_prefix: int = if lacks_share(dir) {
        1
    } else {
        0
    };
    if !is_verbatim(prefix_kind(dir)) {
        dir
    } else if components_of(dir).len() <= in_prefix {
        anew.push(BACKSLASH)
    } else {
        anew
    }
}

/// A plain name that is put into the directory of a file names a file in that directory: its file
/// name is that name, and its parent is that directory. The one exception is a directory that takes
/// no files: there the name becomes a part of the prefix, and the path has no file name.
pub proof fn law_file_beside_another(p: Seq<u16>, name: Seq<u16>)
    requires
        is_plain_name(name),
        parent_of(p) is Some,
    ensures
        file_name_of(joined(parent_of(p)->0, name)) == (if takes_files(parent_of(p)->0) {
            Some(name)
        } else {
            None
        }),
        takes_files(parent_of(p)->0) ==> parent_of(joined(parent_of(p)->0, name)) == Some(
            dir_as_joined(parent_of(p)->0),
        ),
{
    let q = parent_of(p)->0;
    if is_verbatim(prefix_kind(p)) {
        lemma_verbatim_parent_prefix(p);
        lemma_parent_lacks_share(p);
        if lacks_share(p) {
            lemma_beside_without_share(p, name);
        } else {
            lemma_kept_verbatim(p, name);
            lemma_beside_verbatim(p, name);
        }
    } else if prefix_kind(p) == PrefixKind::Absent {
        lemma_kept_absent(p, name);
        if is_bare_server(q) {
            lemma_nothing_behind_prefix(joined(q, name));
        } else {
            lemma_beside(p, name);
        }
    } else {
        lemma_kept_plain(p, name);
        lemma_beside(p, name);
    }
}

/// A path that is all prefix has no file name.
proof fn lemma_nothing_behind_prefix(r: Seq<u16>)
    requires
        prefix_len(r) == r.len(),
    ensures
        file_name_of(r) is None,
{
}

proof fn lemma_parent_cut(p: Seq<u16>)
    requires
        parent_of(p) is Some,
    ensures
        ({
            let verbatim = is_verbatim(prefix_kind(p));
            let lo = body_start(p);
            let c = parent_of(p)->0.len() as int;
            &&& parent_of(p)->0 == p.take(c)
            &&& lo <= c < p.len() || (c == 0 && lo == 1 && prefix_kind(p) == PrefixKind::Absent
                && !has_physical_root(p) && p.len() > 0 && p[0] == DOT)
            &&& lo < c ==> separates(p[c], verbatim) && !passed_over(
                p.subrange(component_start(p, lo, c, verbatim), c),
                verbatim,
            )
        }),
{
    let verbatim = is_verbatim(prefix_kind(p));
    let lo = body_start(p);
    lemma_body_start_bounds(p);
    lemma_trimmed_end(p, lo, p.len() as int, verbatim);
    let end = trimmed_end(p, lo, p.len() as int, verbatim);
    if lo < end {
        lemma_component_start(p, lo, end, verbatim);
        let start = component_start(p, lo, end, verbatim);
        if start > lo {
            lemma_trimmed_end(p, lo, start - 1, verbatim);
        }
        let c = trimmed_end(p, lo, start - 1, verbatim);
        assert(p.take(c).len() == c);
    } else {
        assert(p.take(0) =~= seq![]);
    }
}

#[verifier::spinoff_prover]
proof fn lemma_beside(p: Seq<u16>, name: Seq<u16>)
    requires
        is_plain_name(name),
        parent_of(p) is Some,
        same_prefix(p, joined(parent_of(p)->0, name)),
        !is_verbatim(prefix_kind(p)),
    ensures
        file_name_of(joined(parent_of(p)->0, name)) == Some(name),
        parent_of(joined(parent_of(p)->0, name)) == parent_of(p),
        !is_verbatim(prefix_kind(parent_of(p)->0)),
{
    let lo = body_start(p);
    let len = prefix_len(p);
    lemma_body_start_bounds(p);
    lemma_parent_cut(p);
    let q = parent_of(p)->0;
    let c = q.len() as int;
    law_plain_name_is_a_file_here(name);
    let r = joined(q, name);
    assert(forall|i: int| 0 <= i < c ==> #[trigger] q[i] == p[i]);
    assert(!is_verbatim(prefix_kind(q)));
    if prefix_kind(p) != PrefixKind::Absent && prefix_kind(p) != PrefixKind::Disk {
        lemma_prefix_end(p);
    }
    if c > lo {
        lemma_component_start(p, lo, c, false);
        let s = component_start(p, lo, c, false);
        assert(!separates(p[c - 1], false));
        assert(q.last() == p[c - 1]);
        assert(wants_separator(q));
        assert(r == q.push(BACKSLASH) + name);
        assert forall|i: int| 0 <= i < c implies #[trigger] r[i] == p[i] by {}
        assert(body_start(r) == lo) by {
            assert(r[len] == p[len]);
            if c == len + 1 {
                assert(lo == len && s == len);
                if p[len] == DOT {
                    assert(p.subrange(len, c) =~= seq![DOT]);
                }
            } else {
                assert(r[len + 1] == p[len + 1]);
            }
        }
        assert(r.subrange(c + 1, r.len() as int) =~= name);
        lemma_ends_in_name(r, lo, c + 1, name, false);
        lemma_component_start_agrees(p, r, lo, c, false);
        assert(r.subrange(s, c) =~= p.subrange(s, c));
        assert(trimmed_end(r, lo, c, false) == c);
        assert(r.take(c) =~= q);
    } else if c == len || c < lo {
        assert(r == q + name);
        assert(r[c] == name[0]);
        if has_leading_dot(r) {
            if r.len() == c + 1 {
                assert(name =~= seq![DOT]);
            } else {
                assert(r[c + 1] == name[1]);
            }
        }
        assert(body_start(r) == c);
        assert(r.subrange(c, r.len() as int) =~= name);
        lemma_ends_in_name(r, c, c, name, false);
        assert(r.take(c) =~= q);
    } else {
        assert(c == len + 1);
        assert(q.last() == p[len]);
        if has_physical_root(p) {
            assert(r == q + name);
            assert(r[len] == p[len]);
            assert(body_start(r) == c);
            assert(r.subrange(c, r.len() as int) =~= name);
            lemma_ends_in_name(r, c, c, name, false);
            assert(r.take(c) =~= q);
        } else {
            assert(p[len] == DOT);
            assert(r == q.push(BACKSLASH) + name);
            assert(r[len] == DOT && r[len + 1] == BACKSLASH);
            assert(body_start(r) == c);
            assert(r.subrange(c + 1, r.len() as int) =~= name);
            lemma_ends_in_name(r, c, c + 1, name, false);
            assert(r.take(c) =~= q);
        }
    }
}

/// A component that ends at a separator ends there in any beginning of the path that holds the
/// separator.
proof fn lemma_component_end_agrees(p: Seq<u16>, c: int, from: int, verbatim: bool)
    requires
        0 <= from,
        component_end(p, from, verbatim) < c <= p.len(),
    ensures
        component_end(p.take(c), from, verbatim) == component_end(p, from, verbatim),
    decreases p.len() - from,
{
    let q = p.take(c);
    if from < p.len() {
        lemma_component_end_bounds(p, from, verbatim);
        assert(q[from] == p[from]);
        if !separates(p[from], verbatim) {
            lemma_component_end_agrees(p, c, from + 1, verbatim);
        }
    }
}

/// The directory of a file behind a verbatim prefix has that prefix.
proof fn lemma_verbatim_parent_prefix(p: Seq<u16>)
    requires
        is_verbatim(prefix_kind(p)),
        parent_of(p) is Some,
    ensures
        same_prefix(p, parent_of(p)->0),
{
    lemma_body_start_bounds(p);
    lemma_parent_cut(p);
    lemma_prefix_end(p);
    let q = parent_of(p)->0;
    let c = q.len() as int;
    let len = prefix_len(p);
    lemma_component_end(p, 4, true);
    assert(len < c);
    assert(forall|i: int| 0 <= i < c ==> #[trigger] q[i] == p[i]);
    match prefix_kind(p) {
        PrefixKind::Verbatim => {
            lemma_component_end_agrees(p, c, 4, true);
            if drive_at(q, 4) {
                assert(len >= 6);
                if len == 6 {
                    assert(separates(p[6], true));
                }
                assert(q[6] == p[6]);
            }
        },
        PrefixKind::VerbatimUnc => {
            lemma_component_end(p, 8, true);
            let server_end = component_end(p, 8, true);
            lemma_component_end(p, server_end + 1, true);
            lemma_component_end_agrees(p, c, 8, true);
            let end = component_end(p, server_end + 1, true);
            if server_end + 1 < end {
                lemma_component_end_agrees(p, c, server_end + 1, true);
            } else if server_end + 1 < c {
                assert(q[server_end + 1] == p[server_end + 1]);
            }
        },
        _ => {},
    }
}

/// Every component counts, and no separator occurs in it.
proof fn lemma_components_count(p: Seq<u16>, from: int, verbatim: bool)
    requires
        0 <= from,
    ensures
        forall|k: int, i: int|
            #![trigger components_from(p, from, verbatim)[k][i]]
            0 <= k < components_from(p, from, verbatim).len() && 0 <= i < components_from(
                p,
                from,
                verbatim,
            )[k].len() ==> !separates(components_from(p, from, verbatim)[k][i], verbatim),
        forall|k: int|
            0 <= k < components_from(p, from, verbatim).len() ==> !passed_over(
                #[trigger] components_from(p, from, verbatim)[k],
                verbatim,
            ),
    decreases p.len() + 1 - from,
{
    if from < p.len() {
        lemma_component_end(p, from, verbatim);
        let end = component_end(p, from, verbatim);
        let rest = components_from(p, end + 1, verbatim);
        let all = components_from(p, from, verbatim);
        lemma_components_count(p, end + 1, verbatim);
        let shift: int = all.len() - rest.len();
        assert forall|k: int, i: int|
            #![trigger all[k][i]]
            0 <= k < all.len() && 0 <= i < all[k].len() implies !separates(all[k][i], verbatim) by {
            if k >= shift {
                assert(all[k] == rest[k - shift]);
                assert(!separates(rest[k - shift][i], verbatim));
            } else {
                assert(all[k][i] == p[from + i]);
            }
        }
        assert forall|k: int| 0 <= k < all.len() implies !passed_over(
            #[trigger] all[k],
            verbatim,
        ) by {
            if k >= shift {
                assert(all[k] == rest[k - shift]);
            }
        }
    }
}

/// What is written begins with a separator and the first component, and goes on with a separator
/// where there are more.
proof fn lemma_written_front(parts: Seq<Seq<u16>>)
    requires
        parts.len() > 0,
    ensures
        ({
            let n = parts[0].len() as int;
            let all = written(parts);
            &&& all.len() >= n + 1
            &&& all[0] == BACKSLASH
            &&& all.subrange(1, n + 1) == parts[0]
            &&& parts.len() == 1 ==> all.len() == n + 1
            &&& parts.len() > 1 ==> all.len() > n + 1 && all[n + 1] == BACKSLASH
        }),
    decreases parts.len(),
{
    let shorter = parts.drop_last();
    let n = parts[0].len() as int;
    let all = written(parts);
    if shorter.len() > 0 {
        lemma_written_front(shorter);
        assert(all.subrange(1, n + 1) =~= written(shorter).subrange(1, n + 1));
    } else {
        assert(written(shorter) =~= seq![]);
        assert(parts.last() == parts[0]);
        assert(all.subrange(1, n + 1) =~= parts[0]);
    }
}

/// How a plain name is put into a verbatim directory: behind the prefix stand the components of
/// the directory and then the name, each behind a separator.
#[verifier::spinoff_prover]
proof fn lemma_joined_verbatim(q: Seq<u16>, name: Seq<u16>)
    requires
        is_plain_name(name),
        is_verbatim(prefix_kind(q)),
    ensures
        joined(q, name) == q.take(prefix_len(q)) + written(components_of(q).push(name)),
        joined(q, name) == (q.take(prefix_len(q)) + written(components_of(q))).push(BACKSLASH)
            + name,
        joined(q, name).take(prefix_len(q)) == q.take(prefix_len(q)),
        joined(q, name)[prefix_len(q)] == BACKSLASH,
{
    let len = prefix_len(q);
    let r = joined(q, name);
    lemma_body_start_bounds(q);
    law_plain_name_is_a_file_here(name);
    assert(components_of(name) =~= seq![name]) by {
        if has_leading_dot(name) {
            assert(name =~= seq![DOT]);
        }
        lemma_component_end(name, 0, false);
        assert(component_end(name, 0, false) == name.len());
        assert(name.subrange(0, name.len() as int) =~= name);
        assert(components_from(name, name.len() as int + 1, false) =~= seq![]);
        assert(components_from(name, 0, false) =~= seq![name]);
    }
    let parts = components_of(q);
    let way = seq![name];
    assert(way.drop_last() =~= seq![]);
    assert(walked(parts, way.drop_last()) == parts);
    assert(walked(parts, way) == parts.push(name));
    assert(parts.push(name).drop_last() =~= parts);
    assert(r =~= (q.take(len) + written(parts)).push(BACKSLASH) + name);
    lemma_written_front(parts.push(name));
    assert(r.take(len) =~= q.take(len));
}

/// Where a plain name is put into a verbatim directory, what stands before it ends in the last
/// component of the directory.
#[verifier::spinoff_prover]
proof fn lemma_last_part(q: Seq<u16>, name: Seq<u16>, lo: int)
    requires
        is_plain_name(name),
        is_verbatim(prefix_kind(q)),
        components_of(q).len() > 0,
        0 <= lo <= prefix_len(q) + written(components_of(q).drop_last()).len() + 1,
    ensures
        trimmed_end(joined(q, name), lo, prefix_len(q) + written(components_of(q)).len(), true)
            == prefix_len(q) + written(components_of(q)).len(),
{
    let r = joined(q, name);
    let parts = components_of(q);
    let last = parts.len() - 1;
    let c = parts.last();
    lemma_body_start_bounds(q);
    lemma_joined_verbatim(q, name);
    lemma_components_count(q, body_start(q), true);
    assert(c == components_from(q, body_start(q), true)[last]);
    assert forall|i: int| 0 <= i < c.len() implies !separates(#[trigger] c[i], true) by {
        assert(!separates(components_from(q, body_start(q), true)[last][i], true));
    }
    let front = q.take(prefix_len(q)) + written(parts.drop_last());
    let base = q.take(prefix_len(q)) + written(parts);
    assert(base =~= front.push(BACKSLASH) + c);
    let start = front.len() as int + 1;
    let end = base.len() as int;
    assert(r.subrange(start, end) =~= c);
    assert(r[start - 1] == BACKSLASH);
    lemma_ends_in_component(r, lo, end, start, c, true);
}

/// A plain name in a verbatim directory stands behind the components of the directory, however many
/// of these the prefix takes up.
#[verifier::spinoff_prover]
proof fn lemma_behind_verbatim(q: Seq<u16>, name: Seq<u16>, len: int)
    requires
        is_plain_name(name),
        is_verbatim(prefix_kind(q)),
        is_verbatim(prefix_kind(joined(q, name))),
        prefix_len(joined(q, name)) == len,
        len == prefix_len(q) && !lacks_share(q) || (lacks_share(q) && components_of(q).len() > 0
            && len == prefix_len(q) + 1 + components_of(q)[0].len()),
    ensures
        file_name_of(joined(q, name)) == Some(name),
        parent_of(joined(q, name)) == Some(dir_as_joined(q)),
{
    let r = joined(q, name);
    lemma_body_start_bounds(q);
    lemma_joined_verbatim(q, name);
    let parts = components_of(q);
    let base = q.take(prefix_len(q)) + written(parts);
    let at = base.len() as int + 1;
    let lo = len + 1;
    if parts.len() > 0 {
        lemma_written_front(parts);
        lemma_written_front(parts.push(name));
    } else {
        assert(written(parts) =~= seq![]);
    }
    assert(r[len] == BACKSLASH) by {
        if lacks_share(q) {
            assert(r[len] == written(parts.push(name))[parts[0].len() as int + 1]);
        }
    }
    assert(body_start(r) == lo);
    assert(r[at - 1] == BACKSLASH);
    assert(r.subrange(at, r.len() as int) =~= name);
    lemma_ends_in_name(r, lo, at, name, true);
    let in_prefix: int = if lacks_share(q) {
        1
    } else {
        0
    };
    if parts.len() <= in_prefix {
        assert(at == lo);
        assert(r.take(lo) =~= base.push(BACKSLASH));
    } else {
        if lacks_share(q) {
            lemma_written_front(parts.drop_last());
        }
        lemma_last_part(q, name, lo);
        assert(r.take(at - 1) =~= base);
    }
}

proof fn lemma_beside_verbatim(p: Seq<u16>, name: Seq<u16>)
    requires
        is_plain_name(name),
        parent_of(p) is Some,
        same_prefix(p, joined(parent_of(p)->0, name)),
        is_verbatim(prefix_kind(p)),
        !lacks_share(p),
    ensures
        file_name_of(joined(parent_of(p)->0, name)) == Some(name),
        parent_of(joined(parent_of(p)->0, name)) == Some(dir_as_joined(parent_of(p)->0)),
{
    lemma_verbatim_parent_prefix(p);
    lemma_parent_lacks_share(p);
    lemma_behind_verbatim(parent_of(p)->0, name, prefix_len(p));
}

/// A component ends at the first separator.
proof fn lemma_component_end_is(p: Seq<u16>, from: int, end: int, verbatim: bool)
    requires
        0 <= from <= end < p.len(),
        separates(p[end], verbatim),
        forall|i: int| from <= i < end ==> !separates(#[trigger] p[i], verbatim),
    ensures
        component_end(p, from, verbatim) == end,
{
    lemma_component_end(p, from, verbatim);
    let found = component_end(p, from, verbatim);
    if found < end {
        assert(!separates(p[found], verbatim));
    }
}

/// The directory of a file lacks a share exactly where the path of the file does.
proof fn lemma_parent_lacks_share(p: Seq<u16>)
    requires
        is_verbatim(prefix_kind(p)),
        parent_of(p) is Some,
    ensures
        lacks_share(parent_of(p)->0) == lacks_share(p),
{
    lemma_body_start_bounds(p);
    lemma_parent_cut(p);
    lemma_prefix_end(p);
    lemma_verbatim_parent_prefix(p);
    if prefix_kind(p) == PrefixKind::VerbatimUnc {
        lemma_component_end(p, 8, true);
        lemma_component_end(p, component_end(p, 8, true) + 1, true);
        lemma_component_end_agrees(p, parent_of(p)->0.len() as int, 8, true);
    }
}

/// A plain name behind a verbatim server without a share: the first component of the directory
/// becomes the share, or the name itself does where there is none.
#[verifier::spinoff_prover]
proof fn lemma_beside_without_share(p: Seq<u16>, name: Seq<u16>)
    requires
        is_plain_name(name),
        parent_of(p) is Some,
        lacks_share(p),
    ensures
        file_name_of(joined(parent_of(p)->0, name)) == (if takes_files(parent_of(p)->0) {
            Some(name)
        } else {
            None
        }),
        takes_files(parent_of(p)->0) ==> parent_of(joined(parent_of(p)->0, name)) == Some(
            dir_as_joined(parent_of(p)->0),
        ),
{
    let q = parent_of(p)->0;
    let r = joined(q, name);
    let len = prefix_len(p);
    lemma_body_start_bounds(p);
    lemma_parent_cut(p);
    lemma_prefix_end(p);
    lemma_verbatim_parent_prefix(p);
    lemma_parent_lacks_share(p);
    lemma_joined_verbatim(q, name);
    let parts = components_of(q);
    let all = parts.push(name);
    lemma_components_count(q, body_start(q), true);
    lemma_written_front(all);
    assert forall|i: int| 0 <= i < len implies #[trigger] r[i] == p[i] by {
        assert(r.take(len)[i] == q.take(len)[i]);
        assert(q[i] == p[i]);
    }
    lemma_component_end(p, 8, true);
    lemma_component_end_is(r, 8, len, true);
    let share = all[0];
    let n = share.len() as int;
    assert forall|i: int| len + 1 <= i < len + 1 + n implies !separates(
        #[trigger] r[i],
        true,
    ) by {
        assert(r[i] == written(all)[i - len]);
        assert(written(all).subrange(1, n + 1)[i - len - 1] == share[i - len - 1]);
        if parts.len() > 0 {
            assert(!separates(
                components_from(q, body_start(q), true)[0][i - len - 1],
                true,
            ));
        }
    }
    lemma_component_end(r, len + 1, true);
    if parts.len() == 0 {
        assert(r.len() == len + 1 + n);
        let end = component_end(r, len + 1, true);
        if end < r.len() {
            assert(!separates(r[end], true));
        }
        lemma_nothing_behind_prefix(r);
    } else {
        assert(!passed_over(components_from(q, body_start(q), true)[0], true));
        assert(r[len + 1 + n] == written(all)[n + 1]);
        lemma_component_end_is(r, len + 1, len + 1 + n, true);
        assert(prefix_len(r) == len + 1 + n);
        lemma_behind_verbatim(q, name, len + 1 + n);
    }
}

proof fn lemma_kept_plain(p: Seq<u16>, name: Seq<u16>)
    requires
        is_plain_name(name),
        parent_of(p) is Some,
        prefix_kind(p) == PrefixKind::Disk || prefix_kind(p) == PrefixKind::Device || prefix_kind(p)
            == PrefixKind::Unc,
    ensures
        same_prefix(p, joined(parent_of(p)->0, name)),
        !is_bare_server(parent_of(p)->0),
{
    lemma_body_start_bounds(p);
    lemma_parent_cut(p);
    law_plain_name_is_a_file_here(name);
    let q = parent_of(p)->0;
    let c = q.len() as int;
    let r = joined(q, name);
    let len = prefix_len(p);
    assert(forall|i: int| 0 <= i < c ==> #[trigger] q[i] == p[i]);
    assert(forall|i: int| 0 <= i < c ==> #[trigger] r[i] == p[i]);
    if prefix_kind(p) != PrefixKind::Disk {
        lemma_prefix_end(p);
        assert(len < c);
        lemma_component_end(p, 4, false);
        lemma_component_end(p, 2, false);
        assert(r[2] == p[2]);
        if prefix_kind(p) == PrefixKind::Device {
            assert(r[3] == p[3]);
            lemma_component_end_is(r, 4, len, false);
            lemma_component_end_is(q, 2, 3, false);
        } else {
            let server_end = component_end(p, 2, false);
            let end = component_end(p, server_end + 1, false);
            lemma_component_end(p, server_end + 1, false);
            assert(r[3] == p[3]);
            lemma_component_end_agrees(p, c, 2, false);
            lemma_component_end_is(r, 2, server_end, false);
            lemma_component_end_is(r, server_end + 1, end, false);
        }
    }
}

#[verifier::spinoff_prover]
proof fn lemma_kept_verbatim(p: Seq<u16>, name: Seq<u16>)
    requires
        is_plain_name(name),
        parent_of(p) is Some,
        is_verbatim(prefix_kind(p)),
        !lacks_share(p),
    ensures
        same_prefix(p, joined(parent_of(p)->0, name)),
{
    let q = parent_of(p)->0;
    let r = joined(q, name);
    let len = prefix_len(p);
    lemma_body_start_bounds(p);
    lemma_parent_cut(p);
    lemma_prefix_end(p);
    lemma_verbatim_parent_prefix(p);
    lemma_joined_verbatim(q, name);
    lemma_component_end(p, 4, true);
    assert forall|i: int| 0 <= i < len implies #[trigger] r[i] == p[i] by {
        assert(r.take(len)[i] == q.take(len)[i]);
        assert(q[i] == p[i]);
    }
    match prefix_kind(p) {
        PrefixKind::VerbatimDisk => {},
        PrefixKind::Verbatim => {
            lemma_component_end_is(r, 4, len, true);
        },
        _ => {
            let server_end = component_end(p, 8, true);
            lemma_component_end(p, 8, true);
            lemma_component_end(p, server_end + 1, true);
            lemma_component_end_is(r, 8, server_end, true);
            lemma_component_end_is(r, server_end + 1, len, true);
        },
    }
}

#[verifier::spinoff_prover]
proof fn lemma_kept_absent(p: Seq<u16>, name: Seq<u16>)
    requires
        is_plain_name(name),
        parent_of(p) is Some,
        prefix_kind(p) == PrefixKind::Absent,
    ensures
        !is_verbatim(prefix_kind(parent_of(p)->0)),
        is_bare_server(parent_of(p)->0) ==> {
            &&& prefix_kind(parent_of(p)->0) == PrefixKind::Absent
            &&& prefix_len(joined(parent_of(p)->0, name)) == joined(parent_of(p)->0, name).len()
        },
        !is_bare_server(parent_of(p)->0) ==> same_prefix(p, joined(parent_of(p)->0, name)),
{
    lemma_body_start_bounds(p);
    lemma_parent_cut(p);
    law_plain_name_is_a_file_here(name);
    let q = parent_of(p)->0;
    let c = q.len() as int;
    let r = joined(q, name);
    assert(forall|i: int| 0 <= i < c ==> #[trigger] q[i] == p[i]);
    assert(!is_verbatim(prefix_kind(q)));
    assert(forall|i: int| 0 <= i < c ==> #[trigger] r[i] == p[i]);
    if c >= 2 && is_separator(p[0]) && is_separator(p[1]) {
        lemma_component_start(p, 1, c, false);
        let s = component_start(p, 1, c, false);
        assert(!separates(p[c - 1], false));
        assert(q.last() == p[c - 1]);
        assert(r == q.push(BACKSLASH) + name);
        assert(r[c] == BACKSLASH);
        assert(r[2] == p[2]);
        if c == 3 {
            assert(s == 2);
            if p[2] == DOT {
                assert(p.subrange(2, 3) =~= seq![DOT]);
            }
        } else {
            assert(r[3] == p[3]);
        }
        lemma_component_end(q, 2, false);
        let end = component_end(q, 2, false);
        assert forall|i: int| 2 <= i < end implies !separates(#[trigger] r[i], false) by {
            assert(q[i] == p[i]);
        }
        lemma_component_end_is(r, 2, end, false);
        lemma_component_end(r, end + 1, false);
        if is_bare_server(q) {
            lemma_component_end(q, 3, false);
            assert forall|i: int| c < i < r.len() implies !is_separator(#[trigger] r[i]) by {
                assert(r[i] == name[i - c - 1]);
            }
            lemma_component_end(r, 4, true);
            if drive_at(r, 4) && c == 3 {
                assert(r[4] == name[0] && r[5] == name[1]);
            }
        } else {
            assert forall|i: int| 2 <= i < end implies !separates(#[trigger] p[i], false) by {
                assert(q[i] == p[i]);
            }
            lemma_component_end_is(p, 2, end, false);
            lemma_component_end(p, end + 1, false);
            if end > 2 {
                assert(end + 1 < c);
                assert(r[end + 1] == p[end + 1]);
            }
        }
    } else if c == 0 {
        assert(r =~= name);
    } else if c == 1 {
        if is_separator(p[0]) {
            assert(r == q + name);
            assert(r[1] == name[0]);
        } else {
            assert(r == q.push(BACKSLASH) + name);
        }
    }
}

/// What stands just before a body is a separator, a dot or a colon.
proof fn lemma_before_body(p: Seq<u16>)
    ensures
        0 < body_start(p) < p.len() ==> crate::utf16::stands_alone(p[body_start(p) - 1]),
{
    lemma_body_start_bounds(p);
    if prefix_kind(p) != PrefixKind::Absent && prefix_kind(p) != PrefixKind::Disk {
        lemma_prefix_end(p);
    }
}

/// The stem of a path that is text is text.
pub proof fn law_stem_of_text_is_text(p: Seq<u16>)
    requires
        crate::utf16::well_formed(p),
    ensures
        file_stem_of(p) matches Some(stem) ==> crate::utf16::well_formed(stem),
{
    if let Some(name) = file_name_of(p) {
        let verbatim = is_verbatim(prefix_kind(p));
        let lo = body_start(p);
        lemma_body_start_bounds(p);
        lemma_before_body(p);
        lemma_trimmed_end(p, lo, p.len() as int, verbatim);
        let end = trimmed_end(p, lo, p.len() as int, verbatim);
        lemma_component_start(p, lo, end, verbatim);
        let start = component_start(p, lo, end, verbatim);
        lemma_last_dot(name);
        let dot = last_dot(name);
        if dot > 0 {
            assert(name[dot] == p[start + dot]);
            assert(name.take(dot) =~= p.subrange(start, start + dot));
            crate::utf16::law_pieces_are_well_formed(p, start, start + dot);
        } else {
            crate::utf16::law_pieces_are_well_formed(p, start, end);
        }
    }
}

/// A component that no separator follows ends with the path.
proof fn lemma_component_end_is_last(p: Seq<u16>, from: int, verbatim: bool)
    requires
        0 <= from <= p.len(),
        forall|i: int| from <= i < p.len() ==> !separates(#[trigger] p[i], verbatim),
    ensures
        component_end(p, from, verbatim) == p.len(),
{
    lemma_component_end(p, from, verbatim);
    let end = component_end(p, from, verbatim);
    if end < p.len() {
        assert(!separates(p[end], verbatim));
    }
}

/// A body without a separator is one component, or none where that does not count.
proof fn lemma_one_component(p: Seq<u16>, from: int, verbatim: bool)
    requires
        0 <= from <= p.len(),
        forall|i: int| from <= i < p.len() ==> !separates(#[trigger] p[i], verbatim),
    ensures
        components_from(p, from, verbatim) == (if passed_over(p.skip(from), verbatim) {
            Seq::<Seq<u16>>::empty()
        } else {
            seq![p.skip(from)]
        }),
{
    lemma_component_end_is_last(p, from, verbatim);
    assert(p.subrange(from, p.len() as int) =~= p.skip(from));
    assert(components_from(p, p.len() as int + 1, verbatim) =~= seq![]);
    if from < p.len() {
        assert(components_from(p, from, verbatim) =~= if passed_over(p.skip(from), verbatim) {
            Seq::<Seq<u16>>::empty()
        } else {
            seq![p.skip(from)]
        });
    }
}

/// A separator and a component behind a body add that component, where it counts.
#[verifier::spinoff_prover]
proof fn lemma_components_append(x: Seq<u16>, s: u16, c: Seq<u16>, from: int, verbatim: bool)
    requires
        0 <= from <= x.len(),
        separates(s, verbatim),
        forall|i: int| 0 <= i < c.len() ==> !separates(#[trigger] c[i], verbatim),
    ensures
        components_from(x.push(s) + c, from, verbatim) == components_from(x, from, verbatim) + (
        if passed_over(c, verbatim) {
            Seq::<Seq<u16>>::empty()
        } else {
            seq![c]
        }),
    decreases x.len() - from,
{
    let r = x.push(s) + c;
    let more = if passed_over(c, verbatim) {
        Seq::<Seq<u16>>::empty()
    } else {
        seq![c]
    };
    let n = x.len() as int;
    lemma_component_end(x, from, verbatim);
    let end = component_end(x, from, verbatim);
    assert forall|i: int| from <= i < end implies !separates(#[trigger] r[i], verbatim) by {
        assert(r[i] == x[i]);
    }
    assert(r[n] == s);
    if end < n {
        assert(r[end] == x[end]);
    }
    lemma_component_end_is(r, from, end, verbatim);
    assert(r.subrange(from, end) =~= x.subrange(from, end));
    if end < n {
        lemma_components_append(x, s, c, end + 1, verbatim);
    } else {
        assert forall|i: int| n + 1 <= i < r.len() implies !separates(
            #[trigger] r[i],
            verbatim,
        ) by {
            assert(r[i] == c[i - n - 1]);
        }
        lemma_one_component(r, n + 1, verbatim);
        assert(r.skip(n + 1) =~= c);
        assert(components_from(x, n + 1, verbatim) =~= seq![]);
        assert(components_from(r, n + 1, verbatim) == more);
    }
    assert(components_from(r, from, verbatim) =~= components_from(x, from, verbatim) + more);
}

/// Trimming a body keeps its components, and the last of them is the one that the trimmed body ends
/// in.
#[verifier::spinoff_prover]
proof fn lemma_components_trimmed(p: Seq<u16>, lo: int, hi: int, verbatim: bool)
    requires
        0 <= lo <= hi <= p.len(),
    ensures
        ({
            let end = trimmed_end(p, lo, hi, verbatim);
            let start = component_start(p, lo, end, verbatim);
            let all = components_from(p.take(hi), lo, verbatim);
            &&& all == components_from(p.take(end), lo, verbatim)
            &&& end == lo ==> all.len() == 0
            &&& end > lo && start > lo ==> all == components_from(
                p.take(start - 1),
                lo,
                verbatim,
            ).push(p.subrange(start, end))
            &&& end > lo && start == lo ==> all == seq![p.subrange(start, end)]
        }),
    decreases hi - lo,
{
    let x = p.take(hi);
    lemma_component_start(p, lo, hi, verbatim);
    let start = component_start(p, lo, hi, verbatim);
    let c = p.subrange(start, hi);
    if hi > lo {
        if start > lo {
            let front = p.take(start - 1);
            assert(x =~= front.push(p[start - 1]) + c);
            assert forall|i: int| 0 <= i < c.len() implies !separates(
                #[trigger] c[i],
                verbatim,
            ) by {
                assert(c[i] == p[start + i]);
            }
            lemma_components_append(front, p[start - 1], c, lo, verbatim);
            if passed_over(c, verbatim) {
                assert(components_from(x, lo, verbatim) =~= components_from(front, lo, verbatim));
                lemma_components_trimmed(p, lo, start - 1, verbatim);
            } else {
                assert(components_from(x, lo, verbatim) =~= components_from(
                    front,
                    lo,
                    verbatim,
                ).push(c));
            }
        } else {
            assert forall|i: int| lo <= i < x.len() implies !separates(
                #[trigger] x[i],
                verbatim,
            ) by {
                assert(x[i] == p[i]);
            }
            lemma_one_component(x, lo, verbatim);
            assert(x.skip(lo) =~= c);
        }
    }
}

/// A beginning of a path that takes in all that stands before the body has the prefix of the path.
#[verifier::spinoff_prover]
proof fn lemma_take_keeps_prefix(p: Seq<u16>, c: int)
    requires
        body_start(p) <= c <= p.len(),
    ensures
        same_prefix(p, p.take(c)),
        has_physical_root(p.take(c)) == has_physical_root(p),
        has_leading_dot(p) ==> has_leading_dot(p.take(c)),
        has_leading_dot(p.take(c)) && !has_leading_dot(p) ==> c == prefix_len(p) + 1
            && p[prefix_len(p)] == DOT && body_start(p) == prefix_len(p),
{
    lemma_body_start_bounds(p);
    let q = p.take(c);
    let len = prefix_len(p);
    assert(forall|i: int| 0 <= i < c ==> #[trigger] q[i] == p[i]);
    if c == p.len() {
        assert(q =~= p);
    } else if prefix_kind(p) == PrefixKind::Absent {
        if c >= 2 && is_separator(p[0]) && is_separator(p[1]) {
            lemma_component_end(p, 2, false);
            lemma_component_end(q, 2, false);
            let end = component_end(q, 2, false);
            lemma_component_end(q, end + 1, false);
            if end < c {
                assert forall|i: int| 2 <= i < end implies !separates(#[trigger] p[i], false) by {
                    assert(q[i] == p[i]);
                }
                lemma_component_end_is(p, 2, end, false);
                lemma_component_end(p, end + 1, false);
                if end > 2 && end + 1 < c {
                    assert(component_end(p, end + 1, false) == end + 1);
                    assert(q[end + 1] == p[end + 1]);
                }
            }
        }
    } else if prefix_kind(p) != PrefixKind::Disk {
        lemma_prefix_end(p);
        assert(len < c);
        lemma_component_end(p, 4, true);
        lemma_component_end(p, 4, false);
        match prefix_kind(p) {
            PrefixKind::Verbatim => {
                lemma_component_end_agrees(p, c, 4, true);
                if drive_at(q, 4) {
                    assert(q[6] == p[6]);
                }
            },
            PrefixKind::VerbatimUnc => {
                lemma_component_end(p, 8, true);
                let server_end = component_end(p, 8, true);
                lemma_component_end(p, server_end + 1, true);
                lemma_component_end_agrees(p, c, 8, true);
                let end = component_end(p, server_end + 1, true);
                if server_end + 1 < end {
                    lemma_component_end_agrees(p, c, server_end + 1, true);
                } else if server_end + 1 < c {
                    assert(q[server_end + 1] == p[server_end + 1]);
                }
            },
            PrefixKind::Device => {
                lemma_component_end_agrees(p, c, 4, false);
            },
            PrefixKind::Unc => {
                lemma_component_end(p, 2, false);
                let server_end = component_end(p, 2, false);
                lemma_component_end(p, server_end + 1, false);
                lemma_component_end_agrees(p, c, 2, false);
                lemma_component_end_agrees(p, c, server_end + 1, false);
            },
            _ => {},
        }
    }
}

/// The file name of a path is the last of its components, and there is none where the path has no
/// component or the last one is `.` or `..`.
pub proof fn law_file_name_is_the_last_component(p: Seq<u16>)
    ensures
        file_name_of(p) == (if components_of(p).len() > 0 && components_of(p).last() != seq![DOT]
            && components_of(p).last() != seq![DOT, DOT] {
            Some(components_of(p).last())
        } else {
            None
        }),
{
    lemma_body_start_bounds(p);
    let verbatim = is_verbatim(prefix_kind(p));
    lemma_components_trimmed(p, body_start(p), p.len() as int, verbatim);
    lemma_trimmed_end(p, body_start(p), p.len() as int, verbatim);
    let end = trimmed_end(p, body_start(p), p.len() as int, verbatim);
    lemma_component_start(p, body_start(p), end, verbatim);
    assert(p.take(p.len() as int) =~= p);
}

/// Where a path has components, its parent is cut behind the last but one of them, or where the
/// body starts.
#[verifier::spinoff_prover]
proof fn lemma_parent_components(p: Seq<u16>)
    ensures
        ({
            let verbatim = is_verbatim(prefix_kind(p));
            let lo = body_start(p);
            let q = parent_of(p)->0;
            let c = q.len() as int;
            let at = component_start(p, lo, c, verbatim);
            &&& components_of(p).len() == 0 <==> trimmed_end(p, lo, p.len() as int, verbatim) == lo
            &&& components_of(p).len() > 0 ==> {
                &&& parent_of(p) == Some(p.take(c))
                &&& lo <= c <= p.len()
                &&& components_from(q, lo, verbatim) == components_of(p).drop_last()
                &&& c == lo ==> components_of(p).len() == 1
                &&& c > lo ==> components_of(p).len() > 1 && lo <= at < c && !passed_over(
                    p.subrange(at, c),
                    verbatim,
                ) && components_from(q, lo, verbatim).last() == p.subrange(at, c)
            }
        }),
{
    let verbatim = is_verbatim(prefix_kind(p));
    let lo = body_start(p);
    lemma_body_start_bounds(p);
    lemma_components_trimmed(p, lo, p.len() as int, verbatim);
    lemma_trimmed_end(p, lo, p.len() as int, verbatim);
    let end = trimmed_end(p, lo, p.len() as int, verbatim);
    lemma_component_start(p, lo, end, verbatim);
    let start = component_start(p, lo, end, verbatim);
    assert(p.take(p.len() as int) =~= p);
    if lo < end {
        let hi = if start > lo {
            start - 1
        } else {
            lo
        };
        let c = trimmed_end(p, lo, start - 1, verbatim);
        assert(c == trimmed_end(p, lo, hi, verbatim));
        lemma_components_trimmed(p, lo, hi, verbatim);
        lemma_trimmed_end(p, lo, hi, verbatim);
        lemma_component_start(p, lo, c, verbatim);
        let q = p.take(c);
        assert(q.len() == c);
        if start > lo {
            assert(components_of(p).drop_last() =~= components_from(q, lo, verbatim));
        } else {
            assert(c == lo);
            assert(components_from(q, lo, verbatim) =~= seq![]);
            assert(components_of(p).drop_last() =~= seq![]);
        }
    }
}

/// The parent of a path holds all its components but the last, behind the same prefix and root. It
/// is a beginning of the path that ends in the last of the components that are left, or with what
/// stands before the body where none is left. A path without components has no parent, but for a
/// relative one that begins with `.`: its parent is the empty path.
#[verifier::spinoff_prover]
pub proof fn law_parent_holds_all_components_but_the_last(p: Seq<u16>)
    ensures
        components_of(p).len() > 0 ==> parent_of(p) is Some && {
            let q = parent_of(p)->0;
            &&& components_of(q) == components_of(p).drop_last()
            &&& same_prefix(p, q)
            &&& has_physical_root(q) == has_physical_root(p)
            &&& q == p.take(q.len() as int)
            &&& components_of(q).len() == 0 ==> q.len() == body_start(p)
            &&& components_of(q).len() > 0 ==> {
                let last = components_of(q).last();
                last.len() <= q.len() && q.skip(q.len() - last.len()) == last
            }
        },
        components_of(p).len() == 0 ==> parent_of(p) == (if prefix_kind(p) == PrefixKind::Absent
            && p.len() > 0 && p[0] == DOT {
            Some(Seq::<u16>::empty())
        } else {
            None
        }),
{
    let verbatim = is_verbatim(prefix_kind(p));
    let lo = body_start(p);
    lemma_body_start_bounds(p);
    lemma_parent_components(p);
    if components_of(p).len() > 0 {
        let q = parent_of(p)->0;
        let c = q.len() as int;
        let at = component_start(p, lo, c, verbatim);
        lemma_take_keeps_prefix(p, c);
        if c > lo && c == prefix_len(p) + 1 && lo == prefix_len(p) && p[lo] == DOT {
            assert(at == lo);
            assert(p.subrange(lo, c) =~= seq![DOT]);
            if verbatim {
                lemma_prefix_end(p);
            }
        }
        assert(body_start(q) == lo);
        assert(components_of(q) == components_from(q, lo, verbatim));
        if c > lo {
            assert(q.skip(at) =~= p.subrange(at, c));
        }
    } else if prefix_kind(p) == PrefixKind::Absent && p.len() > 0 && p[0] == DOT
        && !has_leading_dot(p) {
        assert(lo == 0);
        lemma_component_end(p, 0, false);
        let first = p.subrange(0, component_end(p, 0, false));
        assert(passed_over(first, false));
        assert(first.len() > 0);
        assert(component_end(p, 0, false) == 1);
    }
}

/// Behind every kind of prefix `\` separates components. So does `/`, but not in the body of a path
/// that begins with `\\?\`.
pub proof fn law_what_separates(u: u16, kind: PrefixKind)
    ensures
        separates(u, is_verbatim(kind)) <==> u == 0x5C || (u == 0x2F && (kind == PrefixKind::Absent
            || kind == PrefixKind::Disk || kind == PrefixKind::Unc || kind == PrefixKind::Device)),
        is_separator(u) <==> u == 0x5C || u == 0x2F,
{
}

/// A plain name is what can be put between two separators of any path, other than `.` and `..`,
/// and what no drive begins.
pub proof fn law_what_is_plain(name: Seq<u16>)
    ensures
        is_plain_name(name) <==> {
            &&& name.len() > 0
            &&& !name.contains(0x5C)
            &&& !name.contains(0x2F)
            &&& name != seq![0x2Eu16]
            &&& name != seq![0x2Eu16, 0x2E]
            &&& !(name.len() >= 2 && (0x41 <= name[0] <= 0x5A || 0x61 <= name[0] <= 0x7A) && name[1]
                == 0x3A)
        },
{
    if !name.contains(0x5C) && !name.contains(0x2F) {
        assert forall|i: int| 0 <= i < name.len() implies !is_separator(#[trigger] name[i]) by {
            assert(name.contains(name[i]));
        }
    }
}

/// A path that is all prefix has no components.
pub proof fn law_prefix_holds_no_component(p: Seq<u16>)
    requires
        prefix_len(p) == p.len(),
    ensures
        components_of(p).len() == 0,
{
}

/// A component that stands right behind a drive, or that a path without a prefix begins with, is
/// the first of its components. An empty one and `.` do not count.
pub proof fn law_first_component(p: Seq<u16>, c: Seq<u16>)
    requires
        prefix_len(p) == p.len(),
        prefix_kind(p) == PrefixKind::Absent || prefix_kind(p) == PrefixKind::Disk,
        same_prefix(p, p + c),
        forall|i: int| 0 <= i < c.len() ==> #[trigger] c[i] != BACKSLASH && c[i] != SLASH,
    ensures
        components_of(p + c) == (if c.len() == 0 || c == seq![DOT] {
            Seq::<Seq<u16>>::empty()
        } else {
            seq![c]
        }),
        !has_physical_root(p + c),
        body_start(p + c) == (if c == seq![DOT] {
            p.len() as int + 1
        } else {
            p.len() as int
        }),
{
    let r = p + c;
    let len = p.len() as int;
    if c.len() > 0 {
        assert(r[len] == c[0]);
        if c.len() > 1 {
            assert(r[len + 1] == c[1]);
        }
        if has_leading_dot(r) {
            assert(c =~= seq![DOT]);
        } else {
            assert forall|i: int| len <= i < r.len() implies !separates(#[trigger] r[i], false) by {
                assert(r[i] == c[i - len]);
            }
            lemma_one_component(r, len, false);
            assert(r.skip(len) =~= c);
        }
    }
}

/// A separator and a component behind a path are one more component of it, where they do not become
/// a part of its prefix: the components that it had stay, and this is the last. An empty one does
/// not count, and `.` counts in a verbatim path only.
#[verifier::spinoff_prover]
pub proof fn law_component_behind_a_path(p: Seq<u16>, s: u16, c: Seq<u16>)
    requires
        same_prefix(p, p.push(s) + c),
        s == BACKSLASH || (s == SLASH && !is_verbatim(prefix_kind(p))),
        forall|i: int|
            0 <= i < c.len() ==> !separates(#[trigger] c[i], is_verbatim(prefix_kind(p))),
    ensures
        components_of(p.push(s) + c) == (if c.len() == 0 || (c == seq![DOT] && !is_verbatim(
            prefix_kind(p),
        )) {
            components_of(p)
        } else {
            components_of(p).push(c)
        }),
        has_physical_root(p.push(s) + c) == (has_physical_root(p) || p.len() == prefix_len(p)),
        body_start(p.push(s) + c) == (if p.len() == prefix_len(p) {
            p.len() as int + 1
        } else {
            body_start(p)
        }),
{
    let verbatim = is_verbatim(prefix_kind(p));
    let r = p.push(s) + c;
    let len = prefix_len(p);
    let n = p.len() as int;
    lemma_body_start_bounds(p);
    assert(r[n] == s);
    assert(forall|i: int| 0 <= i < n ==> #[trigger] r[i] == p[i]);
    if n == len {
        lemma_components_append(p, s, c, len, verbatim);
        assert(component_end(r, len, verbatim) == len);
        assert(r.subrange(len, len) =~= seq![]);
        assert(components_from(r, len, verbatim) == components_from(r, len + 1, verbatim));
    } else {
        if n == len + 1 {
            assert(r[len + 1] == s);
        } else {
            assert(r[len + 1] == p[len + 1]);
        }
        assert(body_start(r) == body_start(p));
        lemma_components_append(p, s, c, body_start(p), verbatim);
    }
    let more = if passed_over(c, verbatim) {
        Seq::<Seq<u16>>::empty()
    } else {
        seq![c]
    };
    assert(components_of(r) =~= components_of(p) + more);
    if passed_over(c, verbatim) {
        assert(components_of(p) + more =~= components_of(p));
    } else {
        assert(components_of(p) + more =~= components_of(p).push(c));
    }
}

/// The parent of a directory followed by one separator and a name is that directory, as it is
/// written, for any directory that ends in its last component or in its root. A bare prefix gets
/// the separator for its root. The name is the file name, unless it is `.` or `..`.
#[verifier::spinoff_prover]
pub proof fn law_parent_of_a_name_in_a_directory(d: Seq<u16>, s: u16, n: Seq<u16>)
    requires
        same_prefix(d, d.push(s) + n),
        s == BACKSLASH || (s == SLASH && !is_verbatim(prefix_kind(d))),
        forall|i: int|
            0 <= i < n.len() ==> !separates(#[trigger] n[i], is_verbatim(prefix_kind(d))),
        n.len() > 0,
        n == seq![DOT] ==> is_verbatim(prefix_kind(d)),
    ensures
        n != seq![DOT] && n != seq![DOT, DOT] ==> file_name_of(d.push(s) + n) == Some(n),
        d.len() == prefix_len(d) ==> parent_of(d.push(s) + n) == Some(d.push(s)),
        d.len() == body_start(d) && d.len() > prefix_len(d) ==> parent_of(d.push(s) + n) == Some(d),
        components_of(d).len() > 0 && components_of(d).last().len() <= d.len() && d.skip(
            d.len() - components_of(d).last().len(),
        ) == components_of(d).last() ==> parent_of(d.push(s) + n) == Some(d),
{
    let verbatim = is_verbatim(prefix_kind(d));
    let r = d.push(s) + n;
    let end = d.len() as int;
    lemma_body_start_bounds(d);
    law_component_behind_a_path(d, s, n);
    law_file_name_is_the_last_component(r);
    let lo = body_start(r);
    let hi = r.len() as int;
    assert(r.subrange(end + 1, hi) =~= n);
    assert(r[end] == s);
    lemma_ends_in_component(r, lo, hi, end + 1, n, verbatim);
    assert(forall|i: int| 0 <= i < end ==> #[trigger] r[i] == d[i]);
    assert(r.take(end) =~= d);
    assert(r.take(end + 1) =~= d.push(s));
    if d.len() > prefix_len(d) && components_of(d).len() > 0 && components_of(d).last().len()
        <= d.len() && d.skip(d.len() - components_of(d).last().len()) == components_of(d).last() {
        lemma_last_is_trimmed(d);
        lemma_component_start(d, lo, end, verbatim);
        lemma_component_start_agrees(d, r, lo, end, verbatim);
        let start = component_start(d, lo, end, verbatim);
        assert(r.subrange(start, end) =~= d.subrange(start, end));
        assert(trimmed_end(r, lo, end, verbatim) == end);
    }
}

/// Where a path ends in its last component, there is nothing to trim.
#[verifier::spinoff_prover]
proof fn lemma_last_is_trimmed(d: Seq<u16>)
    requires
        components_of(d).len() > 0,
        components_of(d).last().len() <= d.len(),
        d.skip(d.len() - components_of(d).last().len()) == components_of(d).last(),
    ensures
        body_start(d) < d.len(),
        ({
            let verbatim = is_verbatim(prefix_kind(d));
            let start = component_start(d, body_start(d), d.len() as int, verbatim);
            !passed_over(d.subrange(start, d.len() as int), verbatim)
        }),
{
    let verbatim = is_verbatim(prefix_kind(d));
    let lo = body_start(d);
    let end = d.len() as int;
    lemma_body_start_bounds(d);
    let all = components_of(d);
    let c = all.last();
    lemma_components_count(d, lo, verbatim);
    assert(c == components_from(d, lo, verbatim)[all.len() - 1]);
    assert forall|i: int| 0 <= i < c.len() implies !separates(#[trigger] c[i], verbatim) by {
        assert(!separates(components_from(d, lo, verbatim)[all.len() - 1][i], verbatim));
    }
    let from = end - c.len();
    assert forall|i: int| from <= i < end implies #[trigger] d[i] == c[i - from] by {
        assert(d.skip(from)[i - from] == d[i]);
    }
    lemma_component_start(d, lo, end, verbatim);
    let start = component_start(d, lo, end, verbatim);
    let last = d.subrange(start, end);
    lemma_components_trimmed(d, lo, end, verbatim);
    assert(d.take(end) =~= d);
    assert(d[end - 1] == c[c.len() - 1]);
    if passed_over(last, verbatim) {
        assert(start > lo);
        assert(separates(d[start - 1], verbatim));
        assert(start < end) by {
            if start == end {
                assert(separates(d[end - 1], verbatim));
            }
        }
        assert(last == seq![DOT]);
        assert(last.len() == 1);
        assert(last[0] == d[start]);
        assert(d[end - 1] == DOT);
        if c.len() == 1 {
            assert(c =~= seq![DOT]);
        } else {
            assert(d[start - 1] == c[start - 1 - from]);
        }
    }
}

/// A path that ends in its last component does not end in a separator, and is more than its prefix.
pub proof fn lemma_ends_in_no_separator(d: Seq<u16>)
    requires
        components_of(d).len() > 0,
        components_of(d).last().len() <= d.len(),
        d.skip(d.len() - components_of(d).last().len()) == components_of(d).last(),
    ensures
        prefix_len(d) < d.len(),
        !separates(d.last(), is_verbatim(prefix_kind(d))),
{
    let verbatim = is_verbatim(prefix_kind(d));
    lemma_body_start_bounds(d);
    lemma_last_is_trimmed(d);
    lemma_component_start(d, body_start(d), d.len() as int, verbatim);
}

/// Separators and components that do not count, put behind a path, change neither its file name nor
/// its parent.
pub proof fn law_trailing_separators_do_not_matter(p: Seq<u16>, s: u16, c: Seq<u16>)
    requires
        same_prefix(p, p.push(s) + c),
        s == BACKSLASH || (s == SLASH && !is_verbatim(prefix_kind(p))),
        c.len() == 0 || (c == seq![DOT] && !is_verbatim(prefix_kind(p))),
        components_of(p).len() > 0,
    ensures
        components_of(p.push(s) + c) == components_of(p),
        file_name_of(p.push(s) + c) == file_name_of(p),
        parent_of(p.push(s) + c) == parent_of(p),
{
    let verbatim = is_verbatim(prefix_kind(p));
    let r = p.push(s) + c;
    let n = p.len() as int;
    assert forall|i: int| 0 <= i < c.len() implies !separates(#[trigger] c[i], verbatim) by {
        assert(c[i] == DOT);
    }
    law_component_behind_a_path(p, s, c);
    law_file_name_is_the_last_component(p);
    law_file_name_is_the_last_component(r);
    law_parent_holds_all_components_but_the_last(p);
    law_parent_holds_all_components_but_the_last(r);
    lemma_body_start_bounds(p);
    let lo = body_start(p);
    assert(n > prefix_len(p));
    assert(r[n] == s);
    assert(r.subrange(n + 1, r.len() as int) =~= c);
    lemma_component_start(r, lo, r.len() as int, verbatim);
    let start = component_start(r, lo, r.len() as int, verbatim);
    assert(start == n + 1) by {
        if start > n + 1 {
            assert(r[start - 1] == c[start - n - 2]);
        }
    }
    assert(trimmed_end(r, lo, r.len() as int, verbatim) == trimmed_end(r, lo, n, verbatim));
    lemma_trimmed_agrees(p, r, lo, n, verbatim);
    let end = trimmed_end(p, lo, n, verbatim);
    lemma_trimmed_end(p, lo, n, verbatim);
    lemma_component_start_agrees(p, r, lo, end, verbatim);
    lemma_component_start(p, lo, end, verbatim);
    let at = component_start(p, lo, end, verbatim);
    if lo < end && at > lo {
        lemma_trimmed_agrees(p, r, lo, at - 1, verbatim);
        lemma_trimmed_end(p, lo, at - 1, verbatim);
    }
    let cut = trimmed_end(p, lo, at - 1, verbatim);
    assert(r.take(cut) =~= p.take(cut));
}

proof fn lemma_trimmed_agrees(p: Seq<u16>, q: Seq<u16>, lo: int, hi: int, verbatim: bool)
    requires
        0 <= lo <= hi <= p.len(),
        hi <= q.len(),
        forall|i: int| lo <= i < hi ==> #[trigger] p[i] == q[i],
    ensures
        trimmed_end(p, lo, hi, verbatim) == trimmed_end(q, lo, hi, verbatim),
    decreases hi - lo,
{
    if hi > lo {
        lemma_component_start_agrees(p, q, lo, hi, verbatim);
        lemma_component_start(p, lo, hi, verbatim);
        let start = component_start(p, lo, hi, verbatim);
        assert(p.subrange(start, hi) =~= q.subrange(start, hi));
        if passed_over(p.subrange(start, hi), verbatim) && start > lo {
            lemma_trimmed_agrees(p, q, lo, start - 1, verbatim);
        }
    }
}

/// A file name is its stem, a dot and its extension, whatever the three are made of: where the
/// extension holds no dot and the stem is not empty, these are the two that come out.
pub proof fn law_last_dot_begins_the_extension(p: Seq<u16>, stem: Seq<u16>, ext: Seq<u16>)
    requires
        file_name_of(p) == Some(stem.push(DOT) + ext),
        stem.len() > 0,
        forall|i: int| 0 <= i < ext.len() ==> #[trigger] ext[i] != DOT,
    ensures
        file_stem_of(p) == Some(stem),
        extension_of(p) == Some(ext),
{
    let name = stem.push(DOT) + ext;
    lemma_last_dot(name);
    let at = stem.len() as int;
    assert(name[at] == DOT);
    if last_dot(name) > at {
        assert(name[last_dot(name)] == ext[last_dot(name) - at - 1]);
    }
    assert(name.take(at) =~= stem);
    assert(name.skip(at + 1) =~= ext);
}

/// A component ends where it did once a separator and more are put behind the path.
proof fn lemma_component_end_extends(
    d: Seq<u16>,
    s: u16,
    n: Seq<u16>,
    from: int,
    verbatim: bool,
)
    requires
        0 <= from <= d.len(),
        separates(s, verbatim),
    ensures
        component_end(d.push(s) + n, from, verbatim) == component_end(d, from, verbatim),
{
    let r = d.push(s) + n;
    lemma_component_end(d, from, verbatim);
    let end = component_end(d, from, verbatim);
    assert(forall|i: int| 0 <= i < d.len() ==> #[trigger] r[i] == d[i]);
    assert(r[d.len() as int] == s);
    lemma_component_end_is(r, from, end, verbatim);
}

/// A separator and a name behind a path leave its prefix as it is. What they can still become a
/// part of is a server without a share, `\\server` or `\\?\UNC\server`, and the bare `\\?\UNC`.
#[verifier::spinoff_prover]
pub proof fn law_prefix_is_kept(d: Seq<u16>, s: u16, n: Seq<u16>)
    requires
        s == BACKSLASH || (s == SLASH && !is_verbatim(prefix_kind(d))),
        forall|i: int|
            0 <= i < n.len() ==> !separates(#[trigger] n[i], is_verbatim(prefix_kind(d))),
        !(prefix_kind(d) == PrefixKind::Absent && is_bare_server(d)),
        !(lacks_share(d) && d.len() == prefix_len(d)),
        !(prefix_kind(d) == PrefixKind::Verbatim && d.len() == 7 && d[4] == 0x55 && d[5] == 0x4E
            && d[6] == 0x43),
    ensures
        same_prefix(d, d.push(s) + n),
{
    let r = d.push(s) + n;
    let len = d.len() as int;
    lemma_body_start_bounds(d);
    assert(forall|i: int| 0 <= i < len ==> #[trigger] r[i] == d[i]);
    assert(forall|i: int| len < i < r.len() ==> #[trigger] r[i] == n[i - len - 1]);
    assert(r[len] == s);
    match prefix_kind(d) {
        PrefixKind::Disk => {},
        PrefixKind::VerbatimDisk => {},
        PrefixKind::Verbatim => {
            lemma_component_end_extends(d, s, n, 4, true);
        },
        PrefixKind::VerbatimUnc => {
            lemma_component_end_extends(d, s, n, 8, true);
            lemma_component_end(d, 8, true);
            let server_end = component_end(d, 8, true);
            if server_end < len {
                lemma_component_end_extends(d, s, n, server_end + 1, true);
            }
        },
        PrefixKind::Device => {
            lemma_component_end_extends(d, s, n, 4, false);
        },
        PrefixKind::Unc => {
            lemma_component_end_extends(d, s, n, 2, false);
            lemma_component_end(d, 2, false);
            let server_end = component_end(d, 2, false);
            lemma_component_end(d, server_end + 1, false);
            lemma_component_end_extends(d, s, n, server_end + 1, false);
        },
        PrefixKind::Absent => {
            if len >= 2 && is_separator(d[0]) && is_separator(d[1]) {
                lemma_component_end_extends(d, s, n, 2, false);
                lemma_component_end(d, 2, false);
                let server_end = component_end(d, 2, false);
                if server_end < len {
                    lemma_component_end_extends(d, s, n, server_end + 1, false);
                }
            } else if len == 1 && is_separator(d[0]) {
                lemma_component_end_is_last(r, 2, false);
                lemma_component_end(r, r.len() as int + 1, false);
                if r.len() >= 4 {
                    assert(r[3] == n[1]);
                }
            }
        },
    }
}

/// A letter and a colon are a drive, whatever follows.
pub proof fn law_drive_is_a_prefix(letter: u16, rest: Seq<u16>)
    requires
        0x41 <= letter <= 0x5A || 0x61 <= letter <= 0x7A,
    ensures
        prefix_kind(seq![letter, 0x3Au16] + rest) == PrefixKind::Disk,
        prefix_len(seq![letter, 0x3Au16] + rest) == 2,
{
    let p = seq![letter, 0x3Au16] + rest;
    assert(p[0] == letter && p[1] == COLON);
}

/// Two separators, a server and a share are a prefix, up to the separator behind the share. The
/// server is not one of the names that begin a device or a verbatim path.
pub proof fn law_share_is_a_prefix(
    a: u16,
    b: u16,
    server: Seq<u16>,
    c: u16,
    share: Seq<u16>,
    rest: Seq<u16>,
)
    requires
        a == 0x5C || a == 0x2F,
        b == 0x5C || b == 0x2F,
        c == 0x5C || c == 0x2F,
        server.len() > 0,
        share.len() > 0,
        forall|i: int| 0 <= i < server.len() ==> #[trigger] server[i] != 0x5C && server[i] != 0x2F,
        forall|i: int| 0 <= i < share.len() ==> #[trigger] share[i] != 0x5C && share[i] != 0x2F,
        rest.len() > 0 ==> rest[0] == 0x5C || rest[0] == 0x2F,
        server != seq![0x2Eu16],
        !(server == seq![0x3Fu16] && a == 0x5C && b == 0x5C && c == 0x5C),
    ensures
        prefix_kind(seq![a, b] + server + seq![c] + share + rest) == PrefixKind::Unc,
        prefix_len(seq![a, b] + server + seq![c] + share + rest) == 3 + server.len() + share.len(),
{
    let p = seq![a, b] + server + seq![c] + share + rest;
    let m = 2 + server.len() as int;
    let e = m + 1 + share.len() as int;
    assert(p[0] == a && p[1] == b && p[m] == c);
    assert(p[2] == server[0]);
    assert forall|i: int| 2 <= i < m implies !separates(#[trigger] p[i], false) by {
        assert(p[i] == server[i - 2]);
    }
    assert forall|i: int| m + 1 <= i < e implies !separates(#[trigger] p[i], false) by {
        assert(p[i] == share[i - m - 1]);
    }
    if server.len() == 1 {
        assert(server =~= seq![p[2]]);
    } else {
        assert(p[3] == server[1]);
    }
    lemma_component_end_is(p, 2, m, false);
    if rest.len() > 0 {
        assert(p[e] == rest[0]);
        lemma_component_end_is(p, m + 1, e, false);
    } else {
        lemma_component_end_is_last(p, m + 1, false);
    }
}

/// Two separators, a dot, a separator and a name are a device, up to the separator behind the name.
pub proof fn law_device_is_a_prefix(a: u16, b: u16, c: u16, name: Seq<u16>, rest: Seq<u16>)
    requires
        a == 0x5C || a == 0x2F,
        b == 0x5C || b == 0x2F,
        c == 0x5C || c == 0x2F,
        forall|i: int| 0 <= i < name.len() ==> #[trigger] name[i] != 0x5C && name[i] != 0x2F,
        rest.len() > 0 ==> rest[0] == 0x5C || rest[0] == 0x2F,
    ensures
        prefix_kind(seq![a, b, 0x2Eu16, c] + name + rest) == PrefixKind::Device,
        prefix_len(seq![a, b, 0x2Eu16, c] + name + rest) == 4 + name.len(),
{
    let p = seq![a, b, 0x2Eu16, c] + name + rest;
    let e = 4 + name.len() as int;
    assert(p[0] == a && p[1] == b && p[2] == DOT && p[3] == c);
    assert forall|i: int| 4 <= i < e implies !separates(#[trigger] p[i], false) by {
        assert(p[i] == name[i - 4]);
    }
    if rest.len() > 0 {
        assert(p[e] == rest[0]);
        lemma_component_end_is(p, 4, e, false);
    } else {
        lemma_component_end_is_last(p, 4, false);
    }
}

/// Behind `\\?\`, a drive that a separator follows, or nothing, is a prefix of six units.
pub proof fn law_verbatim_drive_is_a_prefix(letter: u16, rest: Seq<u16>)
    requires
        0x41 <= letter <= 0x5A || 0x61 <= letter <= 0x7A,
        rest.len() > 0 ==> rest[0] == 0x5C || rest[0] == 0x2F,
    ensures
        ({
            let p = seq![0x5Cu16, 0x5C, 0x3F, 0x5C, letter, 0x3A] + rest;
            prefix_kind(p) == PrefixKind::VerbatimDisk && prefix_len(p) == 6
        }),
{
    let p = seq![0x5Cu16, 0x5C, 0x3F, 0x5C, letter, 0x3A] + rest;
    assert(p[0] == BACKSLASH && p[1] == BACKSLASH && p[2] == QUESTION_MARK && p[3] == BACKSLASH);
    assert(p[4] == letter && p[5] == COLON);
    if rest.len() > 0 {
        assert(p[6] == rest[0]);
    }
}

/// Behind `\\?\`, any other name is a prefix up to the next `\`. It is neither a drive nor the
/// `UNC` that a server follows.
pub proof fn law_verbatim_name_is_a_prefix(name: Seq<u16>, rest: Seq<u16>)
    requires
        forall|i: int| 0 <= i < name.len() ==> #[trigger] name[i] != 0x5C && name[i] != 0x2F,
        rest.len() > 0 ==> rest[0] == 0x5C,
        name == seq![0x55u16, 0x4E, 0x43] ==> rest.len() == 0,
        !(name.len() == 2 && is_drive_letter(name[0]) && name[1] == 0x3A),
    ensures
        ({
            let p = seq![0x5Cu16, 0x5C, 0x3F, 0x5C] + name + rest;
            prefix_kind(p) == PrefixKind::Verbatim && prefix_len(p) == 4 + name.len()
        }),
{
    let p = seq![0x5Cu16, 0x5C, 0x3F, 0x5C] + name + rest;
    let e = 4 + name.len() as int;
    assert(p[0] == BACKSLASH && p[1] == BACKSLASH && p[2] == QUESTION_MARK && p[3] == BACKSLASH);
    assert forall|i: int| 4 <= i < e implies !is_separator(#[trigger] p[i]) by {
        assert(p[i] == name[i - 4]);
    }
    if p.len() >= 8 && p[4] == 0x55 && p[5] == 0x4E && p[6] == 0x43 && is_separator(p[7]) {
        assert(name.len() >= 3) by {
            if e < 7 {
                assert(p[e] == rest[0]);
            }
        }
        assert(name[0] == p[4] && name[1] == p[5] && name[2] == p[6]);
        assert(name.len() == 3);
        assert(name =~= seq![0x55u16, 0x4E, 0x43]);
    }
    if drive_at(p, 4) {
        assert(name.len() >= 2) by {
            if e < 6 {
                assert(p[e] == rest[0]);
            }
        }
        assert(name[0] == p[4] && name[1] == p[5]);
    }
    if rest.len() > 0 {
        assert(p[e] == rest[0]);
        lemma_component_end_is(p, 4, e, true);
    } else {
        lemma_component_end_is_last(p, 4, true);
    }
}

/// Behind `\\?\UNC\`, a server and a share are a prefix up to the `\` behind the share. A server
/// that no share follows is one by itself.
pub proof fn law_verbatim_share_is_a_prefix(
    u: u16,
    server: Seq<u16>,
    share: Seq<u16>,
    rest: Seq<u16>,
)
    requires
        u == 0x5C || u == 0x2F,
        forall|i: int| 0 <= i < server.len() ==> #[trigger] server[i] != 0x5C,
        forall|i: int| 0 <= i < share.len() ==> #[trigger] share[i] != 0x5C,
        rest.len() > 0 ==> rest[0] == 0x5C,
    ensures
        ({
            let head = seq![0x5Cu16, 0x5C, 0x3F, 0x5C, 0x55, 0x4E, 0x43, u] + server;
            let p = head.push(0x5C) + share + rest;
            &&& prefix_kind(p) == PrefixKind::VerbatimUnc
            &&& share.len() > 0 ==> prefix_len(p) == head.len() + 1 + share.len()
            &&& share.len() == 0 ==> prefix_len(p) == head.len()
            &&& prefix_kind(head) == PrefixKind::VerbatimUnc
            &&& prefix_len(head) == head.len()
        }),
{
    let head = seq![0x5Cu16, 0x5C, 0x3F, 0x5C, 0x55, 0x4E, 0x43, u] + server;
    let p = head.push(0x5C) + share + rest;
    let m = head.len() as int;
    let e = m + 1 + share.len() as int;
    assert(head[0] == BACKSLASH && head[1] == BACKSLASH && head[2] == QUESTION_MARK && head[3]
        == BACKSLASH && head[4] == 0x55 && head[5] == 0x4E && head[6] == 0x43 && head[7] == u);
    assert forall|i: int| 0 <= i < m implies #[trigger] p[i] == head[i] by {}
    assert(p[m] == BACKSLASH);
    assert forall|i: int| 8 <= i < m implies !separates(#[trigger] head[i], true) by {
        assert(head[i] == server[i - 8]);
    }
    assert forall|i: int| m + 1 <= i < e implies !separates(#[trigger] p[i], true) by {
        assert(p[i] == share[i - m - 1]);
    }
    lemma_component_end_is_last(head, 8, true);
    lemma_component_end(head, m + 1, true);
    lemma_component_end_is(p, 8, m, true);
    if rest.len() > 0 {
        assert(p[e] == rest[0]);
        lemma_component_end_is(p, m + 1, e, true);
    } else {
        lemma_component_end_is_last(p, m + 1, true);
    }
}

/// A path that begins neither with two separators nor with a drive has no prefix.
pub proof fn law_other_paths_have_no_prefix(p: Seq<u16>)
    requires
        !(p.len() >= 2 && (p[0] == 0x5C || p[0] == 0x2F) && (p[1] == 0x5C || p[1] == 0x2F)),
        !(p.len() >= 2 && (0x41 <= p[0] <= 0x5A || 0x61 <= p[0] <= 0x7A) && p[1] == 0x3A),
    ensures
        prefix_kind(p) == PrefixKind::Absent,
        prefix_len(p) == 0,
{
}

/// Two separators and a server without a share are no prefix.
pub proof fn law_server_alone_is_no_prefix(a: u16, b: u16, server: Seq<u16>, rest: Seq<u16>)
    requires
        a == 0x5C || a == 0x2F,
        b == 0x5C || b == 0x2F,
        forall|i: int| 0 <= i < server.len() ==> #[trigger] server[i] != 0x5C && server[i] != 0x2F,
        rest.len() > 0 ==> rest[0] == 0x5C || rest[0] == 0x2F,
        rest.len() > 0 ==> server != seq![0x2Eu16] && server != seq![0x3Fu16],
        rest.len() > 1 ==> server.len() == 0 || rest[1] == 0x5C || rest[1] == 0x2F,
    ensures
        prefix_kind(seq![a, b] + server + rest) == PrefixKind::Absent,
        prefix_len(seq![a, b] + server + rest) == 0,
{
    let p = seq![a, b] + server + rest;
    let m = 2 + server.len() as int;
    assert(p[0] == a && p[1] == b);
    assert forall|i: int| 2 <= i < m implies !separates(#[trigger] p[i], false) by {
        assert(p[i] == server[i - 2]);
    }
    if server.len() == 1 && p.len() > 3 {
        assert(server =~= seq![p[2]]);
    } else if server.len() >= 2 {
        assert(p[3] == server[1]);
    } else if server.len() == 0 && rest.len() > 0 {
        assert(p[2] == rest[0]);
    }
    if rest.len() > 0 {
        assert(p[m] == rest[0]);
        lemma_component_end_is(p, 2, m, false);
        if rest.len() > 1 {
            assert(p[m + 1] == rest[1]);
        }
    } else {
        lemma_component_end_is_last(p, 2, false);
    }
    lemma_component_end(p, m + 1, false);
}

/// What is written of components, behind a beginning that has none, is read as these components.
#[verifier::spinoff_prover]
proof fn lemma_components_written(head: Seq<u16>, parts: Seq<Seq<u16>>)
    requires
        forall|k: int, i: int|
            #![trigger parts[k][i]]
            0 <= k < parts.len() && 0 <= i < parts[k].len() ==> parts[k][i] != BACKSLASH,
        forall|k: int| 0 <= k < parts.len() ==> #[trigger] parts[k].len() > 0,
    ensures
        components_from(head + written(parts), head.len() as int, true) == parts,
    decreases parts.len(),
{
    let from = head.len() as int;
    if parts.len() == 0 {
        assert(head + written(parts) =~= head);
        assert(components_from(head, from, true) =~= parts);
    } else {
        let shorter = parts.drop_last();
        let c = parts.last();
        assert forall|k: int, i: int|
            #![trigger shorter[k][i]]
            0 <= k < shorter.len() && 0 <= i < shorter[k].len() implies shorter[k][i]
            != BACKSLASH by {
            assert(shorter[k][i] == parts[k][i]);
        }
        lemma_components_written(head, shorter);
        let x = head + written(shorter);
        assert(head + written(parts) =~= x.push(BACKSLASH) + c);
        assert forall|i: int| 0 <= i < c.len() implies !separates(#[trigger] c[i], true) by {
            assert(parts[parts.len() - 1][i] != BACKSLASH);
        }
        lemma_components_append(x, BACKSLASH, c, from, true);
        assert(shorter + seq![c] =~= parts);
    }
}

/// A relative path that is put behind a directory stays whole, and so does the directory: between
/// them comes a separator, unless the directory is empty, ends in one or is a bare drive.
pub proof fn law_joined_path_is_both(base: Seq<u16>, child: Seq<u16>)
    requires
        prefix_kind(child) == PrefixKind::Absent,
        child.len() > 0 ==> child[0] != BACKSLASH && child[0] != SLASH,
        !is_verbatim(prefix_kind(base)),
    ensures
        base.len() == 0 || base.last() == BACKSLASH || base.last() == SLASH || (base.len() == 2
            && prefix_kind(base) == PrefixKind::Disk) ==> joined(base, child) == base + child,
        !(base.len() == 0 || base.last() == BACKSLASH || base.last() == SLASH || (base.len() == 2
            && prefix_kind(base) == PrefixKind::Disk)) ==> joined(base, child) == base.push(
            BACKSLASH,
        ) + child,
{
}

/// A path with a prefix of its own is not seen from any directory, and one with a root only from
/// the prefix of the directory.
pub proof fn law_absolute_path_replaces(base: Seq<u16>, child: Seq<u16>)
    ensures
        prefix_kind(child) != PrefixKind::Absent ==> joined(base, child) == child,
        prefix_kind(child) == PrefixKind::Absent && child.len() > 0 && (child[0] == BACKSLASH
            || child[0] == SLASH) && !is_verbatim(prefix_kind(base)) ==> joined(base, child)
            == base.take(prefix_len(base)) + child,
{
}

/// The components of a verbatim path that another is put behind are those that one comes to by
/// walking: from the components of the first, or from its root where the second has one, along
/// those of the second. The prefix is taken as it is.
#[verifier::spinoff_prover]
pub proof fn law_verbatim_join_walks(base: Seq<u16>, child: Seq<u16>)
    requires
        is_verbatim(prefix_kind(base)),
        prefix_kind(child) == PrefixKind::Absent,
        child.len() > 0,
        same_prefix(base, joined(base, child)),
    ensures
        joined(base, child).take(prefix_len(base)) == base.take(prefix_len(base)),
        components_of(joined(base, child)) == walked(
            if child[0] == BACKSLASH || child[0] == SLASH {
                Seq::<Seq<u16>>::empty()
            } else {
                components_of(base)
            },
            components_of(child),
        ),
        components_of(joined(base, child)).len() > 0 ==> joined(base, child) == base.take(
            prefix_len(base),
        ) + written(components_of(joined(base, child))),
        components_of(joined(base, child)).len() == 0 ==> joined(base, child) == (
        if has_physical_root(base) || child[0] == BACKSLASH || child[0] == SLASH {
            base.take(prefix_len(base)).push(BACKSLASH)
        } else {
            base.take(prefix_len(base))
        }),
{
    let r = joined(base, child);
    let len = prefix_len(base);
    let head = base.take(len);
    lemma_body_start_bounds(base);
    lemma_body_start_bounds(child);
    assert(has_root(child) == is_separator(child[0]));
    let from = if has_root(child) {
        Seq::<Seq<u16>>::empty()
    } else {
        components_of(base)
    };
    let way = components_of(child);
    let parts = walked(from, way);
    lemma_components_count(base, body_start(base), true);
    lemma_components_count(child, body_start(child), false);
    assert(all_named(from)) by {
        if !has_root(child) {
            assert(from == components_from(base, body_start(base), true));
        }
    }
    assert(all_named(way)) by {
        assert(way == components_from(child, body_start(child), false));
    }
    lemma_walked_named(from, way);
    assert(r.take(len) =~= head);
    if parts.len() > 0 {
        assert(r == head + written(parts));
        lemma_written_front(parts);
        assert(r[len] == BACKSLASH);
        lemma_components_written(head, parts);
        assert(component_end(r, len, true) == len);
        assert(r.subrange(len, len) =~= seq![]);
        assert(components_from(r, len, true) == components_from(r, len + 1, true));
    } else {
        assert(r.len() <= len + 1);
        if r.len() == len {
            assert(r =~= head);
        } else {
            assert(r =~= head.push(BACKSLASH));
        }
    }
    assert(components_of(r) =~= parts);
}

/// Components that are not empty and hold no `\`.
spec fn all_named(parts: Seq<Seq<u16>>) -> bool {
    &&& forall|k: int, i: int|
        #![trigger parts[k][i]]
        0 <= k < parts.len() && 0 <= i < parts[k].len() ==> parts[k][i] != BACKSLASH
    &&& forall|k: int| 0 <= k < parts.len() ==> #[trigger] parts[k].len() > 0
}

proof fn lemma_walked_named(parts: Seq<Seq<u16>>, way: Seq<Seq<u16>>)
    requires
        all_named(parts),
        all_named(way),
    ensures
        all_named(walked(parts, way)),
    decreases way.len(),
{
    if way.len() > 0 {
        let shorter = way.drop_last();
        assert forall|k: int, i: int|
            #![trigger shorter[k][i]]
            0 <= k < shorter.len() && 0 <= i < shorter[k].len() implies shorter[k][i]
            != BACKSLASH by {
            assert(shorter[k][i] == way[k][i]);
        }
        lemma_walked_named(parts, shorter);
        let before = walked(parts, shorter);
        let after = walked(parts, way);
        let c = way.last();
        assert(c == way[way.len() - 1]);
        assert forall|k: int, i: int|
            #![trigger after[k][i]]
            0 <= k < after.len() && 0 <= i < after[k].len() implies after[k][i] != BACKSLASH by {
            if k < before.len() {
                assert(after[k] == before[k]);
                assert(before[k][i] != BACKSLASH);
            } else {
                assert(after[k] == c);
                assert(way[way.len() - 1][i] != BACKSLASH);
            }
        }
        assert forall|k: int| 0 <= k < after.len() implies #[trigger] after[k].len() > 0 by {
            if k < before.len() {
                assert(after[k] == before[k]);
            } else {
                assert(after[k] == c);
            }
        }
    }
}

/// Components are written one after the other, each behind one `\`.
pub proof fn law_components_are_written_in_turn(a: Seq<Seq<u16>>, b: Seq<Seq<u16>>, c: Seq<u16>)
    ensures
        written(a + b) == written(a) + written(b),
        written(seq![c]) == seq![0x5Cu16] + c,
    decreases b.len(),
{
    let one = seq![c];
    assert(one.drop_last() =~= seq![]);
    assert(written(one.drop_last()) =~= seq![]);
    assert(written(one) =~= seq![0x5Cu16] + c);
    if b.len() == 0 {
        assert(a + b =~= a);
        assert(written(a) + written(b) =~= written(a));
    } else {
        law_components_are_written_in_turn(a, b.drop_last(), c);
        assert((a + b).drop_last() =~= a + b.drop_last());
        assert((a + b).last() == b.last());
        assert(written(a + b) =~= written(a) + written(b));
    }
}

/// Walking goes step by step: a way of two parts leads where the second leads from the end of the
/// first. A name leads into that directory, and `..` out of a named one, back to where one came
/// from; at the root, or behind `.` or `..`, it leads nowhere.
pub proof fn law_walking(parts: Seq<Seq<u16>>, a: Seq<Seq<u16>>, b: Seq<Seq<u16>>, c: Seq<u16>)
    ensures
        walked(parts, a + b) == walked(walked(parts, a), b),
        c != seq![DOT, DOT] ==> walked(parts, seq![c]) == parts.push(c),
        c != seq![DOT, DOT] && c != seq![DOT] ==> walked(parts, seq![c, seq![DOT, DOT]]) == parts,
        parts.len() == 0 || parts.last() == seq![DOT] || parts.last() == seq![DOT, DOT] ==> walked(
            parts,
            seq![seq![DOT, DOT]],
        ) == parts,
    decreases b.len(),
{
    let up = seq![DOT, DOT];
    let one = seq![c];
    assert(one.drop_last() =~= seq![]);
    assert(walked(parts, one.drop_last()) == parts);
    let two = seq![c, up];
    assert(two.drop_last() =~= one);
    assert(two.last() == up);
    assert(parts.push(c).drop_last() =~= parts);
    if c != up {
        assert(walked(parts, one) == parts.push(c));
        assert(walked(parts, two) == stepped(parts.push(c), up));
    }
    let back = seq![up];
    assert(back.drop_last() =~= seq![]);
    assert(walked(parts, back.drop_last()) == parts);
    if b.len() == 0 {
        assert(a + b =~= a);
    } else {
        law_walking(parts, a, b.drop_last(), c);
        assert((a + b).drop_last() =~= a + b.drop_last());
        assert((a + b).last() == b.last());
    }
}

} // verus!
