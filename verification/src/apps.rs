//! The list of applications: what may go in, how files are added to it, and how an application
//! leaves it again.

use crate::rows::Rows;
use crate::text::{same_text, to_lowercase};
use crate::utf16::{decode_lossy, decode_strict};
use crate::winpath::{extension, file_stem};
use vstd::prelude::*;
use vstd::string::*;

verus! {

/// An application in the list: the name that is shown, and the path that is started.
#[derive(Debug, PartialEq)]
pub struct SavedApp {
    pub name: String,
    pub path: String,
}

impl Clone for SavedApp {
    fn clone(&self) -> (r: Self)
        ensures
            r@ == self@,
    {
        SavedApp { name: self.name.clone(), path: self.path.clone() }
    }
}

impl View for SavedApp {
    type V = (Seq<char>, Seq<char>);

    /// The name and the path.
    open spec fn view(&self) -> (Seq<char>, Seq<char>) {
        (self.name@, self.path@)
    }
}

/// The names and paths in a list of applications.
pub open spec fn entries(apps: Seq<SavedApp>) -> Seq<(Seq<char>, Seq<char>)> {
    apps.map_values(|app: SavedApp| app@)
}

/// What a file is to the launcher, by its extension.
#[derive(Clone, Copy, Debug, PartialEq, Eq, Structural)]
pub enum EntryKind {
    /// A program, `.exe`.
    Executable,
    /// A link to a program, `.lnk`.
    Shortcut,
    /// Anything else.
    Unsupported,
}

/// A file that the user picked or dropped. For a shortcut, `link` is the name and the path of its
/// target, where they could be found out.
#[derive(Debug)]
pub struct PickedFile {
    pub path: Vec<u16>,
    pub link: Option<(String, String)>,
}

/// The kind that a lower-case extension stands for.
pub open spec fn kind_of_extension(lower: Seq<char>) -> EntryKind {
    if lower == "exe"@ {
        EntryKind::Executable
    } else if lower == "lnk"@ {
        EntryKind::Shortcut
    } else {
        EntryKind::Unsupported
    }
}

/// The kind of a file. An extension that is no text counts for nothing.
pub open spec fn kind_of_path(path: Seq<u16>) -> EntryKind {
    match crate::winpath::extension_of(path) {
        Some(ext) => match crate::utf16::strict_text(ext) {
            Some(text) => kind_of_extension(crate::text::lowercase(text)),
            None => EntryKind::Unsupported,
        },
        None => EntryKind::Unsupported,
    }
}

/// The name under which a file is listed: its stem, or `Unknown` where there is none or it is no
/// text.
pub open spec fn name_of_path(path: Seq<u16>) -> Seq<char> {
    match crate::winpath::file_stem_of(path) {
        Some(stem) => match crate::utf16::strict_text(stem) {
            Some(text) => text,
            None => "Unknown"@,
        },
        None => "Unknown"@,
    }
}

/// The name and the path of a link's target.
pub open spec fn link_view(link: Option<(String, String)>) -> Option<(Seq<char>, Seq<char>)> {
    match link {
        Some(target) => Some((target.0@, target.1@)),
        None => None,
    }
}

/// What is listed for a file: nothing for an unsupported one, the target for a shortcut that leads
/// to one, and otherwise the file itself.
pub open spec fn candidate(file: PickedFile) -> Option<(Seq<char>, Seq<char>)> {
    let kind = kind_of_path(file.path@);
    if kind == EntryKind::Unsupported {
        None
    } else if kind == EntryKind::Shortcut && file.link is Some {
        link_view(file.link)
    } else {
        Some((name_of_path(file.path@), crate::utf16::lossy_text(file.path@)))
    }
}

/// The path that is listed for a file that is supported.
pub open spec fn path_to_list(file: PickedFile) -> Seq<char> {
    match candidate(file) {
        Some(entry) => entry.1,
        None => seq![],
    }
}

/// An entry with the given path is in the list.
pub open spec fn is_registered(list: Seq<(Seq<char>, Seq<char>)>, path: Seq<char>) -> bool {
    exists|i: int| 0 <= i < list.len() && #[trigger] list[i].1 == path
}

/// What the files add to a list: one entry for each file that is supported and whose path neither
/// is registered in the list nor has come in with an earlier file, in the order of the files.
pub open spec fn admitted(
    files: Seq<PickedFile>,
    list: Seq<(Seq<char>, Seq<char>)>,
) -> Seq<(Seq<char>, Seq<char>)>
    decreases files.len(),
{
    if files.len() == 0 {
        seq![]
    } else {
        let before = admitted(files.drop_last(), list);
        match candidate(files.last()) {
            Some(entry) if !is_registered(list + before, entry.1) => before.push(entry),
            _ => before,
        }
    }
}

/// The kind that a lower-case extension stands for.
pub fn entry_kind(lower: &str) -> (r: EntryKind)
    ensures
        r == kind_of_extension(lower@),
        r == EntryKind::Executable <==> lower@ == "exe"@,
        r == EntryKind::Shortcut <==> lower@ == "lnk"@,
{
    proof {
        reveal_strlit("exe");
        reveal_strlit("lnk");
        assert("exe"@[0] != "lnk"@[0]);
    }
    if same_text(lower, "exe") {
        EntryKind::Executable
    } else if same_text(lower, "lnk") {
        EntryKind::Shortcut
    } else {
        EntryKind::Unsupported
    }
}

/// The kind of a file, by its extension in any case of letters. Of an extension that is all ASCII
/// the second clause says so without the lower case of other scripts.
pub fn classify(path: &[u16]) -> (r: EntryKind)
    ensures
        r == kind_of_path(path@),
        crate::winpath::extension_of(path@) matches Some(ext) ==> (crate::utf16::strict_text(
            ext,
        ) matches Some(text) ==> (crate::text::all_ascii(text) ==> r == kind_of_extension(
            text.map_values(|c: char| crate::text::ascii_lower(c)),
        ))),
{
    match extension(path) {
        Some(ext) => match decode_strict(ext) {
            Some(text) => entry_kind(to_lowercase(text.as_str()).as_str()),
            None => EntryKind::Unsupported,
        },
        None => EntryKind::Unsupported,
    }
}

/// The name under which a file is listed.
pub fn display_name(path: &[u16]) -> (r: String)
    ensures
        r@ == name_of_path(path@),
{
    match file_stem(path) {
        Some(stem) => match decode_strict(stem) {
            Some(text) => text,
            None => "Unknown".to_owned(),
        },
        None => "Unknown".to_owned(),
    }
}

/// The path of the shortcut that has to be resolved before a file can be added, where the file is
/// one.
pub fn link_to_resolve(path: &[u16]) -> (r: Option<String>)
    ensures
        r is Some <==> kind_of_path(path@) == EntryKind::Shortcut,
        r matches Some(text) ==> text@ == crate::utf16::lossy_text(path@),
{
    if classify(path) == EntryKind::Shortcut {
        Some(decode_lossy(path))
    } else {
        None
    }
}

/// What is listed for a file. The later clauses say so of the file itself: a shortcut with a known
/// target is listed as that name and path, and any other file that is supported under its own path,
/// unit by unit where that is text.
pub fn entry_for(file: &PickedFile) -> (r: Option<SavedApp>)
    ensures
        match r {
            Some(app) => candidate(*file) == Some(app@),
            None => candidate(*file) is None,
        },
        r is None <==> kind_of_path(file.path@) == EntryKind::Unsupported,
        r matches Some(app) ==> match file.link {
            Some(target) if kind_of_path(file.path@) == EntryKind::Shortcut => {
                &&& app.name@ == target.0@
                &&& app.path@ == target.1@
            },
            _ => {
                &&& app.name@ == name_of_path(file.path@)
                &&& app.path@ == crate::utf16::lossy_text(file.path@)
                &&& crate::utf16::well_formed(file.path@) ==> crate::utf16::encoded(app.path@)
                    == file.path@
            },
        },
{
    let kind = classify(file.path.as_slice());
    if kind == EntryKind::Unsupported {
        return None;
    }
    proof {
        if crate::utf16::well_formed(file.path@) {
            crate::utf16::law_encode_undoes_strict_decode(file.path@);
        }
    }
    match &file.link {
        Some(target) if kind == EntryKind::Shortcut => Some(
            SavedApp { name: target.0.clone(), path: target.1.clone() },
        ),
        _ => Some(
            SavedApp {
                name: display_name(file.path.as_slice()),
                path: decode_lossy(file.path.as_slice()),
            },
        ),
    }
}

/// A path is in the list.
pub fn contains_path(apps: &[SavedApp], path: &String) -> (r: bool)
    ensures
        r == is_registered(entries(apps@), path@),
        r == exists|i: int| 0 <= i < apps@.len() && (#[trigger] apps@[i]).path@ == path@,
{
    let mut i: usize = 0;
    while i < apps.len()
        invariant
            i <= apps@.len(),
            forall|j: int| 0 <= j < i ==> #[trigger] entries(apps@)[j].1 != path@,
            forall|j: int| 0 <= j < i ==> (#[trigger] apps@[j]).path@ != path@,
        decreases apps@.len() - i,
    {
        if apps[i].path == *path {
            assert(entries(apps@)[i as int].1 == path@);
            return true;
        }
        i = i + 1;
    }
    false
}

/// Adds the files to the list and to the rows of the window. A file whose path is in the list
/// already, or has just come in with another file, is passed over, so that no path is listed twice.
/// The result says whether anything was added, so that the list has to be saved.
pub fn add_apps_from_paths(
    files: &[PickedFile],
    apps: &mut Vec<SavedApp>,
    rows: &mut Rows,
) -> (r: bool)
    ensures
        entries(final(apps)@) == entries(old(apps)@) + admitted(files@, entries(old(apps)@)),
        final(rows)@ == old(rows)@ + admitted(files@, entries(old(apps)@)),
        r == (admitted(files@, entries(old(apps)@)).len() > 0),
        paths_distinct(entries(old(apps)@)) ==> paths_distinct(entries(final(apps)@)),
        final(apps)@.take(old(apps)@.len() as int) == old(apps)@,
{
    let ghost list = entries(apps@);
    let mut added: Vec<SavedApp> = Vec::new();
    let mut i: usize = 0;
    assert(files@.take(0) =~= seq![]);
    assert(entries(added@) =~= seq![]);
    assert(old(rows)@ + admitted(files@.take(0), list) =~= old(rows)@);
    while i < files.len()
        invariant
            i <= files@.len(),
            list == entries(apps@),
            *apps == *old(apps),
            entries(added@) == admitted(files@.take(i as int), list),
            rows@ == old(rows)@ + admitted(files@.take(i as int), list),
        decreases files@.len() - i,
    {
        proof {
            assert(files@.take(i + 1).drop_last() =~= files@.take(i as int));
            assert(files@.take(i + 1).last() == files@[i as int]);
        }
        let ghost before = entries(added@);
        if let Some(app) = entry_for(&files[i]) {
            proof {
                lemma_registered_in_both(list, before, app.path@);
            }
            if !contains_path(apps.as_slice(), &app.path) && !contains_path(
                added.as_slice(),
                &app.path,
            ) {
                rows.push_row(app.name.clone(), app.path.clone());
                added.push(app);
                assert(entries(added@) =~= before.push(app@));
                assert(rows@ =~= old(rows)@ + before.push(app@));
            }
        }
        i = i + 1;
    }
    assert(files@.take(i as int) =~= files@);
    let any = added.len() > 0;
    let ghost extra = added@;
    apps.append(&mut added);
    assert(entries(apps@) =~= list + entries(extra));
    proof {
        if paths_distinct(list) {
            law_paths_stay_distinct(files@, list);
        }
    }
    any
}

/// Fills the rows of the window from the list at the start.
pub fn fill_rows(apps: &[SavedApp], rows: &mut Rows)
    ensures
        final(rows)@ == old(rows)@ + entries(apps@),
{
    let mut i: usize = 0;
    assert(rows@ =~= old(rows)@ + entries(apps@).take(0));
    while i < apps.len()
        invariant
            i <= apps@.len(),
            rows@ == old(rows)@ + entries(apps@).take(i as int),
        decreases apps@.len() - i,
    {
        rows.push_row(apps[i].name.clone(), apps[i].path.clone());
        i = i + 1;
        assert(rows@ =~= old(rows)@ + entries(apps@).take(i as int));
    }
    assert(entries(apps@).take(i as int) =~= entries(apps@));
}

/// Shows the given list, in place of whatever the rows held.
pub fn show_apps(apps: &[SavedApp], rows: &mut Rows)
    ensures
        final(rows)@ == entries(apps@),
{
    let mut items: Vec<(String, String)> = Vec::new();
    let mut i: usize = 0;
    while i < apps.len()
        invariant
            i <= apps@.len(),
            items@.len() == i,
            forall|j: int|
                0 <= j < i ==> (#[trigger] items@[j]).0@ == apps@[j].name@ && items@[j].1@
                    == apps@[j].path@,
        decreases apps@.len() - i,
    {
        items.push((apps[i].name.clone(), apps[i].path.clone()));
        i = i + 1;
    }
    assert(items@.map_values(|r: (String, String)| (r.0@, r.1@)) =~= entries(apps@));
    rows.set_rows(items);
}

/// The two lists hold the same names and paths in the same order.
pub fn same_apps(a: &[SavedApp], b: &[SavedApp]) -> (r: bool)
    ensures
        r == (entries(a@) == entries(b@)),
{
    if a.len() != b.len() {
        assert(entries(a@).len() != entries(b@).len());
        return false;
    }
    let mut i: usize = 0;
    while i < a.len()
        invariant
            a@.len() == b@.len(),
            i <= a@.len(),
            forall|j: int| 0 <= j < i ==> #[trigger] entries(a@)[j] == entries(b@)[j],
        decreases a@.len() - i,
    {
        if a[i].name != b[i].name || a[i].path != b[i].path {
            assert(entries(a@)[i as int] != entries(b@)[i as int]);
            return false;
        }
        i = i + 1;
    }
    assert(entries(a@) =~= entries(b@));
    true
}

/// Takes over the list that was read back from its file. Where the file could not be read (`None`)
/// or holds what is in the list already, the list stays, and there is nothing to show. Otherwise
/// the result is the list that the window has to show.
pub fn reload_apps(current: &mut Vec<SavedApp>, file_apps: Option<Vec<SavedApp>>) -> (r: Option<
    Vec<SavedApp>,
>)
    ensures
        match file_apps {
            Some(read) if entries(read@) != entries(old(current)@) => {
                &&& entries(final(current)@) == entries(read@)
                &&& r matches Some(shown) && entries(shown@) == entries(read@)
            },
            _ => *final(current) == *old(current) && r is None,
        },
{
    match file_apps {
        None => None,
        Some(read) => {
            if same_apps(read.as_slice(), current.as_slice()) {
                None
            } else {
                *current = copy_apps(read.as_slice());
                Some(read)
            }
        },
    }
}

fn copy_apps(apps: &[SavedApp]) -> (r: Vec<SavedApp>)
    ensures
        entries(r@) == entries(apps@),
{
    let mut out: Vec<SavedApp> = Vec::new();
    let mut i: usize = 0;
    while i < apps.len()
        invariant
            i <= apps@.len(),
            out@.len() == i,
            forall|j: int| 0 <= j < i ==> (#[trigger] out@[j])@ == apps@[j]@,
        decreases apps@.len() - i,
    {
        out.push(apps[i].clone());
        i = i + 1;
    }
    assert(entries(out@) =~= entries(apps@));
    out
}

/// What becomes of a request to delete an application.
#[derive(Debug)]
pub enum DeleteStep {
    /// There is no such row.
    Ignore,
    /// The user has to agree to this question first.
    Confirm(String),
    /// The row may go at once.
    Remove,
}

/// The question that the user is asked before the application with the given name leaves the list.
pub open spec fn delete_question(name: Seq<char>) -> Seq<char> {
    name + "を一覧から削除してもよろしいですか？"@
}

/// Decides what becomes of a request to delete the row `idx`.
pub fn request_delete(
    idx: i32,
    confirm_on_delete: bool,
    rows: &Rows,
) -> (r: DeleteStep)
    ensures
        match r {
            DeleteStep::Ignore => !(0 <= idx < rows@.len()),
            DeleteStep::Confirm(question) => {
                &&& 0 <= idx < rows@.len()
                &&& confirm_on_delete
                &&& question@ == delete_question(rows@[idx as int].0)
            },
            DeleteStep::Remove => 0 <= idx < rows@.len()
                && !confirm_on_delete,
        },
{
    if idx < 0 || idx as usize >= rows.row_count() {
        return DeleteStep::Ignore;
    }
    if !confirm_on_delete {
        return DeleteStep::Remove;
    }
    let mut question = match rows.row_data(idx as usize) {
        Some(item) => item.0,
        None => "アプリケーション".to_owned(),
    };
    question.append("を一覧から削除してもよろしいですか？");
    DeleteStep::Confirm(question)
}

/// What is left of a list once the entry at an index is gone, where there is one.
pub open spec fn without(
    list: Seq<(Seq<char>, Seq<char>)>,
    idx: int,
) -> Seq<(Seq<char>, Seq<char>)> {
    if 0 <= idx < list.len() {
        list.remove(idx)
    } else {
        list
    }
}

/// Takes the application at a place out of the list, where there is one. The result says whether
/// the list has to be saved.
pub fn forget_app(idx: usize, apps: &mut Vec<SavedApp>) -> (r: bool)
    ensures
        entries(final(apps)@) == without(entries(old(apps)@), idx as int),
        r == (idx < old(apps)@.len()),
        final(apps)@ == (if idx < old(apps)@.len() {
            old(apps)@.remove(idx as int)
        } else {
            old(apps)@
        }),
{
    let known = idx < apps.len();
    if known {
        let _ = apps.remove(idx);
    }
    assert(entries(apps@) =~= without(entries(old(apps)@), idx as int));
    known
}

/// Deletes the row `idx` from the window, and the application at the same place from the list. The
/// list may be shorter than the rows, when it was read back from its file and the window does not
/// show that yet: then it stays. The result says whether the list has to be saved.
pub fn delete_app(
    idx: usize,
    apps: &mut Vec<SavedApp>,
    rows: &mut Rows,
) -> (r: bool)
    requires
        idx < old(rows)@.len(),
    ensures
        entries(final(apps)@) == without(entries(old(apps)@), idx as int),
        final(rows)@ == without(old(rows)@, idx as int),
        r == (idx < old(apps)@.len()),
        final(rows)@ == old(rows)@.remove(idx as int),
        final(apps)@ == (if idx < old(apps)@.len() {
            old(apps)@.remove(idx as int)
        } else {
            old(apps)@
        }),
{
    let known = forget_app(idx, apps);
    let _ = rows.remove_row(idx);
    known
}

/// Deletes the row `idx` as `delete_app` does, where the window has such a row. Where it has none,
/// nothing changes and the result is `None`.
pub fn delete_row(
    idx: i32,
    apps: &mut Vec<SavedApp>,
    rows: &mut Rows,
) -> (r: Option<bool>)
    ensures
        entries(final(apps)@) == (if r is Some {
            without(entries(old(apps)@), idx as int)
        } else {
            entries(old(apps)@)
        }),
        final(rows)@ == without(old(rows)@, idx as int),
        r is Some <==> 0 <= idx < old(rows)@.len(),
        r matches Some(save) ==> save == (idx < old(apps)@.len()),
        r is Some ==> final(rows)@ == old(rows)@.remove(idx as int),
        r is None ==> final(rows)@ == old(rows)@,
        final(apps)@ == (if r is Some && idx < old(apps)@.len() {
            old(apps)@.remove(idx as int)
        } else {
            old(apps)@
        }),
{
    if idx < 0 || idx as usize >= rows.row_count() {
        None
    } else {
        Some(delete_app(idx as usize, apps, rows))
    }
}

/// The paths of the entries differ from one another.
pub open spec fn paths_distinct(list: Seq<(Seq<char>, Seq<char>)>) -> bool {
    forall|i: int, j: int|
        0 <= i < j < list.len() ==> (#[trigger] list[i]).1 != (#[trigger] list[j]).1
}

/// A path is registered in one list after another where it is registered in either.
proof fn lemma_registered_in_both(
    list: Seq<(Seq<char>, Seq<char>)>,
    more: Seq<(Seq<char>, Seq<char>)>,
    path: Seq<char>,
)
    ensures
        is_registered(list + more, path) <==> is_registered(list, path) || is_registered(
            more,
            path,
        ),
{
    let all = list + more;
    if is_registered(list, path) {
        let j = choose|j: int| 0 <= j < list.len() && #[trigger] list[j].1 == path;
        assert(all[j].1 == path);
    }
    if is_registered(more, path) {
        let j = choose|j: int| 0 <= j < more.len() && #[trigger] more[j].1 == path;
        assert(all[list.len() + j].1 == path);
    }
    if is_registered(all, path) {
        let j = choose|j: int| 0 <= j < all.len() && #[trigger] all[j].1 == path;
        if j < list.len() {
            assert(list[j].1 == path);
        } else {
            assert(more[j - list.len()].1 == path);
        }
    }
}

/// Every added entry is the entry of one of the files.
proof fn lemma_admitted_from_files(
    files: Seq<PickedFile>,
    list: Seq<(Seq<char>, Seq<char>)>,
    k: int,
) -> (i: int)
    requires
        0 <= k < admitted(files, list).len(),
    ensures
        0 <= i < files.len(),
        candidate(files[i]) == Some(admitted(files, list)[k]),
    decreases files.len(),
{
    let before = admitted(files.drop_last(), list);
    if k < before.len() {
        lemma_admitted_from_files(files.drop_last(), list, k)
    } else {
        files.len() - 1
    }
}

/// No path that is registered in the list is added to it once more.
pub proof fn law_registered_paths_are_passed_over(
    files: Seq<PickedFile>,
    list: Seq<(Seq<char>, Seq<char>)>,
)
    ensures
        forall|k: int|
            0 <= k < admitted(files, list).len() ==> !is_registered(
                list,
                (#[trigger] admitted(files, list)[k]).1,
            ),
    decreases files.len(),
{
    if files.len() > 0 {
        law_registered_paths_are_passed_over(files.drop_last(), list);
        let before = admitted(files.drop_last(), list);
        assert forall|k: int| 0 <= k < admitted(files, list).len() implies !is_registered(
            list,
            (#[trigger] admitted(files, list)[k]).1,
        ) by {
            if k < before.len() {
                assert(admitted(files, list)[k] == before[k]);
            } else {
                lemma_registered_in_both(list, before, admitted(files, list)[k].1);
            }
        }
    }
}

/// Only supported files are added: each entry that comes in belongs to a program or a shortcut
/// among the files.
pub proof fn law_only_supported_files_are_added(
    files: Seq<PickedFile>,
    list: Seq<(Seq<char>, Seq<char>)>,
)
    ensures
        forall|k: int|
            0 <= k < admitted(files, list).len() ==> exists|i: int|
                0 <= i < files.len() && kind_of_path((#[trigger] files[i]).path@)
                    != EntryKind::Unsupported && candidate(files[i]) == Some(
                    #[trigger] admitted(files, list)[k],
                ),
{
    assert forall|k: int| 0 <= k < admitted(files, list).len() implies exists|i: int|
        0 <= i < files.len() && kind_of_path((#[trigger] files[i]).path@) != EntryKind::Unsupported
            && candidate(files[i]) == Some(#[trigger] admitted(files, list)[k]) by {
        let i = lemma_admitted_from_files(files, list, k);
        assert(kind_of_path(files[i].path@) != EntryKind::Unsupported);
    }
}

/// Every supported file is in the list afterwards: its path was registered before, or it came in.
pub proof fn law_supported_files_are_listed(
    files: Seq<PickedFile>,
    list: Seq<(Seq<char>, Seq<char>)>,
    i: int,
)
    requires
        0 <= i < files.len(),
        candidate(files[i]) is Some,
    ensures
        is_registered(list + admitted(files, list), path_to_list(files[i])),
    decreases files.len(),
{
    let path = path_to_list(files[i]);
    let before = admitted(files.drop_last(), list);
    let all = admitted(files, list);
    if i < files.len() - 1 {
        law_supported_files_are_listed(files.drop_last(), list, i);
    }
    lemma_registered_in_both(list, before, path);
    lemma_registered_in_both(list, all, path);
    if is_registered(before, path) {
        let j = choose|j: int| 0 <= j < before.len() && #[trigger] before[j].1 == path;
        assert(all[j].1 == path);
    } else if !is_registered(list, path) {
        assert(files.last() == files[i]);
        assert(all.last().1 == path);
    }
}

/// Adding the same files twice adds nothing the second time.
pub proof fn law_adding_twice_adds_nothing(
    files: Seq<PickedFile>,
    list: Seq<(Seq<char>, Seq<char>)>,
)
    ensures
        admitted(files, list + admitted(files, list)) == Seq::<(Seq<char>, Seq<char>)>::empty(),
{
    let full = list + admitted(files, list);
    assert forall|i: int| 0 <= i < files.len() && candidate(#[trigger] files[i]) is Some implies
        is_registered(full, path_to_list(files[i])) by {
        law_supported_files_are_listed(files, list, i);
    }
    lemma_nothing_new(files, full);
}

proof fn lemma_nothing_new(files: Seq<PickedFile>, list: Seq<(Seq<char>, Seq<char>)>)
    requires
        forall|i: int|
            0 <= i < files.len() && candidate(#[trigger] files[i]) is Some ==> is_registered(
                list,
                path_to_list(files[i]),
            ),
    ensures
        admitted(files, list) == Seq::<(Seq<char>, Seq<char>)>::empty(),
    decreases files.len(),
{
    if files.len() > 0 {
        let shorter = files.drop_last();
        assert forall|i: int|
            0 <= i < shorter.len() && candidate(#[trigger] shorter[i]) is Some implies
            is_registered(list, path_to_list(shorter[i])) by {
            assert(shorter[i] == files[i]);
        }
        lemma_nothing_new(shorter, list);
        assert(list + admitted(shorter, list) =~= list);
        assert(files.last() == files[files.len() - 1]);
    }
}

/// No path comes to stand in the list twice, whatever files are added: not the same file twice, nor
/// a shortcut together with its target.
pub proof fn law_paths_stay_distinct(files: Seq<PickedFile>, list: Seq<(Seq<char>, Seq<char>)>)
    requires
        paths_distinct(list),
    ensures
        paths_distinct(list + admitted(files, list)),
    decreases files.len(),
{
    if files.len() > 0 {
        let before = list + admitted(files.drop_last(), list);
        let all = list + admitted(files, list);
        law_paths_stay_distinct(files.drop_last(), list);
        match candidate(files.last()) {
            Some(entry) if !is_registered(before, entry.1) => {
                assert(all =~= before.push(entry));
                assert forall|i: int, j: int| 0 <= i < j < all.len() implies (#[trigger] all[i]).1
                    != (#[trigger] all[j]).1 by {
                    assert(all[i] == before[i]);
                    if j < before.len() {
                        assert(all[j] == before[j]);
                    }
                }
            },
            _ => {},
        }
    } else {
        assert(list + admitted(files, list) =~= list);
    }
}

/// Deleting keeps the paths distinct.
pub proof fn law_deleting_keeps_paths_distinct(list: Seq<(Seq<char>, Seq<char>)>, idx: int)
    requires
        paths_distinct(list),
    ensures
        paths_distinct(without(list, idx)),
{
    if 0 <= idx < list.len() {
        let rest = without(list, idx);
        assert forall|i: int, j: int| 0 <= i < j < rest.len() implies (#[trigger] rest[i]).1 != (
        #[trigger] rest[j]).1 by {
            let a = if i < idx { i } else { i + 1 };
            let b = if j < idx { j } else { j + 1 };
            assert(rest[i] == list[a] && rest[j] == list[b]);
        }
    }
}

/// Deleting what was added last leaves the list as it was before.
pub proof fn law_delete_undoes_add(
    list: Seq<(Seq<char>, Seq<char>)>,
    file: PickedFile,
)
    requires
        admitted(seq![file], list).len() == 1,
    ensures
        without(list + admitted(seq![file], list), list.len() as int) == list,
{
    assert(without(list + admitted(seq![file], list), list.len() as int) =~= list);
}

/// A file that was deleted can be added again: its path is not registered any more.
pub proof fn law_deleted_paths_can_come_back(
    list: Seq<(Seq<char>, Seq<char>)>,
    idx: int,
    file: PickedFile,
)
    requires
        paths_distinct(list),
        0 <= idx < list.len(),
        candidate(file) == Some(list[idx]),
    ensures
        admitted(seq![file], without(list, idx)) == seq![list[idx]],
{
    let rest = without(list, idx);
    assert forall|i: int| 0 <= i < rest.len() implies (#[trigger] rest[i]).1 != list[idx].1 by {
        let a = if i < idx { i } else { i + 1 };
        assert(rest[i] == list[a]);
    }
    let one = seq![file];
    assert(one.drop_last() =~= seq![]);
    assert(one.last() == file);
    assert(admitted(one.drop_last(), rest) =~= seq![]);
    assert(rest + admitted(one.drop_last(), rest) =~= rest);
    assert(admitted(one, rest) =~= seq![list[idx]]);
}

/// What can happen to the list and the window.
pub ghost enum ListOp {
    /// Files are added.
    Add(Seq<PickedFile>),
    /// The row at an index is deleted.
    Delete(int),
    /// The list is read back from its file, and the window shows it.
    Reload(Seq<(Seq<char>, Seq<char>)>),
}

/// The list after one operation: a deletion takes an entry out only where the rows have one at that
/// place, and the list does too.
pub open spec fn list_after(
    list: Seq<(Seq<char>, Seq<char>)>,
    shown: Seq<(Seq<char>, Seq<char>)>,
    op: ListOp,
) -> Seq<(Seq<char>, Seq<char>)> {
    match op {
        ListOp::Add(files) => list + admitted(files, list),
        ListOp::Delete(idx) => if 0 <= idx < shown.len() {
            without(list, idx)
        } else {
            list
        },
        ListOp::Reload(read) => read,
    }
}

/// The rows after one operation: what is added depends on the list, what is deleted on the rows,
/// and a list that is read back is shown unless it equals the one that is there.
pub open spec fn rows_after(
    list: Seq<(Seq<char>, Seq<char>)>,
    shown: Seq<(Seq<char>, Seq<char>)>,
    op: ListOp,
) -> Seq<(Seq<char>, Seq<char>)> {
    match op {
        ListOp::Add(files) => shown + admitted(files, list),
        ListOp::Delete(idx) => without(shown, idx),
        ListOp::Reload(read) => if read == list {
            shown
        } else {
            read
        },
    }
}

/// The list and the rows after a number of operations, one after the other.
pub open spec fn after_all(
    list: Seq<(Seq<char>, Seq<char>)>,
    shown: Seq<(Seq<char>, Seq<char>)>,
    ops: Seq<ListOp>,
) -> (Seq<(Seq<char>, Seq<char>)>, Seq<(Seq<char>, Seq<char>)>)
    decreases ops.len(),
{
    if ops.len() == 0 {
        (list, shown)
    } else {
        let before = after_all(list, shown, ops.drop_last());
        (
            list_after(before.0, before.1, ops.last()),
            rows_after(before.0, before.1, ops.last()),
        )
    }
}

/// Once the window shows the list, it shows the list after any operations.
pub proof fn law_window_shows_list(list: Seq<(Seq<char>, Seq<char>)>, ops: Seq<ListOp>)
    ensures
        after_all(list, list, ops).1 == after_all(list, list, ops).0,
    decreases ops.len(),
{
    if ops.len() > 0 {
        law_window_shows_list(list, ops.drop_last());
    }
}

/// A path that is text gives its application a name that is the stem of the file, and `Unknown`
/// only where the path names no file.
pub proof fn law_text_paths_name_their_file(path: Seq<char>)
    ensures
        match crate::winpath::file_stem_of(crate::utf16::encoded(path)) {
            Some(stem) => crate::utf16::strict_text(stem) == Some(
                name_of_path(crate::utf16::encoded(path)),
            ),
            None => name_of_path(crate::utf16::encoded(path)) == "Unknown"@,
        },
{
    crate::utf16::law_decode_undoes_encode(path);
    crate::winpath::law_stem_of_text_is_text(crate::utf16::encoded(path));
}

/// A list is seen by its names and paths: as many entries as applications, each the name and the
/// path of the application at its place.
pub proof fn law_entries_are_names_and_paths(apps: Seq<SavedApp>)
    ensures
        entries(apps).len() == apps.len(),
        forall|i: int|
            0 <= i < apps.len() ==> #[trigger] entries(apps)[i] == (apps[i].name@, apps[i].path@),
{
}

/// The files that are listed are those with the extension `exe` or `lnk`, by the lower case of the
/// text that the extension is; no other file is, and an extension that is no text counts for
/// nothing.
pub proof fn law_kind_follows_the_extension(path: Seq<u16>, ext: Seq<char>)
    ensures
        crate::winpath::extension_of(path) == Some(crate::utf16::encoded(ext)) ==> {
            let lower = crate::text::lowercase(ext);
            &&& kind_of_path(path) == EntryKind::Executable <==> lower == "exe"@
            &&& kind_of_path(path) == EntryKind::Shortcut <==> lower == "lnk"@
        },
        kind_of_path(path) != EntryKind::Unsupported ==> exists|t: Seq<char>|
            crate::winpath::extension_of(path) == Some(#[trigger] crate::utf16::encoded(t)) && (
            crate::text::lowercase(t) == "exe"@ || crate::text::lowercase(t) == "lnk"@),
{
    reveal_strlit("exe");
    reveal_strlit("lnk");
    assert("exe"@[0] != "lnk"@[0]);
    if let Some(units) = crate::winpath::extension_of(path) {
        crate::utf16::law_strict_text_is_what_was_encoded(units, ext);
        if let Some(t) = crate::utf16::strict_text(units) {
            assert(crate::utf16::encoded(t) == units);
        }
    }
}

/// A file is listed under its stem where that is text, letter by letter, and otherwise under
/// `Unknown`.
pub proof fn law_name_is_the_stem(path: Seq<u16>, text: Seq<char>)
    ensures
        crate::winpath::file_stem_of(path) == Some(crate::utf16::encoded(text)) ==> name_of_path(
            path,
        ) == text,
        (forall|t: Seq<char>|
            crate::winpath::file_stem_of(path) != Some(#[trigger] crate::utf16::encoded(t)))
            ==> name_of_path(path) == "Unknown"@,
{
    if let Some(units) = crate::winpath::file_stem_of(path) {
        crate::utf16::law_strict_text_is_what_was_encoded(units, text);
        if let Some(t) = crate::utf16::strict_text(units) {
            assert(crate::utf16::encoded(t) == units);
        }
    }
}

/// What comes in for a file is decided by the file. A file that is not supported gives nothing. A
/// shortcut whose target is known gives the name and the path of the target. Any other file gives
/// its own name and its own path: encoded again, that path is the path of the file, unit by unit,
/// where it is text.
pub proof fn law_files_are_listed_as_they_are(file: PickedFile, target: (String, String))
    ensures
        candidate(file) is None <==> kind_of_path(file.path@) == EntryKind::Unsupported,
        kind_of_path(file.path@) == EntryKind::Shortcut && file.link == Some(target) ==> candidate(
            file,
        ) == Some((target.0@, target.1@)),
        kind_of_path(file.path@) == EntryKind::Executable || (kind_of_path(file.path@)
            == EntryKind::Shortcut && file.link is None) ==> {
            &&& candidate(file) is Some
            &&& (candidate(file)->0).0 == name_of_path(file.path@)
            &&& (candidate(file)->0).1 == crate::utf16::lossy_text(file.path@)
            &&& forall|t: Seq<char>|
                file.path@ == #[trigger] crate::utf16::encoded(t) ==> (candidate(file)->0).1 == t
            &&& crate::utf16::well_formed(file.path@) ==> crate::utf16::encoded(
                (candidate(file)->0).1,
            ) == file.path@
        },
{
    if crate::utf16::well_formed(file.path@) {
        crate::utf16::law_encode_undoes_strict_decode(file.path@);
    }
    assert forall|t: Seq<char>| file.path@ == #[trigger] crate::utf16::encoded(t) implies
        crate::utf16::lossy_text(file.path@) == t by {
        crate::utf16::law_decode_undoes_encode(t);
    }
}

/// One file that is added to a list comes in, as the one entry that it gives, exactly where it is
/// supported and no entry of the list has its path.
pub proof fn law_one_file_comes_in_once(file: PickedFile, list: Seq<(Seq<char>, Seq<char>)>)
    ensures
        match candidate(file) {
            Some(entry) => if forall|i: int|
                0 <= i < list.len() ==> #[trigger] list[i].1 != entry.1 {
                admitted(seq![file], list) == seq![entry]
            } else {
                admitted(seq![file], list).len() == 0
            },
            None => admitted(seq![file], list).len() == 0,
        },
{
    let one = seq![file];
    assert(one.drop_last() =~= seq![]);
    assert(one.last() == file);
    assert(admitted(one.drop_last(), list) =~= seq![]);
    assert(list + admitted(one.drop_last(), list) =~= list);
    if let Some(entry) = candidate(file) {
        assert(Seq::<(Seq<char>, Seq<char>)>::empty().push(entry) =~= seq![entry]);
    }
}

/// Files that are added at one time come in as they would in two goes, some first and the others
/// into the list that this gives.
pub proof fn law_adding_goes_file_by_file(
    first: Seq<PickedFile>,
    then: Seq<PickedFile>,
    list: Seq<(Seq<char>, Seq<char>)>,
)
    ensures
        admitted(first + then, list) == admitted(first, list) + admitted(
            then,
            list + admitted(first, list),
        ),
    decreases then.len(),
{
    let start = admitted(first, list);
    if then.len() == 0 {
        assert(first + then =~= first);
        assert(start + admitted(then, list + start) =~= start);
    } else {
        let shorter = then.drop_last();
        law_adding_goes_file_by_file(first, shorter, list);
        assert((first + then).drop_last() =~= first + shorter);
        assert((first + then).last() == then.last());
        let more = admitted(shorter, list + start);
        assert(list + (start + more) =~= list + start + more);
        if let Some(entry) = candidate(then.last()) {
            assert((start + more).push(entry) =~= start + more.push(entry));
        }
    }
}

/// Deleting an entry takes out that one and nothing else: the entries before it stay where they
/// are, those behind it move up by one, and where there is no such entry all stay.
pub proof fn law_deleting_takes_out_one_entry(list: Seq<(Seq<char>, Seq<char>)>, idx: int)
    ensures
        0 <= idx < list.len() ==> without(list, idx).len() == list.len() - 1,
        forall|i: int|
            0 <= i < idx < list.len() ==> #[trigger] without(list, idx)[i] == list[i],
        forall|i: int|
            0 <= idx <= i < list.len() - 1 ==> #[trigger] without(list, idx)[i] == list[i + 1],
        !(0 <= idx < list.len()) ==> without(list, idx) == list,
{
}

/// What was deleted can be put back where it was, and nothing else has changed.
pub proof fn law_deleted_entry_fits_back(list: Seq<(Seq<char>, Seq<char>)>, idx: int)
    requires
        0 <= idx < list.len(),
    ensures
        without(list, idx).insert(idx, list[idx]) == list,
{
    assert(without(list, idx).insert(idx, list[idx]) =~= list);
}

/// The question before a deletion begins with the name of the application and says nothing else of
/// it: two names give the same question exactly where they are the same.
pub proof fn law_question_names_the_application(a: Seq<char>, b: Seq<char>)
    ensures
        delete_question(a).take(a.len() as int) == a,
        delete_question(a).skip(a.len() as int) == "を一覧から削除してもよろしいですか？"@,
        delete_question(a) == delete_question(b) <==> a == b,
{
    assert(delete_question(a).take(a.len() as int) =~= a);
    assert(delete_question(b).take(b.len() as int) =~= b);
    assert(delete_question(a).skip(a.len() as int)
        =~= "を一覧から削除してもよろしいですか？"@);
}

/// A file in a directory is listed under what stands before the last dot of its name, and its kind
/// goes by what stands behind it, whatever the directory.
pub proof fn law_file_in_a_directory_is_named(
    dir: Seq<u16>,
    separator: u16,
    stem: Seq<char>,
    ext: Seq<char>,
)
    requires
        separator == 0x5C || (separator == 0x2F && !crate::winpath::is_verbatim(
            crate::winpath::prefix_kind(dir),
        )),
        stem.len() > 0,
        forall|i: int|
            0 <= i < crate::utf16::encoded(ext).len() ==> #[trigger] crate::utf16::encoded(ext)[i]
                != 0x2E,
        crate::winpath::is_plain_name(
            crate::utf16::encoded(stem).push(0x2E) + crate::utf16::encoded(ext),
        ),
        !(crate::winpath::prefix_kind(dir) == crate::winpath::PrefixKind::Absent
            && crate::winpath::is_bare_server(dir)),
        !(crate::winpath::lacks_share(dir) && dir.len() == crate::winpath::prefix_len(dir)),
        !(crate::winpath::prefix_kind(dir) == crate::winpath::PrefixKind::Verbatim && dir.len() == 7
            && dir[4] == 0x55 && dir[5] == 0x4E && dir[6] == 0x43),
    ensures
        ({
            let path = dir.push(separator) + (crate::utf16::encoded(stem).push(0x2E)
                + crate::utf16::encoded(ext));
            &&& name_of_path(path) == stem
            &&& kind_of_path(path) == EntryKind::Executable <==> crate::text::lowercase(ext)
                == "exe"@
            &&& kind_of_path(path) == EntryKind::Shortcut <==> crate::text::lowercase(ext)
                == "lnk"@
        }),
{
    let name = crate::utf16::encoded(stem).push(0x2E) + crate::utf16::encoded(ext);
    let path = dir.push(separator) + name;
    let verbatim = crate::winpath::is_verbatim(crate::winpath::prefix_kind(dir));
    assert forall|k: int| 0 <= k < name.len() implies !crate::winpath::separates(
        #[trigger] name[k],
        verbatim,
    ) by {
        assert(!crate::winpath::is_separator(name[k]));
    }
    crate::winpath::law_prefix_is_kept(dir, separator, name);
    crate::winpath::law_parent_of_a_name_in_a_directory(dir, separator, name);
    crate::utf16::law_decode_undoes_encode(stem);
    assert(crate::utf16::encoded(stem).len() > 0) by {
        if crate::utf16::encoded(stem).len() == 0 {
            assert(crate::utf16::decoded(crate::utf16::encoded(stem)).len() == 0);
        }
    }
    crate::winpath::law_last_dot_begins_the_extension(
        path,
        crate::utf16::encoded(stem),
        crate::utf16::encoded(ext),
    );
    law_name_is_the_stem(path, stem);
    law_kind_follows_the_extension(path, ext);
}

} // verus!
