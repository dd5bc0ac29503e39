//! Where the launcher keeps its files, and how it notices that one of them has changed.

use crate::utf16::encode;
use crate::winpath::{file_name, join, parent};
use vstd::prelude::*;

verus! {

/// The path of a data file: the bare name, in the current directory, while developing, and
/// otherwise a file beside the program. Where the place of the program is not known, or it has no
/// directory, the bare name has to do.
pub open spec fn data_path_of(
    developing: bool,
    program: Option<Seq<u16>>,
    file_name: Seq<char>,
) -> Seq<u16> {
    let name = crate::utf16::encoded(file_name);
    if developing {
        name
    } else {
        match program {
            Some(path) => match crate::winpath::parent_of(path) {
                Some(dir) => crate::winpath::joined(dir, name),
                None => name,
            },
            None => name,
        }
    }
}

/// The contents of an optional path.
pub open spec fn program_view(program: Option<Vec<u16>>) -> Option<Seq<u16>> {
    match program {
        Some(path) => Some(path@),
        None => None,
    }
}

/// The path of a data file, given the path of the running program.
pub fn get_data_path(developing: bool, program: &Option<Vec<u16>>, file_name: &str) -> (r: Vec<u16>)
    ensures
        r@ == data_path_of(developing, program_view(*program), file_name@),
        match program {
            Some(path) => r@ == data_path_of(developing, Some(path@), file_name@),
            None => r@ == crate::utf16::encoded(file_name@),
        },
{
    let name = encode(file_name);
    if developing {
        return name;
    }
    match program {
        Some(path) => match parent(path.as_slice()) {
            Some(dir) => join(dir, name.as_slice()),
            None => name,
        },
        None => name,
    }
}

/// The directory in which a file is watched for changes: the one that it is in, or the current
/// directory, `.`, where its path names none.
pub open spec fn watched_dir(file: Seq<u16>) -> Seq<u16> {
    match crate::winpath::parent_of(file) {
        Some(dir) if dir.len() > 0 => dir,
        _ => seq![crate::winpath::DOT],
    }
}

/// The directory in which a file is watched for changes.
pub fn watch_dir(file: &[u16]) -> (r: Vec<u16>)
    ensures
        r@ == watched_dir(file@),
{
    match parent(file) {
        Some(dir) => {
            if dir.len() > 0 {
                return vstd::slice::slice_to_vec(dir);
            }
        },
        None => {},
    }
    let mut here: Vec<u16> = Vec::new();
    here.push(crate::winpath::DOT);
    assert(here@ =~= seq![crate::winpath::DOT]);
    here
}

/// One of the paths names a file of the given name.
pub open spec fn names_file(paths: Seq<Vec<u16>>, name: Seq<char>) -> bool {
    exists|i: int|
        0 <= i < paths.len() && crate::winpath::file_name_of((#[trigger] paths[i])@) == Some(
            crate::utf16::encoded(name),
        )
}

/// A change to files concerns the one of the given name.
pub fn concerns_file(paths: &[Vec<u16>], name: &str) -> (r: bool)
    ensures
        r == names_file(paths@, name@),
        r == exists|i: int|
            0 <= i < paths@.len() && crate::winpath::file_name_of((#[trigger] paths@[i])@) == Some(
                crate::utf16::encoded(name@),
            ),
{
    let wanted = encode(name);
    let mut i: usize = 0;
    while i < paths.len()
        invariant
            wanted@ == crate::utf16::encoded(name@),
            i <= paths@.len(),
            forall|j: int|
                0 <= j < i ==> crate::winpath::file_name_of((#[trigger] paths@[j])@) != Some(
                    wanted@,
                ),
        decreases paths@.len() - i,
    {
        if let Some(found) = file_name(paths[i].as_slice()) {
            if same_units(found, wanted.as_slice()) {
                return true;
            }
        }
        i = i + 1;
    }
    false
}

fn same_units(a: &[u16], b: &[u16]) -> (r: bool)
    ensures
        r == (a@ == b@),
{
    if a.len() != b.len() {
        return false;
    }
    let mut i: usize = 0;
    while i < a.len()
        invariant
            a@.len() == b@.len(),
            i <= a@.len(),
            forall|j: int| 0 <= j < i ==> #[trigger] a@[j] == b@[j],
        decreases a@.len() - i,
    {
        if a[i] != b[i] {
            return false;
        }
        i = i + 1;
    }
    assert(a@ =~= b@);
    true
}

/// A file can be put beside the program: the program has no directory, or its directory takes
/// files. One that does not is that of a program at `\\server\\program`.
pub open spec fn has_place(developing: bool, program: Option<Seq<u16>>) -> bool {
    developing || (program matches Some(path) ==> (crate::winpath::parent_of(path) matches Some(dir)
        ==> crate::winpath::takes_files(dir)))
}

/// The launcher notices a change to its own file. The path of a data file with a plain name has
/// that name as its file name, and it lies in the directory that is watched for it: the current
/// one, or that of the program.
pub proof fn law_data_file_is_noticed(developing: bool, program: Option<Seq<u16>>, name: Seq<char>)
    requires
        crate::winpath::is_plain_name(crate::utf16::encoded(name)),
        has_place(developing, program),
    ensures
        crate::winpath::file_name_of(data_path_of(developing, program, name)) == Some(
            crate::utf16::encoded(name),
        ),
        watched_dir(data_path_of(developing, program, name)) == ({
            let dir = match program {
                Some(path) if !developing && crate::winpath::parent_of(path) is Some => {
                    crate::winpath::dir_as_joined(crate::winpath::parent_of(path)->0)
                },
                _ => seq![],
            };
            if dir.len() > 0 {
                dir
            } else {
                seq![crate::winpath::DOT]
            }
        }),
{
    let units = crate::utf16::encoded(name);
    crate::winpath::law_plain_name_is_a_file_here(units);
    if let Some(path) = program {
        if !developing && crate::winpath::parent_of(path) is Some {
            crate::winpath::law_file_beside_another(path, units);
        }
    }
}

/// Data files with plain names lie in one directory, each under its own name, and so different
/// names give different files.
pub proof fn law_data_files_lie_together(
    developing: bool,
    program: Option<Seq<u16>>,
    f: Seq<char>,
    g: Seq<char>,
)
    requires
        crate::winpath::is_plain_name(crate::utf16::encoded(f)),
        crate::winpath::is_plain_name(crate::utf16::encoded(g)),
        has_place(developing, program),
    ensures
        crate::winpath::parent_of(data_path_of(developing, program, f)) is Some,
        crate::winpath::parent_of(data_path_of(developing, program, f))
            == crate::winpath::parent_of(data_path_of(developing, program, g)),
        crate::winpath::file_name_of(data_path_of(developing, program, f)) == Some(
            crate::utf16::encoded(f),
        ),
        data_path_of(developing, program, f) == data_path_of(developing, program, g) <==> f == g,
{
    law_data_file_is_noticed(developing, program, f);
    law_data_file_is_noticed(developing, program, g);
    crate::utf16::law_decode_undoes_encode(f);
    crate::utf16::law_decode_undoes_encode(g);
    let a = crate::utf16::encoded(f);
    let b = crate::utf16::encoded(g);
    crate::winpath::law_plain_name_is_a_file_here(a);
    crate::winpath::law_plain_name_is_a_file_here(b);
    if let Some(path) = program {
        if !developing && crate::winpath::parent_of(path) is Some {
            crate::winpath::law_file_beside_another(path, a);
            crate::winpath::law_file_beside_another(path, b);
        }
    }
}

/// A change concerns a file as soon as one of the changed paths does: changes that come together
/// concern what each of them concerns by itself.
pub proof fn law_each_path_counts(a: Seq<Vec<u16>>, b: Seq<Vec<u16>>, name: Seq<char>)
    ensures
        names_file(a + b, name) <==> names_file(a, name) || names_file(b, name),
        a.len() == 0 ==> !names_file(a, name),
{
    let all = a + b;
    if names_file(a, name) {
        let i = choose|i: int|
            0 <= i < a.len() && crate::winpath::file_name_of((#[trigger] a[i])@) == Some(
                crate::utf16::encoded(name),
            );
        assert(all[i] == a[i]);
    }
    if names_file(b, name) {
        let i = choose|i: int|
            0 <= i < b.len() && crate::winpath::file_name_of((#[trigger] b[i])@) == Some(
                crate::utf16::encoded(name),
            );
        assert(all[a.len() + i] == b[i]);
    }
    if names_file(all, name) {
        let i = choose|i: int|
            0 <= i < all.len() && crate::winpath::file_name_of((#[trigger] all[i])@) == Some(
                crate::utf16::encoded(name),
            );
        if i < a.len() {
            assert(all[i] == a[i]);
        } else {
            assert(all[i] == b[i - a.len()]);
        }
    }
}

/// A changed path concerns the name that is its last component, however many come before it, and no
/// other name. A path that ends in `.` or `..`, or that has no component, concerns no name.
pub proof fn law_last_component_decides(path: Vec<u16>, name: Seq<char>)
    ensures
        names_file(seq![path], name) <==> {
            let parts = crate::winpath::components_of(path@);
            &&& parts.len() > 0
            &&& parts.last() == crate::utf16::encoded(name)
            &&& parts.last() != seq![0x2Eu16]
            &&& parts.last() != seq![0x2Eu16, 0x2E]
        },
{
    crate::winpath::law_file_name_is_the_last_component(path@);
    let one = seq![path];
    assert(one[0] == path);
    if crate::winpath::file_name_of(path@) == Some(crate::utf16::encoded(name)) {
        assert(crate::winpath::file_name_of(one[0]@) == Some(crate::utf16::encoded(name)));
    }
}

/// A list of changed paths concerns a plain name as soon as one of them is that name, by itself or
/// behind any directory and a separator. The one kind of directory that a name cannot stand in is a
/// server without a share.
pub proof fn law_file_is_noticed_in_any_directory(
    paths: Seq<Vec<u16>>,
    i: int,
    dir: Seq<u16>,
    separator: u16,
    name: Seq<char>,
)
    requires
        0 <= i < paths.len(),
        crate::winpath::is_plain_name(crate::utf16::encoded(name)),
        separator == 0x5C || (separator == 0x2F && !crate::winpath::is_verbatim(
            crate::winpath::prefix_kind(dir),
        )),
        !(crate::winpath::prefix_kind(dir) == crate::winpath::PrefixKind::Absent
            && crate::winpath::is_bare_server(dir)),
        !(crate::winpath::lacks_share(dir) && dir.len() == crate::winpath::prefix_len(dir)),
        !(crate::winpath::prefix_kind(dir) == crate::winpath::PrefixKind::Verbatim && dir.len() == 7
            && dir[4] == 0x55 && dir[5] == 0x4E && dir[6] == 0x43),
    ensures
        paths[i]@ == crate::utf16::encoded(name) ==> names_file(paths, name),
        paths[i]@ == dir.push(separator) + crate::utf16::encoded(name) ==> names_file(paths, name),
{
    let units = crate::utf16::encoded(name);
    let verbatim = crate::winpath::is_verbatim(crate::winpath::prefix_kind(dir));
    assert forall|k: int| 0 <= k < units.len() implies !crate::winpath::separates(
        #[trigger] units[k],
        verbatim,
    ) by {
        assert(!crate::winpath::is_separator(units[k]));
    }
    crate::winpath::law_plain_name_is_a_file_here(units);
    crate::winpath::law_prefix_is_kept(dir, separator, units);
    crate::winpath::law_parent_of_a_name_in_a_directory(dir, separator, units);
}

/// The data file of the launcher, wherever it lies, concerns it: any change whose paths have it
/// among them is noticed.
pub proof fn law_own_file_is_noticed(
    paths: Seq<Vec<u16>>,
    i: int,
    developing: bool,
    program: Option<Seq<u16>>,
    name: Seq<char>,
)
    requires
        0 <= i < paths.len(),
        paths[i]@ == data_path_of(developing, program, name),
        crate::winpath::is_plain_name(crate::utf16::encoded(name)),
        has_place(developing, program),
    ensures
        names_file(paths, name),
{
    law_data_file_is_noticed(developing, program, name);
}

/// While developing, and where the place of the program is not known, a data file is its bare name.
/// Beside a program it is the name behind the directory of the program, as that is written.
pub proof fn law_data_file_lies_beside_the_program(
    dir: Seq<u16>,
    separator: u16,
    program: Seq<u16>,
    name: Seq<char>,
)
    requires
        crate::winpath::is_plain_name(crate::utf16::encoded(name)),
        crate::winpath::is_plain_name(program),
        separator == 0x5C || separator == 0x2F,
        !crate::winpath::is_verbatim(crate::winpath::prefix_kind(dir)),
        !(crate::winpath::prefix_kind(dir) == crate::winpath::PrefixKind::Absent
            && crate::winpath::is_bare_server(dir)),
    ensures
        data_path_of(true, Some(dir.push(separator) + program), name) == crate::utf16::encoded(
            name,
        ),
        data_path_of(false, None, name) == crate::utf16::encoded(name),
        data_path_of(false, Some(program), name) == crate::utf16::encoded(name),
        dir.len() == crate::winpath::prefix_len(dir) ==> data_path_of(
            false,
            Some(dir.push(separator) + program),
            name,
        ) == dir.push(separator) + crate::utf16::encoded(name),
        crate::winpath::components_of(dir).len() > 0 && ends_in(
            dir,
            crate::winpath::components_of(dir).last(),
        ) ==> data_path_of(false, Some(dir.push(separator) + program), name) == dir.push(0x5C)
            + crate::utf16::encoded(name),
{
    let units = crate::utf16::encoded(name);
    assert forall|k: int| 0 <= k < program.len() implies !crate::winpath::separates(
        #[trigger] program[k],
        false,
    ) by {
        assert(!crate::winpath::is_separator(program[k]));
    }
    crate::winpath::law_plain_name_is_a_file_here(units);
    crate::winpath::law_plain_name_is_a_file_here(program);
    crate::winpath::law_prefix_is_kept(dir, separator, program);
    crate::winpath::law_parent_of_a_name_in_a_directory(dir, separator, program);
    assert(!crate::winpath::is_separator(units[0]));
    let here = Seq::<u16>::empty();
    crate::winpath::law_joined_path_is_both(here, units);
    assert(here + units =~= units);
    let whole = dir.push(separator) + program;
    if dir.len() == crate::winpath::prefix_len(dir) {
        let root = dir.push(separator);
        assert(root.last() == separator);
        crate::winpath::law_parent_holds_all_components_but_the_last(whole);
        crate::winpath::law_component_behind_a_path(dir, separator, program);
        crate::winpath::law_joined_path_is_both(root, units);
    } else if crate::winpath::components_of(dir).len() > 0 && ends_in(
        dir,
        crate::winpath::components_of(dir).last(),
    ) {
        crate::winpath::lemma_ends_in_no_separator(dir);
        crate::winpath::law_joined_path_is_both(dir, units);
    }
    if crate::winpath::components_of(dir).len() > 0 {
        assert(dir.len() != crate::winpath::prefix_len(dir)) by {
            if dir.len() == crate::winpath::prefix_len(dir) {
                crate::winpath::law_prefix_holds_no_component(dir);
            }
        }
    }
}

/// The path ends in the given component.
pub open spec fn ends_in(path: Seq<u16>, last: Seq<u16>) -> bool {
    last.len() <= path.len() && path.skip(path.len() - last.len()) == last
}

/// A file in a directory is watched for in that directory, as it is written, and a bare name in the
/// current one.
pub proof fn law_file_is_watched_where_it_lies(dir: Seq<u16>, separator: u16, name: Seq<u16>)
    requires
        crate::winpath::is_plain_name(name),
        separator == 0x5C || (separator == 0x2F && !crate::winpath::is_verbatim(
            crate::winpath::prefix_kind(dir),
        )),
        crate::winpath::same_prefix(dir, dir.push(separator) + name),
    ensures
        watched_dir(name) == seq![0x2Eu16],
        dir.len() == crate::winpath::prefix_len(dir) ==> watched_dir(dir.push(separator) + name)
            == dir.push(separator),
        crate::winpath::components_of(dir).len() > 0 && ends_in(
            dir,
            crate::winpath::components_of(dir).last(),
        ) ==> watched_dir(dir.push(separator) + name) == dir,
{
    let verbatim = crate::winpath::is_verbatim(crate::winpath::prefix_kind(dir));
    assert forall|k: int| 0 <= k < name.len() implies !crate::winpath::separates(
        #[trigger] name[k],
        verbatim,
    ) by {
        assert(!crate::winpath::is_separator(name[k]));
    }
    crate::winpath::law_plain_name_is_a_file_here(name);
    crate::winpath::law_parent_of_a_name_in_a_directory(dir, separator, name);
    if crate::winpath::components_of(dir).len() > 0 && ends_in(
        dir,
        crate::winpath::components_of(dir).last(),
    ) {
        crate::winpath::lemma_ends_in_no_separator(dir);
    }
}

} // verus!
