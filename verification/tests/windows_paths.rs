use app_launcher::utf16::{decode_strict, encode};
use app_launcher::winpath::{
    components, extension, file_name, file_stem, join, parent, prefix, PrefixKind,
};

fn text(units: Option<&[u16]>) -> Option<String> {
    units.map(|u| decode_strict(u).unwrap())
}

fn name(path: &str) -> Option<String> {
    text(file_name(&encode(path)))
}

fn stem(path: &str) -> Option<String> {
    text(file_stem(&encode(path)))
}

fn ext(path: &str) -> Option<String> {
    text(extension(&encode(path)))
}

fn dir(path: &str) -> Option<String> {
    text(parent(&encode(path)))
}

fn joined(base: &str, child: &str) -> String {
    decode_strict(&join(&encode(base), &encode(child))).unwrap()
}

fn head(path: &str) -> (PrefixKind, usize) {
    let p = prefix(&encode(path));
    (p.kind, p.len)
}

fn some(s: &str) -> Option<String> {
    Some(s.to_string())
}

#[test]
fn prefixes_are_told_apart() {
    assert_eq!(head(""), (PrefixKind::Absent, 0));
    assert_eq!(head("a\\b"), (PrefixKind::Absent, 0));
    assert_eq!(head("\\a"), (PrefixKind::Absent, 0));
    assert_eq!(head("C:\\a"), (PrefixKind::Disk, 2));
    assert_eq!(head("c:a"), (PrefixKind::Disk, 2));
    assert_eq!(head("1:a"), (PrefixKind::Absent, 0));
    assert_eq!(head("\\\\server\\share\\a"), (PrefixKind::Unc, 14));
    assert_eq!(head("//server/share/a"), (PrefixKind::Unc, 14));
    assert_eq!(head("\\\\server"), (PrefixKind::Absent, 0));
    assert_eq!(head("\\\\server\\\\a"), (PrefixKind::Absent, 0));
    assert_eq!(head("\\\\.\\COM42\\a"), (PrefixKind::Device, 9));
    assert_eq!(head("\\\\?\\C:\\a"), (PrefixKind::VerbatimDisk, 6));
    assert_eq!(head("\\\\?\\C:"), (PrefixKind::VerbatimDisk, 6));
    assert_eq!(head("\\\\?\\C:a"), (PrefixKind::Verbatim, 7));
    assert_eq!(head("\\\\?\\pictures\\a"), (PrefixKind::Verbatim, 12));
    assert_eq!(head("\\\\?\\UNC\\server\\share\\a"), (PrefixKind::VerbatimUnc, 20));
    assert_eq!(head("\\\\?\\UNC\\server"), (PrefixKind::VerbatimUnc, 14));
    assert_eq!(head("//?/C:/a"), (PrefixKind::Unc, 6));
}

#[test]
fn file_name_is_the_last_component() {
    assert_eq!(name("C:\\Program Files\\App\\app.exe"), some("app.exe"));
    assert_eq!(name("C:/Program Files/app.exe"), some("app.exe"));
    assert_eq!(name("app.exe"), some("app.exe"));
    assert_eq!(name("C:app.exe"), some("app.exe"));
    assert_eq!(name("dir\\app.exe\\"), some("app.exe"));
    assert_eq!(name("dir\\app.exe\\.\\\\."), some("app.exe"));
    assert_eq!(name("dir\\.."), None);
    assert_eq!(name("C:\\"), None);
    assert_eq!(name("C:"), None);
    assert_eq!(name("."), None);
    assert_eq!(name(".\\a"), some("a"));
    assert_eq!(name(""), None);
    assert_eq!(name("\\\\server\\share"), None);
    assert_eq!(name("\\\\server\\share\\a.lnk"), some("a.lnk"));
}

#[test]
fn verbatim_paths_are_taken_as_written() {
    assert_eq!(name("\\\\?\\C:\\dir\\a.exe"), some("a.exe"));
    assert_eq!(name("\\\\?\\C:\\dir\\."), None);
    assert_eq!(name("\\\\?\\C:\\dir\\a/b.exe"), some("a/b.exe"));
}

#[test]
fn stem_and_extension_part_at_the_last_dot() {
    assert_eq!((stem("C:\\a\\tool.exe"), ext("C:\\a\\tool.exe")), (some("tool"), some("exe")));
    assert_eq!((stem("a.tar.gz"), ext("a.tar.gz")), (some("a.tar"), some("gz")));
    assert_eq!((stem("a"), ext("a")), (some("a"), None));
    assert_eq!((stem(".exe"), ext(".exe")), (some(".exe"), None));
    assert_eq!((stem("..exe"), ext("..exe")), (some("."), some("exe")));
    assert_eq!((stem("a."), ext("a.")), (some("a"), some("")));
    assert_eq!((stem("C:\\a.b\\.."), ext("C:\\a.b\\..")), (None, None));
    assert_eq!((stem("C:\\"), ext("C:\\")), (None, None));
}

#[test]
fn parent_drops_the_last_component() {
    assert_eq!(dir("C:\\Apps\\a.exe"), some("C:\\Apps"));
    assert_eq!(dir("C:\\a.exe"), some("C:\\"));
    assert_eq!(dir("C:a.exe"), some("C:"));
    assert_eq!(dir("C:\\"), None);
    assert_eq!(dir("a.exe"), some(""));
    assert_eq!(dir("."), some(""));
    assert_eq!(dir(""), None);
    assert_eq!(dir("a\\\\.\\b"), some("a"));
    assert_eq!(dir("a\\.."), some("a"));
    assert_eq!(dir("\\\\server\\share\\x"), some("\\\\server\\share\\"));
    assert_eq!(dir("\\\\server\\share"), None);
    assert_eq!(dir("\\\\?\\C:\\a\\b"), some("\\\\?\\C:\\a"));
}

#[test]
fn components_pass_over_what_does_not_count() {
    let parts = |p: &str| {
        components(&encode(p))
            .iter()
            .map(|c| decode_strict(c).unwrap())
            .collect::<Vec<String>>()
    };
    assert_eq!(parts("C:\\a\\\\.\\b\\..\\c\\"), vec!["a", "b", "..", "c"]);
    assert_eq!(parts(".\\a"), vec!["a"]);
    assert_eq!(parts("\\\\?\\C:\\a\\.\\b"), vec!["a", ".", "b"]);
    assert_eq!(parts("C:"), Vec::<String>::new());
}

#[test]
fn join_puts_a_separator_where_one_is_wanted() {
    assert_eq!(joined("C:\\Apps", "apps.json"), "C:\\Apps\\apps.json");
    assert_eq!(joined("C:\\", "apps.json"), "C:\\apps.json");
    assert_eq!(joined("C:", "apps.json"), "C:apps.json");
    assert_eq!(joined("C:/Apps/", "apps.json"), "C:/Apps/apps.json");
    assert_eq!(joined("", "apps.json"), "apps.json");
    assert_eq!(joined("a", ""), "a\\");
}

#[test]
fn join_lets_a_prefix_or_a_root_take_over() {
    assert_eq!(joined("C:\\Apps", "D:\\x"), "D:\\x");
    assert_eq!(joined("C:\\Apps", "D:x"), "D:x");
    assert_eq!(joined("C:\\Apps", "\\x"), "C:\\x");
    assert_eq!(joined("\\\\server\\share\\a", "/x"), "\\\\server\\share/x");
}

#[test]
fn join_walks_from_a_verbatim_path() {
    assert_eq!(joined("\\\\?\\C:\\a\\b", "..\\.\\c"), "\\\\?\\C:\\a\\c");
    assert_eq!(joined("\\\\?\\C:\\a\\\\b", "c/d"), "\\\\?\\C:\\a\\b\\c\\d");
    assert_eq!(joined("\\\\?\\C:\\a", "\\x"), "\\\\?\\C:\\x");
    assert_eq!(joined("\\\\?\\C:\\a", ".."), "\\\\?\\C:\\");
    assert_eq!(joined("\\\\?\\C:", "x"), "\\\\?\\C:\\x");
    assert_eq!(joined("\\\\?\\C:\\a", ""), "\\\\?\\C:\\a\\");
}

#[test]
fn stem_and_extension_make_up_the_name() {
    for path in ["C:\\a\\b.c.exe", "x.lnk", "noext", ".hidden", "d.", "..e"] {
        let whole = match ext(path) {
            Some(e) => format!("{}.{}", stem(path).unwrap(), e),
            None => stem(path).unwrap(),
        };
        assert_eq!(name(path), Some(whole));
    }
}

#[test]
fn parent_is_a_shorter_beginning() {
    for path in ["C:\\a\\b", "a", "x\\\\y\\", "\\\\s\\t\\u", ".\\z", "\\\\?\\C:\\q\\r"] {
        let d = dir(path).unwrap();
        assert!(d.len() < path.len() && path.starts_with(&d));
    }
}

#[test]
fn a_plain_name_beside_a_file_lies_in_its_directory() {
    for program in ["C:\\Apps\\launcher.exe", "C:\\l.exe", "C:l.exe", "\\\\s\\t\\d\\l.exe"] {
        let d = dir(program).unwrap();
        let file = joined(&d, "apps.json");
        assert_eq!(name(&file), some("apps.json"));
        assert_eq!(dir(&file), Some(d));
    }
    assert_eq!(name(&joined("\\\\server", "apps.json")), None);
}

#[test]
fn a_plain_name_is_a_file_in_the_current_directory() {
    assert_eq!(name("apps.json"), some("apps.json"));
    assert_eq!(dir("apps.json"), some(""));
}

#[test]
fn a_colon_behind_the_second_unit_belongs_to_the_name() {
    assert_eq!(name("ab:c"), some("ab:c"));
    assert_eq!(joined("C:\\Apps", "ab:c"), "C:\\Apps\\ab:c");
    assert_eq!(name(&joined("C:\\Apps", "ab:c")), some("ab:c"));
}

#[test]
fn a_verbatim_directory_is_written_anew() {
    let beside = |p: &str| {
        let file = joined(&dir(p).unwrap(), "f");
        (dir(&file), name(&file))
    };
    assert_eq!(beside("\\\\?\\C:\\a\\\\b\\x"), (some("\\\\?\\C:\\a\\b"), some("f")));
    assert_eq!(beside("\\\\?\\C:\\x"), (some("\\\\?\\C:\\"), some("f")));
    assert_eq!(
        beside("\\\\?\\UNC\\s\\t\\x"),
        (some("\\\\?\\UNC\\s\\t\\"), some("f"))
    );
    assert_eq!(beside("\\\\?\\name\\x"), (some("\\\\?\\name\\"), some("f")));
    assert_eq!(beside("\\\\.\\COM1\\a\\x"), (some("\\\\.\\COM1\\a"), some("f")));
}

#[test]
fn the_first_component_behind_a_server_becomes_its_share() {
    let beside = |p: &str| {
        let file = joined(&dir(p).unwrap(), "f");
        (dir(&file), name(&file))
    };
    assert_eq!(beside("\\\\a\\\\b"), (None, None));
    assert_eq!(beside("\\\\?\\UNC\\s\\\\x"), (None, None));
    assert_eq!(
        beside("\\\\?\\UNC\\s\\\\a\\x"),
        (some("\\\\?\\UNC\\s\\a\\"), some("f"))
    );
    assert_eq!(
        beside("\\\\?\\UNC\\s\\\\a\\b\\x"),
        (some("\\\\?\\UNC\\s\\a\\b"), some("f"))
    );
}
