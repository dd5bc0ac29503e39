use app_launcher::shell_link::{shell_link_target, ComCall, ComReply, LinkResolver};
use app_launcher::utf16::{encode, to_wide};

const S_OK: i32 = 0;
const FAILED: i32 = -2147467259;

fn status(status: i32) -> ComReply {
    ComReply { status, object: false, buffer: Vec::new() }
}

fn object(status: i32, object: bool) -> ComReply {
    ComReply { status, object, buffer: Vec::new() }
}

fn buffer(text: &str) -> Vec<u16> {
    let mut units = encode(text);
    units.resize(1024, 0);
    units
}

/// Runs an attempt with the given replies to the first calls, and success to all others. The calls
/// are written down one letter each.
fn run(path: &str, replies: Vec<ComReply>) -> (String, Option<(String, String)>) {
    let mut attempt = LinkResolver::new(path);
    let mut given = replies.into_iter();
    let mut calls = String::new();
    while let Some(call) = attempt.pending() {
        calls.push(match call {
            ComCall::Initialize(2) => 'I',
            ComCall::CreateShellLink(1) => 'C',
            ComCall::QueryPersistFile => 'Q',
            ComCall::Load(wide, mode) => {
                assert_eq!((wide, mode), (to_wide(path), 0));
                'L'
            }
            ComCall::GetPath(1024, 0) => 'G',
            ComCall::ReleasePersistFile => 'f',
            ComCall::ReleaseShellLink => 's',
            ComCall::Uninitialize => 'u',
            other => panic!("{:?}", other),
        });
        attempt.advance(&given.next().unwrap_or(status(S_OK)));
    }
    (calls, attempt.into_target())
}

fn success(text: &str) -> Vec<ComReply> {
    vec![
        status(S_OK),
        object(S_OK, true),
        object(S_OK, true),
        status(S_OK),
        ComReply { status: S_OK, object: false, buffer: buffer(text) },
    ]
}

#[test]
fn a_shortcut_leads_to_its_target() {
    let (calls, target) = run("C:\\a.lnk", success("C:\\Games\\Chess.exe"));
    assert_eq!(calls, "ICQLGfsu");
    assert_eq!(target, Some(("Chess".to_string(), "C:\\Games\\Chess.exe".to_string())));
}

#[test]
fn com_is_not_left_where_it_was_not_entered() {
    let mut replies = success("C:\\x.exe");
    replies[0] = status(-2147417835);
    let (calls, target) = run("C:\\a.lnk", replies);
    assert_eq!(calls, "ICQLGfs");
    assert_eq!(target, Some(("x".to_string(), "C:\\x.exe".to_string())));
}

#[test]
fn a_second_entering_of_com_is_left_too() {
    let mut replies = success("C:\\x.exe");
    replies[0] = status(1);
    assert_eq!(run("C:\\a.lnk", replies).0, "ICQLGfsu");
}

#[test]
fn failing_to_enter_com_ends_the_attempt() {
    let (calls, target) = run("C:\\a.lnk", vec![status(FAILED)]);
    assert_eq!(calls, "I");
    assert_eq!(target, None);
}

#[test]
fn without_a_shell_link_only_com_is_left() {
    for reply in [object(FAILED, true), object(S_OK, false)] {
        let (calls, target) = run("a.lnk", vec![status(S_OK), reply]);
        assert_eq!(calls, "ICu");
        assert_eq!(target, None);
    }
    let replies = vec![status(-2147417835), object(FAILED, false)];
    assert_eq!(run("a.lnk", replies), ("IC".to_string(), None));
}

#[test]
fn without_a_file_interface_the_link_is_released() {
    for reply in [object(FAILED, true), object(S_OK, false)] {
        let (calls, target) = run("a.lnk", vec![status(S_OK), object(S_OK, true), reply]);
        assert_eq!(calls, "ICQsu");
        assert_eq!(target, None);
    }
}

#[test]
fn a_file_that_cannot_be_loaded_is_released() {
    let mut replies = success("C:\\x.exe");
    replies[3] = status(FAILED);
    assert_eq!(run("a.lnk", replies), ("ICQLfsu".to_string(), None));
}

#[test]
fn a_path_that_cannot_be_read_leads_nowhere() {
    let mut replies = success("C:\\x.exe");
    replies[4].status = FAILED;
    assert_eq!(run("a.lnk", replies), ("ICQLGfsu".to_string(), None));
}

#[test]
fn an_empty_path_leads_nowhere() {
    assert_eq!(run("a.lnk", success("")), ("ICQLGfsu".to_string(), None));
}

#[test]
fn a_finished_attempt_stays_finished() {
    let mut attempt = LinkResolver::new("a.lnk");
    attempt.advance(&status(FAILED));
    attempt.advance(&object(S_OK, true));
    assert!(attempt.pending().is_none());
    assert_eq!(attempt.into_target(), None);
}

#[test]
fn targets_end_at_the_first_zero() {
    let mut units = encode("C:\\a.exe");
    units.push(0);
    units.extend(encode("rest"));
    units.push(0);
    assert_eq!(
        shell_link_target(&units),
        Some(("a".to_string(), "C:\\a.exe".to_string()))
    );
}

#[test]
fn a_buffer_without_a_zero_holds_no_target() {
    assert_eq!(shell_link_target(&encode("C:\\a.exe")), None);
    assert_eq!(shell_link_target(&[]), None);
    assert_eq!(shell_link_target(&[0, 0x41, 0]), None);
}

#[test]
fn a_target_without_a_file_name_is_unknown() {
    let (_, target) = run("a.lnk", success("C:\\"));
    assert_eq!(target, Some(("Unknown".to_string(), "C:\\".to_string())));
}

#[test]
fn a_target_that_is_no_text_is_read_lossily() {
    let units = vec![0x61, 0xD800, 0x2E, 0x65, 0];
    assert_eq!(
        shell_link_target(&units),
        Some(("a\u{FFFD}".to_string(), "a\u{FFFD}.e".to_string()))
    );
}
