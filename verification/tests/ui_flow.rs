use evolve_unpack::automation::{archive_ui_plan, UiOp};

fn b(s: &str) -> Vec<u8> {
    s.as_bytes().to_vec()
}

fn upload_ops(path: &str) -> Vec<UiOp> {
    vec![
        UiOp::ClickUploader,
        UiOp::Pause { seconds: 3 },
        UiOp::TypeText { text: b(path) },
        UiOp::PressConfirm,
        UiOp::Pause { seconds: 3 },
    ]
}

fn capture_ops() -> Vec<UiOp> {
    vec![
        UiOp::AwaitBusyShown { timeout: 10, interval: 1 },
        UiOp::AwaitBusyGone { timeout: 10, interval: 1 },
        UiOp::FocusResult,
        UiOp::SelectAllAndCopy,
        UiOp::ReadClipboard,
    ]
}

#[test]
fn one_script_without_warmup() {
    let (ops, pending) = archive_ui_plan(&vec![b("out/a/c.lua")], false);
    assert!(!pending);
    let mut expected = upload_ops("out/a/c.lua");
    expected.extend(capture_ops());
    assert_eq!(ops, expected);
}

#[test]
fn first_script_of_the_session_is_warmed_up_three_times() {
    let (ops, pending) = archive_ui_plan(&vec![b("out/a/c.lua"), b("out/a/d.lua")], true);
    assert!(!pending);
    let mut expected = Vec::new();
    for _ in 0..3 {
        expected.extend(upload_ops("out/a/c.lua"));
    }
    expected.extend(upload_ops("out/a/c.lua"));
    expected.extend(capture_ops());
    expected.extend(upload_ops("out/a/d.lua"));
    expected.extend(capture_ops());
    assert_eq!(ops, expected);
}

#[test]
fn archive_without_scripts_keeps_warmup_pending() {
    let (ops, pending) = archive_ui_plan(&Vec::new(), true);
    assert!(pending);
    assert!(ops.is_empty());
}

#[test]
fn warmup_happens_once_across_archives() {
    let (_first, pending) = archive_ui_plan(&vec![b("out/a/c.lua")], true);
    assert!(!pending);
    let (second, pending2) = archive_ui_plan(&vec![b("out/b/e.lua")], pending);
    assert!(!pending2);
    let mut expected = upload_ops("out/b/e.lua");
    expected.extend(capture_ops());
    assert_eq!(second, expected);
}

#[test]
fn typed_path_has_verbatim_prefix_stripped() {
    let (ops, _) = archive_ui_plan(&vec![b("\\\\?\\C:\\out\\c.lua")], false);
    assert!(ops.contains(&UiOp::TypeText { text: b("C:\\out\\c.lua") }));
}
