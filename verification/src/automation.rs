//! Sequencing the browser-and-input steps that submit each script to the
//! remote decompiler.
//!
//! The surrounding program performs each [`UiOp`] in order: clicks through
//! the browser session, simulated keyboard and mouse input, fixed pauses,
//! polling for the busy indicator, and reading the clipboard.  Every
//! decision — what is typed, how long is waited, how the first upload of a
//! session is repeated — is made here.

use vstd::prelude::*;
use crate::paths::{strip_marks, strip_verbatim};

verus! {

/// One step against the browser session, the input devices or the
/// clipboard.
#[derive(Clone, PartialEq, Eq, Debug)]
pub enum UiOp {
    /// Click the upload control, opening the native file dialog.
    ClickUploader,
    /// Wait a fixed number of seconds.
    Pause { seconds: u64 },
    /// Type `text` into the focused dialog.
    TypeText { text: Vec<u8> },
    /// Press the confirm key.
    PressConfirm,
    /// Poll until the busy indicator appears, checking every `interval`
    /// seconds for at most `timeout` seconds.
    AwaitBusyShown { timeout: u64, interval: u64 },
    /// Poll until the busy indicator is gone again, with the same bounds.
    AwaitBusyGone { timeout: u64, interval: u64 },
    /// Left-click to focus the rendered result.
    FocusResult,
    /// Select everything and copy it.
    SelectAllAndCopy,
    /// Read the clipboard: the decompiled text for the current script.
    ReadClipboard,
}

/// The mathematical form of a [`UiOp`].
pub enum UiStep {
    ClickUploader,
    Pause { seconds: u64 },
    TypeText { text: Seq<u8> },
    PressConfirm,
    AwaitBusyShown { timeout: u64, interval: u64 },
    AwaitBusyGone { timeout: u64, interval: u64 },
    FocusResult,
    SelectAllAndCopy,
    ReadClipboard,
}

impl View for UiOp {
    type V = UiStep;

    open spec fn view(&self) -> UiStep {
        match self {
            UiOp::ClickUploader => UiStep::ClickUploader,
            UiOp::Pause { seconds } => UiStep::Pause { seconds: *seconds },
            UiOp::TypeText { text } => UiStep::TypeText { text: text@ },
            UiOp::PressConfirm => UiStep::PressConfirm,
            UiOp::AwaitBusyShown { timeout, interval } => UiStep::AwaitBusyShown {
                timeout: *timeout,
                interval: *interval,
            },
            UiOp::AwaitBusyGone { timeout, interval } => UiStep::AwaitBusyGone {
                timeout: *timeout,
                interval: *interval,
            },
            UiOp::FocusResult => UiStep::FocusResult,
            UiOp::SelectAllAndCopy => UiStep::SelectAllAndCopy,
            UiOp::ReadClipboard => UiStep::ReadClipboard,
        }
    }
}

/// The mathematical form of a plan.
pub open spec fn ui_steps_of(s: Seq<UiOp>) -> Seq<UiStep> {
    s.map_values(|o: UiOp| o@)
}

/// The upload sequence for one script: open the dialog, wait for it,
/// type the script's path with any extended-path prefix stripped,
/// confirm, and wait for the upload to begin.
pub open spec fn upload_steps(path: Seq<u8>) -> Seq<UiStep> {
    seq![
        UiStep::ClickUploader,
        UiStep::Pause { seconds: 3u64 },
        UiStep::TypeText { text: strip_marks(path) },
        UiStep::PressConfirm,
        UiStep::Pause { seconds: 3u64 },
    ]
}

/// After an upload: bracket the remote work by polling the busy
/// indicator in and out, then focus, select, copy, and read the
/// clipboard.
pub open spec fn capture_steps() -> Seq<UiStep> {
    seq![
        UiStep::AwaitBusyShown { timeout: 10u64, interval: 1u64 },
        UiStep::AwaitBusyGone { timeout: 10u64, interval: 1u64 },
        UiStep::FocusResult,
        UiStep::SelectAllAndCopy,
        UiStep::ReadClipboard,
    ]
}

/// Everything done for one script: its upload, then the capture.
pub open spec fn script_steps(path: Seq<u8>) -> Seq<UiStep> {
    upload_steps(path) + capture_steps()
}

/// The steps for a list of scripts, in order.
pub open spec fn scripts_steps(files: Seq<Seq<u8>>) -> Seq<UiStep>
    decreases files.len(),
{
    if files.len() == 0 {
        Seq::empty()
    } else {
        scripts_steps(files.drop_last()) + script_steps(files.last())
    }
}

/// The warm-up for the first script a session uploads: its upload
/// sequence three times in a row, a workaround for the page missing the
/// first upload.
pub open spec fn warmup_steps(path: Seq<u8>) -> Seq<UiStep> {
    upload_steps(path) + upload_steps(path) + upload_steps(path)
}

/// The steps for one archive's scripts: when the session has not warmed
/// up yet and there is a script to upload, the first script's warm-up,
/// then every script in order.
pub open spec fn archive_ui(files: Seq<Seq<u8>>, warm_pending: bool) -> Seq<UiStep> {
    if warm_pending && files.len() > 0 {
        warmup_steps(files[0]) + scripts_steps(files)
    } else {
        scripts_steps(files)
    }
}

fn push_upload_ops(ops: &mut Vec<UiOp>, path: &Vec<u8>)
    ensures
        ui_steps_of(final(ops)@) == ui_steps_of(old(ops)@) + upload_steps(path@),
{
    ops.push(UiOp::ClickUploader);
    ops.push(UiOp::Pause { seconds: 3u64 });
    ops.push(UiOp::TypeText { text: strip_verbatim(path) });
    ops.push(UiOp::PressConfirm);
    ops.push(UiOp::Pause { seconds: 3u64 });
    proof {
        assert(ui_steps_of(ops@) =~= ui_steps_of(old(ops)@) + upload_steps(path@));
    }
}

fn push_capture_ops(ops: &mut Vec<UiOp>)
    ensures
        ui_steps_of(final(ops)@) == ui_steps_of(old(ops)@) + capture_steps(),
{
    ops.push(UiOp::AwaitBusyShown { timeout: 10u64, interval: 1u64 });
    ops.push(UiOp::AwaitBusyGone { timeout: 10u64, interval: 1u64 });
    ops.push(UiOp::FocusResult);
    ops.push(UiOp::SelectAllAndCopy);
    ops.push(UiOp::ReadClipboard);
    proof {
        assert(ui_steps_of(ops@) =~= ui_steps_of(old(ops)@) + capture_steps());
    }
}

/// Build the plan for one archive's scripts and say whether the warm-up
/// is still owed afterwards: it stays pending exactly when it was pending
/// and this archive yielded no script.
pub fn archive_ui_plan(lua_files: &Vec<Vec<u8>>, warm_pending: bool) -> (r: (Vec<UiOp>, bool))
    ensures
        ui_steps_of(r.0@) == archive_ui(crate::locate::views_of(lua_files@), warm_pending),
        r.1 == (warm_pending && lua_files@.len() == 0),
{
    let ghost vs = crate::locate::views_of(lua_files@);
    let mut ops: Vec<UiOp> = Vec::new();
    let n = lua_files.len();
    if warm_pending && n > 0 {
        push_upload_ops(&mut ops, &lua_files[0]);
        push_upload_ops(&mut ops, &lua_files[0]);
        push_upload_ops(&mut ops, &lua_files[0]);
        proof {
            assert(ui_steps_of(ops@) =~= warmup_steps(vs[0]));
        }
    }
    let ghost warm = ui_steps_of(ops@);
    let mut i: usize = 0;
    proof {
        assert(ui_steps_of(ops@) =~= warm + scripts_steps(vs.take(0)));
    }
    while i < n
        invariant
            i <= n,
            n == lua_files@.len(),
            vs == crate::locate::views_of(lua_files@),
            ui_steps_of(ops@) == warm + scripts_steps(vs.take(i as int)),
        decreases n - i,
    {
        proof {
            assert(vs.take(i as int + 1).drop_last() =~= vs.take(i as int));
            assert(vs.take(i as int + 1).last() == lua_files@[i as int]@);
        }
        push_upload_ops(&mut ops, &lua_files[i]);
        push_capture_ops(&mut ops);
        proof {
            assert(ui_steps_of(ops@) =~= warm + scripts_steps(vs.take(i as int + 1)));
        }
        i = i + 1;
    }
    proof {
        assert(vs.take(n as int) =~= vs);
        assert(ui_steps_of(ops@) =~= archive_ui(vs, warm_pending));
    }
    (ops, warm_pending && n == 0)
}

} // verus!
