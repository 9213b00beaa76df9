use dux::paths::EntryPath;
use dux::scan::{
    scan_observed, ControlledScan, EntryKind, EntryMetadata, FileType, Observation, ObservedEntry,
    ScanControl, ScanProgressSnapshot, SizeMode,
};
use dux::startup::{
    Invocation, OutputMode, Startup, StartupAction, StartupError, StartupStep,
};
use dux::state::{KeyCode, KeyPress, Received};

fn key(code: KeyCode) -> KeyPress {
    KeyPress { code, control: false }
}

fn progress(files: u64) -> ScanProgressSnapshot {
    let mut control = ScanControl::new();
    for _ in 0..files {
        control.record_visit(&EntryPath::from_text("/f"), EntryKind::File);
    }
    control.snapshot()
}

fn found(canceled: bool) -> ControlledScan {
    let seen = ObservedEntry {
        path: EntryPath::from_text("/f"),
        observation: Observation::Entry(EntryMetadata {
            file_type: FileType::File,
            len: 1,
            blocks: None,
        }),
    };
    let root = scan_observed(&seen, SizeMode::Logical).unwrap().root;
    ControlledScan { root, canceled }
}

#[test]
fn runs_are_told_apart() {
    let invocation = |json, list, stdout_is_terminal, stdin_is_terminal| Invocation {
        json,
        list,
        stdout_is_terminal,
        stdin_is_terminal,
    };
    for bits in 0..16u8 {
        let (json, list, out, input) = (bits & 1 > 0, bits & 2 > 0, bits & 4 > 0, bits & 8 > 0);
        let run = invocation(json, list, out, input);
        assert_eq!(run.shows_progress(), !json && !list && out && input);
        let expected = if json {
            OutputMode::Json
        } else if list || !out {
            OutputMode::List
        } else {
            OutputMode::Browse
        };
        assert_eq!(run.output_mode(), expected);
    }
}

#[test]
fn a_found_root_ends_the_first_scan() {
    for canceled in [false, true] {
        let mut startup = Startup::new();
        match startup.hear(Received::Outcome(found(canceled)), progress(1)) {
            StartupStep::Finished(root) => assert_eq!(root.name, "f"),
            _ => panic!("not finished"),
        }
    }
}

#[test]
fn failures_of_the_first_scan_are_told_apart() {
    let nothing = ControlledScan { root: None, canceled: false };
    let step = Startup::new().hear(Received::Outcome(nothing), progress(0));
    assert!(matches!(step, StartupStep::Failed(StartupError::NoRoot)));
    assert_eq!(StartupError::NoRoot.message(), "scan ended without producing a root");

    let step = Startup::new().hear(Received::Disconnected, progress(0));
    assert!(matches!(step, StartupStep::Failed(StartupError::Disconnected)));
    assert_eq!(StartupError::Disconnected.message(), "scan worker ended unexpectedly");

    let step = Startup::new().hear(Received::Nothing, progress(0));
    assert!(matches!(step, StartupStep::Continue));
}

#[test]
fn a_canceled_scan_can_be_begun_again() {
    let mut startup = Startup::new();
    assert_eq!(startup.handle_key(key(KeyCode::Char('r'))), StartupAction::Nothing);
    assert_eq!(startup.handle_key(key(KeyCode::Esc)), StartupAction::Cancel);
    assert!(startup.cancel_requested);
    assert_eq!(startup.shown_progress(progress(2)).files, 2);

    let canceled = ControlledScan { root: None, canceled: true };
    let step = startup.hear(Received::Outcome(canceled), progress(3));
    assert!(matches!(step, StartupStep::Continue));
    assert!(!startup.cancel_requested);
    assert_eq!(startup.shown_progress(progress(9)).files, 3);
    assert!(matches!(
        startup.hear(Received::Disconnected, progress(9)),
        StartupStep::Continue
    ));
    assert_eq!(startup.handle_key(key(KeyCode::Esc)), StartupAction::Nothing);
    assert_eq!(startup.handle_key(key(KeyCode::Char('r'))), StartupAction::Restart);
    assert!(startup.canceled.is_none());
    assert_eq!(startup.shown_progress(progress(4)).files, 4);
}

#[test]
fn the_first_scan_can_be_left_at_any_time() {
    let mut startup = Startup::new();
    assert_eq!(startup.handle_key(key(KeyCode::Char('q'))), StartupAction::Quit);
    assert_eq!(startup.handle_key(key(KeyCode::Char('c'))), StartupAction::Nothing);
    let control_c = KeyPress { code: KeyCode::Char('c'), control: true };
    assert_eq!(startup.handle_key(control_c), StartupAction::Quit);
    startup.canceled = Some(progress(1));
    assert_eq!(startup.handle_key(key(KeyCode::Char('q'))), StartupAction::Quit);
    assert_eq!(startup.handle_key(control_c), StartupAction::Quit);
}
