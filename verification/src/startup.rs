//! The first scan of an interactive run, which shows its progress and can be
//! canceled and begun again, and the choice between the kinds of runs.

use vstd::prelude::*;

use crate::scan::{ControlledScan, ScanProgressSnapshot};
#[allow(unused_imports)]
use crate::scan::Progress;
use crate::state::{KeyCode, KeyPress, Received};
use crate::tree::EntryNode;
#[allow(unused_imports)]
use crate::tree::Tree;

verus! {

/// How a run was asked for and what it is connected to.
#[derive(Clone, Copy, Debug)]
pub struct Invocation {
    pub json: bool,
    pub list: bool,
    pub stdout_is_terminal: bool,
    pub stdin_is_terminal: bool,
}

/// What is made of a scanned tree.
#[derive(Clone, Copy, Debug, PartialEq, Eq, Structural)]
pub enum OutputMode {
    Json,
    List,
    Browse,
}

/// What a run makes of the scanned tree.
pub open spec fn mode_of(run: Invocation) -> OutputMode {
    if run.json {
        OutputMode::Json
    } else if run.list || !run.stdout_is_terminal {
        OutputMode::List
    } else {
        OutputMode::Browse
    }
}

/// Whether a run shows the progress of its scan.
pub open spec fn watched(run: Invocation) -> bool {
    mode_of(run) == OutputMode::Browse && run.stdin_is_terminal
}

/// The browser opens only where neither another output was asked for nor the
/// output goes elsewhere, and a scan is watched only before it and where keys
/// can be read. What was asked for as JSON is that, whatever else was.
pub proof fn lemma_modes(run: Invocation)
    ensures
        run.json ==> mode_of(run) == OutputMode::Json,
        !run.json && run.list ==> mode_of(run) == OutputMode::List,
        !run.json && !run.stdout_is_terminal ==> mode_of(run) == OutputMode::List,
        !run.json && !run.list && run.stdout_is_terminal ==> mode_of(run) == OutputMode::Browse,
        watched(run) <==> !run.json && !run.list && run.stdout_is_terminal
            && run.stdin_is_terminal,
{
}

impl Invocation {
    /// Whether the scan shows its progress.
    pub fn shows_progress(&self) -> (res: bool)
        ensures
            res == (!self.json && !self.list && self.stdout_is_terminal
                && self.stdin_is_terminal),
            res == watched(*self),
    {
        !self.json && !self.list && self.stdout_is_terminal && self.stdin_is_terminal
    }

    /// What is made of the scanned tree.
    pub fn output_mode(&self) -> (res: OutputMode)
        ensures
            res == OutputMode::Json <==> self.json,
            res == OutputMode::List <==> !self.json && (self.list || !self.stdout_is_terminal),
            res == OutputMode::Browse <==> !self.json && !self.list && self.stdout_is_terminal,
            res == mode_of(*self),
    {
        if self.json {
            OutputMode::Json
        } else if self.list || !self.stdout_is_terminal {
            OutputMode::List
        } else {
            OutputMode::Browse
        }
    }
}

/// Why the first scan failed.
#[derive(Clone, Copy, Debug, PartialEq, Eq, Structural)]
pub enum StartupError {
    /// The scan was not canceled and yet found nothing.
    NoRoot,
    /// The scan ended without a word.
    Disconnected,
}

impl StartupError {
    /// What to tell about the error.
    pub open spec fn text(self) -> Seq<char> {
        match self {
            StartupError::NoRoot => "scan ended without producing a root"@,
            StartupError::Disconnected => "scan worker ended unexpectedly"@,
        }
    }

    /// What to tell about the error.
    pub fn message(self) -> (res: &'static str)
        ensures
            res@ == self.text(),
    {
        match self {
            StartupError::NoRoot => "scan ended without producing a root",
            StartupError::Disconnected => "scan worker ended unexpectedly",
        }
    }
}

/// The state of the first scan.
#[derive(Debug)]
pub struct Startup {
    /// Whether the user asked for the scan to stop.
    pub cancel_requested: bool,
    /// How far the scan had come when it stopped.
    pub canceled: Option<ScanProgressSnapshot>,
}

/// The contents of the state of the first scan.
pub struct StartupState {
    pub cancel_requested: bool,
    pub canceled: Option<Progress>,
}

impl View for Startup {
    type V = StartupState;

    open spec fn view(&self) -> StartupState {
        StartupState {
            cancel_requested: self.cancel_requested,
            canceled: match self.canceled {
                Some(snapshot) => Some(snapshot@),
                None => None,
            },
        }
    }
}

/// The state of a scan that has just begun.
pub open spec fn scan_begun() -> StartupState {
    StartupState { cancel_requested: false, canceled: None }
}

/// What follows from news of the first scan.
#[derive(Debug)]
pub enum StartupStep {
    Continue,
    Finished(EntryNode),
    Failed(StartupError),
}

/// The contents of what follows from news of the first scan.
pub enum StepModel {
    Continue,
    Finished(Tree),
    Failed(StartupError),
}

impl View for StartupStep {
    type V = StepModel;

    open spec fn view(&self) -> StepModel {
        match *self {
            StartupStep::Continue => StepModel::Continue,
            StartupStep::Finished(node) => StepModel::Finished(node@),
            StartupStep::Failed(error) => StepModel::Failed(error),
        }
    }
}

/// What follows from news of the first scan, given how far it has come.
pub open spec fn heard(
    s: StartupState,
    news: Received<ControlledScan>,
    progress: Progress,
) -> (StartupState, StepModel) {
    match news {
        Received::Nothing => (s, StepModel::Continue),
        _ if s.canceled is Some => (s, StepModel::Continue),
        Received::Disconnected => (s, StepModel::Failed(StartupError::Disconnected)),
        Received::Outcome(scan) => match scan@.root {
            Some(tree) => (s, StepModel::Finished(tree)),
            None => if scan@.canceled {
                (
                    StartupState { cancel_requested: false, canceled: Some(progress) },
                    StepModel::Continue,
                )
            } else {
                (s, StepModel::Failed(StartupError::NoRoot))
            },
        },
    }
}

/// A scan that found something ends the wait with its tree, canceled or not; one
/// that was canceled before it found anything waits for the user, who sees how
/// far it came; one that is lost, or found nothing without a reason, fails. What
/// is heard behind a canceled scan counts for nothing.
pub proof fn lemma_heard(s: StartupState, news: Received<ControlledScan>, progress: Progress)
    ensures
        s.canceled is Some || news is Nothing ==> heard(s, news, progress) == (
            s,
            StepModel::Continue,
        ),
        s.canceled is None ==> (news matches Received::Outcome(scan) ==> {
            let (to, step) = heard(s, news, progress);
            &&& scan@.root matches Some(tree) ==> step == StepModel::Finished(tree) && to == s
            &&& scan@.root is None && scan@.canceled ==> step is Continue && to.canceled == Some(
                progress,
            ) && !to.cancel_requested
            &&& scan@.root is None && !scan@.canceled ==> step == StepModel::Failed(
                StartupError::NoRoot,
            )
        }),
        s.canceled is None && news is Disconnected ==> heard(s, news, progress).1
            == StepModel::Failed(StartupError::Disconnected),
{
}

/// What follows from a key during the first scan.
#[derive(Clone, Copy, Debug, PartialEq, Eq, Structural)]
pub enum StartupAction {
    Nothing,
    /// The scan is to stop, and the run to end.
    Quit,
    /// The scan is to stop.
    Cancel,
    /// Another scan is to begin.
    Restart,
}

/// Whether a key ends the run.
pub open spec fn quits(key: KeyPress) -> bool {
    key.code == KeyCode::Char('q') || (key.code == KeyCode::Char('c') && key.control)
}

/// What a key does during the first scan.
pub open spec fn startup_pressed(s: StartupState, key: KeyPress) -> (StartupState, StartupAction) {
    if quits(key) {
        (s, StartupAction::Quit)
    } else if s.canceled is Some {
        if key.code == KeyCode::Char('r') {
            (scan_begun(), StartupAction::Restart)
        } else {
            (s, StartupAction::Nothing)
        }
    } else if key.code == KeyCode::Esc {
        (StartupState { cancel_requested: true, ..s }, StartupAction::Cancel)
    } else {
        (s, StartupAction::Nothing)
    }
}

impl Startup {
    /// The state of a scan that has just begun.
    pub fn new() -> (res: Self)
        ensures
            res@ == scan_begun(),
    {
        Startup { cancel_requested: false, canceled: None }
    }

    /// The progress to show: that of the running scan, or where it stopped.
    pub fn shown_progress(&self, running: ScanProgressSnapshot) -> (res: ScanProgressSnapshot)
        ensures
            res@ == match self@.canceled {
                Some(stopped) => stopped,
                None => running@,
            },
    {
        match &self.canceled {
            Some(stopped) => stopped.clone(),
            None => running,
        }
    }

    /// Takes note of what was heard of the scan, given how far it has come. A
    /// canceled scan that still found something is taken as it is.
    pub fn hear(&mut self, received: Received<ControlledScan>, progress: ScanProgressSnapshot)
        -> (res: StartupStep)
        ensures
            match (old(self)@.canceled, received) {
                (Some(_), _) | (None, Received::Nothing) => res == StartupStep::Continue
                    && final(self)@ == old(self)@,
                (None, Received::Disconnected) => res == StartupStep::Failed(
                    StartupError::Disconnected,
                ) && final(self)@ == old(self)@,
                (None, Received::Outcome(scan)) => match scan@.root {
                    Some(tree) => (res matches StartupStep::Finished(node) && node@ == tree)
                        && final(self)@ == old(self)@,
                    None => if scan@.canceled {
                        res == StartupStep::Continue && final(self)@ == (StartupState {
                            cancel_requested: false,
                            canceled: Some(progress@),
                        })
                    } else {
                        res == StartupStep::Failed(StartupError::NoRoot) && final(self)@
                            == old(self)@
                    },
                },
            },
            (final(self)@, res@) == heard(old(self)@, received, progress@),
    {
        if self.canceled.is_some() {
            return StartupStep::Continue;
        }
        match received {
            Received::Nothing => StartupStep::Continue,
            Received::Disconnected => StartupStep::Failed(StartupError::Disconnected),
            Received::Outcome(scan) => match scan.root {
                Some(node) => StartupStep::Finished(node),
                None => {
                    if scan.canceled {
                        self.canceled = Some(progress);
                        self.cancel_requested = false;
                        StartupStep::Continue
                    } else {
                        StartupStep::Failed(StartupError::NoRoot)
                    }
                },
            },
        }
    }

    /// Answers a key, with what is to be done for it.
    pub fn handle_key(&mut self, key: KeyPress) -> (res: StartupAction)
        ensures
            (final(self)@, res) == startup_pressed(old(self)@, key),
    {
        let quit = match key.code {
            KeyCode::Char('q') => true,
            KeyCode::Char('c') => key.control,
            _ => false,
        };
        if quit {
            StartupAction::Quit
        } else if self.canceled.is_some() {
            match key.code {
                KeyCode::Char('r') => {
                    self.cancel_requested = false;
                    self.canceled = None;
                    StartupAction::Restart
                },
                _ => StartupAction::Nothing,
            }
        } else {
            match key.code {
                KeyCode::Esc => {
                    self.cancel_requested = true;
                    StartupAction::Cancel
                },
                _ => StartupAction::Nothing,
            }
        }
    }
}

/// The run can be ended at any time, and a canceled scan always be begun again.
pub proof fn lemma_startup_pressed(s: StartupState, key: KeyPress)
    ensures
        startup_pressed(s, key).1 == StartupAction::Quit <==> quits(key),
        s.canceled is Some && key.code == KeyCode::Char('r') ==> startup_pressed(s, key) == (
            scan_begun(),
            StartupAction::Restart,
        ),
        startup_pressed(s, key).1 == StartupAction::Restart ==> s.canceled is Some,
        startup_pressed(s, key).1 == StartupAction::Cancel <==> s.canceled is None && key.code
            == KeyCode::Esc,
{
}

/// What each key does during the first scan: q, and c with the control key, end
/// the run; the escape key asks the scan to stop; r begins a stopped one again;
/// everything else does nothing.
pub proof fn lemma_startup_keys(s: StartupState, key: KeyPress)
    ensures
        ({
            let ends = key.code == KeyCode::Char('q') || (key.code == KeyCode::Char('c')
                && key.control);
            let (to, action) = startup_pressed(s, key);
            &&& ends <==> action == StartupAction::Quit
            &&& ends ==> to == s
            &&& s.canceled is None && key.code == KeyCode::Esc ==> action == StartupAction::Cancel
                && to.cancel_requested && to.canceled is None
            &&& s.canceled is Some && key.code == KeyCode::Char('r') ==> action
                == StartupAction::Restart && !to.cancel_requested && to.canceled is None
            &&& !ends && !(s.canceled is None && key.code == KeyCode::Esc) && !(s.canceled is Some
                && key.code == KeyCode::Char('r')) ==> action == StartupAction::Nothing && to == s
        }),
{
}

} // verus!
