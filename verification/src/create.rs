//! How a log file is opened, step by step.
use crate::error::{ErrorView, LogPath, LogRollerError, PathView};
use crate::meta::{LogRollerMeta, MetaView};
use crate::text::text_of;
use vstd::prelude::*;

verus! {

/// What is to be done next to open a log file.
#[derive(Debug)]
pub enum CreateAction<P, T> {
    /// Open the file for appending, and make it where it is not there.
    Open { path: P },
    /// Make the directory, and those above it.
    MakeDirectory { directory: T },
    /// Set the permissions of the file.
    SetMode { path: P, mode: u32 },
    /// Nothing: the file is open.
    Finish,
}

impl View for CreateAction<LogPath, String> {
    type V = CreateAction<PathView, Seq<char>>;

    open spec fn view(&self) -> CreateAction<PathView, Seq<char>> {
        match self {
            CreateAction::Open { path } => CreateAction::Open { path: path@ },
            CreateAction::MakeDirectory { directory } => CreateAction::MakeDirectory {
                directory: directory@,
            },
            CreateAction::SetMode { path, mode } => CreateAction::SetMode {
                path: path@,
                mode: *mode,
            },
            CreateAction::Finish => CreateAction::Finish,
        }
    }
}

/// What came of an action.
#[derive(Debug)]
pub enum CreateEvent {
    /// It is done.
    Done,
    /// The file could not be opened. `parent` is the directory in which it would
    /// lie, if its path has one.
    OpenFailed { parent: Option<String>, error: String },
    /// The directory could not be made, or the permissions not be set.
    Failed(String),
}

/// An event as the contracts see it.
pub enum CreateEventView {
    Done,
    OpenFailed { parent: Option<Seq<char>>, error: Seq<char> },
    Failed(Seq<char>),
}

impl View for CreateEvent {
    type V = CreateEventView;

    open spec fn view(&self) -> CreateEventView {
        match self {
            CreateEvent::Done => CreateEventView::Done,
            CreateEvent::OpenFailed { parent, error } => CreateEventView::OpenFailed {
                parent: text_of(*parent),
                error: error@,
            },
            CreateEvent::Failed(error) => CreateEventView::Failed(error@),
        }
    }
}

/// How far the opening of a log file has come.
#[derive(Debug)]
pub enum Stage<T> {
    /// The file is opened for the first time.
    First,
    /// That failed, and the directory is made.
    Parent { directory: T },
    /// The file is opened again.
    Second,
    /// The file is open and gets its permissions.
    Mode { mode: u32 },
    /// All is done.
    Opened,
}

/// The opening of a log file as the contracts see it.
pub struct CreateView {
    pub path: PathView,
    pub mode: Option<u32>,
    pub stage: Stage<Seq<char>>,
}

impl CreateView {
    /// Nothing is done yet.
    pub open spec fn begin(m: MetaView, path: PathView) -> CreateView {
        CreateView { path, mode: m.file_mode, stage: Stage::First }
    }

    /// What is to be done next.
    pub open spec fn action(self) -> CreateAction<PathView, Seq<char>> {
        match self.stage {
            Stage::First => CreateAction::Open { path: self.path },
            Stage::Parent { directory } => CreateAction::MakeDirectory { directory },
            Stage::Second => CreateAction::Open { path: self.path },
            Stage::Mode { mode } => CreateAction::SetMode { path: self.path, mode },
            Stage::Opened => CreateAction::Finish,
        }
    }

    /// The stage behind the opening of the file.
    pub open spec fn opened(self) -> CreateView {
        CreateView {
            stage: match self.mode {
                Some(mode) => Stage::Mode { mode },
                None => Stage::Opened,
            },
            ..self
        }
    }

    /// The event is one that can come of the present action.
    pub open spec fn allows(self, event: CreateEventView) -> bool {
        match event {
            CreateEventView::Done => !(self.action() is Finish),
            CreateEventView::OpenFailed { .. } => self.action() is Open,
            CreateEventView::Failed(_) => self.action() is MakeDirectory
                || self.action() is SetMode,
        }
    }

    /// Where the event leads: to the next stage, or to an error.
    ///
    /// A file that cannot be opened is opened once more after its directory was
    /// made.
    pub open spec fn after(self, event: CreateEventView) -> Result<CreateView, ErrorView> {
        match event {
            CreateEventView::Done => match self.stage {
                Stage::Parent { .. } => Ok(CreateView { stage: Stage::Second, ..self }),
                Stage::Mode { .. } => Ok(CreateView { stage: Stage::Opened, ..self }),
                _ => Ok(self.opened()),
            },
            CreateEventView::OpenFailed { parent, error } => match (self.stage, parent) {
                (Stage::First, Some(directory)) => Ok(
                    CreateView { stage: Stage::Parent { directory }, ..self },
                ),
                _ => Err(ErrorView::CreateFileFailed(self.path, error)),
            },
            CreateEventView::Failed(error) => match self.stage {
                Stage::Parent { directory } => Err(
                    ErrorView::CreateDirectoryFailed(directory, error),
                ),
                _ => Err(ErrorView::SetFilePermissionsError { path: self.path, error }),
            },
        }
    }
}

/// The opening of a log file.
#[derive(Debug)]
pub struct CreatePlan {
    path: LogPath,
    mode: Option<u32>,
    stage: Stage<String>,
}

impl View for CreatePlan {
    type V = CreateView;

    closed spec fn view(&self) -> CreateView {
        CreateView {
            path: self.path@,
            mode: self.mode,
            stage: match self.stage {
                Stage::First => Stage::First,
                Stage::Parent { directory } => Stage::Parent { directory: directory@ },
                Stage::Second => Stage::Second,
                Stage::Mode { mode } => Stage::Mode { mode },
                Stage::Opened => Stage::Opened,
            },
        }
    }
}

impl CreatePlan {
    /// What is to be done next.
    pub fn action(&self) -> (r: CreateAction<LogPath, String>)
        ensures
            r@ == self@.action(),
    {
        match &self.stage {
            Stage::First => CreateAction::Open { path: self.path.clone() },
            Stage::Parent { directory } => CreateAction::MakeDirectory {
                directory: directory.clone(),
            },
            Stage::Second => CreateAction::Open { path: self.path.clone() },
            Stage::Mode { mode } => CreateAction::SetMode { path: self.path.clone(), mode: *mode },
            Stage::Opened => CreateAction::Finish,
        }
    }

    /// Goes on after the event that came of the present action, or ends with an
    /// error, which leaves the plan where it was.
    pub fn advance(&mut self, event: CreateEvent) -> (r: Result<(), LogRollerError>)
        requires
            old(self)@.allows(event@),
        ensures
            match old(self)@.after(event@) {
                Ok(next) => r is Ok && final(self)@ == next,
                Err(error) => r matches Err(e) && e@ == error && final(self)@ == old(self)@,
            },
    {
        let behind_open = match self.mode {
            Some(mode) => Stage::Mode { mode },
            None => Stage::Opened,
        };
        match event {
            CreateEvent::Done => {
                self.stage = match &self.stage {
                    Stage::Parent { .. } => Stage::Second,
                    Stage::Mode { .. } => Stage::Opened,
                    _ => behind_open,
                };
                Ok(())
            },
            CreateEvent::OpenFailed { parent, error } => match (&self.stage, parent) {
                (Stage::First, Some(directory)) => {
                    self.stage = Stage::Parent { directory };
                    Ok(())
                },
                _ => Err(LogRollerError::CreateFileFailed(self.path.clone(), error)),
            },
            CreateEvent::Failed(error) => match &self.stage {
                Stage::Parent { directory } => Err(
                    LogRollerError::CreateDirectoryFailed(directory.clone(), error),
                ),
                _ => Err(LogRollerError::SetFilePermissionsError { path: self.path.clone(), error }),
            },
        }
    }
}

impl LogRollerMeta {
    /// The plan that opens the log file at `log_path` for appending.
    ///
    /// A file that is not there is made, and so is its directory.
    pub fn create_log_file(&self, log_path: &LogPath) -> (r: CreatePlan)
        ensures
            r@ == CreateView::begin(self@, log_path@),
            r@.path == log_path@,
            r@.mode == self@.file_mode,
            r@.stage is First,
    {
        CreatePlan { path: log_path.clone(), mode: self.file_mode, stage: Stage::First }
    }
}

/// What the file system answers while a log file is opened: for each action the
/// message of its error, or `None` where it succeeds.
pub struct Answers {
    /// To the first opening, with the directory in which the file would lie.
    pub first: Option<(Option<Seq<char>>, Seq<char>)>,
    /// To the making of the directory.
    pub directory: Option<Seq<char>>,
    /// To the second opening.
    pub second: Option<Seq<char>>,
    /// To the setting of the permissions.
    pub mode: Option<Seq<char>>,
}

/// The event that comes of the present action.
pub open spec fn answered(plan: CreateView, answers: Answers) -> CreateEventView {
    match plan.stage {
        Stage::First => match answers.first {
            Some((parent, error)) => CreateEventView::OpenFailed { parent, error },
            None => CreateEventView::Done,
        },
        Stage::Second => match answers.second {
            Some(error) => CreateEventView::OpenFailed { parent: None, error },
            None => CreateEventView::Done,
        },
        Stage::Parent { .. } => match answers.directory {
            Some(error) => CreateEventView::Failed(error),
            None => CreateEventView::Done,
        },
        _ => match answers.mode {
            Some(error) => CreateEventView::Failed(error),
            None => CreateEventView::Done,
        },
    }
}

/// How many actions can still be asked for at most.
pub open spec fn actions_left(stage: Stage<Seq<char>>) -> nat {
    match stage {
        Stage::First => 4,
        Stage::Parent { .. } => 3,
        Stage::Second => 2,
        Stage::Mode { .. } => 1,
        Stage::Opened => 0,
    }
}

/// What comes of carrying out the plan.
pub open spec fn carried_out(plan: CreateView, answers: Answers) -> Result<(), ErrorView>
    decreases actions_left(plan.stage),
{
    if plan.stage is Opened {
        Ok(())
    } else {
        match plan.after(answered(plan, answers)) {
            Ok(next) => carried_out(next, answers),
            Err(error) => Err(error),
        }
    }
}

/// The actions that are asked for while the plan is carried out, in their order.
pub open spec fn asked_for(plan: CreateView, answers: Answers) -> Seq<
    CreateAction<PathView, Seq<char>>,
>
    decreases actions_left(plan.stage),
{
    if plan.stage is Opened {
        Seq::empty()
    } else {
        seq![plan.action()] + match plan.after(answered(plan, answers)) {
            Ok(next) => asked_for(next, answers),
            Err(_) => Seq::empty(),
        }
    }
}

/// What is asked for to open a log file: to open the file at the path that was given;
/// where that fails and the path has a directory, to make that directory and to open
/// the file again; and behind the opening, only where a mode is configured, to give
/// the very same file that very mode. Nothing else is asked for, and nothing behind a
/// failure that ends the plan.
pub proof fn law_log_file_gets_its_mode(m: MetaView, path: PathView, answers: Answers)
    ensures
        asked_for(CreateView::begin(m, path), answers) == ({
            let opening = seq![CreateAction::<PathView, Seq<char>>::Open { path }];
            let mode = match m.file_mode {
                Some(mode) => seq![CreateAction::<PathView, Seq<char>>::SetMode { path, mode }],
                None => Seq::<CreateAction<PathView, Seq<char>>>::empty(),
            };
            match answers.first {
                None => opening + mode,
                Some((None, _)) => opening,
                Some((Some(directory), _)) => {
                    let made = opening + seq![
                        CreateAction::<PathView, Seq<char>>::MakeDirectory { directory },
                    ];
                    match (answers.directory, answers.second) {
                        (Some(_), _) => made,
                        (None, Some(_)) => made + opening,
                        (None, None) => made + opening + mode,
                    }
                },
            }
        }),
{
    reveal_with_fuel(asked_for, 5);
    let all = asked_for(CreateView::begin(m, path), answers);
    let opening = seq![CreateAction::<PathView, Seq<char>>::Open { path }];
    let mode = match m.file_mode {
        Some(mode) => seq![CreateAction::<PathView, Seq<char>>::SetMode { path, mode }],
        None => Seq::<CreateAction<PathView, Seq<char>>>::empty(),
    };
    match answers.first {
        None => {
            assert(all =~= opening + mode);
        },
        Some((None, _)) => {
            assert(all =~= opening);
        },
        Some((Some(directory), _)) => {
            let made = opening + seq![
                CreateAction::<PathView, Seq<char>>::MakeDirectory { directory },
            ];
            match (answers.directory, answers.second) {
                (Some(_), _) => {
                    assert(all =~= made);
                },
                (None, Some(_)) => {
                    assert(all =~= made + opening);
                },
                (None, None) => {
                    assert(all =~= made + opening + mode);
                },
            }
        },
    }
}

/// A log file is opened where it can be, at once or after its directory was made,
/// and where its permissions, if any are configured, can be set. Else the error
/// says what failed.
pub proof fn law_create_log_file(m: MetaView, path: PathView, answers: Answers)
    ensures
        carried_out(CreateView::begin(m, path), answers) == ({
            let permitted: Result<(), ErrorView> = match (m.file_mode, answers.mode) {
                (Some(_), Some(error)) => Err(ErrorView::SetFilePermissionsError { path, error }),
                _ => Ok(()),
            };
            match answers.first {
                None => permitted,
                Some((None, error)) => Err(ErrorView::CreateFileFailed(path, error)),
                Some((Some(parent), _)) => match (answers.directory, answers.second) {
                    (Some(error), _) => Err(ErrorView::CreateDirectoryFailed(parent, error)),
                    (None, Some(error)) => Err(ErrorView::CreateFileFailed(path, error)),
                    (None, None) => permitted,
                },
            }
        }),
{
    reveal_with_fuel(carried_out, 5);
}

} // verus!
