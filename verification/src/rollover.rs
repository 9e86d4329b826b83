//! What is done to files when a log is rotated, step by step.
//!
//! A plan holds the steps in their order. Whoever carries it out asks the plan
//! for the next action, performs it, and tells the plan what came of it.
use crate::error::{ErrorView, LogPath, LogRollerError, PathView};
use crate::meta::{dotted, LogRollerMeta, MetaView};
use crate::numbering::{packed_name, rotated_name};
use crate::rotation::{Compression, Rotation};
use crate::text::{decimal, decimal_string};
use crate::thread_pool::{pool_failure, pool_failure_text, SubmitError};
use vstd::prelude::*;

verus! {

/// A step of a plan.
#[derive(Debug)]
pub enum FileStep<P> {
    /// Queue the processing of old logs, which compresses the file at `path`.
    Submit { path: P },
    /// Rename a file that may not be there. A file at `to` is overwritten.
    Shift { from: P, to: P },
    /// Rename a file. A file at `to` is overwritten.
    Move { from: P, to: P },
    /// Open a log file for appending, and make it where it is not there.
    CreateLog { path: P },
    /// Flush the file to which the log is written.
    Flush,
    /// Write the log to the file that was opened from now on.
    Switch,
    /// Let the queued processing of old logs begin.
    Start,
    /// Open a file for reading.
    Open { path: P },
    /// Make a file, empty, whether it was there or not.
    CreateNew { path: P },
    /// Write the compressed contents of the file at `from` to the file at `to`.
    Encode { from: P, to: P, compression: Compression },
    /// Set the permissions of a file.
    SetMode { path: P, mode: u32 },
    /// Remove a file.
    Remove { path: P },
}

impl View for FileStep<LogPath> {
    type V = FileStep<PathView>;

    open spec fn view(&self) -> FileStep<PathView> {
        match self {
            FileStep::Submit { path } => FileStep::Submit { path: path@ },
            FileStep::Shift { from, to } => FileStep::Shift { from: from@, to: to@ },
            FileStep::Move { from, to } => FileStep::Move { from: from@, to: to@ },
            FileStep::CreateLog { path } => FileStep::CreateLog { path: path@ },
            FileStep::Flush => FileStep::Flush,
            FileStep::Switch => FileStep::Switch,
            FileStep::Start => FileStep::Start,
            FileStep::Open { path } => FileStep::Open { path: path@ },
            FileStep::CreateNew { path } => FileStep::CreateNew { path: path@ },
            FileStep::Encode { from, to, compression } => FileStep::Encode {
                from: from@,
                to: to@,
                compression: *compression,
            },
            FileStep::SetMode { path, mode } => FileStep::SetMode { path: path@, mode: *mode },
            FileStep::Remove { path } => FileStep::Remove { path: path@ },
        }
    }
}

/// The steps as the contracts see them.
pub open spec fn steps_of(v: Seq<FileStep<LogPath>>) -> Seq<FileStep<PathView>> {
    v.map_values(|s: FileStep<LogPath>| s@)
}

/// What is to be done next.
#[derive(Debug)]
pub enum FileAction<P> {
    /// See whether there is a file.
    Probe { path: P },
    /// Rename a file. A file at `to` is overwritten.
    Rename { from: P, to: P },
    /// The step itself.
    Perform { step: FileStep<P> },
    /// Nothing: the plan is carried out.
    Finish,
}

impl View for FileAction<LogPath> {
    type V = FileAction<PathView>;

    open spec fn view(&self) -> FileAction<PathView> {
        match self {
            FileAction::Probe { path } => FileAction::Probe { path: path@ },
            FileAction::Rename { from, to } => FileAction::Rename { from: from@, to: to@ },
            FileAction::Perform { step } => FileAction::Perform { step: step@ },
            FileAction::Finish => FileAction::Finish,
        }
    }
}

/// What came of an action.
#[derive(Debug)]
pub enum FileEvent {
    /// It is done. After a probe: the file is there.
    Done,
    /// After a probe: the file is not there.
    Absent,
    /// After a step that queues a task: the pool did not take it.
    Rejected(SubmitError),
    /// After a step that opens a log file: that failed.
    CreateFailed(LogRollerError),
    /// After any other action: it failed, with this message.
    Failed(String),
}

/// An event as the contracts see it.
pub enum EventView {
    Done,
    Absent,
    Rejected(SubmitError),
    CreateFailed(ErrorView),
    Failed(Seq<char>),
}

impl View for FileEvent {
    type V = EventView;

    open spec fn view(&self) -> EventView {
        match self {
            FileEvent::Done => EventView::Done,
            FileEvent::Absent => EventView::Absent,
            FileEvent::Rejected(error) => EventView::Rejected(*error),
            FileEvent::CreateFailed(error) => EventView::CreateFailed(error@),
            FileEvent::Failed(error) => EventView::Failed(error@),
        }
    }
}

/// The event is one that can come of the action.
pub open spec fn can_follow(action: FileAction<PathView>, event: EventView) -> bool {
    match event {
        EventView::Done => !(action is Finish),
        EventView::Absent => action is Probe,
        EventView::Rejected(_) => action matches FileAction::Perform { step } && step is Submit,
        EventView::CreateFailed(_) => action matches FileAction::Perform { step }
            && step is CreateLog,
        EventView::Failed(_) => match action {
            FileAction::Rename { .. } => true,
            FileAction::Perform { step } => step is Flush || step is Open || step is CreateNew
                || step is Encode || step is SetMode || step is Remove,
            _ => false,
        },
    }
}

/// The error with which a plan ends that fails at the action, or `None` where the
/// event is no failure.
pub open spec fn failure(action: FileAction<PathView>, event: EventView) -> Option<ErrorView> {
    match event {
        EventView::Done => None,
        EventView::Absent => None,
        EventView::Rejected(error) => Some(error.rotation_error()),
        EventView::CreateFailed(error) => Some(error),
        EventView::Failed(error) => match action {
            FileAction::Rename { from, to } => Some(ErrorView::RenameFileError { from, to, error }),
            FileAction::Perform { step: FileStep::SetMode { path, .. } } => Some(
                ErrorView::SetFilePermissionsError { path, error },
            ),
            _ => Some(ErrorView::FileIOError(error)),
        },
    }
}

/// A plan as the contracts see it.
pub struct PlanView {
    /// All steps.
    pub steps: Seq<FileStep<PathView>>,
    /// How many of them are done.
    pub at: int,
    /// The file that the present step renames was found to be there.
    pub probed: bool,
}

impl PlanView {
    /// The plan with none of its steps done.
    pub open spec fn begin(steps: Seq<FileStep<PathView>>) -> PlanView {
        PlanView { steps, at: 0, probed: false }
    }

    /// No more steps are done than there are.
    pub open spec fn valid(self) -> bool {
        0 <= self.at <= self.steps.len()
    }

    /// What is to be done next.
    pub open spec fn action(self) -> FileAction<PathView> {
        if self.at >= self.steps.len() {
            FileAction::Finish
        } else {
            match self.steps[self.at] {
                FileStep::Shift { from, to } => if self.probed {
                    FileAction::Rename { from, to }
                } else {
                    FileAction::Probe { path: from }
                },
                FileStep::Move { from, to } => FileAction::Rename { from, to },
                step => FileAction::Perform { step },
            }
        }
    }

    /// The plan after the event, which is no failure.
    pub open spec fn after(self, event: EventView) -> PlanView {
        if self.action() is Probe && event is Done {
            PlanView { probed: true, ..self }
        } else {
            PlanView { at: self.at + 1, probed: false, ..self }
        }
    }
}

/// Steps on files, and how many of them are done.
#[derive(Debug)]
pub struct FilePlan {
    steps: Vec<FileStep<LogPath>>,
    at: usize,
    probed: bool,
}

impl View for FilePlan {
    type V = PlanView;

    closed spec fn view(&self) -> PlanView {
        PlanView { steps: steps_of(self.steps@), at: self.at as int, probed: self.probed }
    }
}

impl Clone for FileStep<LogPath> {
    fn clone(&self) -> (r: Self)
        ensures
            r@ == self@,
    {
        match self {
            FileStep::Submit { path } => FileStep::Submit { path: path.clone() },
            FileStep::Shift { from, to } => FileStep::Shift { from: from.clone(), to: to.clone() },
            FileStep::Move { from, to } => FileStep::Move { from: from.clone(), to: to.clone() },
            FileStep::CreateLog { path } => FileStep::CreateLog { path: path.clone() },
            FileStep::Flush => FileStep::Flush,
            FileStep::Switch => FileStep::Switch,
            FileStep::Start => FileStep::Start,
            FileStep::Open { path } => FileStep::Open { path: path.clone() },
            FileStep::CreateNew { path } => FileStep::CreateNew { path: path.clone() },
            FileStep::Encode { from, to, compression } => FileStep::Encode {
                from: from.clone(),
                to: to.clone(),
                compression: *compression,
            },
            FileStep::SetMode { path, mode } => FileStep::SetMode {
                path: path.clone(),
                mode: *mode,
            },
            FileStep::Remove { path } => FileStep::Remove { path: path.clone() },
        }
    }
}

impl FilePlan {
    /// No more steps are done than there are.
    #[verifier::type_invariant]
    pub open spec fn well_formed(self) -> bool {
        self@.valid()
    }

    /// The plan with none of its steps done.
    fn of_steps(steps: Vec<FileStep<LogPath>>) -> (r: FilePlan)
        ensures
            r@ == PlanView::begin(steps_of(steps@)),
    {
        FilePlan { steps, at: 0, probed: false }
    }

    /// What is to be done next.
    pub fn action(&self) -> (r: FileAction<LogPath>)
        ensures
            r@ == self@.action(),
    {
        proof {
            use_type_invariant(self);
        }
        if self.at >= self.steps.len() {
            return FileAction::Finish;
        }
        let step = &self.steps[self.at];
        assert(self@.steps[self.at as int] == step@);
        match step {
            FileStep::Shift { from, to } => if self.probed {
                FileAction::Rename { from: from.clone(), to: to.clone() }
            } else {
                FileAction::Probe { path: from.clone() }
            },
            FileStep::Move { from, to } => FileAction::Rename {
                from: from.clone(),
                to: to.clone(),
            },
            other => FileAction::Perform { step: other.clone() },
        }
    }

    /// Goes on after the event that came of the present action, or ends with the
    /// error of a failure, which leaves the plan where it was.
    pub fn advance(&mut self, event: FileEvent) -> (r: Result<(), LogRollerError>)
        requires
            can_follow(old(self)@.action(), event@),
        ensures
            match failure(old(self)@.action(), event@) {
                Some(error) => r matches Err(e) && e@ == error && final(self)@ == old(self)@,
                None => r is Ok && final(self)@ == old(self)@.after(event@),
            },
            r is Ok <==> event@ is Done || event@ is Absent,
            final(self)@.steps == old(self)@.steps,
            match event@ {
                EventView::Rejected(SubmitError::QueueFull) => r == Err::<(), LogRollerError>(
                    LogRollerError::RotationQueueFull,
                ),
                EventView::Rejected(SubmitError::Disconnected) => r matches Err(e) && e@
                    is InternalError,
                EventView::CreateFailed(error) => r matches Err(e) && e@ == error,
                EventView::Failed(message) => match old(self)@.action() {
                    FileAction::Rename { from, to } => r matches Err(e) && e@ == (
                    ErrorView::RenameFileError { from, to, error: message }),
                    FileAction::Perform { step: FileStep::SetMode { path, .. } } => r matches Err(e)
                        && e@ == (ErrorView::SetFilePermissionsError { path, error: message }),
                    _ => r matches Err(e) && e@ == ErrorView::FileIOError(message),
                },
                _ => true,
            },
    {
        proof {
            use_type_invariant(&*self);
        }
        let action = self.action();
        let count: usize = self.steps.len();
        assert(steps_of(self.steps@).len() == count);
        assert(failure(action@, event@) is None ==> self.at < count);
        match event {
            FileEvent::Done => {
                if let FileAction::Probe { .. } = action {
                    self.probed = true;
                } else {
                    self.probed = false;
                    self.at = self.at + 1;
                }
                Ok(())
            },
            FileEvent::Absent => {
                self.probed = false;
                self.at = self.at + 1;
                Ok(())
            },
            FileEvent::Rejected(error) => Err(error.to_rotation_error()),
            FileEvent::CreateFailed(error) => Err(error),
            FileEvent::Failed(error) => match action {
                FileAction::Rename { from, to } => Err(
                    LogRollerError::RenameFileError { from, to, error },
                ),
                FileAction::Perform { step: FileStep::SetMode { path, .. } } => Err(
                    LogRollerError::SetFilePermissionsError { path, error },
                ),
                _ => Err(LogRollerError::FileIOError(error)),
            },
        }
    }
}

/// The steps that give the rotated file with the number `i` the next number, and
/// the compressed file with it.
pub open spec fn shift_pair(m: MetaView, i: nat, compression: Option<Compression>) -> Seq<
    FileStep<PathView>,
> {
    let plain = FileStep::Shift {
        from: m.path(rotated_name(m.filename, i)),
        to: m.path(rotated_name(m.filename, i + 1)),
    };
    match compression {
        None => seq![plain],
        Some(c) => seq![
            plain,
            FileStep::Shift {
                from: m.path(packed_name(m.filename, i, c.extension())),
                to: m.path(packed_name(m.filename, i + 1, c.extension())),
            },
        ],
    }
}

/// The steps that give the rotated files with the numbers from `k` down to one
/// the next number, the largest number first.
pub open spec fn shift_steps(m: MetaView, k: nat, compression: Option<Compression>) -> Seq<
    FileStep<PathView>,
>
    decreases k,
{
    if k == 0 {
        Seq::empty()
    } else {
        shift_pair(m, k, compression) + shift_steps(m, (k - 1) as nat, compression)
    }
}

/// The steps of a rotation.
///
/// Under size-based rotation the numbered files below `next_index` move up by
/// one, the log file moves to `new_path`, and a new log file takes its place.
/// Under age-based rotation a log file is opened at `new_path`. In both, the old
/// file is flushed before the log goes to the new one, and the processing of the
/// file that was written last begins when all is done.
pub open spec fn refresh_steps(
    m: MetaView,
    old_path: PathView,
    new_path: PathView,
    next_index: nat,
    compression: Option<Compression>,
) -> Seq<FileStep<PathView>> {
    match m.rotation {
        Rotation::SizeBased(_) => seq![FileStep::Submit { path: new_path }] + shift_steps(
            m,
            if next_index > 0 {
                (next_index - 1) as nat
            } else {
                0
            },
            compression,
        ) + seq![
            FileStep::Move { from: m.path(m.filename), to: new_path },
            FileStep::CreateLog { path: m.path(m.filename) },
            FileStep::Flush,
            FileStep::Switch,
            FileStep::Start,
        ],
        Rotation::AgeBased(_) => seq![
            FileStep::Submit { path: old_path },
            FileStep::CreateLog { path: new_path },
            FileStep::Flush,
            FileStep::Switch,
            FileStep::Start,
        ],
    }
}

/// The path of the compressed file for the file at `path`.
pub open spec fn packed_path(path: PathView, compression: Compression) -> PathView {
    PathView { name: path.name + seq!['.'] + compression.extension(), ..path }
}

/// The step that gives a file the configured permissions, if any are configured.
pub open spec fn mode_steps(m: MetaView, path: PathView) -> Seq<FileStep<PathView>> {
    match m.file_mode {
        Some(mode) => seq![FileStep::SetMode { path, mode }],
        None => Seq::empty(),
    }
}

/// The steps that compress a file: the compressed file is written and gets its
/// permissions before the file itself is removed.
pub open spec fn compress_steps(m: MetaView, path: PathView) -> Seq<FileStep<PathView>> {
    match m.compression {
        None => Seq::empty(),
        Some(c) => seq![
            FileStep::Open { path },
            FileStep::CreateNew { path: packed_path(path, c) },
            FileStep::Encode { from: path, to: packed_path(path, c), compression: c },
        ] + mode_steps(m, packed_path(path, c)) + seq![FileStep::Remove { path }],
    }
}

impl LogRollerMeta {
    /// The path of the rotated file with the number `i`.
    pub(crate) fn rotated_path(&self, i: usize) -> (r: LogPath)
        ensures
            r@ == self@.path(rotated_name(self@.filename, i as nat)),
            r@.directory == self@.directory,
            r@.name == self@.filename + seq!['.'] + decimal(i as nat),
    {
        self.path(dotted(self.filename.as_str(), decimal_string(i).as_str()))
    }

    /// The path of the rotated file with the number `i` after it was compressed.
    fn packed_rotated_path(&self, i: usize, compression: &Compression) -> (r: LogPath)
        ensures
            r@ == self@.path(packed_name(self@.filename, i as nat, compression.extension())),
    {
        let rotated = self.rotated_path(i);
        self.path(dotted(rotated.name.as_str(), compression.get_extension()))
    }

    /// The step that sets the permissions of the file at `path`, if permissions are
    /// configured.
    pub fn set_permissions(&self, path: &LogPath) -> (r: Option<FileStep<LogPath>>)
        ensures
            match r {
                Some(step) => mode_steps(self@, path@) == seq![step@],
                None => mode_steps(self@, path@).len() == 0,
            },
            r is Some <==> self@.file_mode is Some,
            r matches Some(step) ==> step@ == (FileStep::SetMode {
                path: path@,
                mode: self@.file_mode->0,
            }),
    {
        match self.file_mode {
            Some(mode) => Some(FileStep::SetMode { path: path.clone(), mode }),
            None => None,
        }
    }

    /// The plan that compresses the file at `log_path`.
    pub fn compress(&self, log_path: &LogPath) -> (r: FilePlan)
        ensures
            r@ == PlanView::begin(compress_steps(self@, log_path@)),
    {
        let mut steps: Vec<FileStep<LogPath>> = Vec::new();
        if let Some(compression) = self.compression {
            let compressed_path = LogPath {
                directory: log_path.directory.clone(),
                name: dotted(log_path.name.as_str(), compression.get_extension()),
            };
            steps.push(FileStep::Open { path: log_path.clone() });
            steps.push(FileStep::CreateNew { path: compressed_path.clone() });
            steps.push(
                FileStep::Encode {
                    from: log_path.clone(),
                    to: compressed_path.clone(),
                    compression,
                },
            );
            if let Some(step) = self.set_permissions(&compressed_path) {
                steps.push(step);
            }
            steps.push(FileStep::Remove { path: log_path.clone() });
            assert(compressed_path@ == packed_path(log_path@, compression));
        }
        assert(steps_of(steps@) =~= compress_steps(self@, log_path@));
        FilePlan::of_steps(steps)
    }

    /// The plan of a rotation from the log file at `old_log_path`, unless there is
    /// no worker pool.
    ///
    /// `pool` says why the worker pool could not be started, if it could not.
    pub fn refresh_writer(
        &self,
        pool: &Result<(), String>,
        old_log_path: LogPath,
        new_log_path: LogPath,
        next_size_based_index: usize,
        compression: &Option<Compression>,
    ) -> (r: Result<FilePlan, LogRollerError>)
        ensures
            match *pool {
                Ok(()) => r matches Ok(plan) && plan@ == PlanView::begin(
                    refresh_steps(
                        self@,
                        old_log_path@,
                        new_log_path@,
                        next_size_based_index as nat,
                        *compression,
                    ),
                ),
                Err(error) => r matches Err(e) && e@ == ErrorView::InternalError(
                    pool_failure(error@),
                ),
            },
            r matches Ok(plan) ==> {
                &&& plan@.steps.len() >= 5
                &&& plan@.steps[0] == (FileStep::Submit {
                    path: match self@.rotation {
                        Rotation::SizeBased(_) => new_log_path@,
                        Rotation::AgeBased(_) => old_log_path@,
                    },
                })
                &&& plan@.steps[plan@.steps.len() - 4] == (FileStep::CreateLog {
                    path: match self@.rotation {
                        Rotation::SizeBased(_) => PathView {
                            directory: self@.directory,
                            name: self@.filename,
                        },
                        Rotation::AgeBased(_) => new_log_path@,
                    },
                })
            },
    {
        if let Err(error) = pool {
            return Err(LogRollerError::InternalError(pool_failure_text(error.as_str())));
        }
        let mut steps: Vec<FileStep<LogPath>> = Vec::new();
        match self.rotation {
            Rotation::SizeBased(_) => {
                let curr_log_path = self.path(self.filename.clone());
                steps.push(FileStep::Submit { path: new_log_path.clone() });
                let mut idx: usize = if next_size_based_index > 0 {
                    next_size_based_index - 1
                } else {
                    0
                };
                let ghost shifts = shift_steps(self@, idx as nat, *compression);
                let ghost first = seq![FileStep::Submit { path: new_log_path@ }];
                assert(steps_of(steps@) =~= first);
                assert(first + shifts =~= steps_of(steps@) + shifts);
                while idx > 0
                    invariant
                        idx <= next_size_based_index,
                        idx < usize::MAX,
                        first + shifts == steps_of(steps@) + shift_steps(
                            self@,
                            idx as nat,
                            *compression,
                        ),
                    decreases idx,
                {
                    let ghost before = steps_of(steps@);
                    steps.push(
                        FileStep::Shift {
                            from: self.rotated_path(idx),
                            to: self.rotated_path(idx + 1),
                        },
                    );
                    if let Some(c) = compression {
                        steps.push(
                            FileStep::Shift {
                                from: self.packed_rotated_path(idx, c),
                                to: self.packed_rotated_path(idx + 1, c),
                            },
                        );
                    }
                    proof {
                        let rest = shift_steps(self@, (idx - 1) as nat, *compression);
                        let pair = shift_pair(self@, idx as nat, *compression);
                        assert(steps_of(steps@) =~= before + pair);
                        assert(before + (pair + rest) =~= before + pair + rest);
                    }
                    idx = idx - 1;
                }
                assert(steps_of(steps@) + Seq::<FileStep<PathView>>::empty() =~= steps_of(steps@));
                steps.push(FileStep::Move { from: curr_log_path.clone(), to: new_log_path });
                steps.push(FileStep::CreateLog { path: curr_log_path });
                steps.push(FileStep::Flush);
                steps.push(FileStep::Switch);
                steps.push(FileStep::Start);
                assert(steps_of(steps@) =~= refresh_steps(
                    self@,
                    old_log_path@,
                    new_log_path@,
                    next_size_based_index as nat,
                    *compression,
                ));
            },
            Rotation::AgeBased(_) => {
                steps.push(FileStep::Submit { path: old_log_path });
                steps.push(FileStep::CreateLog { path: new_log_path });
                steps.push(FileStep::Flush);
                steps.push(FileStep::Switch);
                steps.push(FileStep::Start);
                assert(steps_of(steps@) =~= refresh_steps(
                    self@,
                    old_log_path@,
                    new_log_path@,
                    next_size_based_index as nat,
                    *compression,
                ));
            },
        }
        Ok(FilePlan::of_steps(steps))
    }
}

} // verus!
