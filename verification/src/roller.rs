//! The state of a log roller, and what each write does to it.
use crate::calendar::{
    has_four_digit_year, law_next_boundary_is_first, law_next_boundary_on_the_clock,
    lemma_next_boundary, no_percent, strftime,
    DateTime, TimeView,
};
use crate::error::{ErrorView, LogPath, LogRollerError, PathView};
use crate::meta::{
    age_format, age_name, is_dated_name, is_present, law_names_sort_by_time, names_good,
    LogRollerMeta, MetaView,
};
use crate::numbering::{largest_number, largest_number_of, rotated_name};
use crate::rollover::{refresh_steps, FilePlan, FileStep, PlanView};
use crate::rotation::{Rotation, RotationAge, RotationSize};
use crate::text::{decimal, sorts_before, texts};
use crate::thread_pool::{
    can_read, pool_failure, pool_failure_text, read_task, PoolState, TaskState,
};
use crossbeam_channel::Receiver;
use vstd::prelude::*;

verus! {

/// The state of a log roller.
#[derive(Debug)]
pub struct LogRollerState {
    /// The next number under size-based rotation.
    pub next_size_based_index: usize,
    /// The time of the next rotation under age-based rotation.
    pub next_age_based_time: DateTime,
    /// The file to which the log is written.
    pub curr_file_path: LogPath,
    /// What counts under size-based rotation: the size of the log file in bytes. Under
    /// age-based rotation it starts with the size of the file that has the configured
    /// name, which is another file, and nothing depends on it.
    pub curr_file_size_bytes: u64,
}

/// A state as the contracts see it.
pub struct StateView {
    pub next_size_based_index: usize,
    pub next_age_based_time: TimeView,
    pub curr_file_path: PathView,
    pub curr_file_size_bytes: u64,
}

impl View for LogRollerState {
    type V = StateView;

    open spec fn view(&self) -> StateView {
        StateView {
            next_size_based_index: self.next_size_based_index,
            next_age_based_time: self.next_age_based_time@,
            curr_file_path: self.curr_file_path@,
            curr_file_size_bytes: self.curr_file_size_bytes,
        }
    }
}

impl LogRollerState {
    /// The number behind the largest number of a rotated file, compressed or not,
    /// among the names in the log directory: one where there is no such file.
    pub fn get_next_size_based_index(names: &Vec<String>, filename: &str) -> (r: usize)
        requires
            largest_number(texts(names@), filename@) < usize::MAX,
        ensures
            r == largest_number(texts(names@), filename@) + 1,
    {
        largest_number_of(names, filename) + 1
    }

    /// The size of the log file: what its metadata say, or zero where it is not
    /// there.
    pub fn get_curr_size_based_file_size(size: Option<u64>) -> (r: u64)
        ensures
            r == match size {
                Some(bytes) => bytes,
                None => 0,
            },
    {
        match size {
            Some(bytes) => bytes,
            None => 0,
        }
    }
}

/// The number, but no more than the number of files to keep.
pub open spec fn capped(index: int, max_keep_files: Option<u64>) -> int {
    match max_keep_files {
        Some(max) => if index < max as usize {
            index
        } else {
            max as usize as int
        },
        None => index,
    }
}

/// The name of the file for which it is time at `now`: the log file is rotated to
/// it under size-based rotation, and the log goes on in it under age-based
/// rotation. `None` where it is not yet time to rotate.
pub open spec fn due(m: MetaView, s: StateView, now: TimeView) -> Option<Seq<char>> {
    match m.rotation {
        Rotation::SizeBased(size) => if s.curr_file_size_bytes >= size.in_bytes() {
            Some(rotated_name(m.filename, 1))
        } else {
            None
        },
        Rotation::AgeBased(age) => if now.reached(s.next_age_based_time) {
            age_name(m, age, s.next_age_based_time)
        } else {
            None
        },
    }
}

/// The path is the one for which it is time at `now`.
pub open spec fn is_due(m: MetaView, s: StateView, now: TimeView, path: Option<LogPath>) -> bool {
    match due(m, s, now) {
        Some(name) => path matches Some(p) && p@ == m.path(name),
        None => path is None,
    }
}

/// A log roller as the contracts see it.
pub struct RollerView {
    pub meta: MetaView,
    pub state: StateView,
    /// The channel on which the processing of the file that was rotated last tells
    /// its end, unless a flush has waited for it.
    pub pending: Option<Receiver<()>>,
}

impl RollerView {
    /// What every log roller keeps: files have names, the compression level is
    /// valid, the next number is within the number of files to keep, times are in
    /// the configured time zone, and the log file of size-based rotation is the one
    /// that is configured.
    pub open spec fn valid(self) -> bool {
        &&& names_good(self.meta)
        &&& self.meta.compression matches Some(c) ==> c.level_valid()
        &&& self.meta.max_keep_files matches Some(max) ==> self.state.next_size_based_index
            <= max as usize
        &&& self.state.next_age_based_time.valid()
        &&& self.state.next_age_based_time.offset == self.meta.time_zone
        &&& self.meta.rotation is SizeBased ==> self.state.curr_file_path == self.meta.path(
            self.meta.filename,
        )
    }

    /// The log roller after `bytes` bytes were written.
    pub open spec fn written(self, bytes: int) -> RollerView {
        RollerView {
            state: StateView {
                curr_file_size_bytes: (self.state.curr_file_size_bytes + bytes) as u64,
                ..self.state
            },
            ..self
        }
    }

    /// The log roller after the log was rotated to `new_path`, at the time `now`,
    /// where `done` is the channel on which the processing tells its end.
    pub open spec fn rotated(
        self,
        new_path: PathView,
        now: TimeView,
        done: Receiver<()>,
    ) -> RollerView {
        let state = match self.meta.rotation {
            Rotation::SizeBased(_) => StateView {
                next_size_based_index: capped(
                    self.state.next_size_based_index + 1,
                    self.meta.max_keep_files,
                ) as usize,
                curr_file_size_bytes: 0,
                ..self.state
            },
            Rotation::AgeBased(age) => StateView {
                next_age_based_time: now.next_boundary(age),
                curr_file_path: new_path,
                curr_file_size_bytes: 0,
                ..self.state
            },
        };
        RollerView { meta: self.meta, state, pending: Some(done) }
    }

    /// The next number can be counted on, and so can the time of the next rotation
    /// after `now`.
    pub open spec fn can_rotate(self, now: TimeView) -> bool {
        match self.meta.rotation {
            Rotation::SizeBased(_) => self.state.next_size_based_index < usize::MAX,
            Rotation::AgeBased(age) => now.can_advance(age) && now.offset == self.meta.time_zone,
        }
    }
}

/// A log roller that rolls over logs based on size or age.
///
/// It holds no file: whoever writes the log tells it what was written, and carries
/// out the rotations for which it asks.
#[derive(Debug)]
pub struct LogRoller {
    meta: LogRollerMeta,
    state: LogRollerState,
    pending_compression: Option<Receiver<()>>,
}

impl View for LogRoller {
    type V = RollerView;

    closed spec fn view(&self) -> RollerView {
        RollerView {
            meta: self.meta@,
            state: self.state@,
            pending: self.pending_compression,
        }
    }
}

impl LogRoller {
    /// What every log roller keeps.
    #[verifier::type_invariant]
    pub open spec fn well_formed(self) -> bool {
        self@.valid()
    }

    /// A log roller with nothing rotated yet.
    pub(crate) fn start(
        meta: LogRollerMeta,
        next_index: usize,
        next_age_based_time: DateTime,
        curr_file_path: LogPath,
        size: u64,
    ) -> (r: LogRoller)
        requires
            names_good(meta@),
            meta@.compression matches Some(c) ==> c.level_valid(),
            next_age_based_time@.offset == meta@.time_zone,
            meta@.rotation is SizeBased ==> curr_file_path@ == meta@.path(meta@.filename),
        ensures
            r@ == (RollerView {
                meta: meta@,
                state: StateView {
                    next_size_based_index: capped(
                        next_index as int,
                        meta@.max_keep_files,
                    ) as usize,
                    next_age_based_time: next_age_based_time@,
                    curr_file_path: curr_file_path@,
                    curr_file_size_bytes: size,
                },
                pending: None,
            }),
    {
        proof {
            use_type_invariant(&next_age_based_time);
        }
        let next_size_based_index: usize = cap(next_index, meta.max_keep_files);
        LogRoller {
            meta,
            state: LogRollerState {
                next_size_based_index,
                next_age_based_time,
                curr_file_path,
                curr_file_size_bytes: size,
            },
            pending_compression: None,
        }
    }

    /// The configuration.
    pub fn meta(&self) -> (r: &LogRollerMeta)
        ensures
            r@ == self@.meta,
    {
        &self.meta
    }

    /// The state.
    pub fn state(&self) -> (r: &LogRollerState)
        ensures
            r@ == self@.state,
    {
        &self.state
    }

    /// The path of the new log file if the log is to be rolled over at `now`,
    /// otherwise `None`.
    pub fn should_rollover_at(
        meta: &LogRollerMeta,
        state: &LogRollerState,
        now: &DateTime,
    ) -> (r: Option<LogPath>)
        requires
            meta@.rotation.countable(),
            names_good(meta@),
        ensures
            is_due(meta@, state@, now@, r),
            meta@.rotation matches Rotation::AgeBased(age) ==> (r matches Some(path)
                ==> is_dated_name(meta@, age, state@.next_age_based_time, path@.name)),
    {
        match &meta.rotation {
            Rotation::SizeBased(rotation_size) => {
                if state.curr_file_size_bytes >= rotation_size.bytes() {
                    return Some(meta.rotated_path(1));
                }
            },
            Rotation::AgeBased(rotation_age) => {
                let next_time = state.next_age_based_time;
                if now.has_reached(&next_time) {
                    proof {
                        use_type_invariant(&next_time);
                        let t = next_time@;
                        assert(strftime(
                            age_format(meta@.filename, *rotation_age),
                            t.secs,
                            t.nanos,
                            t.offset,
                        ) is Some);
                    }
                    return Some(meta.get_next_age_based_log_path(rotation_age, &next_time));
                }
            },
        }
        None
    }

    /// The path of the new log file if the log is to be rolled over now, otherwise
    /// `None`.
    pub fn should_rollover(meta: &LogRollerMeta, state: &LogRollerState) -> (r: Option<LogPath>)
        requires
            meta@.rotation.countable(),
            names_good(meta@),
        ensures
            exists|now: TimeView|
                #![trigger is_due(meta@, state@, now, r)]
                {
                    &&& meta@.rotation is AgeBased ==> is_present(meta@, now)
                    &&& is_due(meta@, state@, now, r)
                },
            meta@.rotation matches Rotation::AgeBased(age) ==> (r matches Some(path)
                ==> is_dated_name(meta@, age, state@.next_age_based_time, path@.name)),
    {
        match &meta.rotation {
            Rotation::SizeBased(_) => LogRoller::should_rollover_at(
                meta,
                state,
                &state.next_age_based_time,
            ),
            Rotation::AgeBased(_) => {
                let now = meta.now();
                LogRoller::should_rollover_at(meta, state, &now)
            },
        }
    }
}

/// The path to which the log is to be rotated after a write, at the time `now`:
/// none while the processing of the file that was rotated last is still running,
/// by what is seen of it.
pub open spec fn is_due_after_write(
    v: RollerView,
    seen: TaskState,
    now: TimeView,
    path: Option<LogPath>,
) -> bool {
    if v.pending is Some && seen is Running {
        path is None
    } else {
        is_due(v.meta, v.state, now, path)
    }
}

/// The index, but no more than the number of files to keep.
fn cap(index: usize, max_keep_files: Option<u64>) -> (r: usize)
    ensures
        r == capped(index as int, max_keep_files),
{
    match max_keep_files {
        Some(max) => {
            let max: usize = max as usize;
            if index < max {
                index
            } else {
                max
            }
        },
        None => index,
    }
}

impl LogRoller {
    /// Counts the bytes that were written.
    fn count(&mut self, bytes: usize)
        requires
            old(self)@.state.curr_file_size_bytes + bytes <= u64::MAX,
        ensures
            final(self)@ == old(self)@.written(bytes as int),
    {
        proof {
            use_type_invariant(&*self);
        }
        self.state.curr_file_size_bytes = self.state.curr_file_size_bytes + bytes as u64;
    }

    /// Counts the bytes that were written to the log file, and returns the path to
    /// which the log is to be rotated, at the time `now`.
    ///
    /// `seen` is what is seen of the processing of the file that was rotated last.
    pub fn after_write_at(&mut self, bytes: usize, seen: TaskState, now: &DateTime) -> (r: Option<
        LogPath,
    >)
        requires
            old(self)@.state.curr_file_size_bytes + bytes <= u64::MAX,
            old(self)@.meta.rotation.countable(),
        ensures
            final(self)@ == old(self)@.written(bytes as int),
            is_due_after_write(final(self)@, seen, now@, r),
            old(self)@.meta.rotation matches Rotation::AgeBased(age) ==> (r matches Some(path)
                ==> is_dated_name(
                old(self)@.meta,
                age,
                old(self)@.state.next_age_based_time,
                path@.name,
            )),
    {
        self.count(bytes);
        if self.pending_compression.is_some() {
            if let TaskState::Running = seen {
                return None;
            }
        }
        proof {
            use_type_invariant(&*self);
        }
        LogRoller::should_rollover_at(&self.meta, &self.state, now)
    }

    /// Counts the bytes that were written to the log file, and returns the path to
    /// which the log is to be rotated now.
    ///
    /// Looks whether the processing of the file that was rotated last is still
    /// running, and reads the clock where rotation goes by age.
    pub fn after_write(&mut self, bytes: usize) -> (r: Option<LogPath>)
        requires
            old(self)@.state.curr_file_size_bytes + bytes <= u64::MAX,
            old(self)@.meta.rotation.countable(),
        ensures
            final(self)@ == old(self)@.written(bytes as int),
            exists|seen: TaskState, now: TimeView|
                #![trigger is_due_after_write(final(self)@, seen, now, r)]
                {
                    &&& old(self)@.pending matches Some(done) ==> can_read(done, seen)
                    &&& old(self)@.meta.rotation is AgeBased && !(old(self)@.pending is Some
                        && seen is Running) ==> is_present(old(self)@.meta, now)
                    &&& is_due_after_write(final(self)@, seen, now, r)
                },
            old(self)@.meta.rotation matches Rotation::AgeBased(age) ==> (r matches Some(path)
                ==> is_dated_name(
                old(self)@.meta,
                age,
                old(self)@.state.next_age_based_time,
                path@.name,
            )),
    {
        let seen = match &self.pending_compression {
            Some(done) => read_task(done),
            None => TaskState::Gone,
        };
        let now = match (&self.meta.rotation, seen) {
            (Rotation::SizeBased(_), _) => self.state.next_age_based_time,
            (Rotation::AgeBased(_), TaskState::Running) => self.state.next_age_based_time,
            (Rotation::AgeBased(_), _) => self.meta.now(),
        };
        self.after_write_at(bytes, seen, &now)
    }

    /// The plan of the rotation to `new_path`: none where the worker pool cannot
    /// take a task, in which case the rotation is put off. Without a worker pool
    /// there is a message instead.
    pub fn begin_rollover(&self, pool: PoolState, new_path: LogPath) -> (r: Result<
        Option<FilePlan>,
        String,
    >)
        ensures
            match pool {
                PoolState::Unavailable(error) => r matches Err(message) && message@ == pool_failure(
                    error@,
                ),
                PoolState::Full => r matches Ok(None),
                PoolState::Ready => r matches Ok(Some(plan)) && plan@ == PlanView::begin(
                    refresh_steps(
                        self@.meta,
                        self@.state.curr_file_path,
                        new_path@,
                        self@.state.next_size_based_index as nat,
                        self@.meta.compression,
                    ),
                ),
            },
            r matches Ok(Some(plan)) ==> {
                &&& plan@.at == 0 && !plan@.probed && plan@.steps.len() >= 5
                &&& plan@.steps[0] == (FileStep::Submit {
                    path: match self@.meta.rotation {
                        Rotation::SizeBased(_) => new_path@,
                        Rotation::AgeBased(_) => self@.state.curr_file_path,
                    },
                })
                &&& plan@.steps[plan@.steps.len() - 4] == (FileStep::CreateLog {
                    path: match self@.meta.rotation {
                        Rotation::SizeBased(_) => PathView {
                            directory: self@.meta.directory,
                            name: self@.meta.filename,
                        },
                        Rotation::AgeBased(_) => new_path@,
                    },
                })
            },
    {
        match pool {
            PoolState::Unavailable(error) => Err(pool_failure_text(error.as_str())),
            PoolState::Full => Ok(None),
            PoolState::Ready => {
                let plan = self.meta.refresh_writer(
                    &Ok(()),
                    self.state.curr_file_path.clone(),
                    new_path,
                    self.state.next_size_based_index,
                    &self.meta.compression,
                );
                match plan {
                    Ok(plan) => Ok(Some(plan)),
                    Err(_) => Ok(None),
                }
            },
        }
    }

    /// Takes note of what came of the rotation to `new_path`, at the time `now`. A
    /// rotation that succeeded comes with the channel on which the processing of
    /// the rotated file tells its end.
    ///
    /// A rotation whose task the pool did not take is put off; any other failure
    /// is returned. Neither changes the log roller.
    pub fn finish_rollover_at(
        &mut self,
        new_path: LogPath,
        outcome: Result<Receiver<()>, LogRollerError>,
        now: &DateTime,
    ) -> (r: Result<(), LogRollerError>)
        requires
            outcome is Ok ==> old(self)@.can_rotate(now@),
        ensures
            match outcome {
                Ok(done) => r is Ok && final(self)@ == old(self)@.rotated(new_path@, now@, done),
                Err(LogRollerError::RotationQueueFull) => r is Ok && final(self)@ == old(self)@,
                Err(error) => r == Err::<(), LogRollerError>(error) && final(self)@ == old(self)@,
            },
    {
        let done = match outcome {
            Ok(done) => done,
            Err(LogRollerError::RotationQueueFull) => {
                return Ok(());
            },
            Err(error) => {
                return Err(error);
            },
        };
        proof {
            use_type_invariant(&*self);
            use_type_invariant(now);
        }
        match self.meta.rotation {
            Rotation::SizeBased(_) => {
                let next: usize = cap(
                    self.state.next_size_based_index + 1,
                    self.meta.max_keep_files,
                );
                self.state.next_size_based_index = next;
                self.state.curr_file_size_bytes = 0;
                self.pending_compression = Some(done);
                Ok(())
            },
            Rotation::AgeBased(rotation_age) => {
                let next = self.meta.next_time(*now, rotation_age);
                match next {
                    Ok(next_time) => {
                        proof {
                            use_type_invariant(&next_time);
                        }
                        self.state.next_age_based_time = next_time;
                        self.state.curr_file_path = new_path;
                        self.state.curr_file_size_bytes = 0;
                        self.pending_compression = Some(done);
                        Ok(())
                    },
                    Err(error) => Err(error),
                }
            },
        }
    }

    /// Takes note of what came of the rotation to `new_path`, now.
    ///
    /// Differs from `finish_rollover_at` only in that it reads the clock, and that
    /// a clock which shows a time beyond the calendar is an error.
    pub fn finish_rollover(
        &mut self,
        new_path: LogPath,
        outcome: Result<Receiver<()>, LogRollerError>,
    ) -> (r: Result<(), LogRollerError>)
        requires
            outcome is Ok && old(self)@.meta.rotation is SizeBased
                ==> old(self)@.state.next_size_based_index < usize::MAX,
        ensures
            match outcome {
                Ok(done) => exists|now: TimeView|
                    #![trigger old(self)@.rotated(new_path@, now, done)]
                    {
                        &&& old(self)@.meta.rotation is AgeBased ==> is_present(
                            old(self)@.meta,
                            now,
                        )
                        &&& if old(self)@.can_rotate(now) {
                            r is Ok && final(self)@ == old(self)@.rotated(new_path@, now, done)
                        } else {
                            (r matches Err(e) && e@ == ErrorView::GetNaiveTimeFailed)
                                && final(self)@ == old(self)@
                        }
                    },
                Err(LogRollerError::RotationQueueFull) => r is Ok && final(self)@ == old(self)@,
                Err(error) => r == Err::<(), LogRollerError>(error) && final(self)@ == old(self)@,
            },
    {
        proof {
            use_type_invariant(&*self);
        }
        let now = match (&self.meta.rotation, &outcome) {
            (Rotation::AgeBased(_), Ok(_)) => self.meta.now(),
            _ => self.state.next_age_based_time,
        };
        if let (Rotation::AgeBased(age), Ok(_)) = (&self.meta.rotation, &outcome) {
            if !now.is_advanceable(*age) {
                assert(old(self)@.rotated(new_path@, now@, outcome->Ok_0).pending is Some);
                return Err(LogRollerError::GetNaiveTimeFailed);
            }
        }
        self.finish_rollover_at(new_path, outcome, &now)
    }

    /// What a flush of the log is to wait for: the processing of the file that was
    /// rotated last, only where that is configured, and once for each rotation.
    pub fn flush(&mut self) -> (wait: Option<Receiver<()>>)
        ensures
            wait == (if old(self)@.meta.graceful_shutdown {
                old(self)@.pending
            } else {
                None
            }),
            final(self)@ == (RollerView {
                pending: if old(self)@.meta.graceful_shutdown {
                    None
                } else {
                    old(self)@.pending
                },
                ..old(self)@
            }),
    {
        proof {
            use_type_invariant(&*self);
        }
        if !self.meta.graceful_shutdown {
            return None;
        }
        let mut pending: Option<Receiver<()>> = None;
        std::mem::swap(&mut pending, &mut self.pending_compression);
        pending
    }
}

/// The validity of a log roller is kept by writes and by rotations.
pub proof fn law_log_roller_stays_valid(
    v: RollerView,
    bytes: int,
    new_path: PathView,
    now: TimeView,
    done: Receiver<()>,
)
    requires
        v.valid(),
    ensures
        v.written(bytes).valid(),
        now.valid() && v.can_rotate(now) ==> v.rotated(new_path, now, done).valid(),
{
    if now.valid() && v.can_rotate(now) {
        if let Rotation::AgeBased(age) = v.meta.rotation {
            lemma_boundary_is_covered(now, age);
        }
    }
}

/// The beginning of the next period is covered where the instant one period on is.
proof fn lemma_boundary_is_covered(t: TimeView, age: RotationAge)
    requires
        t.valid(),
        t.can_advance(age),
    ensures
        t.next_boundary(age).valid(),
{
    law_next_boundary_is_first(t, age);
}

/// While the file that was rotated last is seen to be processed, the log is not
/// rotated.
pub proof fn law_one_processing_at_a_time(
    v: RollerView,
    bytes: int,
    now: TimeView,
    path: Option<LogPath>,
)
    requires
        v.pending is Some,
        is_due_after_write(v.written(bytes), TaskState::Running, now, path),
    ensures
        path is None,
{
}

/// Under size-based rotation, unless a processing was seen to run, the log is rotated
/// after a write if and only if the bytes that were counted before and those of the
/// write reach the threshold together, whatever the time is. It is rotated to the file
/// with the number one in the log directory.
pub proof fn law_rotation_at_size(
    v: RollerView,
    size: RotationSize,
    bytes: int,
    seen: TaskState,
    now: TimeView,
    path: Option<LogPath>,
)
    requires
        v.meta.rotation == Rotation::SizeBased(size),
        0 <= bytes,
        v.state.curr_file_size_bytes + bytes <= u64::MAX,
        !(v.pending is Some && seen is Running),
        is_due_after_write(v.written(bytes), seen, now, path),
    ensures
        path is Some <==> v.state.curr_file_size_bytes + bytes >= match size {
            RotationSize::Bytes(n) => n as int,
            RotationSize::KB(n) => n * 1024,
            RotationSize::MB(n) => n * 1024 * 1024,
            RotationSize::GB(n) => n * 1024 * 1024 * 1024,
        },
        path matches Some(p) ==> p@ == (PathView {
            directory: v.meta.directory,
            name: v.meta.filename + seq!['.', '1'],
        }),
{
    reveal_with_fuel(decimal, 2);
    assert(decimal(1) =~= seq!['1']);
    assert(rotated_name(v.meta.filename, 1) =~= v.meta.filename + seq!['.', '1']);
}

/// What a write and a rotation change of a log roller, and what they leave. A write
/// adds its bytes to the count. A rotation by size goes on to the next number, but
/// never beyond the number of files to keep, and to no other time or log file; one by
/// age goes on to the new file and to the next boundary, and to no other number. Both
/// begin to count anew, and keep the channel of the processing.
pub proof fn law_what_a_rotation_changes(
    v: RollerView,
    bytes: int,
    new_path: PathView,
    now: TimeView,
    done: Receiver<()>,
)
    requires
        0 <= bytes,
        v.state.curr_file_size_bytes + bytes <= u64::MAX,
        now.valid(),
        v.can_rotate(now),
    ensures
        ({
            let w = v.written(bytes);
            &&& w.meta == v.meta && w.pending == v.pending
            &&& w.state.curr_file_size_bytes == v.state.curr_file_size_bytes + bytes
            &&& w.state.next_size_based_index == v.state.next_size_based_index
            &&& w.state.next_age_based_time == v.state.next_age_based_time
            &&& w.state.curr_file_path == v.state.curr_file_path
        }),
        ({
            let w = v.rotated(new_path, now, done);
            &&& w.meta == v.meta && w.pending == Some(done)
            &&& w.state.curr_file_size_bytes == 0
            &&& v.meta.rotation is SizeBased ==> {
                let next = v.state.next_size_based_index + 1;
                &&& w.state.next_size_based_index == (match v.meta.max_keep_files {
                    Some(max) if next > max as usize => max as usize as int,
                    _ => next,
                })
                &&& w.state.next_age_based_time == v.state.next_age_based_time
                &&& w.state.curr_file_path == v.state.curr_file_path
            }
            &&& v.meta.rotation matches Rotation::AgeBased(age) ==> {
                &&& w.state.next_size_based_index == v.state.next_size_based_index
                &&& w.state.curr_file_path == new_path
                &&& now.secs < w.state.next_age_based_time.secs
                &&& w.state.next_age_based_time.nanos == 0
                &&& w.state.next_age_based_time.offset == now.offset
                &&& w.state.next_age_based_time.secs + now.offset == match age {
                    RotationAge::Minutely => ((now.secs + now.offset) / 60 + 1) * 60,
                    RotationAge::Hourly => ((now.secs + now.offset) / 3600 + 1) * 3600,
                    RotationAge::Daily => ((now.secs + now.offset) / 86400 + 1) * 86400,
                }
            }
        }),
{
    if let Rotation::AgeBased(age) = v.meta.rotation {
        law_next_boundary_on_the_clock(now, age);
        lemma_next_boundary(now, age);
    }
}

/// A rotation can be finished unless the next number could not be counted, or the
/// calendar ends within a period of the time, in UTC or in local time.
pub proof fn law_when_a_rotation_can_be_finished(v: RollerView, now: TimeView)
    ensures
        v.meta.rotation is SizeBased ==> (v.can_rotate(now) <==> v.state.next_size_based_index
            < usize::MAX),
        v.meta.rotation matches Rotation::AgeBased(age) ==> ({
            let later = now.secs + match age {
                RotationAge::Minutely => 60int,
                RotationAge::Hourly => 3600int,
                RotationAge::Daily => 86400int,
            };
            v.can_rotate(now) <==> now.offset == v.meta.time_zone && later <= 8210266876799
                && -8334601228800 <= later + now.offset <= 8210266876799
        }),
{
}

/// Under size-based rotation the log is rotated if and only if the log file has
/// reached the threshold. After a rotation that takes as many bytes again.
pub proof fn law_rotation_at_threshold(
    v: RollerView,
    size: RotationSize,
    new_path: PathView,
    bytes: int,
    now: TimeView,
    later: TimeView,
    done: Receiver<()>,
)
    requires
        v.meta.rotation == Rotation::SizeBased(size),
        0 <= bytes <= u64::MAX,
    ensures
        due(v.meta, v.state, now) is Some <==> v.state.curr_file_size_bytes >= size.in_bytes(),
        ({
            let w = v.rotated(new_path, now, done).written(bytes);
            due(w.meta, w.state, later) is Some <==> bytes >= size.in_bytes()
        }),
{
}

/// Under age-based rotation, unless a processing was seen to run, the log is rotated
/// after a write if and only if the scheduled time has been reached, whatever the size
/// of the log file. The log then goes on in the file of the scheduled time, and the next
/// time is the next boundary, which has not been reached. Otherwise the log file and
/// the scheduled time stay.
pub proof fn law_rotation_at_scheduled_time(
    v: RollerView,
    age: RotationAge,
    bytes: int,
    seen: TaskState,
    now: TimeView,
    path: Option<LogPath>,
    done: Receiver<()>,
)
    requires
        v.valid(),
        v.meta.rotation == Rotation::AgeBased(age),
        !(v.pending is Some && seen is Running),
        now.valid(),
        is_due_after_write(v.written(bytes), seen, now, path),
    ensures
        path is Some <==> now.reached(v.state.next_age_based_time),
        path is Some <==> now.secs * 1000000000 + now.nanos
            >= v.state.next_age_based_time.secs * 1000000000 + v.state.next_age_based_time.nanos,
        path matches Some(p) ==> {
            let w = v.written(bytes).rotated(p@, now, done);
            &&& age_name(v.meta, age, v.state.next_age_based_time) matches Some(name) && p@
                == v.meta.path(name)
            &&& w.state.curr_file_path == p@
            &&& w.state.next_age_based_time == now.next_boundary(age)
            &&& !now.reached(w.state.next_age_based_time)
        },
        v.written(bytes).state.curr_file_path == v.state.curr_file_path,
        v.written(bytes).state.next_age_based_time == v.state.next_age_based_time,
{
    let time = v.state.next_age_based_time;
    assert(strftime(
        age_format(v.meta.filename, age),
        time.secs,
        time.nanos,
        time.offset,
    ) is Some);
    law_next_boundary_is_first(now, age);
}

/// After an age-based rotation the next one is due as soon as the next minute,
/// hour or day of the configured time zone has begun, and not before.
pub proof fn law_one_rotation_per_period(
    v: RollerView,
    age: RotationAge,
    new_path: PathView,
    now: TimeView,
    later: TimeView,
    done: Receiver<()>,
)
    requires
        v.valid(),
        v.meta.rotation == Rotation::AgeBased(age),
        v.can_rotate(now),
        now.valid(),
        later.valid(),
        later.offset == v.meta.time_zone,
    ensures
        ({
            let w = v.rotated(new_path, now, done);
            due(w.meta, w.state, later) is Some <==> later.period_of(age) > now.period_of(age)
        }),
{
    let next = now.next_boundary(age);
    lemma_boundary_is_covered(now, age);
    lemma_next_boundary(now, age);
    assert(strftime(
        age_format(v.meta.filename, age),
        next.secs,
        next.nanos,
        next.offset,
    ) is Some);
    assert(later.reached(next) <==> later.local() >= next.local());
    match age {
        RotationAge::Minutely => lemma_begun(now.local() / 60, later.local(), 60),
        RotationAge::Hourly => lemma_begun(now.local() / 3600, later.local(), 3600),
        RotationAge::Daily => lemma_begun(now.local() / 86400, later.local(), 86400),
    }
}

/// The period behind the period `q` has begun at `t` if and only if `t` lies in a
/// period behind `q`.
proof fn lemma_begun(q: int, t: int, period: int)
    requires
        period > 0,
    ensures
        t >= (q + 1) * period <==> t / period > q,
{
    assert(t >= (q + 1) * period <==> t / period > q) by (nonlinear_arith)
        requires
            period > 0,
    ;
}

/// Each age-based rotation goes to a file whose period lies behind that of the
/// file before, and whose name sorts behind, whatever further extension each of
/// them has.
pub proof fn law_rotations_go_forward(
    v: RollerView,
    age: RotationAge,
    new_path: PathView,
    now: TimeView,
    a: Seq<char>,
    b: Seq<char>,
    x: Seq<char>,
    y: Seq<char>,
    done: Receiver<()>,
)
    requires
        v.valid(),
        v.meta.rotation == Rotation::AgeBased(age),
        v.can_rotate(now),
        now.valid(),
        now.reached(v.state.next_age_based_time),
    ensures
        ({
            let this = v.state.next_age_based_time;
            let next = v.rotated(new_path, now, done).state.next_age_based_time;
            &&& this.period_of(age) < next.period_of(age)
            &&& no_percent(v.meta.filename) && has_four_digit_year(this) && has_four_digit_year(next)
                && is_dated_name(v.meta, age, this, a) && is_dated_name(v.meta, age, next, b)
                ==> sorts_before(a + x, b + y)
        }),
{
    let this = v.state.next_age_based_time;
    let next = now.next_boundary(age);
    law_next_boundary_is_first(now, age);
    assert(this.period_of(age) <= now.period_of(age)) by {
        match age {
            RotationAge::Minutely => {
                assert(this.local() / 60 <= now.local() / 60);
            },
            RotationAge::Hourly => {
                assert(this.local() / 3600 <= now.local() / 3600);
            },
            RotationAge::Daily => {
                assert(this.local() / 86400 <= now.local() / 86400);
            },
        }
    }
    if no_percent(v.meta.filename) && has_four_digit_year(this) && has_four_digit_year(next)
        && is_dated_name(v.meta, age, this, a) && is_dated_name(v.meta, age, next, b) {
        law_names_sort_by_time(v.meta, age, this, next, a, b, x, y);
    }
}

/// A rotation that is put off stays due, to the same file, however much is written
/// and however late it is.
pub proof fn law_put_off_rotation_stays_due(
    v: RollerView,
    bytes: int,
    now: TimeView,
    later: TimeView,
)
    requires
        due(v.meta, v.state, now) is Some,
        0 <= bytes,
        v.state.curr_file_size_bytes + bytes <= u64::MAX,
        later.reached(now),
    ensures
        due(v.meta, v.written(bytes).state, later) == due(v.meta, v.state, now),
{
}

} // verus!
