//! A fluent interface for the configuration of log rollers.
use crate::calendar::{
    is_local_offset, law_next_boundary_is_first, no_percent, read_local_offset, strftime, DateTime,
    FixedOffset, TimeView,
};
use crate::error::{ErrorView, LogPath, LogRollerError};
use crate::meta::{
    age_format, age_name, is_dated_name, is_present, names_good, LogRollerMeta, MetaView, TimeZone,
};
use crate::numbering::largest_number;
use crate::roller::{
    capped, is_due_after_write, law_rotation_at_size, LogRoller, LogRollerState, RollerView,
    StateView,
};
use crate::rotation::{Compression, Rotation, RotationAge, RotationSize};
use crate::text::texts;
use crate::thread_pool::TaskState;
use vstd::prelude::*;

verus! {

/// The period by which the time of the first rotation is found: a day where
/// rotation goes by size.
pub open spec fn first_age(rotation: Rotation) -> RotationAge {
    match rotation {
        Rotation::AgeBased(age) => age,
        Rotation::SizeBased(_) => RotationAge::Daily,
    }
}

/// A log roller that starts with `names` in the log directory and `size` bytes in
/// the configured file. Its log file is named for the time `named_at`, and the
/// time of the next rotation follows `started_at`.
pub open spec fn initial(
    m: MetaView,
    names: Seq<Seq<char>>,
    size: Option<u64>,
    named_at: TimeView,
    started_at: TimeView,
) -> RollerView {
    RollerView {
        meta: m,
        state: StateView {
            next_size_based_index: capped(
                largest_number(names, m.filename) as int + 1,
                m.max_keep_files,
            ) as usize,
            next_age_based_time: started_at.next_boundary(first_age(m.rotation)),
            curr_file_path: m.path(m.current_name(named_at)->0),
            curr_file_size_bytes: match size {
                Some(bytes) => bytes,
                None => 0,
            },
        },
        pending: None,
    }
}

/// The error with which a configuration is refused.
pub open spec fn refusal(m: MetaView) -> Option<ErrorView> {
    match m.compression {
        Some(Compression::XZ(level)) => if level > 9 {
            Some(ErrorView::InvalidXZCompressionLevel { level })
        } else {
            None
        },
        _ => None,
    }
}

/// Provides a fluent interface for configuring log rollers.
///
/// Where nothing else is chosen, logs are rotated daily at midnight in the local
/// time zone, rotated files are not compressed, and all of them are kept.
#[derive(Debug)]
pub struct LogRollerBuilder {
    meta: LogRollerMeta,
}

impl View for LogRollerBuilder {
    type V = MetaView;

    closed spec fn view(&self) -> MetaView {
        self.meta@
    }
}

impl LogRollerBuilder {
    /// The default configuration for the log file `filename` in `directory`.
    pub fn new(directory: &str, filename: &str) -> (r: Self)
        ensures
            is_local_offset(r@.time_zone),
            -86400 < r@.time_zone < 86400,
            r@ == (MetaView {
                directory: directory@,
                filename: filename@,
                rotation: Rotation::AgeBased(RotationAge::Daily),
                time_zone: r@.time_zone,
                compression: None,
                max_keep_files: None,
                suffix: None,
                file_mode: None,
                graceful_shutdown: false,
            }),
    {
        LogRollerBuilder { meta: LogRollerMeta::new(directory, filename) }
    }

    /// The configuration so far.
    pub fn meta(&self) -> (r: &LogRollerMeta)
        ensures
            r@ == self@,
    {
        &self.meta
    }

    /// Set the time zone for the log files.
    pub fn time_zone(self, time_zone: TimeZone) -> (r: Self)
        ensures
            -86400 < r@.time_zone < 86400,
            match time_zone {
                TimeZone::UTC => r@.time_zone == 0,
                TimeZone::Local => is_local_offset(r@.time_zone),
                TimeZone::Fix(offset) => r@.time_zone == offset@,
            },
            r@ == (MetaView { time_zone: r@.time_zone, ..self@ }),
    {
        let offset = match time_zone {
            TimeZone::UTC => FixedOffset::east_opt(0).unwrap(),
            TimeZone::Local => read_local_offset(),
            TimeZone::Fix(fixed_offset) => fixed_offset,
        };
        proof {
            use_type_invariant(&offset);
        }
        LogRollerBuilder { meta: LogRollerMeta { time_zone: offset, ..self.meta } }
    }

    /// Set the rotation type for the log files.
    pub fn rotation(self, rotation: Rotation) -> (r: Self)
        ensures
            r@ == (MetaView { rotation, ..self@ }),
    {
        LogRollerBuilder { meta: LogRollerMeta { rotation, ..self.meta } }
    }

    /// Set the compression type for the log files.
    pub fn compression(self, compression: Compression) -> (r: Self)
        ensures
            r@ == (MetaView { compression: Some(compression), ..self@ }),
    {
        LogRollerBuilder { meta: LogRollerMeta { compression: Some(compression), ..self.meta } }
    }

    /// Set the maximum number of log files to keep.
    pub fn max_keep_files(self, max_keep_files: u64) -> (r: Self)
        ensures
            r@ == (MetaView { max_keep_files: Some(max_keep_files), ..self@ }),
    {
        LogRollerBuilder {
            meta: LogRollerMeta { max_keep_files: Some(max_keep_files), ..self.meta },
        }
    }

    /// Set the suffix for the log file.
    pub fn suffix(self, suffix: String) -> (r: Self)
        ensures
            r@ == (MetaView { suffix: Some(suffix@), ..self@ }),
    {
        LogRollerBuilder { meta: LogRollerMeta { suffix: Some(suffix), ..self.meta } }
    }

    /// Set the file permissions for log files, in the notation of chmod: 0o644 for
    /// rw-r--r--.
    pub fn file_mode(self, mode: u32) -> (r: Self)
        ensures
            r@ == (MetaView { file_mode: Some(mode), ..self@ }),
    {
        LogRollerBuilder { meta: LogRollerMeta { file_mode: Some(mode), ..self.meta } }
    }

    /// Set whether a flush of the log waits until compression and cleanup are done.
    /// Without that, a compressed file may be left incomplete at exit.
    pub fn graceful_shutdown(self, graceful_shutdown: bool) -> (r: Self)
        ensures
            r@ == (MetaView { graceful_shutdown, ..self@ }),
    {
        LogRollerBuilder { meta: LogRollerMeta { graceful_shutdown, ..self.meta } }
    }

    /// Builds the log roller.
    ///
    /// `names` are the names in the log directory, `size` the size of the
    /// configured file, if it is there. The log file is named for the time
    /// `named_at`, and the time of the next rotation follows `started_at`.
    pub fn build_at(
        self,
        names: &Vec<String>,
        size: Option<u64>,
        named_at: &DateTime,
        started_at: &DateTime,
    ) -> (r: Result<LogRoller, LogRollerError>)
        requires
            names_good(self@),
            largest_number(texts(names@), self@.filename) < usize::MAX,
            started_at@.can_advance(first_age(self@.rotation)),
            started_at@.offset == self@.time_zone,
        ensures
            match refusal(self@) {
                Some(error) => r matches Err(e) && e@ == error,
                None => r matches Ok(roller) && roller@ == initial(
                    self@,
                    texts(names@),
                    size,
                    named_at@,
                    started_at@,
                ),
            },
            self@.rotation matches Rotation::AgeBased(age) ==> (r matches Ok(roller)
                ==> is_dated_name(self@, age, named_at@, roller@.state.curr_file_path.name)),
            r is Err <==> (self@.compression matches Some(Compression::XZ(level)) && level > 9),
            r matches Err(e) ==> e@ == (ErrorView::InvalidXZCompressionLevel {
                level: self@.compression->0->XZ_0,
            }),
            r matches Ok(roller) ==> {
                let state = roller@.state;
                let number = largest_number(texts(names@), self@.filename) + 1;
                &&& roller@.meta == self@ && roller@.pending is None
                &&& state.curr_file_size_bytes == (match size {
                    Some(bytes) => bytes,
                    None => 0,
                })
                &&& state.next_size_based_index == (match self@.max_keep_files {
                    Some(max) if number > max as usize => max as usize as int,
                    _ => number as int,
                })
                &&& state.curr_file_path.directory == self@.directory
                &&& self@.rotation is SizeBased ==> state.curr_file_path.name == self@.filename
                &&& self@.rotation matches Rotation::AgeBased(age) ==> Some(
                    state.curr_file_path.name,
                ) == age_name(self@, age, named_at@)
                &&& state.next_age_based_time.offset == started_at@.offset
                &&& state.next_age_based_time.nanos == 0
                &&& self@.rotation matches Rotation::AgeBased(age) ==> {
                    let local = started_at@.secs + started_at@.offset;
                    state.next_age_based_time.secs + started_at@.offset == match age {
                        RotationAge::Minutely => (local / 60 + 1) * 60,
                        RotationAge::Hourly => (local / 3600 + 1) * 3600,
                        RotationAge::Daily => (local / 86400 + 1) * 86400,
                    }
                }
            },
    {
        proof {
            use_type_invariant(named_at);
            let t = named_at@;
            if let Rotation::AgeBased(age) = self@.rotation {
                assert(strftime(
                    age_format(self@.filename, age),
                    t.secs,
                    t.nanos,
                    t.offset,
                ) is Some);
            }
        }
        let curr_file_path = self.meta.get_curr_log_path_at(named_at);
        let index: usize = LogRollerState::get_next_size_based_index(
            names,
            self.meta.filename.as_str(),
        );
        if let Some(Compression::XZ(level)) = self.meta.compression {
            if level > 9 {
                return Err(LogRollerError::InvalidXZCompressionLevel { level });
            }
        }
        let age = match self.meta.rotation {
            Rotation::AgeBased(rotation_age) => rotation_age,
            Rotation::SizeBased(_) => RotationAge::Daily,
        };
        let next_age_based_time = match self.meta.next_time(*started_at, age) {
            Ok(time) => time,
            Err(error) => {
                return Err(error);
            },
        };
        Ok(
            LogRoller::start(
                self.meta,
                index,
                next_age_based_time,
                curr_file_path,
                LogRollerState::get_curr_size_based_file_size(size),
            ),
        )
    }

    /// Builds the log roller, now.
    ///
    /// `names` are the names in the log directory, `size` the size of the
    /// configured file, if it is there. Refused are compression levels that there
    /// are not, names of the log file that name no file for an instant, and a clock
    /// that shows a time beyond the calendar.
    pub fn build(self, names: &Vec<String>, size: Option<u64>) -> (r: Result<
        LogRoller,
        LogRollerError,
    >)
        requires
            largest_number(texts(names@), self@.filename) < usize::MAX,
        ensures
            no_percent(self@.filename) ==> names_good(self@),
            if !names_good(self@) {
                r matches Err(e) && e@ == ErrorView::GetNextFilePathError(
                    self@.path(self@.filename),
                )
            } else {
                exists|named_at: TimeView, started_at: TimeView|
                    #![trigger initial(self@, texts(names@), size, named_at, started_at)]
                    {
                        &&& is_present(self@, named_at)
                        &&& is_present(self@, started_at)
                        &&& match refusal(self@) {
                            Some(error) => r matches Err(e) && e@ == error,
                            None => if started_at.can_advance(first_age(self@.rotation)) {
                                &&& r matches Ok(roller)
                                &&& roller@ == initial(
                                    self@,
                                    texts(names@),
                                    size,
                                    named_at,
                                    started_at,
                                )
                                &&& self@.rotation matches Rotation::AgeBased(age) ==> is_dated_name(
                                    self@,
                                    age,
                                    named_at,
                                    roller@.state.curr_file_path.name,
                                )
                            } else {
                                r matches Err(e) && e@ == ErrorView::GetNaiveTimeFailed
                            },
                        }
                    }
            },
    {
        if !self.meta.has_good_names() {
            return Err(
                LogRollerError::GetNextFilePathError(self.meta.path(self.meta.filename.clone())),
            );
        }
        let named_at = self.meta.now();
        let started_at = self.meta.now();
        let age = match self.meta.rotation {
            Rotation::AgeBased(rotation_age) => rotation_age,
            Rotation::SizeBased(_) => RotationAge::Daily,
        };
        let ghost start = initial(self@, texts(names@), size, named_at@, started_at@);
        assert(start.pending is None);
        if let Some(Compression::XZ(level)) = self.meta.compression {
            if level > 9 {
                return Err(LogRollerError::InvalidXZCompressionLevel { level });
            }
        }
        if !started_at.is_advanceable(age) {
            return Err(LogRollerError::GetNaiveTimeFailed);
        }
        self.build_at(names, size, &named_at, &started_at)
    }
}

/// A log roller that is built on a log file of so many bytes, none where it is not
/// there, goes on counting from them: under size-based rotation it is due after its
/// first write if and only if these bytes and those of the write reach the threshold
/// together, whatever else is configured.
pub proof fn law_resumed_log_counts_on(
    m: MetaView,
    names: Seq<Seq<char>>,
    size: Option<u64>,
    named_at: TimeView,
    started_at: TimeView,
    threshold: RotationSize,
    bytes: int,
    seen: TaskState,
    now: TimeView,
    path: Option<LogPath>,
)
    requires
        m.rotation == Rotation::SizeBased(threshold),
        0 <= bytes,
        (if size is Some {
            size->0 as int
        } else {
            0
        }) + bytes <= u64::MAX,
        is_due_after_write(
            initial(m, names, size, named_at, started_at).written(bytes),
            seen,
            now,
            path,
        ),
    ensures
        path is Some <==> (if size is Some {
            size->0 as int
        } else {
            0
        }) + bytes >= match threshold {
            RotationSize::Bytes(n) => n as int,
            RotationSize::KB(n) => n * 1024,
            RotationSize::MB(n) => n * 1024 * 1024,
            RotationSize::GB(n) => n * 1024 * 1024 * 1024,
        },
{
    let v = initial(m, names, size, named_at, started_at);
    law_rotation_at_size(v, threshold, bytes, seen, now, path);
}

/// A log roller starts out valid. Its log file belongs to a period that ends at
/// the time of the next rotation or before, so that its first rotation is to
/// another period.
pub proof fn law_log_roller_starts_valid(
    m: MetaView,
    names: Seq<Seq<char>>,
    size: Option<u64>,
    named_at: TimeView,
    started_at: TimeView,
)
    requires
        names_good(m),
        refusal(m) is None,
        largest_number(names, m.filename) < usize::MAX,
        named_at.valid(),
        started_at.valid(),
        started_at.reached(named_at),
        started_at.offset == named_at.offset == m.time_zone,
        started_at.can_advance(first_age(m.rotation)),
    ensures
        initial(m, names, size, named_at, started_at).valid(),
        m.rotation matches Rotation::AgeBased(age) ==> named_at.period_of(age) < initial(
            m,
            names,
            size,
            named_at,
            started_at,
        ).state.next_age_based_time.period_of(age),
{
    let age = first_age(m.rotation);
    law_next_boundary_is_first(started_at, age);
    match age {
        RotationAge::Minutely => {
            assert(named_at.local() / 60 <= started_at.local() / 60);
        },
        RotationAge::Hourly => {
            assert(named_at.local() / 3600 <= started_at.local() / 3600);
        },
        RotationAge::Daily => {
            assert(named_at.local() / 86400 <= started_at.local() / 86400);
        },
    }
}

} // verus!
