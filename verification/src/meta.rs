//! The configuration of a log roller, and the names and times that follow from it.
use crate::calendar::{
    clock_shows, format_time, has_four_digit_year, hour_of, is_local_offset, is_stamp,
    law_one_stamp_per_period, law_stamps_sort_by_time, lemma_next_boundary, lemma_period_on,
    minute_of, no_percent, plus_minutes, read_clock, read_local_offset, renders_stamp, strftime,
    with_time, DateTime, FixedOffset, TimeOfDay, TimeView, MAX_SECS, MIN_SECS,
};
use crate::error::{LogPath, LogRollerError, PathView};
use crate::rotation::{Compression, Rotation, RotationAge};
use crate::text::{lemma_order_irreflexive, lemma_order_prefix, sorts_before, text_of};
use vstd::prelude::*;

verus! {

/// The time zone for log file rotation and log file naming.
#[derive(Debug, Clone, Copy, PartialEq, Eq, Structural)]
pub enum TimeZone {
    /// UTC.
    UTC,
    /// The system's local time zone, with the offset that it has when it is chosen.
    Local,
    /// A fixed offset from UTC.
    Fix(FixedOffset),
}

/// The configuration of a log roller.
#[derive(Debug)]
pub struct LogRollerMeta {
    /// The directory where the log files are stored.
    pub directory: String,
    /// The name of the log file.
    pub filename: String,
    /// When and how files are rotated.
    pub rotation: Rotation,
    /// The offset from UTC of the time zone in which files are rotated and named.
    pub time_zone: FixedOffset,
    /// How rotated files are compressed.
    pub compression: Option<Compression>,
    /// The maximum number of log files to keep.
    pub max_keep_files: Option<u64>,
    /// What is appended to the names of log files under age-based rotation.
    pub suffix: Option<String>,
    /// The permissions of new files, in the notation of chmod.
    pub file_mode: Option<u32>,
    /// Wait for compression and cleanup when the log is flushed.
    pub graceful_shutdown: bool,
}

/// A configuration as the contracts see it.
pub struct MetaView {
    pub directory: Seq<char>,
    pub filename: Seq<char>,
    pub rotation: Rotation,
    pub time_zone: int,
    pub compression: Option<Compression>,
    pub max_keep_files: Option<u64>,
    pub suffix: Option<Seq<char>>,
    pub file_mode: Option<u32>,
    pub graceful_shutdown: bool,
}

impl View for LogRollerMeta {
    type V = MetaView;

    open spec fn view(&self) -> MetaView {
        MetaView {
            directory: self.directory@,
            filename: self.filename@,
            rotation: self.rotation,
            time_zone: self.time_zone@,
            compression: self.compression,
            max_keep_files: self.max_keep_files,
            suffix: text_of(self.suffix),
            file_mode: self.file_mode,
            graceful_shutdown: self.graceful_shutdown,
        }
    }
}

impl Clone for LogRollerMeta {
    fn clone(&self) -> (r: Self)
        ensures
            r@ == self@,
    {
        let suffix = match &self.suffix {
            Some(s) => Some(s.clone()),
            None => None,
        };
        LogRollerMeta {
            directory: self.directory.clone(),
            filename: self.filename.clone(),
            rotation: self.rotation,
            time_zone: self.time_zone,
            compression: self.compression,
            max_keep_files: self.max_keep_files,
            suffix,
            file_mode: self.file_mode,
            graceful_shutdown: self.graceful_shutdown,
        }
    }
}

/// The strftime format by which the files of age-based rotation are named.
pub open spec fn age_format(filename: Seq<char>, age: RotationAge) -> Seq<char> {
    filename + seq!['.'] + age.time_pattern()
}

/// What follows the stamp in the name of a file: a dot and the suffix, if there is one.
pub open spec fn suffix_part(suffix: Option<Seq<char>>) -> Seq<char> {
    match suffix {
        Some(s) => seq!['.'] + s,
        None => Seq::<char>::empty(),
    }
}

/// The name of the file for the instant `t`, or `None` where the name of the log
/// file holds a percent sign that begins no strftime specifier.
pub open spec fn age_name(m: MetaView, age: RotationAge, t: TimeView) -> Option<Seq<char>> {
    match strftime(age_format(m.filename, age), t.secs, t.nanos, t.offset) {
        Some(text) => Some(text + suffix_part(m.suffix)),
        None => None,
    }
}

/// The format names a file for every instant.
pub open spec fn format_good(format: Seq<char>) -> bool {
    forall|u: TimeView|
        u.valid() ==> #[trigger] strftime(format, u.secs, u.nanos, u.offset) is Some
}

/// The configuration names a file for every instant.
pub open spec fn names_good(m: MetaView) -> bool {
    match m.rotation {
        Rotation::SizeBased(_) => true,
        Rotation::AgeBased(age) => format_good(age_format(m.filename, age)),
    }
}

/// `name` is the name of the log file, a dot, the stamp of the instant and the
/// suffix. This is promised where the name of the log file holds no percent sign
/// and the local year has four digits.
pub open spec fn is_dated_name(m: MetaView, age: RotationAge, t: TimeView, name: Seq<char>) -> bool {
    (no_percent(m.filename) && has_four_digit_year(t)) ==> exists|text: Seq<char>|
        {
            &&& #[trigger] is_stamp(text, age, t)
            &&& name == m.filename + seq!['.'] + text + match m.suffix {
                Some(suffix) => seq!['.'] + suffix,
                None => Seq::<char>::empty(),
            }
        }
}

impl MetaView {
    /// The path of the file `name` in the log directory.
    pub open spec fn path(self, name: Seq<char>) -> PathView {
        PathView { directory: self.directory, name }
    }

    /// The file to which a log roller that starts at `now` writes.
    pub open spec fn current_name(self, now: TimeView) -> Option<Seq<char>> {
        match self.rotation {
            Rotation::SizeBased(_) => Some(self.filename),
            Rotation::AgeBased(age) => age_name(self, age, now),
        }
    }
}

/// The clock, read in the configured time zone, can show the instant.
pub open spec fn is_present(m: MetaView, now: TimeView) -> bool {
    &&& clock_shows(m.time_zone, now)
    &&& now.valid()
    &&& now.offset == m.time_zone
}

/// What is taken for the present is what the clock can show in the configured time
/// zone, and nothing else.
pub proof fn law_present_is_read_from_the_clock(m: MetaView, now: TimeView)
    requires
        is_present(m, now),
    ensures
        clock_shows(m.time_zone, now),
        now.offset == m.time_zone,
        now.valid(),
{
}

/// The strftime pattern of the date and time in the names of the files.
fn time_pattern_of(age: &RotationAge) -> (r: &'static str)
    ensures
        r@ == age.time_pattern(),
{
    match age {
        RotationAge::Minutely => "%Y-%m-%d-%H-%M",
        RotationAge::Hourly => "%Y-%m-%d-%H",
        RotationAge::Daily => "%Y-%m-%d",
    }
}

/// The text `a`, a dot and the text `b`.
pub fn dotted(a: &str, b: &str) -> (r: String)
    ensures
        r@ == a@ + seq!['.'] + b@,
{
    proof {
        reveal_strlit(".");
    }
    let mut text = String::from_str(a);
    text.append(".");
    text.append(b);
    assert("."@ =~= seq!['.']);
    text
}

impl LogRollerMeta {
    /// The configuration that a log roller has where nothing else is chosen:
    /// daily rotation in the local time zone, without compression, keeping all
    /// files.
    pub fn new(directory: &str, filename: &str) -> (r: Self)
        ensures
            is_local_offset(r@.time_zone),
            -86400 < r@.time_zone < 86400,
            r@ == (MetaView {
                directory: directory@,
                filename: filename@,
                rotation: Rotation::AgeBased(RotationAge::Daily),
                time_zone: r@.time_zone,
                compression: None,
                max_keep_files: None,
                suffix: None,
                file_mode: None,
                graceful_shutdown: false,
            }),
    {
        LogRollerMeta {
            directory: String::from_str(directory),
            filename: String::from_str(filename),
            rotation: Rotation::AgeBased(RotationAge::Daily),
            compression: None,
            max_keep_files: None,
            time_zone: read_local_offset(),
            suffix: None,
            file_mode: None,
            graceful_shutdown: false,
        }
    }

    /// The current time in the configured time zone.
    pub fn now(&self) -> (r: DateTime)
        ensures
            is_present(self@, r@),
            clock_shows(self@.time_zone, r@),
            r@.offset == self@.time_zone,
    {
        read_clock(self.time_zone)
    }

    /// The instant at which it is `time_to_replaced` on the local date of
    /// `base_datetime`.
    pub fn replace_time(&self, base_datetime: DateTime, time_to_replaced: TimeOfDay) -> (r: DateTime)
        requires
            time_to_replaced.valid(),
            MIN_SECS <= base_datetime@.local() <= MAX_SECS,
            MIN_SECS <= base_datetime@.day() * 86400 + time_to_replaced.seconds()
                - base_datetime@.offset <= MAX_SECS,
        ensures
            r@ == (TimeView {
                secs: base_datetime@.day() * 86400 + time_to_replaced.seconds()
                    - base_datetime@.offset,
                nanos: 0,
                offset: base_datetime@.offset,
            }),
    {
        with_time(base_datetime, time_to_replaced)
    }

    /// The time of the next rotation: the beginning of the local minute, hour or
    /// day behind the one in which `base_datetime` lies.
    pub fn next_time(&self, base_datetime: DateTime, rotation_age: RotationAge) -> (r: Result<
        DateTime,
        LogRollerError,
    >)
        requires
            base_datetime@.can_advance(rotation_age),
        ensures
            r matches Ok(t) && t@ == base_datetime@.next_boundary(rotation_age),
            ({
                let t = r->Ok_0@;
                let local = base_datetime@.secs + base_datetime@.offset;
                &&& t.nanos == 0 && t.offset == base_datetime@.offset
                &&& t.secs + t.offset == match rotation_age {
                    RotationAge::Minutely => (local / 60 + 1) * 60,
                    RotationAge::Hourly => (local / 3600 + 1) * 3600,
                    RotationAge::Daily => (local / 86400 + 1) * 86400,
                }
            }),
    {
        proof {
            use_type_invariant(&base_datetime);
            lemma_period_on(base_datetime@, rotation_age);
            lemma_next_boundary(base_datetime@, rotation_age);
        }
        let minutes: i64 = match rotation_age {
            RotationAge::Minutely => 1,
            RotationAge::Hourly => 60,
            RotationAge::Daily => 1440,
        };
        let d = plus_minutes(base_datetime, minutes);
        let time = match rotation_age {
            RotationAge::Minutely => TimeOfDay::from_hms_opt(hour_of(d), minute_of(d), 0),
            RotationAge::Hourly => TimeOfDay::from_hms_opt(hour_of(d), 0, 0),
            RotationAge::Daily => TimeOfDay::from_hms_opt(0, 0, 0),
        };
        match time {
            Some(t) => Ok(self.replace_time(d, t)),
            None => Err(LogRollerError::GetNaiveTimeFailed),
        }
    }

    /// The path of the file `name` in the log directory.
    pub fn path(&self, name: String) -> (r: LogPath)
        ensures
            r@ == self@.path(name@),
            r@.directory == self@.directory,
            r@.name == name@,
    {
        LogPath { directory: self.directory.clone(), name }
    }

    /// The name of the file for the instant `datetime`, if it can be rendered.
    fn render_name(&self, rotation_age: &RotationAge, datetime: &DateTime) -> (r: Option<String>)
        ensures
            text_of(r) == age_name(self@, *rotation_age, datetime@),
            (r is Some) == format_good(age_format(self@.filename, *rotation_age)),
            no_percent(self@.filename) ==> r is Some,
            r matches Some(name) ==> is_dated_name(self@, *rotation_age, datetime@, name@),
    {
        proof {
            use_type_invariant(datetime);
        }
        let format = dotted(self.filename.as_str(), time_pattern_of(rotation_age));
        let ghost t = datetime@;
        let rendered = format_time(datetime, format.as_str());
        let ghost stamped = text_of(rendered);
        proof {
            assert(format@ == age_format(self@.filename, *rotation_age));
            assert((rendered is Some) == strftime(format@, t.secs, t.nanos, t.offset) is Some);
            let cut = format@.len() - rotation_age.time_pattern().len();
            assert(format@.take(cut) =~= self@.filename + seq!['.']);
            assert(format@.skip(cut) =~= rotation_age.time_pattern());
        }
        match rendered {
            Some(text) => {
                let name = match &self.suffix {
                    Some(suffix) => dotted(text.as_str(), suffix.as_str()),
                    None => text,
                };
                proof {
                    assert(name@ =~= stamped->0 + suffix_part(self@.suffix));
                    lemma_dated(self@, *rotation_age, t, stamped, name@);
                }
                Some(name)
            },
            None => None,
        }
    }

    /// The path of the log file for the instant `datetime`, which is the time at
    /// which the file's period begins.
    pub fn get_next_age_based_log_path(
        &self,
        rotation_age: &RotationAge,
        datetime: &DateTime,
    ) -> (r: LogPath)
        requires
            age_name(self@, *rotation_age, datetime@) is Some,
        ensures
            r@ == self@.path(age_name(self@, *rotation_age, datetime@)->0),
            r@.directory == self@.directory,
            is_dated_name(self@, *rotation_age, datetime@, r@.name),
    {
        self.path(self.render_name(rotation_age, datetime).unwrap())
    }

    /// The path of the log file for the instant `datetime`, or `None` where the
    /// name of the log file holds a percent sign that begins no strftime
    /// specifier.
    pub fn try_next_age_based_log_path(
        &self,
        rotation_age: &RotationAge,
        datetime: &DateTime,
    ) -> (r: Option<LogPath>)
        ensures
            (r is Some) == (age_name(self@, *rotation_age, datetime@) is Some),
            no_percent(self@.filename) ==> r is Some,
            r matches Some(path) ==> path@ == self@.path(
                age_name(self@, *rotation_age, datetime@)->0,
            ) && is_dated_name(self@, *rotation_age, datetime@, path@.name),
    {
        if self.render_name(rotation_age, datetime).is_some() {
            Some(self.get_next_age_based_log_path(rotation_age, datetime))
        } else {
            None
        }
    }

    /// Tells whether the configuration names a file for every instant, as it does
    /// where the name of the log file holds no percent sign.
    pub fn has_good_names(&self) -> (r: bool)
        ensures
            r == names_good(self@),
            no_percent(self@.filename) ==> r,
    {
        match &self.rotation {
            Rotation::SizeBased(_) => true,
            Rotation::AgeBased(age) => {
                let some_time = DateTime::from_timestamp(0, 0, self.time_zone).unwrap();
                self.render_name(age, &some_time).is_some()
            },
        }
    }

    /// The file to which a log roller that starts at `now` writes.
    pub fn get_curr_log_path_at(&self, now: &DateTime) -> (r: LogPath)
        requires
            self@.current_name(now@) is Some,
        ensures
            r@ == self@.path(self@.current_name(now@)->0),
            r@.directory == self@.directory,
            self@.rotation is SizeBased ==> r@.name == self@.filename,
            self@.rotation matches Rotation::AgeBased(age) ==> Some(r@.name) == age_name(
                self@,
                age,
                now@,
            ),
            self@.rotation matches Rotation::AgeBased(age) ==> is_dated_name(
                self@,
                age,
                now@,
                r@.name,
            ),
    {
        match &self.rotation {
            Rotation::SizeBased(_) => self.path(self.filename.clone()),
            Rotation::AgeBased(rotation_age) => self.get_next_age_based_log_path(rotation_age, now),
        }
    }

    /// The file to which a log roller that starts now writes.
    pub fn get_curr_log_path(&self) -> (r: LogPath)
        requires
            names_good(self@),
        ensures
            exists|now: TimeView|
                #![trigger self@.current_name(now)]
                {
                    &&& is_present(self@, now)
                    &&& self@.current_name(now) is Some
                    &&& r@ == self@.path(self@.current_name(now)->0)
                    &&& self@.rotation matches Rotation::AgeBased(age) ==> is_dated_name(
                        self@,
                        age,
                        now,
                        r@.name,
                    )
                },
    {
        let now = self.now();
        proof {
            let t = now@;
            if let Rotation::AgeBased(age) = self@.rotation {
                assert(strftime(
                    age_format(self@.filename, age),
                    t.secs,
                    t.nanos,
                    t.offset,
                ) is Some);
            }
            assert(self@.current_name(t) is Some);
        }
        self.get_curr_log_path_at(&now)
    }
}

/// The name of the file for an instant is what strftime makes of the name of the log
/// file, a dot and the specifiers of the date and, down to the unit of the rotation,
/// of the time of day; behind it stand a dot and the suffix, where there is one.
pub proof fn law_age_name(m: MetaView, age: RotationAge, t: TimeView)
    ensures
        age_name(m, age, t) == ({
            let format = m.filename + seq!['.'] + match age {
                RotationAge::Minutely => "%Y-%m-%d-%H-%M"@,
                RotationAge::Hourly => "%Y-%m-%d-%H"@,
                RotationAge::Daily => "%Y-%m-%d"@,
            };
            match (strftime(format, t.secs, t.nanos, t.offset), m.suffix) {
                (Some(text), Some(suffix)) => Some(text + (seq!['.'] + suffix)),
                (Some(text), None) => Some(text + Seq::<char>::empty()),
                (None, _) => None,
            }
        }),
{
}

/// A configuration names a file for every instant if and only if rotation goes by size,
/// or strftime knows all specifiers of its format.
pub proof fn law_names_good(m: MetaView)
    ensures
        m.rotation is SizeBased ==> names_good(m),
        m.rotation matches Rotation::AgeBased(age) ==> (names_good(m) <==> forall|u: TimeView|
            u.valid() ==> #[trigger] age_name(m, age, u) is Some),
{
    if let Rotation::AgeBased(age) = m.rotation {
        let format = age_format(m.filename, age);
        if forall|u: TimeView| u.valid() ==> #[trigger] age_name(m, age, u) is Some {
            assert forall|u: TimeView| u.valid() implies #[trigger] strftime(
                format,
                u.secs,
                u.nanos,
                u.offset,
            ) is Some by {
                assert(age_name(m, age, u) is Some);
            }
        }
    }
}

/// What chrono says of a rendered time, said of the name that is made of it.
proof fn lemma_dated(
    m: MetaView,
    age: RotationAge,
    t: TimeView,
    rendered: Option<Seq<char>>,
    name: Seq<char>,
)
    requires
        rendered matches Some(text) && name == text + suffix_part(m.suffix),
        renders_stamp(age_format(m.filename, age), age, t, rendered),
    ensures
        is_dated_name(m, age, t, name),
{
    let format = age_format(m.filename, age);
    let cut = format.len() - age.time_pattern().len();
    if no_percent(m.filename) && has_four_digit_year(t) {
        assert(format.take(cut) =~= m.filename + seq!['.']);
        assert(format.skip(cut) =~= age.time_pattern());
        let text = rendered->0;
        let part = text.skip(cut);
        assert(text =~= text.take(cut) + part);
        assert(is_stamp(part, age, t));
    }
}

/// Log files sort by name as their periods follow each other, whatever further
/// extension each of them has.
pub proof fn law_names_sort_by_time(
    m: MetaView,
    age: RotationAge,
    t: TimeView,
    u: TimeView,
    a: Seq<char>,
    b: Seq<char>,
    x: Seq<char>,
    y: Seq<char>,
)
    requires
        no_percent(m.filename),
        has_four_digit_year(t),
        has_four_digit_year(u),
        is_dated_name(m, age, t, a),
        is_dated_name(m, age, u, b),
        t.period_of(age) < u.period_of(age),
    ensures
        sorts_before(a + x, b + y),
{
    let p = m.filename + seq!['.'];
    let e = suffix_part(m.suffix);
    let s = choose|text: Seq<char>| #[trigger] is_stamp(text, age, t) && a == p + text + e;
    let r = choose|text: Seq<char>| #[trigger] is_stamp(text, age, u) && b == p + text + e;
    law_stamps_sort_by_time(age, t, u, s, r, e + x, e + y);
    lemma_order_prefix(p, s + (e + x), r + (e + y));
    assert(a + x =~= p + (s + (e + x)));
    assert(b + y =~= p + (r + (e + y)));
}

/// Two instants of one period have one log file, and two instants of different
/// periods have two.
pub proof fn law_one_file_per_period(
    m: MetaView,
    age: RotationAge,
    t: TimeView,
    u: TimeView,
    a: Seq<char>,
    b: Seq<char>,
)
    requires
        no_percent(m.filename),
        has_four_digit_year(t),
        has_four_digit_year(u),
        is_dated_name(m, age, t, a),
        is_dated_name(m, age, u, b),
    ensures
        a == b <==> t.period_of(age) == u.period_of(age),
{
    let p = m.filename + seq!['.'];
    let e = suffix_part(m.suffix);
    let none = Seq::<char>::empty();
    assert(a + none =~= a && b + none =~= b);
    if t.period_of(age) < u.period_of(age) {
        law_names_sort_by_time(m, age, t, u, a, b, none, none);
        lemma_order_irreflexive(a);
    } else if u.period_of(age) < t.period_of(age) {
        law_names_sort_by_time(m, age, u, t, b, a, none, none);
        lemma_order_irreflexive(a);
    } else {
        let s = choose|text: Seq<char>| #[trigger] is_stamp(text, age, t) && a == p + text + e;
        let r = choose|text: Seq<char>| #[trigger] is_stamp(text, age, u) && b == p + text + e;
        law_one_stamp_per_period(age, t, u, s, r);
    }
}

} // verus!
