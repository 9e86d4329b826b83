//! What a log holds after any sequence of writes.
use crate::builder::{first_age, initial, law_log_roller_starts_valid, refusal};
use crate::calendar::{has_four_digit_year, no_percent, TimeView};
use crate::directory::{
    content, in_use, is_slot_up_to, law_age_rotation_adds_a_file, law_compression_replaces_the_file,
    law_rotation_moves_files_up, lemma_slots_differ, queued, run, slot,
};
use crate::error::PathView;
use crate::lifecycle::{
    archive, archive_name, archive_tail, archived, lemma_archive_is_rotated,
};
use crate::meta::{is_dated_name, law_names_sort_by_time, names_good, MetaView};
use crate::numbering::{largest_number, rotated_name};
use crate::pattern::{is_file_name, law_dated_files_fit, law_numbered_files_fit};
use crate::retention::{expired, law_cleanup_by_number, law_log_file_is_kept};
use crate::roller::{
    capped, due, law_log_roller_stays_valid, law_rotations_go_forward, RollerView,
};
use crate::rollover::{compress_steps, packed_path, refresh_steps, FileStep};
use crate::rotation::{Rotation, RotationAge};
use crate::text::{lemma_order_irreflexive, lemma_order_total, sorted, sorts_before};
use crossbeam_channel::Receiver;
use vstd::prelude::*;

verus! {

/// A log file that was rotated: its name at that time, the instant for which it was
/// named, and what was written to it.
pub struct Closed {
    pub name: Seq<char>,
    pub at: TimeView,
    pub contents: Seq<u8>,
}

/// A log roller and its directory.
pub struct World {
    pub v: RollerView,
    /// The files of the directory.
    pub files: Map<Seq<char>, Seq<u8>>,
    /// The instant for which the log file is named.
    pub at: TimeView,
    /// The rotated file that waits for compression and cleanup, or is in it.
    pub busy: Option<PathView>,
    /// The log files that were rotated, the oldest first.
    pub closed: Seq<Closed>,
}

/// What can happen to a log.
pub enum Event {
    /// Bytes are written at the time `now`. Where the log is due and all is ready (the
    /// last processing was seen to end, and the worker pool takes the task), it is
    /// rotated. That is done at the time `later`, and `done` tells the end of the
    /// processing.
    Write { data: Seq<u8>, now: TimeView, ready: bool, later: TimeView, done: Receiver<()> },
    /// The processing of the file that was rotated last ends. Cleaning up finds
    /// `names` in the directory.
    Processed { names: Seq<Seq<char>> },
    /// The log is flushed.
    Flushed,
}

impl World {
    /// The name of the log file.
    pub open spec fn current(self) -> Seq<char> {
        self.v.state.curr_file_path.name
    }

    /// The files and the log roller after the bytes were written, before a rotation.
    pub open spec fn appended(self, data: Seq<u8>) -> World {
        World {
            v: self.v.written(data.len() as int),
            files: self.files.insert(self.current(), self.files[self.current()] + data),
            ..self
        }
    }

    /// The log is rotated to the file `name`.
    pub open spec fn turned(self, name: Seq<char>, later: TimeView, done: Receiver<()>) -> World {
        let m = self.v.meta;
        let new_path = m.path(name);
        let old_path = self.v.state.curr_file_path;
        World {
            v: self.v.rotated(new_path, later, done),
            files: run(
                refresh_steps(
                    m,
                    old_path,
                    new_path,
                    self.v.state.next_size_based_index as nat,
                    m.compression,
                ),
                self.files,
            ),
            at: self.v.state.next_age_based_time,
            busy: queued(
                refresh_steps(
                    m,
                    old_path,
                    new_path,
                    self.v.state.next_size_based_index as nat,
                    m.compression,
                ),
            ),
            closed: self.closed.push(
                Closed {
                    name: self.current(),
                    at: self.at,
                    contents: self.files[self.current()],
                },
            ),
        }
    }

    /// The rotated file is compressed.
    pub open spec fn compressed(self, path: PathView) -> Map<Seq<char>, Seq<u8>> {
        run(compress_steps(self.v.meta, path), self.files)
    }

    /// The file to which the log is rotated after a write, if it is.
    pub open spec fn turns_to(self, now: TimeView, ready: bool) -> Option<Seq<char>> {
        if ready && !(self.v.pending is Some && self.busy is Some) {
            due(self.v.meta, self.v.state, now)
        } else {
            None
        }
    }

    /// What the event makes of the log, where no operation on files fails.
    pub open spec fn after(self, event: Event) -> World {
        match event {
            Event::Write { data, now, ready, later, done } => {
                let w = self.appended(data);
                match w.turns_to(now, ready) {
                    Some(name) => w.turned(name, later, done),
                    None => w,
                }
            },
            Event::Processed { names } => match self.busy {
                Some(path) => World {
                    files: self.compressed(path).remove_keys(
                        expired(self.v.meta, names).to_set(),
                    ),
                    busy: None,
                    ..self
                },
                None => self,
            },
            Event::Flushed => World {
                v: RollerView {
                    pending: if self.v.meta.graceful_shutdown {
                        None
                    } else {
                        self.v.pending
                    },
                    ..self.v
                },
                ..self
            },
        }
    }

    /// The event can happen.
    ///
    /// Sizes, numbers and times can be counted on, the clock is not set back during
    /// a rotation, files are named with their stamps, cleaning up finds the log's
    /// files in the directory, and a flush that waits returns when the processing is
    /// over.
    pub open spec fn allows(self, event: Event) -> bool {
        match event {
            Event::Write { data, now, ready, later, done } => {
                &&& self.v.state.curr_file_size_bytes + data.len() <= u64::MAX
                &&& self.appended(data).turns_to(now, ready) matches Some(name) ==> {
                    &&& now.valid() && now.offset == self.v.meta.time_zone
                    &&& later.valid() && later.reached(now)
                    &&& self.v.can_rotate(later)
                    &&& self.v.meta.rotation matches Rotation::AgeBased(age) ==> {
                        &&& has_four_digit_year(self.v.state.next_age_based_time)
                        &&& is_dated_name(self.v.meta, age, self.v.state.next_age_based_time, name)
                    }
                }
            },
            Event::Processed { names } => self.busy matches Some(path) && lists(
                self.v.meta,
                names,
                self.compressed(path),
            ),
            Event::Flushed => self.v.meta.graceful_shutdown && self.v.pending is Some
                ==> self.busy is None,
        }
    }
}

/// `names` are the log's files among the files, each once, in the order of names.
pub open spec fn lists(
    m: MetaView,
    names: Seq<Seq<char>>,
    files: Map<Seq<char>, Seq<u8>>,
) -> bool {
    &&& sorted(names)
    &&& names.no_duplicates()
    &&& forall|name: Seq<char>| #[trigger]
        names.contains(name) <==> files.contains_key(name) && is_file_name(
            name,
            m.filename,
            m.rotation,
            m.suffix,
            m.compression,
        )
}

/// A log roller that was built on an empty directory, with its log file opened.
pub open spec fn opened(m: MetaView, named_at: TimeView, started_at: TimeView) -> World {
    let v = initial(m, Seq::empty(), None, named_at, started_at);
    World {
        v,
        files: Map::empty().insert(v.state.curr_file_path.name, Seq::empty()),
        at: named_at,
        busy: None,
        closed: Seq::empty(),
    }
}

/// The log after the events, one after the other.
pub open spec fn history(start: World, events: Seq<Event>) -> World
    decreases events.len(),
{
    if events.len() == 0 {
        start
    } else {
        history(start, events.drop_last()).after(events.last())
    }
}

/// Each of the events can happen where it stands.
pub open spec fn possible(start: World, events: Seq<Event>) -> bool
    decreases events.len(),
{
    events.len() > 0 ==> possible(start, events.drop_last()) && history(
        start,
        events.drop_last(),
    ).allows(events.last())
}

/// All bytes that the events write, in their order.
pub open spec fn bytes_written(events: Seq<Event>) -> Seq<u8>
    decreases events.len(),
{
    if events.len() == 0 {
        Seq::empty()
    } else {
        let before = bytes_written(events.drop_last());
        match events.last() {
            Event::Write { data, .. } => before + data,
            _ => before,
        }
    }
}

/// What was written to the rotated files, in their order.
pub open spec fn joined(closed: Seq<Closed>) -> Seq<u8>
    decreases closed.len(),
{
    if closed.len() == 0 {
        Seq::empty()
    } else {
        joined(closed.drop_last()) + closed.last().contents
    }
}

/// How many of `n` rotated files stay: as many as are to be kept besides the log
/// file, or all without a limit.
pub open spec fn kept(m: MetaView, n: nat) -> nat {
    match m.max_keep_files {
        Some(max) => if n < max as usize {
            n
        } else {
            (max as usize - 1) as nat
        },
        None => n,
    }
}

/// The name under which the file that was rotated as the `i`th from last is left,
/// counted from one.
pub open spec fn left_as(w: World, i: nat) -> Seq<char> {
    match w.v.meta.rotation {
        Rotation::SizeBased(_) => archive(w.v.meta, i),
        Rotation::AgeBased(_) => archive_name(
            w.v.meta,
            w.v.meta.path(w.closed[w.closed.len() - i].name),
        ),
    }
}

/// The names of the log file and of the rotated files that stay, the youngest first.
pub open spec fn youngest(w: World) -> Seq<Seq<char>> {
    Seq::new(
        kept(w.v.meta, w.closed.len()) + 1,
        |i: int|
            if i == 0 {
                w.current()
            } else {
                left_as(w, i as nat)
            },
    )
}

/// At least one file is to be kept.
pub open spec fn keeps_its_log(m: MetaView) -> bool {
    m.max_keep_files matches Some(max) ==> max as usize >= 1
}

/// A log roller of this configuration can be built, and at these times.
pub open spec fn starts(m: MetaView, named_at: TimeView, started_at: TimeView) -> bool {
    &&& names_good(m)
    &&& refusal(m) is None
    &&& keeps_its_log(m)
    &&& named_at.valid()
    &&& started_at.valid()
    &&& started_at.reached(named_at)
    &&& started_at.offset == named_at.offset == m.time_zone
    &&& started_at.can_advance(first_age(m.rotation))
}

/// What holds of a log with size-based rotation whenever it has written `bytes`.
spec fn numbered_log(w: World, bytes: Seq<u8>) -> bool {
    let m = w.v.meta;
    let n = w.closed.len();
    &&& w.v.valid()
    &&& m.rotation is SizeBased
    &&& keeps_its_log(m)
    &&& w.v.state.next_size_based_index == capped(n as int + 1, m.max_keep_files)
    &&& w.current() == m.filename
    &&& w.files.contains_key(m.filename)
    &&& bytes == joined(w.closed) + w.files[m.filename]
    &&& match w.busy {
        None => {
            &&& forall|name: Seq<char>| #[trigger]
                w.files.contains_key(name) <==> name == m.filename || is_archive(
                    m,
                    1,
                    kept(m, n),
                    name,
                )
            &&& holds_archive(w, 1, kept(m, n))
        },
        Some(path) => {
            &&& n >= 1
            &&& w.v.pending is Some
            &&& path == m.path(rotated_name(m.filename, 1))
            &&& forall|name: Seq<char>| #[trigger]
                w.files.contains_key(name) <==> name == m.filename || name == rotated_name(
                    m.filename,
                    1,
                ) || is_archive(m, 2, kept(m, (n - 1) as nat) + 1, name)
            &&& w.files[rotated_name(m.filename, 1)] == w.closed[n - 1].contents
            &&& holds_archive(w, 2, kept(m, (n - 1) as nat) + 1)
        },
    }
}

/// `name` is that of an archived file with a number from `a` to `b`.
spec fn is_archive(m: MetaView, a: nat, b: nat, name: Seq<char>) -> bool {
    exists|i: nat| a <= i <= b && name == #[trigger] archive(m, i)
}

/// The archived files with the numbers from `a` to `b` hold what was written to the
/// log files that were rotated.
spec fn holds_archive(w: World, a: nat, b: nat) -> bool {
    forall|i: nat|
        a <= i <= b ==> w.files[#[trigger] archive(w.v.meta, i)] == archived(
            w.v.meta,
            w.closed[w.closed.len() - i].contents,
        )
}

/// Writing bytes without a rotation.
proof fn lemma_numbered_append(w: World, bytes: Seq<u8>, data: Seq<u8>)
    requires
        numbered_log(w, bytes),
        w.v.state.curr_file_size_bytes + data.len() <= u64::MAX,
    ensures
        numbered_log(w.appended(data), bytes + data),
{
    let m = w.v.meta;
    let x = w.appended(data);
    assert(joined(w.closed) + (w.files[m.filename] + data) =~= bytes + data);
    assert forall|i: nat| x.files[#[trigger] archive(m, i)] == w.files[archive(m, i)] by {
        lemma_slots_differ(m, m.compression, m.compression is Some, i, false, 1);
    }
    lemma_slots_differ(m, m.compression, false, 1, false, 1);
    assert(slot(m, m.compression, false, 1) == rotated_name(m.filename, 1));
}

/// A rotation.
proof fn lemma_numbered_turn(w: World, bytes: Seq<u8>, later: TimeView, done: Receiver<()>)
    requires
        numbered_log(w, bytes),
        w.busy is None,
        w.v.can_rotate(later),
    ensures
        numbered_log(w.turned(rotated_name(w.v.meta.filename, 1), later, done), bytes),
{
    let m = w.v.meta;
    let c = m.compression;
    let n = w.closed.len();
    let one = rotated_name(m.filename, 1);
    let x = w.turned(one, later, done);
    let top = w.v.state.next_size_based_index as nat;
    let k = kept(m, n);
    assert(top == k + 1);
    assert(x.closed.drop_last() =~= w.closed);
    law_rotation_moves_files_up(m, c, top, w.v.state.curr_file_path, w.files);
    assert(content(x.files, m.filename) == Some(Seq::<u8>::empty()));
    assert(content(x.files, one) == Some(w.files[m.filename]));
    assert(joined(x.closed) + x.files[m.filename] =~= bytes);
    assert(slot(m, c, false, 1) == one);
    // what each numbered file holds
    assert forall|p: bool, i: nat| in_use(c, p) && 1 <= i <= top implies content(
        w.files,
        #[trigger] slot(m, c, p, i),
    ) == (if p == (c is Some) && i <= k {
        Some(archived(m, w.closed[n - i].contents))
    } else {
        None
    }) by {
        let name = slot(m, c, p, i);
        lemma_slots_differ(m, c, p, i, p, i);
        if p == (c is Some) && i <= k {
            assert(name == archive(m, i));
            assert(is_archive(m, 1, k, name));
        } else if is_archive(m, 1, k, name) {
            let j = choose|j: nat| 1 <= j <= k && name == #[trigger] archive(m, j);
            lemma_slots_differ(m, c, p, i, c is Some, j);
        }
    }
    assert forall|i: nat| 2 <= i <= top implies #[trigger] content(x.files, archive(m, i)) == Some(
        archived(m, x.closed[n + 1 - i].contents),
    ) by {
        let p = c is Some;
        let below = slot(m, c, p, (i - 1) as nat);
        assert(content(w.files, below) == Some(archived(m, w.closed[n - (i - 1)].contents)));
        assert(content(x.files, slot(m, c, p, i)) == content(w.files, below));
    }
    assert forall|name: Seq<char>| #[trigger] x.files.contains_key(name) <==> (name == m.filename
        || name == one || is_archive(m, 2, top, name)) by {
        if is_archive(m, 2, top, name) {
            let i = choose|i: nat| 2 <= i <= top && name == #[trigger] archive(m, i);
            assert(content(x.files, archive(m, i)) is Some);
        }
        if x.files.contains_key(name) && name != m.filename && name != one {
            assert(content(x.files, name) is Some);
            if is_slot_up_to(m, c, top, name) {
                let (p, i) = choose|p: bool, i: nat|
                    in_use(c, p) && 1 <= i <= top && name == #[trigger] slot(m, c, p, i);
                if i == 1 {
                    assert(p);
                    assert(content(w.files, slot(m, c, true, 1)) is Some ==> top > 1);
                } else if p == (c is Some) {
                    assert(name == archive(m, i));
                } else {
                    assert(content(w.files, slot(m, c, p, (i - 1) as nat)) is None);
                    assert(content(w.files, slot(m, c, p, i)) is None);
                    assert(content(x.files, slot(m, c, p, i)) is None);
                }
            } else {
                assert(content(x.files, name) == content(w.files, name));
                if is_archive(m, 1, k, name) {
                    let i = choose|i: nat| 1 <= i <= k && name == #[trigger] archive(m, i);
                    assert(name == slot(m, c, c is Some, i));
                }
            }
        }
    }
    assert(holds_archive(x, 2, top)) by {
        assert forall|i: nat| 2 <= i <= top implies x.files[#[trigger] archive(m, i)] == archived(
            m,
            x.closed[x.closed.len() - i].contents,
        ) by {
            assert(content(x.files, archive(m, i)) is Some);
        }
    }
}

/// The end of the processing of a rotated file.
proof fn lemma_numbered_processed(w: World, bytes: Seq<u8>, names: Seq<Seq<char>>)
    requires
        numbered_log(w, bytes),
        w.busy matches Some(path) && lists(w.v.meta, names, w.compressed(path)),
    ensures
        numbered_log(w.after(Event::Processed { names }), bytes),
{
    let m = w.v.meta;
    let c = m.compression;
    let n = w.closed.len();
    let one = rotated_name(m.filename, 1);
    let path = m.path(one);
    let finished = w.compressed(path);
    let gone = expired(m, names);
    let x = w.after(Event::Processed { names });
    let top = kept(m, (n - 1) as nat) + 1;
    let size = m.rotation->SizeBased_0;
    assert(slot(m, c, false, 1) == one);
    lemma_slots_differ(m, c, false, 1, false, 1);
    law_compression_replaces_the_file(m, path, w.files);
    if c is Some {
        assert(slot(m, c, true, 1) == packed_path(path, c->0).name);
        lemma_slots_differ(m, c, true, 1, false, 1);
    }
    // after compression the archive holds the numbers from one on
    assert forall|i: nat| 1 <= i <= top implies #[trigger] content(finished, archive(m, i)) == Some(
        archived(m, w.closed[n - i].contents),
    ) by {
        if i >= 2 {
            let name = archive(m, i);
            assert(name == slot(m, c, c is Some, i));
            lemma_slots_differ(m, c, c is Some, i, false, 1);
            if c is Some {
                lemma_slots_differ(m, c, true, i, true, 1);
            }
            assert(is_archive(m, 2, top, name));
            assert(content(finished, name) == content(w.files, name));
        } else {
            assert(archive(m, 1) == slot(m, c, c is Some, 1));
        }
    }
    assert(content(finished, m.filename) == content(w.files, m.filename));
    assert forall|name: Seq<char>| #[trigger] finished.contains_key(name) <==> (name == m.filename
        || is_archive(m, 1, top, name)) by {
        if is_archive(m, 1, top, name) {
            let i = choose|i: nat| 1 <= i <= top && name == #[trigger] archive(m, i);
            assert(content(finished, archive(m, i)) is Some);
        }
        if finished.contains_key(name) && name != m.filename {
            assert(content(finished, name) is Some);
            if name == archive(m, 1) {
                assert(is_archive(m, 1, top, name));
            } else {
                assert(archive(m, 1) == slot(m, c, c is Some, 1));
                assert(content(finished, name) == content(w.files, name));
                let i = choose|i: nat| 2 <= i <= top && name == #[trigger] archive(m, i);
                assert(is_archive(m, 1, top, archive(m, i)));
            }
        }
    }
    // cleaning up removes the numbers that are too large
    assert forall|i: nat| 1 <= i <= top implies (gone.contains(#[trigger] archive(m, i)) <==> i
        > kept(m, n)) by {
        let name = archive(m, i);
        law_numbered_files_fit(m.filename, size, m.suffix, c, i);
        assert(content(finished, name) is Some);
        assert(names.contains(name));
        if let Some(max) = m.max_keep_files {
            lemma_archive_is_rotated(m, i);
            law_cleanup_by_number(m, max, names, i as usize, archive_tail(m));
        }
    }
    law_log_file_is_kept(m, names);
    assert forall|name: Seq<char>| #[trigger] x.files.contains_key(name) <==> (name == m.filename
        || is_archive(m, 1, kept(m, n), name)) by {
        if is_archive(m, 1, kept(m, n), name) {
            let i = choose|i: nat| 1 <= i <= kept(m, n) && name == #[trigger] archive(m, i);
            assert(content(finished, archive(m, i)) is Some);
        }
        if x.files.contains_key(name) && name != m.filename {
            assert(finished.contains_key(name));
            let i = choose|i: nat| 1 <= i <= top && name == #[trigger] archive(m, i);
            assert(!gone.contains(archive(m, i)));
        }
    }
    assert forall|i: nat| 1 <= i <= kept(m, n) implies x.files[#[trigger] archive(m, i)]
        == archived(m, x.closed[x.closed.len() - i].contents) by {
        assert(content(finished, archive(m, i)) is Some);
        assert(!gone.contains(archive(m, i)));
    }
    assert(x.files[m.filename] == w.files[m.filename]);
}

/// A log with size-based rotation, after each event.
proof fn lemma_numbered_after(w: World, bytes: Seq<u8>, event: Event)
    requires
        numbered_log(w, bytes),
        w.allows(event),
    ensures
        numbered_log(
            w.after(event),
            match event {
                Event::Write { data, .. } => bytes + data,
                _ => bytes,
            },
        ),
{
    match event {
        Event::Write { data, now, ready, later, done } => {
            lemma_numbered_append(w, bytes, data);
            if w.appended(data).turns_to(now, ready) is Some {
                lemma_numbered_turn(w.appended(data), bytes + data, later, done);
            }
        },
        Event::Processed { names } => {
            lemma_numbered_processed(w, bytes, names);
        },
        Event::Flushed => {},
    }
}

/// A log with size-based rotation, after any sequence of events.
proof fn lemma_numbered_history(
    m: MetaView,
    named_at: TimeView,
    started_at: TimeView,
    events: Seq<Event>,
)
    requires
        starts(m, named_at, started_at),
        m.rotation is SizeBased,
        possible(opened(m, named_at, started_at), events),
    ensures
        numbered_log(history(opened(m, named_at, started_at), events), bytes_written(events)),
    decreases events.len(),
{
    let start = opened(m, named_at, started_at);
    if events.len() == 0 {
        law_log_roller_starts_valid(m, Seq::empty(), None, named_at, started_at);
        assert(joined(start.closed) + start.files[m.filename] =~= Seq::<u8>::empty());
    } else {
        lemma_numbered_history(m, named_at, started_at, events.drop_last());
        lemma_numbered_after(
            history(start, events.drop_last()),
            bytes_written(events.drop_last()),
            events.last(),
        );
    }
}

/// The name under which a rotated file is left by age-based rotation.
spec fn left_name(m: MetaView, name: Seq<char>) -> Seq<char> {
    archive_name(m, m.path(name))
}

/// `name` is that under which one of the rotated files from `a` up to, and without,
/// `b` is left.
spec fn is_left(w: World, a: int, b: int, name: Seq<char>) -> bool {
    exists|j: int| a <= j < b && name == left_name(w.v.meta, (#[trigger] w.closed[j]).name)
}

/// Those of the rotated files hold what was written to them.
spec fn holds_left(w: World, a: int, b: int) -> bool {
    forall|j: int|
        a <= j < b ==> w.files[left_name(w.v.meta, (#[trigger] w.closed[j]).name)] == archived(
            w.v.meta,
            w.closed[j].contents,
        )
}

/// The log file and the rotated files are named for periods that follow each other,
/// before that of the next rotation.
spec fn in_order(w: World, age: RotationAge) -> bool {
    &&& forall|j: int|
        0 <= j < w.closed.len() ==> {
            &&& has_four_digit_year((#[trigger] w.closed[j]).at)
            &&& is_dated_name(w.v.meta, age, w.closed[j].at, w.closed[j].name)
            &&& w.closed[j].at.period_of(age) < w.at.period_of(age)
        }
    &&& forall|i: int, j: int|
        0 <= i < j < w.closed.len() ==> (#[trigger] w.closed[i]).at.period_of(age) < (
        #[trigger] w.closed[j]).at.period_of(age)
    &&& has_four_digit_year(w.at)
    &&& is_dated_name(w.v.meta, age, w.at, w.current())
    &&& w.at.period_of(age) < w.v.state.next_age_based_time.period_of(age)
}

/// What holds of a log with age-based rotation whenever it has written `bytes`.
spec fn dated_log(w: World, age: RotationAge, bytes: Seq<u8>) -> bool {
    let m = w.v.meta;
    let n = w.closed.len() as int;
    &&& w.v.valid()
    &&& m.rotation == Rotation::AgeBased(age)
    &&& keeps_its_log(m)
    &&& no_percent(m.filename)
    &&& w.v.state.curr_file_path == m.path(w.current())
    &&& in_order(w, age)
    &&& w.files.contains_key(w.current())
    &&& bytes == joined(w.closed) + w.files[w.current()]
    &&& match w.busy {
        None => {
            &&& forall|name: Seq<char>| #[trigger]
                w.files.contains_key(name) <==> name == w.current() || is_left(
                    w,
                    n - kept(m, n as nat),
                    n,
                    name,
                )
            &&& holds_left(w, n - kept(m, n as nat), n)
        },
        Some(path) => {
            let a = n - 1 - kept(m, (n - 1) as nat);
            &&& n >= 1
            &&& w.v.pending is Some
            &&& path == m.path(w.closed[n - 1].name)
            &&& forall|name: Seq<char>| #[trigger]
                w.files.contains_key(name) <==> name == w.current() || name == w.closed[n - 1].name
                    || is_left(w, a, n - 1, name)
            &&& w.files[w.closed[n - 1].name] == w.closed[n - 1].contents
            &&& holds_left(w, a, n - 1)
        },
    }
}

/// Files of different periods have different names, compressed or not.
proof fn lemma_dated_differ(
    m: MetaView,
    age: RotationAge,
    t: TimeView,
    u: TimeView,
    a: Seq<char>,
    b: Seq<char>,
)
    requires
        no_percent(m.filename),
        has_four_digit_year(t),
        has_four_digit_year(u),
        is_dated_name(m, age, t, a),
        is_dated_name(m, age, u, b),
        t.period_of(age) < u.period_of(age),
    ensures
        a != b,
        left_name(m, a) != b,
        a != left_name(m, b),
        left_name(m, a) != left_name(m, b),
        sorts_before(left_name(m, a), left_name(m, b)),
        sorts_before(left_name(m, a), b),
{
    let none = Seq::<char>::empty();
    let e = archive_tail(m);
    assert(left_name(m, a) =~= a + e);
    assert(left_name(m, b) =~= b + e);
    assert(a =~= a + none);
    assert(b =~= b + none);
    law_names_sort_by_time(m, age, t, u, a, b, none, none);
    law_names_sort_by_time(m, age, t, u, a, b, e, none);
    law_names_sort_by_time(m, age, t, u, a, b, none, e);
    law_names_sort_by_time(m, age, t, u, a, b, e, e);
    lemma_order_irreflexive(b);
    lemma_order_irreflexive(left_name(m, b));
}

/// The log file is none of the rotated files.
proof fn lemma_current_differs(w: World, age: RotationAge, j: int)
    requires
        no_percent(w.v.meta.filename),
        in_order(w, age),
        0 <= j < w.closed.len(),
    ensures
        w.closed[j].name != w.current(),
        left_name(w.v.meta, w.closed[j].name) != w.current(),
{
    lemma_dated_differ(
        w.v.meta,
        age,
        w.closed[j].at,
        w.at,
        w.closed[j].name,
        w.current(),
    );
}

/// Writing bytes without a rotation.
proof fn lemma_dated_append(w: World, age: RotationAge, bytes: Seq<u8>, data: Seq<u8>)
    requires
        dated_log(w, age, bytes),
        w.v.state.curr_file_size_bytes + data.len() <= u64::MAX,
    ensures
        dated_log(w.appended(data), age, bytes + data),
{
    let m = w.v.meta;
    let x = w.appended(data);
    let n = w.closed.len() as int;
    assert(joined(w.closed) + (w.files[w.current()] + data) =~= bytes + data);
    assert forall|j: int| 0 <= j < n implies x.files[left_name(
        m,
        (#[trigger] x.closed[j]).name,
    )] == w.files[left_name(m, w.closed[j].name)] && x.files[x.closed[j].name]
        == w.files[w.closed[j].name] by {
        lemma_current_differs(w, age, j);
    }
    assert forall|a: int, b: int, name: Seq<char>| #[trigger] is_left(x, a, b, name) <==> is_left(
        w,
        a,
        b,
        name,
    ) by {
        if is_left(w, a, b, name) {
            let j = choose|j: int|
                a <= j < b && name == left_name(m, (#[trigger] w.closed[j]).name);
            assert(name == left_name(m, x.closed[j].name));
        }
    }
}

/// A rotation.
proof fn lemma_dated_turn(
    w: World,
    age: RotationAge,
    bytes: Seq<u8>,
    name: Seq<char>,
    now: TimeView,
    later: TimeView,
    done: Receiver<()>,
)
    requires
        dated_log(w, age, bytes),
        w.busy is None,
        later.valid(),
        later.reached(now),
        now.reached(w.v.state.next_age_based_time),
        w.v.can_rotate(later),
        has_four_digit_year(w.v.state.next_age_based_time),
        is_dated_name(w.v.meta, age, w.v.state.next_age_based_time, name),
    ensures
        dated_log(w.turned(name, later, done), age, bytes),
{
    let m = w.v.meta;
    let n = w.closed.len() as int;
    let x = w.turned(name, later, done);
    let old = w.v.state.curr_file_path;
    let index = w.v.state.next_size_based_index as nat;
    let none = Seq::<char>::empty();
    law_log_roller_stays_valid(w.v, 0, m.path(name), later, done);
    law_rotations_go_forward(w.v, age, m.path(name), later, name, name, none, none, done);
    law_age_rotation_adds_a_file(m, m.compression, index, old, m.path(name), w.files);
    assert(x.closed.drop_last() =~= w.closed);
    assert(x.current() == name);
    lemma_dated_differ(m, age, w.at, x.at, w.current(), name);
    assert forall|j: int| 0 <= j < n implies (#[trigger] w.closed[j]) == x.closed[j]
        && w.closed[j].name != name && left_name(m, w.closed[j].name) != name by {
        lemma_dated_differ(m, age, w.closed[j].at, x.at, w.closed[j].name, name);
    }
    assert(in_order(x, age));
    assert(!w.files.contains_key(name)) by {
        if is_left(w, n - kept(m, n as nat), n, name) {
            let j = choose|j: int|
                n - kept(m, n as nat) <= j < n && name == left_name(
                    m,
                    (#[trigger] w.closed[j]).name,
                );
            assert(w.closed[j] == x.closed[j]);
        }
    }
    assert(content(x.files, name) == Some(Seq::<u8>::empty()));
    assert(joined(x.closed) + x.files[name] =~= bytes);
    assert(content(x.files, w.current()) == content(w.files, w.current()));
    let a = n - kept(m, n as nat);
    assert forall|other: Seq<char>| #[trigger] is_left(x, a, n, other) <==> is_left(
        w,
        a,
        n,
        other,
    ) by {
        if is_left(w, a, n, other) {
            let j = choose|j: int|
                a <= j < n && other == left_name(m, (#[trigger] w.closed[j]).name);
            assert(other == left_name(m, x.closed[j].name));
        }
        if is_left(x, a, n, other) {
            let j = choose|j: int|
                a <= j < n && other == left_name(m, (#[trigger] x.closed[j]).name);
            assert(other == left_name(m, w.closed[j].name));
        }
    }
    assert forall|other: Seq<char>| #[trigger] x.files.contains_key(other) <==> (other == name
        || other == w.current() || is_left(x, a, n, other)) by {
        if other != name {
            assert(content(x.files, other) == content(w.files, other));
        }
    }
    assert forall|j: int| a <= j < n implies x.files[left_name(
        m,
        (#[trigger] x.closed[j]).name,
    )] == archived(m, x.closed[j].contents) by {
        let left = left_name(m, w.closed[j].name);
        assert(is_left(w, a, n, left));
        assert(content(x.files, left) == content(w.files, left));
    }
}

/// There is one way to write distinct texts in their order.
proof fn lemma_one_order(a: Seq<Seq<char>>, b: Seq<Seq<char>>)
    requires
        sorted(a),
        sorted(b),
        a.no_duplicates(),
        b.no_duplicates(),
        forall|x: Seq<char>| #[trigger] a.contains(x) <==> b.contains(x),
    ensures
        a == b,
    decreases a.len(),
{
    if a.len() == 0 || b.len() == 0 {
        if a.len() > 0 {
            assert(a.contains(a[0]));
        }
        if b.len() > 0 {
            assert(a.contains(b[0]));
        }
        assert(a =~= b);
    } else {
        let x = a.last();
        let y = b.last();
        assert(a.contains(x) && b.contains(y));
        assert(b.contains(x) && a.contains(y));
        let i = choose|i: int| 0 <= i < b.len() && b[i] == x;
        let j = choose|j: int| 0 <= j < a.len() && a[j] == y;
        if x != y {
            assert(!sorts_before(b[b.len() - 1], b[i]));
            assert(!sorts_before(a[a.len() - 1], a[j]));
            lemma_order_total(x, y);
        }
        let p = a.drop_last();
        let q = b.drop_last();
        assert forall|z: Seq<char>| #[trigger] p.contains(z) <==> q.contains(z) by {
            if p.contains(z) {
                let k = choose|k: int| 0 <= k < p.len() && p[k] == z;
                assert(a[k] == z && a[k] != a[a.len() - 1]);
                assert(a.contains(z) && b.contains(z));
                let l = choose|l: int| 0 <= l < b.len() && b[l] == z;
                assert(q[l] == z);
            }
            if q.contains(z) {
                let k = choose|k: int| 0 <= k < q.len() && q[k] == z;
                assert(b[k] == z && b[k] != b[b.len() - 1]);
                assert(b.contains(z) && a.contains(z));
                let l = choose|l: int| 0 <= l < a.len() && a[l] == z;
                assert(p[l] == z);
            }
        }
        assert(sorted(p)) by {
            assert forall|k: int, l: int| 0 <= k < l < p.len() implies !sorts_before(
                #[trigger] p[l],
                #[trigger] p[k],
            ) by {
                assert(p[k] == a[k] && p[l] == a[l]);
            }
        }
        assert(sorted(q)) by {
            assert forall|k: int, l: int| 0 <= k < l < q.len() implies !sorts_before(
                #[trigger] q[l],
                #[trigger] q[k],
            ) by {
                assert(q[k] == b[k] && q[l] == b[l]);
            }
        }
        lemma_one_order(p, q);
        assert(a =~= p.push(x));
        assert(b =~= q.push(y));
    }
}

/// The rotated files from `a` on, as they are left, and then the log file.
spec fn by_age(w: World, a: int) -> Seq<Seq<char>> {
    Seq::new(
        (w.closed.len() - a + 1) as nat,
        |i: int|
            if i < w.closed.len() - a {
                left_name(w.v.meta, w.closed[a + i].name)
            } else {
                w.current()
            },
    )
}

/// That is the order of their names.
proof fn lemma_by_age_is_sorted(w: World, age: RotationAge, a: int)
    requires
        no_percent(w.v.meta.filename),
        in_order(w, age),
        0 <= a <= w.closed.len(),
    ensures
        sorted(by_age(w, a)),
        by_age(w, a).no_duplicates(),
{
    let m = w.v.meta;
    let all = by_age(w, a);
    assert forall|i: int, j: int| 0 <= i < j < all.len() implies sorts_before(
        #[trigger] all[i],
        #[trigger] all[j],
    ) by {
        let x = w.closed[a + i];
        if j < w.closed.len() - a {
            let y = w.closed[a + j];
            lemma_dated_differ(m, age, x.at, y.at, x.name, y.name);
        } else {
            lemma_dated_differ(m, age, x.at, w.at, x.name, w.current());
        }
    }
    assert forall|i: int, j: int| 0 <= i < j < all.len() implies !sorts_before(
        #[trigger] all[j],
        #[trigger] all[i],
    ) && all[i] != all[j] by {
        lemma_order_total(all[i], all[j]);
        lemma_order_irreflexive(all[i]);
    }
}

/// What is in the directory of a log with age-based rotation once the file that was
/// rotated last has been compressed.
proof fn lemma_dated_compressed(w: World, age: RotationAge, bytes: Seq<u8>)
    requires
        dated_log(w, age, bytes),
        w.busy is Some,
    ensures
        ({
            let n = w.closed.len() as int;
            let a = n - 1 - kept(w.v.meta, (n - 1) as nat);
            let finished = w.compressed(w.busy->0);
            &&& forall|j: int|
                a <= j < n ==> #[trigger] content(
                    finished,
                    left_name(w.v.meta, w.closed[j].name),
                ) == Some(archived(w.v.meta, w.closed[j].contents))
            &&& content(finished, w.current()) == content(w.files, w.current())
            &&& forall|name: Seq<char>| #[trigger]
                finished.contains_key(name) <==> (name == w.current() || is_left(w, a, n, name))
        }),
{
    let m = w.v.meta;
    let n = w.closed.len() as int;
    let last = w.closed[n - 1];
    let path = m.path(last.name);
    let finished = w.compressed(path);
    let a = n - 1 - kept(m, (n - 1) as nat);
    law_compression_replaces_the_file(m, path, w.files);
    lemma_current_differs(w, age, n - 1);
    assert forall|j: int| a <= j < n implies #[trigger] content(
        finished,
        left_name(m, w.closed[j].name),
    ) == Some(archived(m, w.closed[j].contents)) by {
        if j < n - 1 {
            let left = left_name(m, w.closed[j].name);
            lemma_dated_differ(m, age, w.closed[j].at, last.at, w.closed[j].name, last.name);
            assert(is_left(w, a, n - 1, left));
            assert(content(finished, left) == content(w.files, left));
        }
    }
    assert(content(finished, w.current()) == content(w.files, w.current()));
    assert forall|name: Seq<char>| #[trigger] finished.contains_key(name) <==> (name == w.current()
        || is_left(w, a, n, name)) by {
        if is_left(w, a, n, name) {
            let j = choose|j: int|
                a <= j < n && name == left_name(m, (#[trigger] w.closed[j]).name);
            assert(content(finished, left_name(m, w.closed[j].name)) is Some);
        }
        if finished.contains_key(name) && name != w.current() {
            assert(content(finished, name) is Some);
            if name == left_name(m, last.name) {
                assert(is_left(w, a, n, name));
            } else {
                assert(content(finished, name) == content(w.files, name));
                let j = choose|j: int|
                    a <= j < n - 1 && name == left_name(m, (#[trigger] w.closed[j]).name);
                assert(is_left(w, a, n, name));
            }
        }
    }
}

/// Cleaning up finds all files of the log, in the order of their periods.
proof fn lemma_dated_listed(w: World, age: RotationAge, bytes: Seq<u8>, names: Seq<Seq<char>>)
    requires
        dated_log(w, age, bytes),
        w.busy matches Some(path) && lists(w.v.meta, names, w.compressed(path)),
    ensures
        ({
            let n = w.closed.len() as int;
            names == by_age(w, n - 1 - kept(w.v.meta, (n - 1) as nat))
        }),
{
    let m = w.v.meta;
    let n = w.closed.len() as int;
    let finished = w.compressed(w.busy->0);
    let a = n - 1 - kept(m, (n - 1) as nat);
    lemma_dated_compressed(w, age, bytes);
    let all = by_age(w, a);
    lemma_by_age_is_sorted(w, age, a);
    assert forall|name: Seq<char>| #[trigger] names.contains(name) <==> all.contains(name) by {
        if all.contains(name) {
            let i = choose|i: int| 0 <= i < all.len() && all[i] == name;
            if i < n - a {
                let old = w.closed[a + i];
                assert(name == left_name(m, old.name));
                assert(is_left(w, a, n, name));
                law_dated_files_fit(m, age, old.at, old.name);
                assert(left_name(m, old.name) =~= old.name + archive_tail(m));
                if let Some(c) = m.compression {
                    assert(old.name + seq!['.'] + c.extension() =~= old.name + archive_tail(m));
                } else {
                    assert(old.name + archive_tail(m) =~= old.name);
                }
            } else {
                law_dated_files_fit(m, age, w.at, w.current());
            }
        }
        if names.contains(name) {
            assert(finished.contains_key(name));
            if name == w.current() {
                assert(all[n - a] == name);
            } else {
                let j = choose|j: int|
                    a <= j < n && name == left_name(m, (#[trigger] w.closed[j]).name);
                assert(all[j - a] == name);
            }
        }
    }
    lemma_one_order(names, all);
}

/// The end of the processing of a rotated file.
proof fn lemma_dated_processed(w: World, age: RotationAge, bytes: Seq<u8>, names: Seq<Seq<char>>)
    requires
        dated_log(w, age, bytes),
        w.busy matches Some(path) && lists(w.v.meta, names, w.compressed(path)),
    ensures
        dated_log(w.after(Event::Processed { names }), age, bytes),
{
    let m = w.v.meta;
    let n = w.closed.len() as int;
    let finished = w.compressed(w.busy->0);
    let gone = expired(m, names);
    let x = w.after(Event::Processed { names });
    let a = n - 1 - kept(m, (n - 1) as nat);
    let b = n - kept(m, n as nat);
    let all = by_age(w, a);
    lemma_dated_compressed(w, age, bytes);
    lemma_dated_listed(w, age, bytes, names);
    lemma_by_age_is_sorted(w, age, a);
    assert(gone =~= all.take(b - a));
    assert forall|j: int| a <= j < n implies (gone.contains(
        left_name(m, (#[trigger] w.closed[j]).name),
    ) <==> j < b) by {
        let left = left_name(m, w.closed[j].name);
        assert(all[j - a] == left);
        if j < b {
            assert(gone[j - a] == left);
        }
        if gone.contains(left) {
            let i = choose|i: int| 0 <= i < gone.len() && gone[i] == left;
            assert(all[i] == left);
        }
    }
    assert(!gone.contains(w.current())) by {
        if gone.contains(w.current()) {
            let i = choose|i: int| 0 <= i < gone.len() && gone[i] == w.current();
            assert(all[i] == all[n - a]);
        }
    }
    assert forall|name: Seq<char>| #[trigger] x.files.contains_key(name) <==> (name == w.current()
        || is_left(x, b, n, name)) by {
        if is_left(x, b, n, name) {
            let j = choose|j: int|
                b <= j < n && name == left_name(m, (#[trigger] x.closed[j]).name);
            assert(name == left_name(m, w.closed[j].name));
            assert(is_left(w, a, n, name));
        }
        if x.files.contains_key(name) && name != w.current() {
            assert(finished.contains_key(name));
            let j = choose|j: int|
                a <= j < n && name == left_name(m, (#[trigger] w.closed[j]).name);
            assert(!gone.contains(left_name(m, w.closed[j].name)));
            assert(name == left_name(m, x.closed[j].name));
        }
    }
    assert forall|j: int| b <= j < n implies x.files[left_name(
        m,
        (#[trigger] x.closed[j]).name,
    )] == archived(m, x.closed[j].contents) by {
        let left = left_name(m, w.closed[j].name);
        assert(content(finished, left) is Some);
        assert(!gone.contains(left));
    }
    assert(x.files[w.current()] == w.files[w.current()]);
}

/// A log with age-based rotation, after any sequence of events.
proof fn lemma_dated_history(
    m: MetaView,
    age: RotationAge,
    named_at: TimeView,
    started_at: TimeView,
    events: Seq<Event>,
)
    requires
        starts(m, named_at, started_at),
        m.rotation == Rotation::AgeBased(age),
        no_percent(m.filename),
        has_four_digit_year(named_at),
        is_dated_name(m, age, named_at, opened(m, named_at, started_at).current()),
        possible(opened(m, named_at, started_at), events),
    ensures
        dated_log(history(opened(m, named_at, started_at), events), age, bytes_written(events)),
    decreases events.len(),
{
    let start = opened(m, named_at, started_at);
    if events.len() == 0 {
        law_log_roller_starts_valid(m, Seq::empty(), None, named_at, started_at);
        assert(joined(start.closed) + start.files[start.current()] =~= Seq::<u8>::empty());
    } else {
        lemma_dated_history(m, age, named_at, started_at, events.drop_last());
        let w = history(start, events.drop_last());
        let bytes = bytes_written(events.drop_last());
        match events.last() {
            Event::Write { data, now, ready, later, done } => {
                lemma_dated_append(w, age, bytes, data);
                if let Some(name) = w.appended(data).turns_to(now, ready) {
                    lemma_dated_turn(
                        w.appended(data),
                        age,
                        bytes + data,
                        name,
                        now,
                        later,
                        done,
                    );
                }
            },
            Event::Processed { names } => {
                lemma_dated_processed(w, age, bytes, names);
            },
            Event::Flushed => {},
        }
    }
}

/// A log roller of this configuration can be built at these times, and under
/// age-based rotation its log file is named with the stamp of the time.
pub open spec fn begins(m: MetaView, named_at: TimeView, started_at: TimeView) -> bool {
    &&& starts(m, named_at, started_at)
    &&& m.rotation matches Rotation::AgeBased(age) ==> {
        &&& no_percent(m.filename)
        &&& has_four_digit_year(named_at)
        &&& is_dated_name(m, age, named_at, opened(m, named_at, started_at).current())
    }
}

/// What the log holds when no processing is under way, by size.
proof fn lemma_numbered_settled(w: World, bytes: Seq<u8>)
    requires
        numbered_log(w, bytes),
        w.busy is None,
    ensures
        holds_youngest(w),
{
    let m = w.v.meta;
    let c = m.compression;
    let k = kept(m, w.closed.len());
    let all = youngest(w);
    assert forall|name: Seq<char>| w.files.contains_key(name) <==> #[trigger] all.contains(
        name,
    ) by {
        if all.contains(name) {
            let i = choose|i: int| 0 <= i < all.len() && all[i] == name;
            if i > 0 {
                assert(name == archive(m, i as nat));
                assert(is_archive(m, 1, k, name));
            }
        }
        if w.files.contains_key(name) {
            if name == m.filename {
                assert(all[0] == name);
            } else {
                let i = choose|i: nat| 1 <= i <= k && name == #[trigger] archive(m, i);
                assert(all[i as int] == name);
            }
        }
    }
    assert forall|i: int, j: int| 0 <= i < j < all.len() implies all[i] != all[j] by {
        lemma_slots_differ(m, c, c is Some, i as nat, c is Some, j as nat);
        lemma_slots_differ(m, c, c is Some, j as nat, c is Some, i as nat);
        assert(all[j] == archive(m, j as nat));
        if i > 0 {
            assert(all[i] == archive(m, i as nat));
        }
    }
    assert forall|i: nat| 1 <= i <= k implies w.files[#[trigger] left_as(w, i)] == archived(
        m,
        w.closed[w.closed.len() - i].contents,
    ) by {
        assert(left_as(w, i) == archive(m, i));
    }
    lemma_holds(w);
}

/// What the log holds when no processing is under way, by age.
proof fn lemma_dated_settled(w: World, age: RotationAge, bytes: Seq<u8>)
    requires
        dated_log(w, age, bytes),
        w.busy is None,
    ensures
        holds_youngest(w),
{
    let m = w.v.meta;
    let n = w.closed.len() as int;
    let k = kept(m, n as nat) as int;
    let all = youngest(w);
    assert forall|name: Seq<char>| w.files.contains_key(name) <==> #[trigger] all.contains(
        name,
    ) by {
        if all.contains(name) {
            let i = choose|i: int| 0 <= i < all.len() && all[i] == name;
            if i > 0 {
                assert(name == left_name(m, w.closed[n - i].name));
                assert(is_left(w, n - k, n, name));
            }
        }
        if w.files.contains_key(name) {
            if name == w.current() {
                assert(all[0] == name);
            } else {
                let j = choose|j: int|
                    n - k <= j < n && name == left_name(m, (#[trigger] w.closed[j]).name);
                assert(all[n - j] == name);
            }
        }
    }
    assert forall|i: int, j: int| 0 <= i < j < all.len() implies all[i] != all[j] by {
        let y = w.closed[n - j];
        assert(all[j] == left_name(m, y.name));
        if i > 0 {
            let x = w.closed[n - i];
            assert(all[i] == left_name(m, x.name));
            lemma_dated_differ(m, age, y.at, x.at, y.name, x.name);
        } else {
            lemma_current_differs(w, age, n - j);
        }
    }
    assert forall|i: nat| 1 <= i <= k implies w.files[#[trigger] left_as(w, i)] == archived(
        m,
        w.closed[n - i].contents,
    ) by {
        assert(left_as(w, i) == left_name(m, w.closed[n - i].name));
    }
    lemma_holds(w);
}

/// The directory holds the log file and the youngest of the rotated files, as many
/// as are to be kept, and nothing else. Each of them holds, compressed where files
/// are compressed, what was written to it.
pub open spec fn holds_youngest(w: World) -> bool {
    let m = w.v.meta;
    let n = w.closed.len();
    &&& w.files.dom() == youngest(w).to_set()
    &&& youngest(w).no_duplicates()
    &&& w.files.dom().len() == kept(m, n) + 1
    &&& forall|i: nat|
        1 <= i <= kept(m, n) ==> w.files[#[trigger] left_as(w, i)] == archived(
            m,
            w.closed[n - i].contents,
        )
}

/// The parts of that statement.
proof fn lemma_holds(w: World)
    requires
        forall|name: Seq<char>|
            w.files.contains_key(name) <==> #[trigger] youngest(w).contains(name),
        youngest(w).no_duplicates(),
        forall|i: nat|
            1 <= i <= kept(w.v.meta, w.closed.len()) ==> w.files[#[trigger] left_as(w, i)]
                == archived(w.v.meta, w.closed[w.closed.len() - i].contents),
    ensures
        holds_youngest(w),
{
    let all = youngest(w);
    assert forall|name: Seq<char>| #[trigger] w.files.dom().contains(name)
        <==> all.to_set().contains(name) by {
        assert(all.to_set().contains(name) <==> all.contains(name));
    }
    assert(w.files.dom() =~= all.to_set());
    all.unique_seq_to_set();
}

/// Over any sequence of writes, rotations, processing and flushes, from a log roller
/// that is built on an empty directory: no byte is lost, repeated or out of order
/// among the rotated files and the log file. Whenever no processing is under way,
/// the directory holds the log file and the youngest of the rotated files, as many
/// as are to be kept, and nothing else.
pub proof fn law_log_holds_the_youngest(
    m: MetaView,
    named_at: TimeView,
    started_at: TimeView,
    events: Seq<Event>,
)
    requires
        begins(m, named_at, started_at),
        possible(opened(m, named_at, started_at), events),
    ensures
        ({
            let w = history(opened(m, named_at, started_at), events);
            &&& w.v.meta == m
            &&& w.files.contains_key(w.current())
            &&& bytes_written(events) == joined(w.closed) + w.files[w.current()]
            &&& w.busy is Some ==> w.v.pending is Some
            &&& w.busy is None ==> holds_youngest(w)
        }),
{
    let w = history(opened(m, named_at, started_at), events);
    lemma_meta_stays(opened(m, named_at, started_at), events);
    match m.rotation {
        Rotation::SizeBased(_) => {
            lemma_numbered_history(m, named_at, started_at, events);
            if w.busy is None {
                lemma_numbered_settled(w, bytes_written(events));
            }
        },
        Rotation::AgeBased(age) => {
            lemma_dated_history(m, age, named_at, started_at, events);
            if w.busy is None {
                lemma_dated_settled(w, age, bytes_written(events));
            }
        },
    }
}

/// The configuration stays as it is.
proof fn lemma_meta_stays(start: World, events: Seq<Event>)
    ensures
        history(start, events).v.meta == start.v.meta,
    decreases events.len(),
{
    if events.len() > 0 {
        lemma_meta_stays(start, events.drop_last());
    }
}

/// After a flush that waits, over any sequence of events before it: there are at
/// most as many files as are to be kept, and no rotated file is left that is older
/// than one that was removed.
pub proof fn law_flushed_log_is_within_its_limit(
    m: MetaView,
    max: u64,
    named_at: TimeView,
    started_at: TimeView,
    events: Seq<Event>,
)
    requires
        begins(m, named_at, started_at),
        m.graceful_shutdown,
        m.max_keep_files == Some(max),
        possible(opened(m, named_at, started_at), events.push(Event::Flushed)),
    ensures
        ({
            let w = history(opened(m, named_at, started_at), events.push(Event::Flushed));
            let n = w.closed.len();
            &&& w.busy is None
            &&& w.v.pending is None
            &&& w.files.dom().len() <= max as usize
            &&& w.files.contains_key(w.current())
            &&& forall|i: nat|
                1 <= i <= n ==> (w.files.contains_key(#[trigger] left_as(w, i)) <==> i <= kept(
                    m,
                    n,
                ))
            &&& forall|i: nat|
                1 <= i <= kept(m, n) ==> w.files[#[trigger] left_as(w, i)] == archived(
                    m,
                    w.closed[n - i].contents,
                )
        }),
{
    let start = opened(m, named_at, started_at);
    let all = events.push(Event::Flushed);
    assert(all.drop_last() =~= events);
    law_log_holds_the_youngest(m, named_at, started_at, events);
    law_log_holds_the_youngest(m, named_at, started_at, all);
    let w = history(start, all);
    let n = w.closed.len();
    assert forall|i: nat| 1 <= i <= n implies (w.files.contains_key(#[trigger] left_as(w, i))
        <==> i <= kept(m, n)) by {
        let name = left_as(w, i);
        let list = youngest(w);
        if i <= kept(m, n) {
            assert(list[i as int] == name);
            assert(list.to_set().contains(name));
        } else if w.files.contains_key(name) {
            assert(w.files.dom().contains(name));
            assert(list.contains(name));
            let j = choose|j: int| 0 <= j < list.len() && list[j] == name;
            match m.rotation {
                Rotation::SizeBased(_) => {
                    let c = m.compression;
                    lemma_numbered_history(m, named_at, started_at, all);
                    lemma_slots_differ(m, c, c is Some, i, c is Some, j as nat);
                },
                Rotation::AgeBased(age) => {
                    lemma_dated_history(m, age, named_at, started_at, all);
                    let x = w.closed[n - i];
                    if j == 0 {
                        lemma_current_differs(w, age, n - i);
                    } else {
                        let y = w.closed[n - j];
                        assert(list[j] == left_name(m, y.name));
                        lemma_dated_differ(m, age, x.at, y.at, x.name, y.name);
                    }
                },
            }
        }
    }
}

/// The contents of the rotated files from the number `k` down to one, and then
/// those of the log file.
pub open spec fn oldest_first(m: MetaView, files: Map<Seq<char>, Seq<u8>>, k: nat) -> Seq<u8>
    decreases k,
{
    if k == 0 {
        files[m.filename]
    } else {
        files[rotated_name(m.filename, k)] + oldest_first(m, files, (k - 1) as nat)
    }
}

/// Over any sequence of writes and rotations by size, without compression and
/// without a limit, at every time: the directory holds the log file and one file for
/// each rotation, numbered from one, and nothing else. The files in order, the
/// largest number first and the log file last, hold all bytes that were written.
pub proof fn law_unlimited_log_holds_all_bytes(
    m: MetaView,
    named_at: TimeView,
    started_at: TimeView,
    events: Seq<Event>,
)
    requires
        begins(m, named_at, started_at),
        m.rotation is SizeBased,
        m.compression is None,
        m.max_keep_files is None,
        possible(opened(m, named_at, started_at), events),
    ensures
        ({
            let w = history(opened(m, named_at, started_at), events);
            let n = w.closed.len();
            &&& forall|name: Seq<char>| #[trigger]
                w.files.contains_key(name) <==> name == m.filename || exists|i: nat|
                    1 <= i <= n && name == #[trigger] rotated_name(m.filename, i)
            &&& oldest_first(m, w.files, n) == bytes_written(events)
        }),
{
    let w = history(opened(m, named_at, started_at), events);
    let n = w.closed.len();
    lemma_meta_stays(opened(m, named_at, started_at), events);
    lemma_numbered_history(m, named_at, started_at, events);
    assert forall|i: nat| 1 <= i <= n implies w.files[#[trigger] rotated_name(m.filename, i)]
        == w.closed[n - i].contents by {
        assert(rotated_name(m.filename, i) == archive(m, i));
    }
    assert forall|name: Seq<char>| #[trigger] w.files.contains_key(name) <==> (name == m.filename
        || exists|i: nat| 1 <= i <= n && name == #[trigger] rotated_name(m.filename, i)) by {
        if exists|i: nat| 1 <= i <= n && name == #[trigger] rotated_name(m.filename, i) {
            let i = choose|i: nat| 1 <= i <= n && name == #[trigger] rotated_name(m.filename, i);
            assert(name == archive(m, i));
            if w.busy is None {
                assert(is_archive(m, 1, n, name));
            } else if i >= 2 {
                assert(is_archive(m, 2, n, name));
            }
        }
        if w.files.contains_key(name) && name != m.filename {
            if is_archive(m, 1, n, name) {
                let i = choose|i: nat| 1 <= i <= n && name == #[trigger] archive(m, i);
                assert(name == rotated_name(m.filename, i));
            } else {
                if is_archive(m, 2, n, name) {
                    let i = choose|i: nat| 2 <= i <= n && name == #[trigger] archive(m, i);
                    assert(is_archive(m, 1, n, name));
                }
                assert(name == rotated_name(m.filename, 1));
            }
        }
    }
    lemma_oldest_first(w, n);
    assert(w.closed.skip(0) =~= w.closed);
}

/// The files in order hold what was written to the rotated files, and then the log.
proof fn lemma_oldest_first(w: World, k: nat)
    requires
        k <= w.closed.len(),
        forall|i: nat|
            1 <= i <= w.closed.len() ==> w.files[#[trigger] rotated_name(w.v.meta.filename, i)]
                == w.closed[w.closed.len() - i].contents,
    ensures
        oldest_first(w.v.meta, w.files, k) == joined(w.closed.skip(w.closed.len() - k))
            + w.files[w.v.meta.filename],
    decreases k,
{
    let m = w.v.meta;
    let n = w.closed.len() as int;
    if k == 0 {
        assert(joined(w.closed.skip(n)) + w.files[m.filename] =~= w.files[m.filename]);
    } else {
        lemma_oldest_first(w, (k - 1) as nat);
        let part = w.closed.skip(n - k);
        lemma_joined_first(part);
        assert(part.skip(1) =~= w.closed.skip(n - (k - 1)));
        assert(w.files[rotated_name(m.filename, k)] == part[0].contents);
        assert(part[0].contents + (joined(part.skip(1)) + w.files[m.filename]) =~= part[0].contents
            + joined(part.skip(1)) + w.files[m.filename]);
    }
}

/// The first of the rotated files comes first.
proof fn lemma_joined_first(closed: Seq<Closed>)
    requires
        closed.len() > 0,
    ensures
        joined(closed) == closed[0].contents + joined(closed.skip(1)),
    decreases closed.len(),
{
    reveal_with_fuel(joined, 2);
    let rest = closed.drop_last();
    if closed.len() == 1 {
        assert(joined(closed) =~= closed[0].contents + joined(closed.skip(1)));
    } else {
        lemma_joined_first(rest);
        assert(closed.skip(1).drop_last() =~= rest.skip(1));
        assert(closed[0].contents + joined(rest.skip(1)) + closed.last().contents
            =~= closed[0].contents + (joined(rest.skip(1)) + closed.last().contents));
    }
}

/// A log roller that was built on the files of a directory, with its log file opened:
/// it is told the names, and the size of the configured file, where that is there.
pub open spec fn resumed(
    m: MetaView,
    names: Seq<Seq<char>>,
    files: Map<Seq<char>, Seq<u8>>,
    named_at: TimeView,
    started_at: TimeView,
) -> World {
    let size = if files.contains_key(m.filename) {
        Some(files[m.filename].len() as u64)
    } else {
        None
    };
    let v = initial(m, names, size, named_at, started_at);
    let name = v.state.curr_file_path.name;
    World {
        v,
        files: if files.contains_key(name) {
            files
        } else {
            files.insert(name, Seq::empty())
        },
        at: named_at,
        busy: None,
        closed: Seq::empty(),
    }
}

/// What holds of the count of a log with size-based rotation.
spec fn counted(w: World) -> bool {
    let m = w.v.meta;
    &&& w.v.valid()
    &&& m.rotation is SizeBased
    &&& w.files.contains_key(m.filename)
    &&& w.v.state.curr_file_size_bytes == w.files[m.filename].len()
    &&& w.busy matches Some(path) ==> path.name == rotated_name(m.filename, 1)
        && w.files.contains_key(path.name)
}

/// An event keeps the count right.
proof fn lemma_counted(w: World, event: Event)
    requires
        counted(w),
        w.allows(event),
    ensures
        counted(w.after(event)),
        w.after(event).v.meta == w.v.meta,
{
    let m = w.v.meta;
    lemma_slots_differ(m, m.compression, false, 1, false, 1);
    assert(slot(m, m.compression, false, 1) == rotated_name(m.filename, 1));
    match event {
        Event::Write { data, now, ready, later, done } => {
            let x = w.appended(data);
            assert(x.v.valid());
            if let Some(name) = x.turns_to(now, ready) {
                let new_path = m.path(name);
                let steps = refresh_steps(
                    m,
                    x.v.state.curr_file_path,
                    new_path,
                    x.v.state.next_size_based_index as nat,
                    m.compression,
                );
                law_rotation_moves_files_up(
                    m,
                    m.compression,
                    x.v.state.next_size_based_index as nat,
                    x.v.state.curr_file_path,
                    x.files,
                );
                assert(steps[0] == (FileStep::Submit { path: new_path }));
                assert(content(run(steps, x.files), m.filename) == Some(Seq::<u8>::empty()));
                assert(content(run(steps, x.files), name) is Some);
                law_log_roller_stays_valid(x.v, 0, new_path, later, done);
            }
        },
        Event::Processed { names } => {
            let path = w.busy->0;
            law_compression_replaces_the_file(m, path, w.files);
            law_log_file_is_kept(m, names);
            if m.compression is Some {
                lemma_slots_differ(m, m.compression, true, 1, true, 1);
                assert(slot(m, m.compression, true, 1) == packed_path(
                    path,
                    m.compression->0,
                ).name);
            }
            assert(content(w.compressed(path), m.filename) == content(w.files, m.filename));
        },
        Event::Flushed => {},
    }
}

/// Under size-based rotation the count of a log roller is the length of its log file:
/// when it starts, whatever the file held before, and after any sequence of writes,
/// rotations, ends of processings and flushes.
pub proof fn law_count_is_the_length_of_the_log(
    m: MetaView,
    names: Seq<Seq<char>>,
    files: Map<Seq<char>, Seq<u8>>,
    named_at: TimeView,
    started_at: TimeView,
    events: Seq<Event>,
)
    requires
        m.rotation is SizeBased,
        refusal(m) is None,
        largest_number(names, m.filename) < usize::MAX,
        files.contains_key(m.filename) ==> files[m.filename].len() <= u64::MAX,
        named_at.valid(),
        started_at.valid(),
        started_at.reached(named_at),
        started_at.offset == named_at.offset == m.time_zone,
        started_at.can_advance(first_age(m.rotation)),
        possible(resumed(m, names, files, named_at, started_at), events),
    ensures
        ({
            let w = history(resumed(m, names, files, named_at, started_at), events);
            &&& w.files.contains_key(m.filename)
            &&& w.v.state.curr_file_size_bytes == w.files[m.filename].len()
        }),
{
    lemma_counted_history(m, names, files, named_at, started_at, events);
}

/// The count stays right.
proof fn lemma_counted_history(
    m: MetaView,
    names: Seq<Seq<char>>,
    files: Map<Seq<char>, Seq<u8>>,
    named_at: TimeView,
    started_at: TimeView,
    events: Seq<Event>,
)
    requires
        m.rotation is SizeBased,
        refusal(m) is None,
        largest_number(names, m.filename) < usize::MAX,
        files.contains_key(m.filename) ==> files[m.filename].len() <= u64::MAX,
        named_at.valid(),
        started_at.valid(),
        started_at.reached(named_at),
        started_at.offset == named_at.offset == m.time_zone,
        started_at.can_advance(first_age(m.rotation)),
        possible(resumed(m, names, files, named_at, started_at), events),
    ensures
        counted(history(resumed(m, names, files, named_at, started_at), events)),
        history(resumed(m, names, files, named_at, started_at), events).v.meta == m,
    decreases events.len(),
{
    let start = resumed(m, names, files, named_at, started_at);
    if events.len() == 0 {
        law_log_roller_starts_valid(
            m,
            names,
            if files.contains_key(m.filename) {
                Some(files[m.filename].len() as u64)
            } else {
                None
            },
            named_at,
            started_at,
        );
    } else {
        lemma_counted_history(m, names, files, named_at, started_at, events.drop_last());
        lemma_counted(history(start, events.drop_last()), events.last());
    }
}

} // verus!
