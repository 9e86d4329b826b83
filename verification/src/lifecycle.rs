//! What holds of the files of a log as it is rotated again and again.
use crate::builder::initial;
use crate::calendar::TimeView;
use crate::codec::packed;
use crate::directory::{
    content, free_from, in_use, is_slot_up_to, law_age_rotation_adds_a_file,
    law_compression_replaces_the_file, law_number_behind_largest_is_free,
    law_numbers_stay_below_next, law_rotation_loses_nothing, law_rotation_moves_files_up,
    lemma_slots_differ, name_after_rotation, run, slot, top_number,
};
use crate::error::PathView;
use crate::meta::MetaView;
use crate::numbering::{largest_number, rotated_name};
use crate::retention::{expired, law_cleanup_by_number, law_log_file_is_kept};
use crate::roller::RollerView;
use crate::rollover::{compress_steps, packed_path, refresh_steps};
use crossbeam_channel::Receiver;
use vstd::prelude::*;

verus! {

/// The files after a size-based rotation.
pub open spec fn after_rotation(v: RollerView, files: Map<Seq<char>, Seq<u8>>) -> Map<
    Seq<char>,
    Seq<u8>,
> {
    run(
        refresh_steps(
            v.meta,
            v.state.curr_file_path,
            v.meta.path(rotated_name(v.meta.filename, 1)),
            v.state.next_size_based_index as nat,
            v.meta.compression,
        ),
        files,
    )
}

/// The files after the file that was rotated last was compressed.
pub open spec fn after_compression(v: RollerView, files: Map<Seq<char>, Seq<u8>>) -> Map<
    Seq<char>,
    Seq<u8>,
> {
    run(compress_steps(v.meta, v.meta.path(rotated_name(v.meta.filename, 1))), files)
}

/// A log roller that starts finds its next number free, and so are the numbers
/// behind it, unless the number of files to keep is smaller.
pub proof fn law_first_number_is_free(
    m: MetaView,
    names: Seq<Seq<char>>,
    size: Option<u64>,
    named_at: TimeView,
    started_at: TimeView,
    files: Map<Seq<char>, Seq<u8>>,
)
    requires
        largest_number(names, m.filename) < usize::MAX,
        forall|name: Seq<char>| #[trigger] files.contains_key(name) ==> names.contains(name),
        m.max_keep_files matches Some(max) ==> largest_number(names, m.filename) < max as usize,
    ensures
        ({
            let next = initial(m, names, size, named_at, started_at).state.next_size_based_index;
            next >= 1 && free_from(m, m.compression, next as nat, files)
        }),
{
    law_number_behind_largest_is_free(m, m.compression, names, files);
}

/// Where the next number and those behind it are free, a size-based rotation loses
/// nothing: the contents of each file are there afterwards, under a name of its
/// own. Without a limit on the number of files the next number is free again, also
/// after the rotated file was compressed, which touches no other file. So a log
/// without a limit never loses a file.
pub proof fn law_unlimited_log_loses_nothing(
    v: RollerView,
    now: TimeView,
    done: Receiver<()>,
    files: Map<Seq<char>, Seq<u8>>,
)
    requires
        v.meta.rotation is SizeBased,
        v.meta.max_keep_files is None,
        1 <= v.state.next_size_based_index < usize::MAX,
        files.contains_key(v.meta.filename),
        free_from(v.meta, v.meta.compression, v.state.next_size_based_index as nat, files),
    ensures
        ({
            let m = v.meta;
            let log = files[m.filename];
            let one = m.path(rotated_name(m.filename, 1));
            let index = v.state.next_size_based_index as nat;
            let next = v.rotated(one, now, done).state.next_size_based_index as nat;
            let after = after_rotation(v, files);
            let finished = after_compression(v, after);
            &&& next == index + 1
            &&& forall|name: Seq<char>| #[trigger]
                files.contains_key(name) ==> content(
                    after,
                    name_after_rotation(m, m.compression, index, name),
                ) == Some(files[name])
            &&& forall|a: Seq<char>, b: Seq<char>|
                files.contains_key(a) && files.contains_key(b) && #[trigger] name_after_rotation(
                    m,
                    m.compression,
                    index,
                    a,
                ) == #[trigger] name_after_rotation(m, m.compression, index, b) ==> a == b
            &&& content(after, m.filename) == Some(Seq::<u8>::empty())
            &&& free_from(m, m.compression, next, after)
            &&& m.compression matches Some(c) ==> {
                &&& content(after, packed_path(one, c).name) is None
                &&& content(finished, packed_path(one, c).name) == Some(packed(c, log))
                &&& content(finished, one.name) is None
                &&& forall|name: Seq<char>|
                    name != one.name && name != packed_path(one, c).name ==> #[trigger] content(
                        finished,
                        name,
                    ) == content(after, name)
                &&& free_from(m, m.compression, next, finished)
            }
        }),
{
    let m = v.meta;
    let one = m.path(rotated_name(m.filename, 1));
    let index = v.state.next_size_based_index as nat;
    let next = v.rotated(one, now, done).state.next_size_based_index as nat;
    let after = after_rotation(v, files);
    let finished = after_compression(v, after);
    assert forall|p: bool| in_use(m.compression, p) implies !files.contains_key(
        #[trigger] slot(m, m.compression, p, top_number(index)),
    ) by {
        assert(content(files, slot(m, m.compression, p, index)) is None);
    }
    law_rotation_moves_files_up(m, m.compression, index, v.state.curr_file_path, files);
    law_rotation_loses_nothing(m, m.compression, index, v.state.curr_file_path, files);
    law_numbers_stay_below_next(m, m.compression, index, v.state.curr_file_path, files);
    if let Some(c) = m.compression {
        let target = packed_path(one, c);
        assert(target.name == slot(m, m.compression, true, 1));
        assert(one.name == slot(m, m.compression, false, 1));
        assert(content(files, slot(m, m.compression, true, index)) is None);
        assert(after[one.name] == files[m.filename]);
        law_compression_replaces_the_file(m, one, after);
        assert forall|p: bool, i: nat|
            in_use(m.compression, p) && next <= i <= usize::MAX implies #[trigger] content(
            finished,
            slot(m, m.compression, p, i),
        ) is None by {
            lemma_slots_differ(m, m.compression, p, i, true, 1);
            lemma_slots_differ(m, m.compression, p, i, false, 1);
            assert(content(finished, slot(m, m.compression, p, i)) == content(
                after,
                slot(m, m.compression, p, i),
            ));
        }
    }
}

/// The files after cleaning up, where `names` are the log's files in the directory.
pub open spec fn after_cleanup(
    v: RollerView,
    names: Seq<Seq<char>>,
    files: Map<Seq<char>, Seq<u8>>,
) -> Map<Seq<char>, Seq<u8>> {
    files.remove_keys(expired(v.meta, names).to_set())
}

/// The rotated file with the number `i` as it is left by a whole rotation:
/// compressed where files are compressed.
pub open spec fn archive(m: MetaView, i: nat) -> Seq<char> {
    slot(m, m.compression, m.compression is Some, i)
}

/// What follows the number in the name of an archived file.
pub open spec fn archive_tail(m: MetaView) -> Seq<char> {
    match m.compression {
        Some(c) => seq!['.'] + c.extension(),
        None => Seq::empty(),
    }
}

/// An archived file is a rotated file, with the extension of compressed files where
/// files are compressed.
pub proof fn lemma_archive_is_rotated(m: MetaView, i: nat)
    ensures
        archive(m, i) == rotated_name(m.filename, i) + archive_tail(m),
{
    assert(archive(m, i) =~= rotated_name(m.filename, i) + archive_tail(m));
}

/// No numbered file has the number `n` or a larger one, and where files are
/// compressed there is none that is not.
pub open spec fn settled(m: MetaView, n: nat, files: Map<Seq<char>, Seq<u8>>) -> bool {
    &&& free_from(m, m.compression, n, files)
    &&& m.compression is Some ==> forall|i: nat|
        1 <= i <= usize::MAX ==> #[trigger] content(files, slot(m, m.compression, false, i)) is None
}

/// What a log file with these contents is in the archive.
pub open spec fn archived(m: MetaView, contents: Seq<u8>) -> Seq<u8> {
    match m.compression {
        Some(c) => packed(c, contents),
        None => contents,
    }
}

/// A whole size-based rotation, with compression and cleanup, leaves an empty log
/// file. What was in the log is in the archive with the number one; each archived
/// file has the number behind the one that it had. Those with a number below the
/// number of files to keep stay as they were, and all others are gone. All is
/// again as it was required for this rotation, with the next number of the log
/// roller, so that this holds of every rotation.
pub proof fn law_whole_rotation(
    v: RollerView,
    now: TimeView,
    done: Receiver<()>,
    names: Seq<Seq<char>>,
    files: Map<Seq<char>, Seq<u8>>,
)
    requires
        v.valid(),
        v.meta.rotation is SizeBased,
        1 <= v.state.next_size_based_index < usize::MAX,
        files.contains_key(v.meta.filename),
        settled(v.meta, v.state.next_size_based_index as nat, files),
        forall|i: nat|
            1 <= i <= usize::MAX && after_compression(v, after_rotation(v, files)).contains_key(
                #[trigger] archive(v.meta, i),
            ) ==> names.contains(archive(v.meta, i)),
    ensures
        ({
            let m = v.meta;
            let left = after_cleanup(v, names, after_compression(v, after_rotation(v, files)));
            let next = v.rotated(
                m.path(rotated_name(m.filename, 1)),
                now,
                done,
            ).state.next_size_based_index;
            &&& content(left, m.filename) == Some(Seq::<u8>::empty())
            &&& forall|i: nat|
                1 <= i <= usize::MAX ==> #[trigger] content(left, archive(m, i)) == (
                if m.max_keep_files matches Some(max) && i >= max as usize {
                    None
                } else if i == 1 {
                    Some(archived(m, files[m.filename]))
                } else {
                    content(files, archive(m, (i - 1) as nat))
                })
            &&& left.contains_key(m.filename)
            &&& settled(m, next as nat, left)
        }),
{
    let m = v.meta;
    let rotated = after_rotation(v, files);
    let finished = after_compression(v, rotated);
    let left = after_cleanup(v, names, finished);
    let gone = expired(m, names);
    let next = v.rotated(
        m.path(rotated_name(m.filename, 1)),
        now,
        done,
    ).state.next_size_based_index;
    lemma_archive(v, files);
    law_log_file_is_kept(m, names);
    assert forall|i: nat| 1 <= i <= usize::MAX implies #[trigger] content(left, archive(m, i)) == (
    if m.max_keep_files matches Some(max) && i >= max as usize {
        None
    } else {
        content(finished, archive(m, i))
    }) by {
        if let Some(max) = m.max_keep_files {
            lemma_archive_is_rotated(m, i);
            law_cleanup_by_number(m, max, names, i as usize, archive_tail(m));
        }
    }
    assert forall|p: bool, i: nat|
        in_use(m.compression, p) && next <= i <= usize::MAX implies #[trigger] content(
        left,
        slot(m, m.compression, p, i),
    ) is None by {
        let name = slot(m, m.compression, p, i);
        if p == (m.compression is Some) {
            assert(name == archive(m, i));
            if i >= 2 {
                assert(content(files, slot(m, m.compression, p, (i - 1) as nat)) is None || (
                m.max_keep_files matches Some(max) && i >= max as usize));
            }
        } else {
            assert(content(finished, name) is None);
        }
    }
    if m.compression is Some {
        assert forall|i: nat| 1 <= i <= usize::MAX implies #[trigger] content(
            left,
            slot(m, m.compression, false, i),
        ) is None by {
            assert(content(finished, slot(m, m.compression, false, i)) is None);
        }
    }
}

/// What rotation and compression leave in the archive.
proof fn lemma_archive(v: RollerView, files: Map<Seq<char>, Seq<u8>>)
    requires
        v.meta.rotation is SizeBased,
        1 <= v.state.next_size_based_index < usize::MAX,
        files.contains_key(v.meta.filename),
        settled(v.meta, v.state.next_size_based_index as nat, files),
    ensures
        ({
            let m = v.meta;
            let finished = after_compression(v, after_rotation(v, files));
            &&& content(finished, m.filename) == Some(Seq::<u8>::empty())
            &&& forall|i: nat|
                1 <= i <= usize::MAX ==> #[trigger] content(finished, archive(m, i)) == (if i
                    == 1 {
                    Some(archived(m, files[m.filename]))
                } else {
                    content(files, archive(m, (i - 1) as nat))
                })
            &&& m.compression is Some ==> forall|i: nat|
                1 <= i <= usize::MAX ==> #[trigger] content(
                    finished,
                    slot(m, m.compression, false, i),
                ) is None
        }),
{
    let m = v.meta;
    let c = m.compression;
    let index = v.state.next_size_based_index as nat;
    let one = m.path(rotated_name(m.filename, 1));
    let rotated = after_rotation(v, files);
    let finished = after_compression(v, rotated);
    law_rotation_moves_files_up(m, c, index, v.state.curr_file_path, files);
    assert(rotated[one.name] == files[m.filename]);
    law_compression_replaces_the_file(m, one, rotated);
    assert(slot(m, c, false, 1) == one.name);
    lemma_slots_differ(m, c, false, 1, false, 1);
    if c is Some {
        assert(slot(m, c, true, 1) == packed_path(one, c->0).name);
        lemma_slots_differ(m, c, true, 1, false, 1);
    }
    assert forall|p: bool, i: nat| in_use(c, p) && 2 <= i <= usize::MAX implies #[trigger] content(
        finished,
        slot(m, c, p, i),
    ) == content(files, slot(m, c, p, (i - 1) as nat)) by {
        let name = slot(m, c, p, i);
        lemma_slots_differ(m, c, p, i, false, 1);
        if c is Some {
            lemma_slots_differ(m, c, p, i, true, 1);
        }
        assert(content(finished, name) == content(rotated, name));
        if i <= index {
            if i == index {
                assert(content(files, slot(m, c, p, index)) is None);
            }
        } else {
            if is_slot_up_to(m, c, index, name) {
                let (q, j) = choose|q: bool, j: nat|
                    in_use(c, q) && 1 <= j <= index && name == #[trigger] slot(m, c, q, j);
                lemma_slots_differ(m, c, p, i, q, j);
            }
            assert(content(rotated, name) == content(files, name));
            assert(content(files, slot(m, c, p, i)) is None);
            assert(content(files, slot(m, c, p, (i - 1) as nat)) is None);
        }
    }
    assert forall|i: nat| 1 <= i <= usize::MAX implies #[trigger] content(finished, archive(m, i))
        == (if i == 1 {
        Some(archived(m, files[m.filename]))
    } else {
        content(files, archive(m, (i - 1) as nat))
    }) by {
        assert(content(finished, slot(m, c, c is Some, i)) == content(finished, archive(m, i)));
    }
    if c is Some {
        assert forall|i: nat| 1 <= i <= usize::MAX implies #[trigger] content(
            finished,
            slot(m, c, false, i),
        ) is None by {
            if i >= 2 {
                assert(content(files, slot(m, c, false, (i - 1) as nat)) is None);
            }
        }
    }
}

/// The name under which the file at `path` is left by a whole rotation: with the
/// extension of compressed files where files are compressed.
pub open spec fn archive_name(m: MetaView, path: PathView) -> Seq<char> {
    match m.compression {
        Some(c) => packed_path(path, c).name,
        None => path.name,
    }
}

/// A whole age-based rotation to another file, with compression and cleanup,
/// leaves what was in the old log file in the archive, and the new log file with
/// what it held before, or empty. All other files stay as they were, but for those
/// that are too old, which are gone.
pub proof fn law_whole_age_rotation(
    v: RollerView,
    new_path: PathView,
    names: Seq<Seq<char>>,
    files: Map<Seq<char>, Seq<u8>>,
)
    requires
        v.meta.rotation is AgeBased,
        files.contains_key(v.state.curr_file_path.name),
        new_path.name != v.state.curr_file_path.name,
        new_path.name != archive_name(v.meta, v.state.curr_file_path),
    ensures
        ({
            let m = v.meta;
            let old_path = v.state.curr_file_path;
            let steps = refresh_steps(
                m,
                old_path,
                new_path,
                v.state.next_size_based_index as nat,
                m.compression,
            );
            let finished = run(compress_steps(m, old_path), run(steps, files));
            let left = after_cleanup(v, names, finished);
            &&& content(finished, archive_name(m, old_path)) == Some(
                archived(m, files[old_path.name]),
            )
            &&& m.compression is Some ==> content(finished, old_path.name) is None
            &&& content(finished, new_path.name) == Some(
                match content(files, new_path.name) {
                    Some(contents) => contents,
                    None => Seq::<u8>::empty(),
                },
            )
            &&& forall|name: Seq<char>|
                name != old_path.name && name != new_path.name && name != archive_name(m, old_path)
                    ==> #[trigger] content(finished, name) == content(files, name)
            &&& forall|name: Seq<char>| #[trigger]
                content(left, name) == (if expired(m, names).contains(name) {
                    None
                } else {
                    content(finished, name)
                })
        }),
{
    let m = v.meta;
    let old_path = v.state.curr_file_path;
    let index = v.state.next_size_based_index as nat;
    let rotated = run(refresh_steps(m, old_path, new_path, index, m.compression), files);
    law_age_rotation_adds_a_file(m, m.compression, index, old_path, new_path, files);
    assert(content(rotated, old_path.name) == content(files, old_path.name));
    law_compression_replaces_the_file(m, old_path, rotated);
}

} // verus!
