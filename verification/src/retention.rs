//! Which files belong to a log, and which of them are too many.
use crate::calendar::{has_four_digit_year, no_percent, TimeView};
use crate::error::{ErrorView, LogRollerError};
use crate::expression::expression_text;
use crate::meta::{is_dated_name, law_names_sort_by_time, LogRollerMeta, MetaView};
use crate::numbering::{
    law_rotated_file_is_counted, number_behind, number_in, packed_name, rotated_name,
};
use crate::pattern::{
    build_pattern, file_pattern, file_pieces, is_file_name, law_dated_files_fit,
    law_numbered_files_fit, law_pattern_stands_for_file_names, lemma_pattern_is_small,
    lemma_pattern_text, pattern_error, pattern_matches, regex_error, short_names,
};
use crate::rotation::{Compression, Rotation, RotationAge, RotationSize};
use crate::text::{sort_names, sorted, sorts_before, text_of, texts, to_chars};
use vstd::prelude::*;

verus! {

/// An entry of the log directory, as it was found there.
#[derive(Debug)]
pub struct DirEntryInfo {
    /// The name of the entry, unless it is not Unicode.
    pub name: Option<String>,
    /// Whether the entry is a regular file, or why that could not be learned.
    pub is_file: Result<bool, String>,
}

/// An entry as the contracts see it.
pub struct EntryView {
    pub name: Option<Seq<char>>,
    pub is_file: Result<bool, Seq<char>>,
}

impl View for DirEntryInfo {
    type V = EntryView;

    open spec fn view(&self) -> EntryView {
        EntryView {
            name: text_of(self.name),
            is_file: match self.is_file {
                Ok(b) => Ok(b),
                Err(error) => Err(error@),
            },
        }
    }
}

/// The entries that the infos stand for.
pub open spec fn entries_of(v: Seq<DirEntryInfo>) -> Seq<EntryView> {
    v.map_values(|e: DirEntryInfo| e@)
}

/// What reading the log directory gave, as the contracts see it.
pub open spec fn listing_of(listing: Result<Vec<DirEntryInfo>, String>) -> Result<
    Seq<EntryView>,
    Seq<char>,
> {
    match listing {
        Ok(entries) => Ok(entries_of(entries@)),
        Err(error) => Err(error@),
    }
}

/// The names of the regular files among the entries that are to be kept, in the
/// order of the entries, or the first error among the entries.
pub open spec fn selected(keep: spec_fn(Seq<char>) -> bool, entries: Seq<EntryView>) -> Result<
    Seq<Seq<char>>,
    Seq<char>,
>
    decreases entries.len(),
{
    if entries.len() == 0 {
        Ok(Seq::empty())
    } else {
        match selected(keep, entries.drop_last()) {
            Err(error) => Err(error),
            Ok(names) => match entries.last().is_file {
                Err(error) => Err(error),
                Ok(false) => Ok(names),
                Ok(true) => match entries.last().name {
                    Some(name) => if keep(name) {
                        Ok(names.push(name))
                    } else {
                        Ok(names)
                    },
                    None => Ok(names),
                },
            },
        }
    }
}

/// The files among what reading the directory gave that are to be kept, or why they
/// could not be found.
pub open spec fn picked(
    keep: spec_fn(Seq<char>) -> bool,
    listing: Result<Seq<EntryView>, Seq<char>>,
) -> Result<Seq<Seq<char>>, ErrorView> {
    match listing {
        Err(error) => Err(ErrorView::InternalError(error)),
        Ok(entries) => match selected(keep, entries) {
            Err(error) => Err(ErrorView::FileIOError(error)),
            Ok(names) => Ok(names),
        },
    }
}

/// The files of the log among what reading the directory gave, before they are
/// sorted, or why they could not be found: those that are built as the names of the
/// log's files are.
pub open spec fn own_files(
    filename: Seq<char>,
    rotation: Rotation,
    suffix: Option<Seq<char>>,
    compression: Option<Compression>,
    listing: Result<Seq<EntryView>, Seq<char>>,
) -> Result<Seq<Seq<char>>, ErrorView> {
    picked(
        |name: Seq<char>| is_file_name(name, filename, rotation, suffix, compression),
        listing,
    )
}

/// The same, but for a name of the log file or a suffix that is too long for a
/// regular expression, which is an error.
pub open spec fn found(
    filename: Seq<char>,
    rotation: Rotation,
    suffix: Option<Seq<char>>,
    compression: Option<Compression>,
    listing: Result<Seq<EntryView>, Seq<char>>,
) -> Result<Seq<Seq<char>>, ErrorView> {
    match regex_error(file_pattern(filename, rotation, suffix, compression)) {
        Some(error) => Err(ErrorView::InternalError(error)),
        None => own_files(filename, rotation, suffix, compression, listing),
    }
}

/// The directory could be read, and of each of its entries whether it is a file.
pub open spec fn readable(listing: Result<Seq<EntryView>, Seq<char>>) -> bool {
    listing matches Ok(entries) && forall|i: int|
        0 <= i < entries.len() ==> (#[trigger] entries[i]).is_file is Ok
}

/// The entry of the regular file `name`.
pub open spec fn file_entry(name: Seq<char>) -> EntryView {
    EntryView { name: Some(name), is_file: Ok(true) }
}

/// Among what reading the directory gave is the regular file `name`.
pub open spec fn holds_file(listing: Result<Seq<EntryView>, Seq<char>>, name: Seq<char>) -> bool {
    listing matches Ok(entries) && entries.contains(file_entry(name))
}

/// `names` are the texts of `unsorted`, each as often, in the order in which they
/// sort.
pub open spec fn is_sorting_of(names: Seq<Seq<char>>, unsorted: Seq<Seq<char>>) -> bool {
    sorted(names) && names.to_multiset() == unsorted.to_multiset()
}

/// The files of the configured log among what reading the directory gave, before
/// they are sorted, or why they could not be found.
pub open spec fn found_of(m: MetaView, listing: Result<Seq<EntryView>, Seq<char>>) -> Result<
    Seq<Seq<char>>,
    ErrorView,
> {
    found(m.filename, m.rotation, m.suffix, m.compression, listing)
}

/// `names` is the sorted list of the files of the configured log among the entries
/// of the directory.
pub open spec fn is_listing(m: MetaView, entries: Seq<EntryView>, names: Seq<Seq<char>>) -> bool {
    found_of(m, Ok(entries)) matches Ok(unsorted) && is_sorting_of(names, unsorted)
}

/// A rotated file has a number that is not below the number of files to keep. The
/// log file itself has no number.
pub open spec fn too_old(name: Seq<char>, filename: Seq<char>, keep: usize) -> bool {
    number_behind(name, filename) matches Some(index) && index >= keep
}

/// The first files of a sorted list that are more than `keep`.
pub open spec fn surplus(names: Seq<Seq<char>>, keep: usize) -> Seq<Seq<char>> {
    if names.len() > keep {
        names.take(names.len() - keep)
    } else {
        Seq::empty()
    }
}

/// The files to remove from the sorted list of the files of the log.
pub open spec fn expired(m: MetaView, names: Seq<Seq<char>>) -> Seq<Seq<char>> {
    match m.max_keep_files {
        None => Seq::empty(),
        Some(max) => match m.rotation {
            Rotation::SizeBased(_) => names.filter(
                |name: Seq<char>| too_old(name, m.filename, max as usize),
            ),
            Rotation::AgeBased(_) => surplus(names, max as usize),
        },
    }
}

impl LogRollerMeta {
    /// The files of the log in the directory, sorted by name.
    ///
    /// `listing` is what reading the directory gave.
    pub fn list_all_files(
        filename: &str,
        rotation: &Rotation,
        file_suffix: &Option<String>,
        compression: &Option<Compression>,
        listing: &Result<Vec<DirEntryInfo>, String>,
    ) -> (r: Result<Vec<String>, LogRollerError>)
        ensures
            ({
                let unsorted = found(
                    filename@,
                    *rotation,
                    text_of(*file_suffix),
                    *compression,
                    listing_of(*listing),
                );
                match r {
                    Ok(names) => unsorted is Ok && is_sorting_of(texts(names@), unsorted->Ok_0),
                    Err(error) => unsorted == Err::<Seq<Seq<char>>, ErrorView>(error@),
                }
            }),
            short_names(filename@, text_of(*file_suffix)) ==> regex_error(
                file_pattern(filename@, *rotation, text_of(*file_suffix), *compression),
            ) is None,
            short_names(filename@, text_of(*file_suffix)) && readable(listing_of(*listing))
                ==> r is Ok,
            r is Ok ==> sorted(texts(r->Ok_0@)),
            r is Ok ==> forall|name: Seq<char>| #[trigger]
                texts(r->Ok_0@).contains(name) <==> holds_file(listing_of(*listing), name)
                    && is_file_name(
                    name,
                    filename@,
                    *rotation,
                    text_of(*file_suffix),
                    *compression,
                ),
    {
        let pattern = build_pattern(filename, rotation, file_suffix, compression);
        let ghost pieces = file_pieces(filename@, *rotation, text_of(*file_suffix), *compression);
        proof {
            lemma_pattern_text(filename@, *rotation, text_of(*file_suffix), *compression);
            if short_names(filename@, text_of(*file_suffix)) {
                lemma_pattern_is_small(filename@, *rotation, text_of(*file_suffix), *compression);
            }
        }
        match pattern_error(pattern.as_str()) {
            Some(error) => {
                return Err(LogRollerError::InternalError(error));
            },
            None => {},
        }
        let entries = match listing {
            Ok(entries) => entries,
            Err(error) => {
                return Err(LogRollerError::InternalError(error.clone()));
            },
        };
        let ghost all = entries_of(entries@);
        let ghost own = |name: Seq<char>|
            is_file_name(name, filename@, *rotation, text_of(*file_suffix), *compression);
        let mut names: Vec<String> = Vec::new();
        let mut i: usize = 0;
        assert(all.take(0) =~= Seq::<EntryView>::empty());
        assert(texts(names@) =~= Seq::<Seq<char>>::empty());
        while i < entries.len()
            invariant
                i <= entries.len(),
                all == entries_of(entries@),
                listing_of(*listing) == Ok::<Seq<EntryView>, Seq<char>>(all),
                regex_error(pattern@) is None,
                pattern@ == file_pattern(filename@, *rotation, text_of(*file_suffix), *compression),
                pattern@ == expression_text(pieces),
                pieces == file_pieces(filename@, *rotation, text_of(*file_suffix), *compression),
                own == (|name: Seq<char>|
                    is_file_name(name, filename@, *rotation, text_of(*file_suffix), *compression)),
                selected(own, all.take(i as int)) == Ok::<Seq<Seq<char>>, Seq<char>>(
                    texts(names@),
                ),
            decreases entries.len() - i,
        {
            let entry = &entries[i];
            proof {
                assert(all.take(i as int + 1).drop_last() =~= all.take(i as int));
                assert(all.take(i as int + 1).last() == entry@);
            }
            match &entry.is_file {
                Err(error) => {
                    proof {
                        lemma_first_error(own, all, i as int + 1);
                        assert(all[i as int].is_file is Err);
                    }
                    return Err(LogRollerError::FileIOError(error.clone()));
                },
                Ok(is_file) => {
                    if *is_file {
                        if let Some(name) = &entry.name {
                            proof {
                                law_pattern_stands_for_file_names(
                                    name@,
                                    filename@,
                                    *rotation,
                                    text_of(*file_suffix),
                                    *compression,
                                );
                            }
                            if pattern_matches(pattern.as_str(), name.as_str()) {
                                let ghost before = texts(names@);
                                let copy = name.clone();
                                names.push(copy);
                                assert(texts(names@) =~= before.push(copy@));
                            }
                        }
                    }
                },
            }
            i = i + 1;
        }
        assert(all.take(all.len() as int) =~= all);
        let sorted_names = sort_names(names);
        proof {
            broadcast use vstd::seq_lib::group_to_multiset_ensures;

            lemma_selected(own, all);
            assert forall|name: Seq<char>| #[trigger] texts(sorted_names@).contains(name)
                <==> texts(names@).contains(name) by {
                assert(texts(sorted_names@).to_multiset().count(name) == texts(
                    names@,
                ).to_multiset().count(name));
            }
        }
        Ok(sorted_names)
    }

    /// The files that are to be removed after a rotation, in the order in which
    /// they are removed: none where compressing the rotated file failed.
    ///
    /// `compressed` is what came of compressing the rotated file, and `listing`
    /// what reading the log directory gave after that.
    pub fn process_old_logs(
        &self,
        compressed: Result<(), LogRollerError>,
        listing: &Result<Vec<DirEntryInfo>, String>,
    ) -> (r: Result<Vec<String>, LogRollerError>)
        ensures
            match compressed {
                Err(error) => r matches Err(e) && e@ == error@,
                Ok(()) => match self@.max_keep_files {
                    None => r matches Ok(removed) && removed@.len() == 0,
                    Some(_) => match r {
                        Ok(removed) => exists|names: Seq<Seq<char>>|
                            #![trigger expired(self@, names)]
                            {
                                &&& found_of(self@, listing_of(*listing)) matches Ok(unsorted)
                                    && is_sorting_of(names, unsorted)
                                &&& sorted(names)
                                &&& texts(removed@) == expired(self@, names)
                            },
                        Err(error) => found_of(self@, listing_of(*listing)) == Err::<
                            Seq<Seq<char>>,
                            ErrorView,
                        >(error@),
                    },
                },
            },
            compressed is Ok && short_names(self@.filename, self@.suffix) && readable(
                listing_of(*listing),
            ) ==> r is Ok,
    {
        if let Err(error) = compressed {
            return Err(error);
        }
        let max_keep_files: u64 = match self.max_keep_files {
            Some(max) => max,
            None => {
                return Ok(Vec::new());
            },
        };
        let listed = LogRollerMeta::list_all_files(
            self.filename.as_str(),
            &self.rotation,
            &self.suffix,
            &self.compression,
            listing,
        );
        let all_log_files = match listed {
            Ok(names) => names,
            Err(error) => {
                return Err(error);
            },
        };
        let removed = self.expired_files(&all_log_files, max_keep_files);
        proof {
            assert(expired(self@, texts(all_log_files@)) == texts(removed@));
        }
        Ok(removed)
    }

    /// The files to remove from the sorted list of the files of the log.
    pub fn expired_files(&self, all_log_files: &Vec<String>, max_keep_files: u64) -> (r: Vec<String>)
        requires
            self@.max_keep_files == Some(max_keep_files),
        ensures
            texts(r@) == expired(self@, texts(all_log_files@)),
    {
        let keep: usize = max_keep_files as usize;
        let ghost all = texts(all_log_files@);
        let mut removed: Vec<String> = Vec::new();
        let mut i: usize = 0;
        match self.rotation {
            Rotation::SizeBased(_) => {
                let filename = to_chars(self.filename.as_str());
                let ghost old_enough = |name: Seq<char>|
                    too_old(name, self@.filename, max_keep_files as usize);
                assert(all.take(0).filter(old_enough) =~= Seq::<Seq<char>>::empty());
                assert(texts(removed@) =~= Seq::<Seq<char>>::empty());
                while i < all_log_files.len()
                    invariant
                        i <= all_log_files.len(),
                        all == texts(all_log_files@),
                        filename@ == self@.filename,
                        keep == max_keep_files as usize,
                        old_enough == (|name: Seq<char>|
                            too_old(name, self@.filename, max_keep_files as usize)),
                        texts(removed@) == all.take(i as int).filter(old_enough),
                    decreases all_log_files.len() - i,
                {
                    proof {
                        reveal(Seq::filter);
                        let longer = all.take(i as int + 1);
                        assert(longer.drop_last() =~= all.take(i as int));
                        assert(longer.last() == all_log_files@[i as int]@);
                    }
                    if let Some(index) = number_in(&all_log_files[i], &filename) {
                        if index >= keep {
                            let copy = all_log_files[i].clone();
                            assert(texts(removed@.push(copy)) =~= texts(removed@).push(copy@));
                            removed.push(copy);
                        }
                    }
                    i = i + 1;
                }
                assert(all.take(all.len() as int) =~= all);
            },
            Rotation::AgeBased(_) => {
                if all_log_files.len() > keep {
                    let surplus_count: usize = all_log_files.len() - keep;
                    while i < surplus_count
                        invariant
                            i <= surplus_count <= all_log_files.len(),
                            all == texts(all_log_files@),
                            texts(removed@) == all.take(i as int),
                        decreases surplus_count - i,
                    {
                        let copy = all_log_files[i].clone();
                        assert(texts(removed@.push(copy)) =~= texts(removed@).push(copy@));
                        assert(all.take(i as int + 1) =~= all.take(i as int).push(all[i as int]));
                        removed.push(copy);
                        i = i + 1;
                    }
                }
                assert(texts(removed@) =~= surplus(all, keep));
            },
        }
        removed
    }
}

/// An error among the first entries is an error of all of them.
proof fn lemma_first_error(keep: spec_fn(Seq<char>) -> bool, entries: Seq<EntryView>, i: int)
    requires
        0 <= i <= entries.len(),
        selected(keep, entries.take(i)) is Err,
    ensures
        selected(keep, entries) == selected(keep, entries.take(i)),
    decreases entries.len(),
{
    if i == entries.len() {
        assert(entries.take(i) =~= entries);
    } else {
        assert(entries.drop_last().take(i) =~= entries.take(i));
        lemma_first_error(keep, entries.drop_last(), i);
    }
}

/// What is selected are the regular files that are to be kept.
proof fn lemma_selected(keep: spec_fn(Seq<char>) -> bool, entries: Seq<EntryView>)
    requires
        selected(keep, entries) is Ok,
    ensures
        forall|name: Seq<char>| #[trigger]
            selected(keep, entries)->Ok_0.contains(name) <==> entries.contains(file_entry(name))
                && keep(name),
    decreases entries.len(),
{
    if entries.len() > 0 {
        let rest = entries.drop_last();
        let last = entries.last();
        lemma_selected(keep, rest);
        let before = selected(keep, rest)->Ok_0;
        let after = selected(keep, entries)->Ok_0;
        assert forall|name: Seq<char>| #[trigger] after.contains(name) <==> entries.contains(
            file_entry(name),
        ) && keep(name) by {
            assert(before.contains(name) <==> rest.contains(file_entry(name)) && keep(name));
            if entries.contains(file_entry(name)) && keep(name) {
                let k = choose|k: int| 0 <= k < entries.len() && entries[k] == file_entry(name);
                if k < rest.len() {
                    assert(rest[k] == file_entry(name));
                    let j = choose|j: int| 0 <= j < before.len() && before[j] == name;
                    assert(after[j] == name);
                } else {
                    assert(after[before.len() as int] == name);
                }
            }
            if after.contains(name) {
                let j = choose|j: int| 0 <= j < after.len() && after[j] == name;
                if j < before.len() {
                    assert(before[j] == name);
                    let k = choose|k: int| 0 <= k < rest.len() && rest[k] == file_entry(name);
                    assert(entries[k] == file_entry(name));
                } else {
                    assert(last == file_entry(name));
                    assert(entries[entries.len() - 1] == file_entry(name));
                }
            }
        }
    }
}

/// No two entries have one name, as in a directory.
pub open spec fn distinct_names(entries: Seq<EntryView>) -> bool {
    forall|i: int, j: int|
        0 <= i < j < entries.len() && #[trigger] entries[i].name is Some ==> entries[i].name
            != #[trigger] entries[j].name
}

/// Of a directory no name is selected twice.
proof fn lemma_selected_once(keep: spec_fn(Seq<char>) -> bool, entries: Seq<EntryView>)
    requires
        selected(keep, entries) is Ok,
        distinct_names(entries),
    ensures
        selected(keep, entries)->Ok_0.no_duplicates(),
    decreases entries.len(),
{
    if entries.len() > 0 {
        let rest = entries.drop_last();
        assert forall|i: int, j: int|
            0 <= i < j < rest.len() && #[trigger] rest[i].name is Some implies rest[i].name
            != #[trigger] rest[j].name by {
            assert(entries[i] == rest[i] && entries[j] == rest[j]);
        }
        lemma_selected_once(keep, rest);
        lemma_selected(keep, rest);
        let before = selected(keep, rest)->Ok_0;
        let after = selected(keep, entries)->Ok_0;
        assert forall|i: int, j: int| 0 <= i < j < after.len() implies after[i] != after[j] by {
            if j == before.len() && after[i] == after[j] {
                assert(before[i] == after[j]);
                assert(before.contains(after[j]));
                let k = choose|k: int| 0 <= k < rest.len() && rest[k] == file_entry(after[j]);
                assert(entries[k].name == entries[entries.len() - 1].name);
            }
        }
    }
}

/// The files of a log are listed in the order of their names, and none is listed that
/// is not a regular file of the directory.
pub proof fn law_listing_is_sorted(
    m: MetaView,
    entries: Seq<EntryView>,
    names: Seq<Seq<char>>,
    i: int,
    j: int,
)
    requires
        is_listing(m, entries, names),
        0 <= i < j < names.len(),
    ensures
        !sorts_before(names[j], names[i]),
        exists|k: int|
            0 <= k < entries.len() && (#[trigger] entries[k]).name == Some(names[i])
                && entries[k].is_file == Ok::<bool, Seq<char>>(true),
{
    broadcast use vstd::seq_lib::group_to_multiset_ensures;

    let own = |name: Seq<char>|
        is_file_name(name, m.filename, m.rotation, m.suffix, m.compression);
    let unsorted = found_of(m, Ok(entries))->Ok_0;
    lemma_selected(own, entries);
    assert(names.contains(names[i]));
    assert(names.to_multiset().count(names[i]) > 0);
    assert(unsorted.contains(names[i]));
    let k = choose|k: int| 0 <= k < entries.len() && entries[k] == file_entry(names[i]);
    assert(entries[k].name == Some(names[i]));
}

/// A regular file of the directory that is built as the log's files are is listed
/// exactly once, and nothing else is listed.
pub proof fn law_own_files_are_listed_once(
    m: MetaView,
    entries: Seq<EntryView>,
    names: Seq<Seq<char>>,
    file: Seq<char>,
)
    requires
        distinct_names(entries),
        is_listing(m, entries, names),
    ensures
        names.to_multiset().count(file) == (if entries.contains(file_entry(file)) && is_file_name(
            file,
            m.filename,
            m.rotation,
            m.suffix,
            m.compression,
        ) {
            1nat
        } else {
            0
        }),
{
    broadcast use vstd::seq_lib::group_to_multiset_ensures;

    let own = |name: Seq<char>|
        is_file_name(name, m.filename, m.rotation, m.suffix, m.compression);
    lemma_selected(own, entries);
    lemma_selected_once(own, entries);
    let unsorted = selected(own, entries)->Ok_0;
    unsorted.lemma_multiset_has_no_duplicates();
    assert(unsorted.contains(file) <==> unsorted.to_multiset().count(file) > 0);
}

/// Every file that age-based rotation makes, compressed or not, is found again by
/// the listing of its own log, exactly once.
pub proof fn law_made_files_are_listed(
    m: MetaView,
    age: RotationAge,
    t: TimeView,
    name: Seq<char>,
    entries: Seq<EntryView>,
    names: Seq<Seq<char>>,
)
    requires
        m.rotation == Rotation::AgeBased(age),
        no_percent(m.filename),
        has_four_digit_year(t),
        is_dated_name(m, age, t, name),
        distinct_names(entries),
        is_listing(m, entries, names),
    ensures
        entries.contains(file_entry(name)) ==> names.to_multiset().count(name) == 1,
        m.compression matches Some(c) ==> (entries.contains(
            file_entry(name + seq!['.'] + c.extension()),
        ) ==> names.to_multiset().count(name + seq!['.'] + c.extension()) == 1),
{
    law_dated_files_fit(m, age, t, name);
    law_own_files_are_listed_once(m, entries, names, name);
    if let Some(c) = m.compression {
        law_own_files_are_listed_once(m, entries, names, name + seq!['.'] + c.extension());
    }
}

/// Every rotated file of size-based rotation, compressed or not, and the log file
/// itself is found again by the listing of its own log, exactly once.
pub proof fn law_rotated_files_are_listed(
    m: MetaView,
    size: RotationSize,
    i: nat,
    entries: Seq<EntryView>,
    names: Seq<Seq<char>>,
)
    requires
        m.rotation == Rotation::SizeBased(size),
        distinct_names(entries),
        is_listing(m, entries, names),
    ensures
        entries.contains(file_entry(m.filename)) ==> names.to_multiset().count(m.filename) == 1,
        entries.contains(file_entry(rotated_name(m.filename, i))) ==> names.to_multiset().count(
            rotated_name(m.filename, i),
        ) == 1,
        m.compression matches Some(c) ==> (entries.contains(
            file_entry(packed_name(m.filename, i, c.extension())),
        ) ==> names.to_multiset().count(packed_name(m.filename, i, c.extension())) == 1),
{
    law_numbered_files_fit(m.filename, size, m.suffix, m.compression, i);
    law_own_files_are_listed_once(m, entries, names, m.filename);
    law_own_files_are_listed_once(m, entries, names, rotated_name(m.filename, i));
    if let Some(c) = m.compression {
        law_own_files_are_listed_once(
            m,
            entries,
            names,
            packed_name(m.filename, i, c.extension()),
        );
    }
}

/// Cleaning up by number removes a rotated file, compressed or not, if and only if
/// its number is not below the number of files to keep: the youngest files stay.
pub proof fn law_cleanup_by_number(
    m: MetaView,
    max: u64,
    names: Seq<Seq<char>>,
    i: usize,
    tail: Seq<char>,
)
    requires
        m.rotation is SizeBased,
        m.max_keep_files == Some(max),
        tail.len() == 0 || tail[0] == '.',
    ensures
        ({
            let name = rotated_name(m.filename, i as nat) + tail;
            expired(m, names).contains(name) <==> names.contains(name) && i >= max as usize
        }),
{
    let name = rotated_name(m.filename, i as nat) + tail;
    let old_enough = |n: Seq<char>| too_old(n, m.filename, max as usize);
    law_rotated_file_is_counted(m.filename, i, tail);
    assert(old_enough(name) <==> i >= max as usize);
    if names.contains(name) && i >= max as usize {
        let k = choose|k: int| 0 <= k < names.len() && names[k] == name;
        assert(names.filter(old_enough).contains(names[k]));
    }
    if names.filter(old_enough).contains(name) {
        let k = choose|k: int|
            0 <= k < names.filter(old_enough).len() && names.filter(old_enough)[k] == name;
        assert(old_enough(names.filter(old_enough)[k]));
        names.lemma_filter_contains_rev(old_enough, name);
    }
}

/// Cleaning up by number removes files of the list only, and of these the ones that
/// have a number, behind the name of the log file and a dot, that is not below the
/// number of files to keep. It keeps their order, and where none is listed twice none
/// is removed twice. Without such a number of files nothing is removed.
pub proof fn law_cleanup_removes_numbered(m: MetaView, names: Seq<Seq<char>>, name: Seq<char>)
    ensures
        m.max_keep_files is None ==> expired(m, names).len() == 0,
        m.rotation is SizeBased ==> (m.max_keep_files matches Some(max) ==> (expired(
            m,
            names,
        ).contains(name) <==> names.contains(name) && (number_behind(name, m.filename) matches Some(
            n,
        ) && n >= max as usize))),
        sorted(names) ==> sorted(expired(m, names)),
        names.no_duplicates() ==> expired(m, names).no_duplicates(),
{
    if let Some(max) = m.max_keep_files {
        if m.rotation is SizeBased {
            let old_enough = |n: Seq<char>| too_old(n, m.filename, max as usize);
            lemma_filter_keeps_order(names, old_enough);
            if names.contains(name) && old_enough(name) {
                let k = choose|k: int| 0 <= k < names.len() && names[k] == name;
                assert(names.filter(old_enough).contains(names[k]));
            }
            if names.filter(old_enough).contains(name) {
                let k = choose|k: int|
                    0 <= k < names.filter(old_enough).len() && names.filter(old_enough)[k] == name;
                assert(old_enough(names.filter(old_enough)[k]));
                names.lemma_filter_contains_rev(old_enough, name);
            }
        }
    }
}

/// What is taken out of a list keeps its order.
proof fn lemma_filter_keeps_order(names: Seq<Seq<char>>, keep: spec_fn(Seq<char>) -> bool)
    ensures
        sorted(names) ==> sorted(names.filter(keep)),
        names.no_duplicates() ==> names.filter(keep).no_duplicates(),
        forall|x: Seq<char>| #[trigger] names.filter(keep).contains(x) ==> names.contains(x),
    decreases names.len(),
{
    reveal(Seq::filter);
    if names.len() > 0 {
        let before = names.drop_last();
        let last = names.last();
        let kept = before.filter(keep);
        let all = names.filter(keep);
        lemma_filter_keeps_order(before, keep);
        assert forall|x: Seq<char>| before.contains(x) implies names.contains(x) by {
            let k = choose|k: int| 0 <= k < before.len() && before[k] == x;
            assert(names[k] == x);
        }
        assert(names[names.len() - 1] == last);
        assert forall|x: Seq<char>| #[trigger] all.contains(x) implies names.contains(x) by {
            let k = choose|k: int| 0 <= k < all.len() && all[k] == x;
            if k < kept.len() {
                assert(kept[k] == x);
                assert(kept.contains(x));
            }
        }
        if sorted(names) {
            assert(sorted(before)) by {
                assert forall|i: int, j: int| 0 <= i < j < before.len() implies !sorts_before(
                    #[trigger] before[j],
                    #[trigger] before[i],
                ) by {
                    assert(before[i] == names[i] && before[j] == names[j]);
                }
            }
            assert forall|i: int, j: int| 0 <= i < j < all.len() implies !sorts_before(
                #[trigger] all[j],
                #[trigger] all[i],
            ) by {
                assert(all[i] == kept[i]);
                if j < kept.len() {
                    assert(all[j] == kept[j]);
                } else {
                    assert(kept.contains(kept[i]));
                    let k = choose|k: int| 0 <= k < before.len() && before[k] == kept[i];
                    assert(names[k] == all[i]);
                    assert(all[j] == names[names.len() - 1]);
                }
            }
        }
        if names.no_duplicates() {
            assert forall|i: int, j: int| 0 <= i < j < all.len() implies all[i] != all[j] by {
                assert(all[i] == kept[i]);
                assert(kept.contains(kept[i]));
                if j >= kept.len() {
                    let k = choose|k: int| 0 <= k < before.len() && before[k] == kept[i];
                    assert(names[k] == all[i]);
                } else {
                    assert(all[j] == kept[j]);
                }
            }
        }
    }
}

/// Where the pattern is accepted, a directory that cannot be read is an internal
/// error, and else the first entry of which it cannot be learned whether it is a file
/// is an error of reading; each comes with the message that was given. Where all can
/// be learned there is no error.
pub proof fn law_listing_errors(
    m: MetaView,
    listing: Result<Seq<EntryView>, Seq<char>>,
    i: int,
    message: Seq<char>,
)
    ensures
        regex_error(file_pattern(m.filename, m.rotation, m.suffix, m.compression)) matches Some(e)
            ==> found_of(m, listing) == Err::<Seq<Seq<char>>, ErrorView>(
            ErrorView::InternalError(e),
        ),
        regex_error(file_pattern(m.filename, m.rotation, m.suffix, m.compression)) is None ==> {
            &&& listing == Err::<Seq<EntryView>, Seq<char>>(message) ==> found_of(m, listing)
                == Err::<Seq<Seq<char>>, ErrorView>(ErrorView::InternalError(message))
            &&& listing matches Ok(entries) ==> (0 <= i < entries.len() && entries[i].is_file
                == Err::<bool, Seq<char>>(message) && (forall|j: int|
                0 <= j < i ==> (#[trigger] entries[j]).is_file is Ok) ==> found_of(m, listing)
                == Err::<Seq<Seq<char>>, ErrorView>(ErrorView::FileIOError(message)))
            &&& listing matches Ok(entries) ==> ((forall|j: int|
                0 <= j < entries.len() ==> (#[trigger] entries[j]).is_file is Ok) ==> found_of(
                m,
                listing,
            ) is Ok)
        },
{
    let own = |name: Seq<char>|
        is_file_name(name, m.filename, m.rotation, m.suffix, m.compression);
    if let Ok(entries) = listing {
        if 0 <= i < entries.len() && entries[i].is_file == Err::<bool, Seq<char>>(message) && (
        forall|j: int| 0 <= j < i ==> (#[trigger] entries[j]).is_file is Ok) {
            let first = entries.take(i + 1);
            assert(first.drop_last() =~= entries.take(i));
            lemma_readable_is_selected(own, entries.take(i));
            assert(first.last() == entries[i]);
            lemma_first_error(own, entries, i + 1);
        }
        if forall|j: int| 0 <= j < entries.len() ==> (#[trigger] entries[j]).is_file is Ok {
            lemma_readable_is_selected(own, entries);
        }
    }
}

/// Without an error among the entries there is none in what is selected.
proof fn lemma_readable_is_selected(keep: spec_fn(Seq<char>) -> bool, entries: Seq<EntryView>)
    requires
        forall|j: int| 0 <= j < entries.len() ==> (#[trigger] entries[j]).is_file is Ok,
    ensures
        selected(keep, entries) is Ok,
    decreases entries.len(),
{
    if entries.len() > 0 {
        assert forall|j: int| 0 <= j < entries.drop_last().len() implies (
        #[trigger] entries.drop_last()[j]).is_file is Ok by {
            assert(entries.drop_last()[j] == entries[j]);
        }
        assert(entries[entries.len() - 1].is_file is Ok);
        lemma_readable_is_selected(keep, entries.drop_last());
    }
}

/// Cleaning up by number never removes the log file itself, whatever its name is.
pub proof fn law_log_file_is_kept(m: MetaView, names: Seq<Seq<char>>)
    requires
        m.rotation is SizeBased,
    ensures
        !expired(m, names).contains(m.filename),
{
    let gone = expired(m, names);
    if gone.contains(m.filename) {
        let max = m.max_keep_files->0;
        let old_enough = |n: Seq<char>| too_old(n, m.filename, max as usize);
        let k = choose|k: int| 0 <= k < gone.len() && gone[k] == m.filename;
        assert(old_enough(gone[k]));
    }
}

/// Cleaning up by age removes the first files in the order of names, and leaves as
/// many as are to be kept, or all where there are no more than that.
pub proof fn law_cleanup_by_age(m: MetaView, max: u64, names: Seq<Seq<char>>)
    requires
        m.rotation is AgeBased,
        m.max_keep_files == Some(max),
        sorted(names),
    ensures
        ({
            let gone = expired(m, names);
            let kept = names.skip(gone.len() as int);
            &&& names == gone + kept
            &&& kept.len() == if names.len() <= max as usize {
                names.len() as int
            } else {
                max as usize as int
            }
            &&& forall|i: int, j: int|
                0 <= i < gone.len() && 0 <= j < kept.len() ==> !sorts_before(
                    #[trigger] kept[j],
                    #[trigger] gone[i],
                )
        }),
{
    let gone = expired(m, names);
    let kept = names.skip(gone.len() as int);
    assert(names =~= gone + kept);
    assert forall|i: int, j: int| 0 <= i < gone.len() && 0 <= j < kept.len() implies !sorts_before(
        #[trigger] kept[j],
        #[trigger] gone[i],
    ) by {
        assert(gone[i] == names[i]);
        assert(kept[j] == names[gone.len() + j]);
    }
}

/// Cleaning up by age never removes a file whose period lies behind that of a file
/// that it leaves: the oldest files go first, compressed or not.
pub proof fn law_cleanup_removes_oldest(
    m: MetaView,
    age: RotationAge,
    max: u64,
    names: Seq<Seq<char>>,
    i: int,
    j: int,
    t: TimeView,
    u: TimeView,
    a: Seq<char>,
    b: Seq<char>,
    x: Seq<char>,
    y: Seq<char>,
)
    requires
        m.rotation == Rotation::AgeBased(age),
        m.max_keep_files == Some(max),
        sorted(names),
        0 <= i < expired(m, names).len() <= j < names.len(),
        names[i] == a + x,
        names[j] == b + y,
        no_percent(m.filename),
        has_four_digit_year(t),
        has_four_digit_year(u),
        is_dated_name(m, age, t, a),
        is_dated_name(m, age, u, b),
    ensures
        t.period_of(age) <= u.period_of(age),
{
    if u.period_of(age) < t.period_of(age) {
        law_names_sort_by_time(m, age, u, t, b, a, y, x);
    }
}

/// Cleaning up by age never removes the file whose name comes last, as that of the
/// log file does that was begun last, unless no file is to be kept.
pub proof fn law_newest_file_is_kept(m: MetaView, max: u64, names: Seq<Seq<char>>, newest: Seq<char>)
    requires
        m.rotation is AgeBased,
        m.max_keep_files == Some(max),
        max as usize >= 1,
        sorted(names),
        names.no_duplicates(),
        names.contains(newest),
        forall|k: int|
            0 <= k < names.len() && names[k] != newest ==> sorts_before(#[trigger] names[k], newest),
    ensures
        !expired(m, names).contains(newest),
{
    let gone = expired(m, names);
    if gone.contains(newest) {
        let i = choose|i: int| 0 <= i < gone.len() && gone[i] == newest;
        let last = names.len() - 1;
        assert(names[i] == newest);
        assert(i < last);
        assert(names[last] != names[i]);
        assert(sorts_before(names[last], names[i]));
    }
}

} // verus!
