//! What the plans do to the files of a directory.
use crate::codec::{gzip_of, packed, xz_of};
use crate::error::PathView;
use crate::meta::MetaView;
use crate::numbering::{law_largest_number, largest_number, packed_name, rotated_name};
use crate::rollover::{
    compress_steps, packed_path, refresh_steps, shift_pair, shift_steps, EventView,
    FileAction, FileStep, PlanView,
};
use crate::rotation::{law_extensions, Compression, Rotation};
use crate::text::{decimal, is_digit, lemma_decimal, lemma_decimal_injective};
use vstd::prelude::*;

verus! {

/// The contents of the file `name` among the files of a directory, if it is there.
pub open spec fn content(files: Map<Seq<char>, Seq<u8>>, name: Seq<char>) -> Option<Seq<u8>> {
    if files.contains_key(name) {
        Some(files[name])
    } else {
        None
    }
}

/// The files after one was renamed. A file that had the new name is gone.
pub open spec fn renamed(
    files: Map<Seq<char>, Seq<u8>>,
    from: Seq<char>,
    to: Seq<char>,
) -> Map<Seq<char>, Seq<u8>> {
    if files.contains_key(from) {
        files.remove(from).insert(to, files[from])
    } else {
        files
    }
}

/// The files after a step that succeeded.
pub open spec fn effect(
    step: FileStep<PathView>,
    files: Map<Seq<char>, Seq<u8>>,
) -> Map<Seq<char>, Seq<u8>> {
    match step {
        FileStep::Shift { from, to } => renamed(files, from.name, to.name),
        FileStep::Move { from, to } => renamed(files, from.name, to.name),
        FileStep::CreateLog { path } => if files.contains_key(path.name) {
            files
        } else {
            files.insert(path.name, Seq::empty())
        },
        FileStep::CreateNew { path } => files.insert(path.name, Seq::empty()),
        FileStep::Encode { from, to, compression } => files.insert(
            to.name,
            packed(compression, files[from.name]),
        ),
        FileStep::Remove { path } => files.remove(path.name),
        _ => files,
    }
}

/// The files after all of the steps, one after the other.
pub open spec fn run(
    steps: Seq<FileStep<PathView>>,
    files: Map<Seq<char>, Seq<u8>>,
) -> Map<Seq<char>, Seq<u8>>
    decreases steps.len(),
{
    if steps.len() == 0 {
        files
    } else {
        run(steps.skip(1), effect(steps[0], files))
    }
}

/// Steps can be run in two goes.
pub proof fn lemma_run_concat(
    a: Seq<FileStep<PathView>>,
    b: Seq<FileStep<PathView>>,
    files: Map<Seq<char>, Seq<u8>>,
)
    ensures
        run(a + b, files) == run(b, run(a, files)),
    decreases a.len(),
{
    if a.len() == 0 {
        assert(a + b =~= b);
    } else {
        assert((a + b)[0] == a[0]);
        assert((a + b).skip(1) =~= a.skip(1) + b);
        lemma_run_concat(a.skip(1), b, effect(a[0], files));
    }
}

/// What comes of an action where all that is asked for succeeds.
pub open spec fn response(
    action: FileAction<PathView>,
    files: Map<Seq<char>, Seq<u8>>,
) -> EventView {
    match action {
        FileAction::Probe { path } => if files.contains_key(path.name) {
            EventView::Done
        } else {
            EventView::Absent
        },
        _ => EventView::Done,
    }
}

/// The files after an action that succeeded.
pub open spec fn outcome(
    action: FileAction<PathView>,
    files: Map<Seq<char>, Seq<u8>>,
) -> Map<Seq<char>, Seq<u8>> {
    match action {
        FileAction::Rename { from, to } => renamed(files, from.name, to.name),
        FileAction::Perform { step } => effect(step, files),
        _ => files,
    }
}

/// The files after the plan was carried out action by action, each of which
/// succeeds.
pub open spec fn carried_out(plan: PlanView, files: Map<Seq<char>, Seq<u8>>) -> Map<
    Seq<char>,
    Seq<u8>,
>
    decreases plan.steps.len() - plan.at, (if plan.probed { 0int } else { 1int }),
    when 0 <= plan.at
{
    if plan.action() is Finish {
        files
    } else {
        carried_out(
            plan.after(response(plan.action(), files)),
            outcome(plan.action(), files),
        )
    }
}

/// Carrying out a plan action by action, where each action succeeds, runs the
/// steps that are left.
pub proof fn law_plan_runs_its_steps(plan: PlanView, files: Map<Seq<char>, Seq<u8>>)
    requires
        plan.valid(),
        plan.probed ==> plan.at < plan.steps.len() && (plan.steps[plan.at] matches FileStep::Shift {
            from,
            ..
        } && files.contains_key(from.name)),
    ensures
        carried_out(plan, files) == run(plan.steps.skip(plan.at), files),
    decreases
            plan.steps.len() - plan.at,
            (if plan.probed {
                0int
            } else {
                1int
            }),
{
    if plan.at < plan.steps.len() {
        let left = plan.steps.skip(plan.at);
        assert(left[0] == plan.steps[plan.at]);
        assert(left.skip(1) =~= plan.steps.skip(plan.at + 1));
        law_plan_runs_its_steps(
            plan.after(response(plan.action(), files)),
            outcome(plan.action(), files),
        );
    }
}

/// The name of a numbered file, compressed or not.
pub open spec fn slot(m: MetaView, compression: Option<Compression>, is_packed: bool, i: nat) -> Seq<
    char,
> {
    match compression {
        Some(c) if is_packed => packed_name(m.filename, i, c.extension()),
        _ => rotated_name(m.filename, i),
    }
}

/// There are files of this kind: compressed ones only where files are compressed.
pub open spec fn in_use(compression: Option<Compression>, is_packed: bool) -> bool {
    is_packed ==> compression is Some
}

/// Numbered files of different kinds or with different numbers have different
/// names, and none has the name of the log file.
pub proof fn lemma_slots_differ(
    m: MetaView,
    compression: Option<Compression>,
    p: bool,
    i: nat,
    q: bool,
    j: nat,
)
    requires
        in_use(compression, p),
        in_use(compression, q),
    ensures
        slot(m, compression, p, i) == slot(m, compression, q, j) ==> p == q && i == j,
        slot(m, compression, p, i) != m.filename,
{
    let a = slot(m, compression, p, i);
    let b = slot(m, compression, q, j);
    let n = m.filename.len() as int + 1;
    let x = decimal(i);
    let y = decimal(j);
    lemma_decimal(i);
    lemma_decimal(j);
    assert(a.len() > m.filename.len());
    if a == b {
        assert forall|k: int| 0 <= k < x.len() implies x[k] != '.' by {
            assert(is_digit(x[k]));
        }
        assert forall|k: int| 0 <= k < y.len() implies y[k] != '.' by {
            assert(is_digit(y[k]));
        }
        assert(forall|k: int| 0 <= k < x.len() ==> a[n + k] == x[k]);
        assert(forall|k: int| 0 <= k < y.len() ==> b[n + k] == y[k]);
        if x.len() < y.len() {
            assert(p);
            assert(a[n + x.len()] == '.');
            assert(b[n + x.len()] == y[x.len() as int]);
        } else if y.len() < x.len() {
            assert(q);
            assert(b[n + y.len()] == '.');
            assert(a[n + y.len()] == x[y.len() as int]);
        } else {
            assert(x =~= y) by {
                assert forall|k: int| 0 <= k < x.len() implies x[k] == y[k] by {
                    assert(a[n + k] == x[k] && b[n + k] == y[k]);
                }
            }
            lemma_decimal_injective(i, j);
            assert(p == q);
        }
    }
}

/// `name` is that of a numbered file with a number from one to `top`.
pub open spec fn is_slot_up_to(
    m: MetaView,
    compression: Option<Compression>,
    top: nat,
    name: Seq<char>,
) -> bool {
    exists|p: bool, i: nat|
        in_use(compression, p) && 1 <= i <= top && name == #[trigger] slot(m, compression, p, i)
}

/// What becomes of the files where the numbers from `k` down to one go up by one.
pub open spec fn shifted_up(
    m: MetaView,
    compression: Option<Compression>,
    k: nat,
    before: Map<Seq<char>, Seq<u8>>,
    after: Map<Seq<char>, Seq<u8>>,
) -> bool {
    &&& forall|p: bool, i: nat|
        in_use(compression, p) && 1 <= i <= k + 1 ==> #[trigger] content(
            after,
            slot(m, compression, p, i),
        ) == (if k == 0 {
            content(before, slot(m, compression, p, i))
        } else if i == 1 {
            None
        } else if i <= k || content(before, slot(m, compression, p, k)) is Some {
            content(before, slot(m, compression, p, (i - 1) as nat))
        } else {
            content(before, slot(m, compression, p, i))
        })
    &&& forall|name: Seq<char>|
        !is_slot_up_to(m, compression, k + 1, name) ==> #[trigger] content(after, name) == content(
            before,
            name,
        )
}

/// What one pair of steps does.
proof fn lemma_shift_pair(
    m: MetaView,
    compression: Option<Compression>,
    k: nat,
    files: Map<Seq<char>, Seq<u8>>,
)
    requires
        k >= 1,
    ensures
        forall|name: Seq<char>| #[trigger]
            content(run(shift_pair(m, k, compression), files), name) == (if exists|p: bool|
                in_use(compression, p) && name == #[trigger] slot(m, compression, p, k) {
                None
            } else if exists|p: bool|
                in_use(compression, p) && name == slot(m, compression, p, k + 1) && content(
                    files,
                    #[trigger] slot(m, compression, p, k),
                ) is Some {
                content(
                    files,
                    slot(
                        m,
                        compression,
                        name != slot(m, compression, false, k + 1),
                        k,
                    ),
                )
            } else {
                content(files, name)
            }),
{
    let pair = shift_pair(m, k, compression);
    let a = slot(m, compression, false, k);
    let b = slot(m, compression, false, k + 1);
    lemma_slots_differ(m, compression, false, k, false, k + 1);
    let first = renamed(files, a, b);
    assert(pair[0] == FileStep::Shift { from: m.path(a), to: m.path(b) });
    assert(effect(pair[0], files) == first);
    match compression {
        None => {
            assert(pair.skip(1) =~= Seq::<FileStep<PathView>>::empty());
            assert(run(pair.skip(1), first) == first);
        },
        Some(c) => {
            let x = slot(m, compression, true, k);
            let y = slot(m, compression, true, k + 1);
            lemma_slots_differ(m, compression, true, k, true, k + 1);
            lemma_slots_differ(m, compression, false, k, true, k);
            lemma_slots_differ(m, compression, false, k, true, k + 1);
            lemma_slots_differ(m, compression, false, k + 1, true, k);
            lemma_slots_differ(m, compression, false, k + 1, true, k + 1);
            let second = renamed(first, x, y);
            let rest = pair.skip(1);
            assert(rest[0] == FileStep::Shift { from: m.path(x), to: m.path(y) });
            assert(rest.skip(1) =~= Seq::<FileStep<PathView>>::empty());
            assert(effect(rest[0], first) == second);
            assert(run(rest.skip(1), second) == second);
            assert(run(rest, first) == second);
        },
    }
}

/// The steps that move the numbered files up by one do that.
proof fn lemma_shift_steps(
    m: MetaView,
    compression: Option<Compression>,
    k: nat,
    files: Map<Seq<char>, Seq<u8>>,
)
    ensures
        shifted_up(m, compression, k, files, run(shift_steps(m, k, compression), files)),
    decreases k,
{
    let after = run(shift_steps(m, k, compression), files);
    if k > 0 {
        let pair = shift_pair(m, k, compression);
        let rest = shift_steps(m, (k - 1) as nat, compression);
        let mid = run(pair, files);
        lemma_run_concat(pair, rest, files);
        lemma_shift_pair(m, compression, k, files);
        lemma_shift_steps(m, compression, (k - 1) as nat, mid);
        assert forall|p: bool, i: nat| in_use(compression, p) && 1 <= i <= k + 1 implies #[trigger] content(
            after,
            slot(m, compression, p, i),
        ) == (if i == 1 {
            None
        } else if i <= k || content(files, slot(m, compression, p, k)) is Some {
            content(files, slot(m, compression, p, (i - 1) as nat))
        } else {
            content(files, slot(m, compression, p, i))
        }) by {
            let name = slot(m, compression, p, i);
            lemma_mid(m, compression, k, files, p, i);
            if i > 1 {
                lemma_mid(m, compression, k, files, p, (i - 1) as nat);
            }
            if i == k + 1 {
                if is_slot_up_to(m, compression, k, name) {
                    let (q, j) = choose|q: bool, j: nat|
                        in_use(compression, q) && 1 <= j <= k && name == #[trigger] slot(
                            m,
                            compression,
                            q,
                            j,
                        );
                    lemma_slots_differ(m, compression, p, i, q, j);
                }
                assert(content(after, name) == content(mid, name));
            } else {
                if k > 1 {
                    lemma_mid(m, compression, k, files, p, (k - 1) as nat);
                }
            }
        }
        assert forall|name: Seq<char>| !is_slot_up_to(m, compression, k + 1, name) implies
            #[trigger] content(after, name) == content(files, name) by {
            assert(!is_slot_up_to(m, compression, k, name));
            assert(content(after, name) == content(mid, name));
            assert forall|p: bool| in_use(compression, p) implies name != #[trigger] slot(
                m,
                compression,
                p,
                k,
            ) && name != slot(m, compression, p, k + 1) by {
                if name == slot(m, compression, p, k + 1) {
                    assert(is_slot_up_to(m, compression, k + 1, name));
                }
            }
        }
    }
}

/// What one pair of steps does to the numbered files.
proof fn lemma_mid(
    m: MetaView,
    compression: Option<Compression>,
    k: nat,
    files: Map<Seq<char>, Seq<u8>>,
    p: bool,
    i: nat,
)
    requires
        k >= 1,
        in_use(compression, p),
    ensures
        ({
            let mid = run(shift_pair(m, k, compression), files);
            content(mid, slot(m, compression, p, i)) == (if i == k {
                None
            } else if i == k + 1 && content(files, slot(m, compression, p, k)) is Some {
                content(files, slot(m, compression, p, k))
            } else {
                content(files, slot(m, compression, p, i))
            })
        }),
{
    let name = slot(m, compression, p, i);
    lemma_shift_pair(m, compression, k, files);
    assert forall|q: bool| in_use(compression, q) implies ((name == #[trigger] slot(
        m,
        compression,
        q,
        k,
    )) ==> q == p && i == k) && ((name == slot(m, compression, q, k + 1)) ==> q == p && i == k
        + 1) by {
        lemma_slots_differ(m, compression, p, i, q, k);
        lemma_slots_differ(m, compression, p, i, q, k + 1);
    }
    if i == k {
        assert(name == slot(m, compression, p, k));
    }
    if i == k + 1 {
        lemma_slots_differ(m, compression, p, i, false, k + 1);
        assert(content(files, slot(m, compression, p, k)) is Some || content(
            files,
            slot(m, compression, p, k),
        ) is None);
    }
}

/// The number above which a rotation moves no file: the next number, or one.
pub open spec fn top_number(next_index: nat) -> nat {
    if next_index == 0 {
        1
    } else {
        next_index
    }
}

/// The name under which a rotation leaves the file `name`.
pub open spec fn name_after_rotation(
    m: MetaView,
    compression: Option<Compression>,
    next_index: nat,
    name: Seq<char>,
) -> Seq<char> {
    if name == m.filename {
        rotated_name(m.filename, 1)
    } else if exists|p: bool, i: nat|
        in_use(compression, p) && 1 <= i < top_number(next_index) && name == #[trigger] slot(
            m,
            compression,
            p,
            i,
        ) {
        let (p, i) = choose|p: bool, i: nat|
            in_use(compression, p) && 1 <= i < top_number(next_index) && name == #[trigger] slot(
                m,
                compression,
                p,
                i,
            );
        slot(m, compression, p, i + 1)
    } else {
        name
    }
}

/// A size-based rotation leaves the log file empty, gives its former contents the
/// number one, and every numbered file below the next number the number that
/// follows its own. Other files stay as they were; only a file that has the next
/// number itself can be overwritten.
pub proof fn law_rotation_moves_files_up(
    m: MetaView,
    compression: Option<Compression>,
    next_index: nat,
    old_path: PathView,
    files: Map<Seq<char>, Seq<u8>>,
)
    requires
        m.rotation is SizeBased,
        files.contains_key(m.filename),
    ensures
        ({
            let new_path = m.path(rotated_name(m.filename, 1));
            let after = run(refresh_steps(m, old_path, new_path, next_index, compression), files);
            let top = top_number(next_index);
            &&& content(after, m.filename) == Some(Seq::<u8>::empty())
            &&& content(after, rotated_name(m.filename, 1)) == content(files, m.filename)
            &&& compression is Some ==> content(after, slot(m, compression, true, 1)) == (if top > 1 {
                None
            } else {
                content(files, slot(m, compression, true, 1))
            })
            &&& forall|p: bool, i: nat|
                in_use(compression, p) && 2 <= i <= top ==> #[trigger] content(
                    after,
                    slot(m, compression, p, i),
                ) == (if i < top || content(files, slot(m, compression, p, (i - 1) as nat)) is Some {
                    content(files, slot(m, compression, p, (i - 1) as nat))
                } else {
                    content(files, slot(m, compression, p, i))
                })
            &&& forall|name: Seq<char>|
                name != m.filename && !is_slot_up_to(m, compression, top, name) ==>
                    #[trigger] content(after, name) == content(files, name)
        }),
{
    let new_path = m.path(rotated_name(m.filename, 1));
    let top = top_number(next_index);
    let k = (top - 1) as nat;
    let submit = seq![FileStep::Submit { path: new_path }];
    let shifts = shift_steps(m, k, compression);
    let tail = seq![
        FileStep::Move { from: m.path(m.filename), to: new_path },
        FileStep::CreateLog { path: m.path(m.filename) },
        FileStep::Flush,
        FileStep::Switch,
        FileStep::Start,
    ];
    lemma_run_concat(submit + shifts, tail, files);
    lemma_run_concat(submit, shifts, files);
    lemma_shift_steps(m, compression, k, files);
    assert(run(submit, files) == files) by {
        assert(submit.skip(1) =~= Seq::<FileStep<PathView>>::empty());
        assert(run(submit.skip(1), files) == files);
    }
    let mid = run(shifts, files);
    lemma_tail(m, mid);
    assert(slot(m, compression, false, 1) == rotated_name(m.filename, 1));
    assert(!is_slot_up_to(m, compression, k + 1, m.filename)) by {
        assert forall|p: bool, i: nat| in_use(compression, p) implies m.filename
            != #[trigger] slot(m, compression, p, i) by {
            lemma_slots_differ(m, compression, p, i, p, i);
        }
    }
    assert(content(mid, m.filename) == content(files, m.filename));
    let after = run(tail, mid);
    if compression is Some {
        lemma_slots_differ(m, compression, true, 1, false, 1);
        assert(content(after, slot(m, compression, true, 1)) == content(
            mid,
            slot(m, compression, true, 1),
        ));
    }
    assert forall|p: bool, i: nat| in_use(compression, p) && 2 <= i <= top implies
        #[trigger] content(after, slot(m, compression, p, i)) == (if i < top || content(
        files,
        slot(m, compression, p, (i - 1) as nat),
    ) is Some {
        content(files, slot(m, compression, p, (i - 1) as nat))
    } else {
        content(files, slot(m, compression, p, i))
    }) by {
        let up = slot(m, compression, p, i);
        lemma_slots_differ(m, compression, p, i, false, 1);
        assert(content(after, up) == content(mid, up));
    }
    assert forall|name: Seq<char>|
        name != m.filename && !is_slot_up_to(m, compression, top, name) implies #[trigger] content(
        after,
        name,
    ) == content(files, name) by {
        if name == rotated_name(m.filename, 1) {
            assert(name == slot(m, compression, false, 1));
        }
        assert(content(mid, name) == content(files, name));
    }
}

/// The last steps of a size-based rotation: the log file gets the number one, and
/// an empty log file takes its place.
proof fn lemma_tail(m: MetaView, files: Map<Seq<char>, Seq<u8>>)
    requires
        files.contains_key(m.filename),
    ensures
        ({
            let new_path = m.path(rotated_name(m.filename, 1));
            let tail = seq![
                FileStep::Move { from: m.path(m.filename), to: new_path },
                FileStep::CreateLog { path: m.path(m.filename) },
                FileStep::Flush,
                FileStep::Switch,
                FileStep::Start,
            ];
            run(tail, files) == files.remove(m.filename).insert(
                rotated_name(m.filename, 1),
                files[m.filename],
            ).insert(m.filename, Seq::empty())
        }),
{
    reveal_with_fuel(run, 6);
    let one = rotated_name(m.filename, 1);
    assert(one.len() > m.filename.len());
    let new_path = m.path(one);
    let tail = seq![
        FileStep::Move { from: m.path(m.filename), to: new_path },
        FileStep::CreateLog { path: m.path(m.filename) },
        FileStep::Flush,
        FileStep::Switch,
        FileStep::Start,
    ];
    assert(tail.skip(1)[0] == tail[1]);
    assert(tail.skip(1).skip(1)[0] == tail[2]);
    assert(tail.skip(1).skip(1).skip(1)[0] == tail[3]);
    assert(tail.skip(1).skip(1).skip(1).skip(1)[0] == tail[4]);
    let moved = renamed(files, m.filename, one);
    assert(!moved.contains_key(m.filename));
}

/// No contents are lost in a size-based rotation, but for a file that has the next
/// number already: every other file is there afterwards under a name of its own.
pub proof fn law_rotation_loses_nothing(
    m: MetaView,
    compression: Option<Compression>,
    next_index: nat,
    old_path: PathView,
    files: Map<Seq<char>, Seq<u8>>,
)
    requires
        m.rotation is SizeBased,
        files.contains_key(m.filename),
        forall|p: bool|
            in_use(compression, p) ==> !files.contains_key(
                #[trigger] slot(m, compression, p, top_number(next_index)),
            ),
    ensures
        ({
            let new_path = m.path(rotated_name(m.filename, 1));
            let after = run(refresh_steps(m, old_path, new_path, next_index, compression), files);
            &&& forall|name: Seq<char>| #[trigger]
                files.contains_key(name) ==> content(
                    after,
                    name_after_rotation(m, compression, next_index, name),
                ) == Some(files[name])
            &&& forall|a: Seq<char>, b: Seq<char>|
                files.contains_key(a) && files.contains_key(b) && #[trigger] name_after_rotation(
                    m,
                    compression,
                    next_index,
                    a,
                ) == #[trigger] name_after_rotation(m, compression, next_index, b) ==> a == b
        }),
{
    let new_path = m.path(rotated_name(m.filename, 1));
    let after = run(refresh_steps(m, old_path, new_path, next_index, compression), files);
    let top = top_number(next_index);
    law_rotation_moves_files_up(m, compression, next_index, old_path, files);
    assert forall|name: Seq<char>| #[trigger] files.contains_key(name) implies content(
        after,
        name_after_rotation(m, compression, next_index, name),
    ) == Some(files[name]) by {
        lemma_where_it_goes(m, compression, next_index, files, name);
    }
    assert forall|a: Seq<char>, b: Seq<char>|
        files.contains_key(a) && files.contains_key(b) && #[trigger] name_after_rotation(
            m,
            compression,
            next_index,
            a,
        ) == #[trigger] name_after_rotation(m, compression, next_index, b) implies a == b by {
        let x = lemma_where_it_goes(m, compression, next_index, files, a);
        let y = lemma_where_it_goes(m, compression, next_index, files, b);
        if x is Some && y is Some {
            let (p, i) = x->0;
            let (q, j) = y->0;
            lemma_slots_differ(m, compression, p, i, q, j);
        }
    }
}

/// Where a file goes in a rotation: to the slot that is returned, or nowhere.
proof fn lemma_where_it_goes(
    m: MetaView,
    compression: Option<Compression>,
    next_index: nat,
    files: Map<Seq<char>, Seq<u8>>,
    name: Seq<char>,
) -> (goes: Option<(bool, nat)>)
    requires
        files.contains_key(name),
        forall|p: bool|
            in_use(compression, p) ==> !files.contains_key(
                #[trigger] slot(m, compression, p, top_number(next_index)),
            ),
    ensures
        ({
            let new_name = name_after_rotation(m, compression, next_index, name);
            let top = top_number(next_index);
            match goes {
                Some((p, i)) => {
                    &&& in_use(compression, p)
                    &&& 1 <= i <= top
                    &&& new_name == slot(m, compression, p, i)
                    &&& i == 1 && !p && name == m.filename || (i > 1 && name == slot(
                        m,
                        compression,
                        p,
                        (i - 1) as nat,
                    ))
                },
                None => {
                    &&& new_name == name
                    &&& name != m.filename
                    &&& !is_slot_up_to(m, compression, top, name)
                },
            }
        }),
{
    let top = top_number(next_index);
    if name == m.filename {
        Some((false, 1nat))
    } else if exists|p: bool, i: nat|
        in_use(compression, p) && 1 <= i < top && name == #[trigger] slot(m, compression, p, i) {
        let (p, i) = choose|p: bool, i: nat|
            in_use(compression, p) && 1 <= i < top && name == #[trigger] slot(m, compression, p, i);
        Some((p, i + 1))
    } else {
        if is_slot_up_to(m, compression, top, name) {
            let (p, i) = choose|p: bool, i: nat|
                in_use(compression, p) && 1 <= i <= top && name == #[trigger] slot(
                    m,
                    compression,
                    p,
                    i,
                );
            assert(i == top);
        }
        None
    }
}

/// No numbered file has the number `n` or a larger one that can be counted.
pub open spec fn free_from(
    m: MetaView,
    compression: Option<Compression>,
    n: nat,
    files: Map<Seq<char>, Seq<u8>>,
) -> bool {
    forall|p: bool, i: nat|
        in_use(compression, p) && n <= i <= usize::MAX ==> #[trigger] content(
            files,
            slot(m, compression, p, i),
        ) is None
}

/// Where every numbered file has a number below the next number, that is so again
/// after a size-based rotation, by which the next number grows by one.
pub proof fn law_numbers_stay_below_next(
    m: MetaView,
    compression: Option<Compression>,
    next_index: nat,
    old_path: PathView,
    files: Map<Seq<char>, Seq<u8>>,
)
    requires
        m.rotation is SizeBased,
        files.contains_key(m.filename),
        next_index >= 1,
        free_from(m, compression, next_index, files),
    ensures
        free_from(
            m,
            compression,
            next_index + 1,
            run(
                refresh_steps(
                    m,
                    old_path,
                    m.path(rotated_name(m.filename, 1)),
                    next_index,
                    compression,
                ),
                files,
            ),
        ),
{
    let new_path = m.path(rotated_name(m.filename, 1));
    let after = run(refresh_steps(m, old_path, new_path, next_index, compression), files);
    law_rotation_moves_files_up(m, compression, next_index, old_path, files);
    assert forall|p: bool, i: nat|
        in_use(compression, p) && next_index + 1 <= i <= usize::MAX implies #[trigger] content(
        after,
        slot(m, compression, p, i),
    ) is None by {
        let name = slot(m, compression, p, i);
        lemma_slots_differ(m, compression, p, i, p, i);
        if is_slot_up_to(m, compression, next_index, name) {
            let (q, j) = choose|q: bool, j: nat|
                in_use(compression, q) && 1 <= j <= next_index && name == #[trigger] slot(
                    m,
                    compression,
                    q,
                    j,
                );
            lemma_slots_differ(m, compression, p, i, q, j);
        }
        assert(content(after, name) == content(files, name));
    }
}

/// The number behind the largest that is found among the files is free, and so are
/// the numbers behind it.
pub proof fn law_number_behind_largest_is_free(
    m: MetaView,
    compression: Option<Compression>,
    names: Seq<Seq<char>>,
    files: Map<Seq<char>, Seq<u8>>,
)
    requires
        forall|name: Seq<char>| #[trigger] files.contains_key(name) ==> names.contains(name),
    ensures
        free_from(m, compression, largest_number(names, m.filename) + 1, files),
{
    let n = largest_number(names, m.filename) + 1;
    law_largest_number(names, m.filename);
    assert forall|p: bool, i: nat|
        in_use(compression, p) && n <= i <= usize::MAX implies #[trigger] content(
        files,
        slot(m, compression, p, i),
    ) is None by {
        let number = i as usize;
        let tail = match compression {
            Some(c) if p => seq!['.'] + c.extension(),
            _ => Seq::<char>::empty(),
        };
        assert(slot(m, compression, p, i) =~= rotated_name(m.filename, number as nat) + tail);
    }
}

/// An age-based rotation makes the new log file where it is not there yet, and
/// leaves every file as it was.
pub proof fn law_age_rotation_adds_a_file(
    m: MetaView,
    compression: Option<Compression>,
    next_index: nat,
    old_path: PathView,
    new_path: PathView,
    files: Map<Seq<char>, Seq<u8>>,
)
    requires
        m.rotation is AgeBased,
    ensures
        ({
            let after = run(refresh_steps(m, old_path, new_path, next_index, compression), files);
            &&& content(after, new_path.name) == Some(
                match content(files, new_path.name) {
                    Some(contents) => contents,
                    None => Seq::<u8>::empty(),
                },
            )
            &&& forall|name: Seq<char>|
                name != new_path.name ==> #[trigger] content(after, name) == content(files, name)
        }),
{
    reveal_with_fuel(run, 6);
    let steps = refresh_steps(m, old_path, new_path, next_index, compression);
    assert(steps.skip(1)[0] == steps[1]);
    assert(steps.skip(1).skip(1)[0] == steps[2]);
    assert(steps.skip(1).skip(1).skip(1)[0] == steps[3]);
    assert(steps.skip(1).skip(1).skip(1).skip(1)[0] == steps[4]);
}

/// Compressing a file replaces it by its compressed contents, and leaves every
/// other file as it was.
pub proof fn law_compression_replaces_the_file(
    m: MetaView,
    path: PathView,
    files: Map<Seq<char>, Seq<u8>>,
)
    requires
        files.contains_key(path.name),
    ensures
        ({
            let after = run(compress_steps(m, path), files);
            match m.compression {
                None => after == files,
                Some(c) => {
                    &&& content(after, path.name) is None
                    &&& content(after, packed_path(path, c).name) == Some(
                        packed(c, files[path.name]),
                    )
                    &&& forall|name: Seq<char>|
                        name != path.name && name != packed_path(path, c).name ==>
                            #[trigger] content(after, name) == content(files, name)
                },
            }
        }),
{
    if let Some(c) = m.compression {
        reveal_with_fuel(run, 6);
        let to = packed_path(path, c);
        assert(to.name.len() > path.name.len());
        let steps = compress_steps(m, path);
        assert(steps.skip(1)[0] == steps[1]);
        assert(steps.skip(1).skip(1)[0] == steps[2]);
        assert(steps.skip(1).skip(1).skip(1)[0] == steps[3]);
        if m.file_mode is Some {
            assert(steps.skip(1).skip(1).skip(1).skip(1)[0] == steps[4]);
        }
        let made = files.insert(to.name, Seq::<u8>::empty());
        assert(made[path.name] == files[path.name]);
    }
}

/// What is asked for to carry out a step.
pub open spec fn actions_of(
    step: FileStep<PathView>,
    files: Map<Seq<char>, Seq<u8>>,
) -> Seq<FileAction<PathView>> {
    match step {
        FileStep::Shift { from, to } => if files.contains_key(from.name) {
            seq![FileAction::Probe { path: from }, FileAction::Rename { from, to }]
        } else {
            seq![FileAction::Probe { path: from }]
        },
        FileStep::Move { from, to } => seq![FileAction::Rename { from, to }],
        _ => seq![FileAction::Perform { step }],
    }
}

/// What is asked for to carry out all of the steps, one after the other.
pub open spec fn actions_of_all(
    steps: Seq<FileStep<PathView>>,
    files: Map<Seq<char>, Seq<u8>>,
) -> Seq<FileAction<PathView>>
    decreases steps.len(),
{
    if steps.len() == 0 {
        Seq::empty()
    } else {
        actions_of(steps[0], files) + actions_of_all(steps.skip(1), effect(steps[0], files))
    }
}

/// The actions for which a plan asks, one after the other, where each of them succeeds.
pub open spec fn asked_for(plan: PlanView, files: Map<Seq<char>, Seq<u8>>) -> Seq<
    FileAction<PathView>,
>
    decreases plan.steps.len() - plan.at, (if plan.probed { 0int } else { 1int }),
    when 0 <= plan.at
{
    if plan.action() is Finish {
        Seq::empty()
    } else {
        seq![plan.action()] + asked_for(
            plan.after(response(plan.action(), files)),
            outcome(plan.action(), files),
        )
    }
}

/// A plan leaves out no step, also none that changes no file, and asks for nothing
/// else: one action for each step, in the order of the steps, and where a file that
/// may not be there is to be renamed, first whether it is there.
pub proof fn law_plan_asks_for_each_step(plan: PlanView, files: Map<Seq<char>, Seq<u8>>)
    requires
        plan.valid(),
        !plan.probed,
    ensures
        asked_for(plan, files) == actions_of_all(plan.steps.skip(plan.at), files),
    decreases plan.steps.len() - plan.at,
{
    if plan.at < plan.steps.len() {
        reveal_with_fuel(asked_for, 3);
        let left = plan.steps.skip(plan.at);
        let step = plan.steps[plan.at];
        let next = PlanView { at: plan.at + 1, probed: false, ..plan };
        assert(left[0] == step);
        assert(left.skip(1) =~= plan.steps.skip(plan.at + 1));
        law_plan_asks_for_each_step(next, effect(step, files));
        assert(asked_for(plan, files) =~= actions_of(step, files) + asked_for(
            next,
            effect(step, files),
        ));
    }
}

/// The path of the file whose processing the steps queue, if they do that first.
pub open spec fn queued(steps: Seq<FileStep<PathView>>) -> Option<PathView> {
    if steps.len() > 0 {
        match steps[0] {
            FileStep::Submit { path } => Some(path),
            _ => None,
        }
    } else {
        None
    }
}

/// The name of the log file before a rotation.
pub open spec fn log_before(m: MetaView, old_path: PathView) -> Seq<char> {
    match m.rotation {
        Rotation::SizeBased(_) => m.filename,
        Rotation::AgeBased(_) => old_path.name,
    }
}

/// The name of the log file after a rotation.
pub open spec fn log_after(m: MetaView, new_path: PathView) -> Seq<char> {
    match m.rotation {
        Rotation::SizeBased(_) => m.filename,
        Rotation::AgeBased(_) => new_path.name,
    }
}

/// A rotation queues the processing of one file, first of all: of the file in which
/// the former contents of the log are when the rotation is done, and never of the file
/// in which the log goes on. Compressing the file that is queued leaves these contents
/// under its name with the extension of the algorithm, compressed as it is configured,
/// and leaves the new log file as it is.
pub proof fn law_finished_file_is_processed(
    m: MetaView,
    old_path: PathView,
    new_path: PathView,
    next_index: nat,
    files: Map<Seq<char>, Seq<u8>>,
)
    requires
        files.contains_key(log_before(m, old_path)),
        m.rotation is SizeBased ==> new_path == (PathView {
            directory: m.directory,
            name: rotated_name(m.filename, 1),
        }),
        m.rotation is AgeBased ==> new_path.name != old_path.name && new_path.name != old_path.name
            + seq!['.', 'g', 'z'] && new_path.name != old_path.name + seq!['.', 'x', 'z'],
    ensures
        ({
            let former = files[log_before(m, old_path)];
            let log = log_after(m, new_path);
            let steps = refresh_steps(m, old_path, new_path, next_index, m.compression);
            let after = run(steps, files);
            &&& queued(steps) == Some(
                match m.rotation {
                    Rotation::SizeBased(_) => new_path,
                    Rotation::AgeBased(_) => old_path,
                },
            )
            &&& forall|j: int| 0 < j < steps.len() ==> !(#[trigger] steps[j] is Submit)
            &&& queued(steps) matches Some(q) && {
                let finished = run(compress_steps(m, q), after);
                &&& q.name != log
                &&& content(after, q.name) == Some(former)
                &&& content(finished, log) == content(after, log)
                &&& content(after, log) == Some(
                    if m.rotation is AgeBased && files.contains_key(log) {
                        files[log]
                    } else {
                        Seq::<u8>::empty()
                    },
                )
                &&& match m.compression {
                    None => content(finished, q.name) == Some(former),
                    Some(Compression::Gzip) => content(finished, q.name) is None && content(
                        finished,
                        q.name + seq!['.', 'g', 'z'],
                    ) == Some(gzip_of(former)),
                    Some(Compression::XZ(level)) => content(finished, q.name) is None && content(
                        finished,
                        q.name + seq!['.', 'x', 'z'],
                    ) == Some(xz_of(level as int, former)),
                }
            }
        }),
{
    let steps = refresh_steps(m, old_path, new_path, next_index, m.compression);
    let after = run(steps, files);
    law_extensions(0);
    law_log_switches_behind_open_and_flush(m, old_path, new_path, next_index, m.compression);
    assert(steps.len() > 0);
    match m.rotation {
        Rotation::SizeBased(_) => {
            law_rotation_moves_files_up(m, m.compression, next_index, old_path, files);
            assert(steps[0] == (FileStep::Submit { path: new_path }));
            lemma_compressed_name(m, new_path);
            law_compression_replaces_the_file(m, new_path, after);
            lemma_slots_differ(m, m.compression, false, 1, false, 1);
            assert(slot(m, m.compression, false, 1) == new_path.name);
            if m.compression is Some {
                lemma_slots_differ(m, m.compression, true, 1, true, 1);
                assert(slot(m, m.compression, true, 1) == packed_path(
                    new_path,
                    m.compression->0,
                ).name);
            }
        },
        Rotation::AgeBased(_) => {
            law_age_rotation_adds_a_file(
                m,
                m.compression,
                next_index,
                old_path,
                new_path,
                files,
            );
            assert(steps[0] == (FileStep::Submit { path: old_path }));
            assert(content(after, old_path.name) == content(files, old_path.name));
            lemma_compressed_name(m, old_path);
            law_compression_replaces_the_file(m, old_path, after);
        },
    }
}

/// The name of a compressed file, letter by letter.
proof fn lemma_compressed_name(m: MetaView, path: PathView)
    ensures
        m.compression == Some(Compression::Gzip) ==> packed_path(path, Compression::Gzip).name
            == path.name + seq!['.', 'g', 'z'],
        m.compression matches Some(Compression::XZ(level)) ==> packed_path(
            path,
            Compression::XZ(level),
        ).name == path.name + seq!['.', 'x', 'z'],
{
    law_extensions(0);
    assert(packed_path(path, Compression::Gzip).name =~= path.name + seq!['.', 'g', 'z']);
    if let Some(Compression::XZ(level)) = m.compression {
        law_extensions(level);
        assert(packed_path(path, Compression::XZ(level)).name =~= path.name + seq!['.', 'x', 'z']);
    }
}

/// The paths on which a step works.
pub open spec fn paths_of(step: FileStep<PathView>) -> Seq<PathView> {
    match step {
        FileStep::Submit { path } => seq![path],
        FileStep::Shift { from, to } => seq![from, to],
        FileStep::Move { from, to } => seq![from, to],
        FileStep::CreateLog { path } => seq![path],
        FileStep::Open { path } => seq![path],
        FileStep::CreateNew { path } => seq![path],
        FileStep::Encode { from, to, .. } => seq![from, to],
        FileStep::SetMode { path, .. } => seq![path],
        FileStep::Remove { path } => seq![path],
        FileStep::Flush => Seq::empty(),
        FileStep::Switch => Seq::empty(),
        FileStep::Start => Seq::empty(),
    }
}

/// All steps work on files of the directory.
pub open spec fn stays_in(steps: Seq<FileStep<PathView>>, directory: Seq<char>) -> bool {
    forall|j: int, k: int|
        #![trigger paths_of(steps[j])[k]]
        0 <= j < steps.len() && 0 <= k < paths_of(steps[j]).len() ==> paths_of(
            steps[j],
        )[k].directory == directory
}

/// A rotation works on files of the log directory only, and compression on files of
/// the directory in which the file lies that is compressed.
pub proof fn law_steps_stay_in_the_directory(
    m: MetaView,
    old_path: PathView,
    new_path: PathView,
    next_index: nat,
    compression: Option<Compression>,
    path: PathView,
)
    requires
        old_path.directory == m.directory,
        new_path.directory == m.directory,
    ensures
        stays_in(refresh_steps(m, old_path, new_path, next_index, compression), m.directory),
        stays_in(compress_steps(m, path), path.directory),
{
    let steps = refresh_steps(m, old_path, new_path, next_index, compression);
    if m.rotation is SizeBased {
        let k = (top_number(next_index) - 1) as nat;
        let shifts = shift_steps(m, k, compression);
        lemma_shifts_stay(m, k, compression);
        assert forall|j: int, i: int|
            #![trigger paths_of(steps[j])[i]]
            0 <= j < steps.len() && 0 <= i < paths_of(steps[j]).len() implies paths_of(
            steps[j],
        )[i].directory == m.directory by {
            if 0 < j <= shifts.len() {
                assert(steps[j] == shifts[j - 1]);
                assert(paths_of(shifts[j - 1])[i].directory == m.directory);
            }
        }
    }
}

/// The steps that give files the next number work on files of the log directory.
proof fn lemma_shifts_stay(m: MetaView, k: nat, compression: Option<Compression>)
    ensures
        stays_in(shift_steps(m, k, compression), m.directory),
    decreases k,
{
    if k > 0 {
        let pair = shift_pair(m, k, compression);
        let rest = shift_steps(m, (k - 1) as nat, compression);
        let all = shift_steps(m, k, compression);
        lemma_shifts_stay(m, (k - 1) as nat, compression);
        assert forall|j: int, i: int|
            #![trigger paths_of(all[j])[i]]
            0 <= j < all.len() && 0 <= i < paths_of(all[j]).len() implies paths_of(
            all[j],
        )[i].directory == m.directory by {
            if j >= pair.len() {
                assert(all[j] == rest[j - pair.len()]);
                assert(paths_of(rest[j - pair.len()])[i].directory == m.directory);
            } else {
                assert(all[j] == pair[j]);
            }
        }
    }
}

/// The compressed file gets the very mode that is configured, behind the writing of
/// its contents and before the file itself is removed; no other file gets a mode, and
/// none does where no mode is configured. Nothing is done at all where files are not
/// compressed.
pub proof fn law_compressed_file_gets_its_mode(m: MetaView, path: PathView)
    ensures
        m.compression is None ==> compress_steps(m, path).len() == 0,
        forall|j: int|
            0 <= j < compress_steps(m, path).len() ==> match #[trigger] compress_steps(m, path)[j] {
                FileStep::SetMode { path: p, mode } => {
                    &&& m.file_mode == Some(mode)
                    &&& p.directory == path.directory
                    &&& p.name == path.name + (match m.compression {
                        Some(Compression::Gzip) => seq!['.', 'g', 'z'],
                        _ => seq!['.', 'x', 'z'],
                    })
                    &&& j == 3
                },
                FileStep::Encode { .. } => j == 2,
                FileStep::Remove { path: p } => p == path && j == compress_steps(m, path).len() - 1,
                FileStep::Open { path: p } => p == path,
                FileStep::CreateNew { .. } => j == 1,
                _ => false,
            },
        m.compression is Some && m.file_mode is Some ==> compress_steps(m, path).len() == 5
            && compress_steps(m, path)[3] is SetMode,
        m.compression is Some ==> compress_steps(m, path).last() is Remove,
{
    lemma_compressed_name(m, path);
}

/// A rotation first queues its task, then moves files, then opens the new log
/// file; only then the old file is flushed, and only then the log goes to the new
/// file. The task starts last. A plan ends at the first failure, so the log goes
/// to the new file only where it could be opened.
pub proof fn law_log_switches_behind_open_and_flush(
    m: MetaView,
    old_path: PathView,
    new_path: PathView,
    next_index: nat,
    compression: Option<Compression>,
)
    ensures
        ({
            let steps = refresh_steps(m, old_path, new_path, next_index, compression);
            let n = steps.len() as int;
            &&& n >= 5
            &&& steps[0] is Submit
            &&& forall|j: int| 0 < j < n - 4 ==> #[trigger] steps[j] is Shift || steps[j] is Move
            &&& steps[n - 4] is CreateLog
            &&& steps[n - 3] is Flush
            &&& steps[n - 2] is Switch
            &&& steps[n - 1] is Start
        }),
{
    if m.rotation is SizeBased {
        let k = (top_number(next_index) - 1) as nat;
        lemma_shift_steps_shift(m, k, compression);
        let shifts = shift_steps(m, k, compression);
        let steps = refresh_steps(m, old_path, new_path, next_index, compression);
        assert forall|j: int| 0 < j < steps.len() - 4 implies #[trigger] steps[j] is Shift
            || steps[j] is Move by {
            if j <= shifts.len() {
                assert(steps[j] == shifts[j - 1]);
            }
        }
    }
}

/// The steps that give files the next number are renamings of files that may not
/// be there.
proof fn lemma_shift_steps_shift(m: MetaView, k: nat, compression: Option<Compression>)
    ensures
        forall|j: int|
            0 <= j < shift_steps(m, k, compression).len() ==> #[trigger] shift_steps(
                m,
                k,
                compression,
            )[j] is Shift,
    decreases k,
{
    if k > 0 {
        let pair = shift_pair(m, k, compression);
        let rest = shift_steps(m, (k - 1) as nat, compression);
        lemma_shift_steps_shift(m, (k - 1) as nat, compression);
        assert forall|j: int| 0 <= j < (pair + rest).len() implies #[trigger] (pair
            + rest)[j] is Shift by {
            if j >= pair.len() {
                assert((pair + rest)[j] == rest[j - pair.len()]);
            }
        }
    }
}

/// A file is removed only behind all other steps of its compression: what it held
/// was compressed and written before.
pub proof fn law_source_is_removed_last(m: MetaView, path: PathView)
    ensures
        ({
            let steps = compress_steps(m, path);
            forall|j: int|
                0 <= j < steps.len() ==> (#[trigger] steps[j] is Remove <==> j == steps.len() - 1)
        }),
        m.compression matches Some(c) ==> compress_steps(m, path)[2] == (FileStep::Encode {
            from: path,
            to: packed_path(path, c),
            compression: c,
        }),
{
}

} // verus!
