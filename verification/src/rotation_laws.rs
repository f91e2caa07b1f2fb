//! What holds of many rotations of one day.

use vstd::prelude::*;

use crate::dates::parsed_date;
use crate::rotate::{
    greatest_sequence, law_greatest_sequence_bounds, law_rotated_name_reads_back, rotated_name,
    taken_sequence,
};
use crate::rotation::{
    rotation_run, LogDir, Performed, RotateActionView, RotateEventView, RotateStepView,
    RotationView,
};

verus! {

/// Whether every name that takes up a sequence number is that of a file of the directory.
pub open spec fn numbers_are_real(
    rotation: RotationView,
    dir: LogDir,
    names: Seq<Seq<char>>,
) -> bool {
    forall|i: int|
        0 <= i < names.len() ==> number_of(rotation, #[trigger] names[i]) == 0
            || dir.files.dom().contains(names[i])
}

/// Whether a listing takes no sequence number for used that no file of the directory has.
pub open spec fn lists_no_other<E>(
    rotation: RotationView,
    dir: LogDir,
    event: RotateEventView<E>,
) -> bool {
    match event {
        RotateEventView::Listed(Some(names)) => numbers_are_real(rotation, dir, names),
        _ => true,
    }
}

/// Whether the outcomes of all operations of a run tell the truth: the active file is there if it is
/// said to be, and a listing names every file and takes no other number for used.
pub open spec fn told_exactly<E>(
    step: RotateStepView<E>,
    dir: LogDir,
    operations: Seq<Performed<E>>,
) -> bool
    decreases operations.len(),
{
    match step {
        RotateStepView::Continue(rotation) if operations.len() > 0 => {
            &&& dir.tells(rotation.next, operations[0].event)
            &&& lists_no_other(rotation, dir, operations[0].event)
            &&& told_exactly(
                rotation.after(operations[0].event),
                dir.performed(rotation.next, operations[0].event, operations[0].partial),
                operations.drop_first(),
            )
        },
        _ => true,
    }
}

/// The name of the `k`-th rotation of a day.
pub open spec fn name_of(rotation: RotationView, k: int) -> Seq<char> {
    rotated_name(rotation.stem, rotation.date, k as u32, rotation.ext)
}

/// The sequence number that a file name takes up.
pub open spec fn number_of(rotation: RotationView, name: Seq<char>) -> u32 {
    taken_sequence(name, rotation.stem, rotation.ext, rotation.date)
}

/// Whether the sequence numbers of a directory go up to `k`.
pub open spec fn numbered_up_to(
    rotation: RotationView,
    files: Map<Seq<char>, Seq<u8>>,
    k: int,
) -> bool {
    &&& 0 <= k <= u32::MAX
    &&& forall|name: Seq<char>| #[trigger]
        files.dom().contains(name) ==> number_of(rotation, name) <= k
    &&& k > 0 ==> files.dom().contains(name_of(rotation, k))
}

proof fn lemma_number_of_name(rotation: RotationView, k: int)
    requires
        parsed_date(rotation.date.text()) == Some(rotation.date),
        0 <= k <= u32::MAX,
    ensures
        number_of(rotation, name_of(rotation, k)) == k,
{
    law_rotated_name_reads_back(rotation.stem, rotation.date, k as u32, rotation.ext);
}

/// A true listing of a directory leads to the number after the last.
proof fn lemma_listing<E>(
    rotation: RotationView,
    dir: LogDir,
    names: Seq<Seq<char>>,
    k: int,
)
    requires
        parsed_date(rotation.date.text()) == Some(rotation.date),
        numbered_up_to(rotation, dir.files, k),
        dir.tells(RotateActionView::List, RotateEventView::<E>::Listed(Some(names))),
        lists_no_other(rotation, dir, RotateEventView::<E>::Listed(Some(names))),
    ensures
        greatest_sequence(names, rotation.stem, rotation.ext, rotation.date) == k,
{
    let greatest = greatest_sequence(names, rotation.stem, rotation.ext, rotation.date);
    law_greatest_sequence_bounds(names, rotation.stem, rotation.ext, rotation.date);
    if k > 0 {
        lemma_number_of_name(rotation, k);
        let i = choose|i: int| 0 <= i < names.len() && names[i] == name_of(rotation, k);
        assert(taken_sequence(names[i], rotation.stem, rotation.ext, rotation.date) <= greatest);
    }
    if greatest > 0 {
        let i = choose|i: int|
            0 <= i < names.len() && taken_sequence(
                #[trigger] names[i],
                rotation.stem,
                rotation.ext,
                rotation.date,
            ) == greatest;
        assert(numbers_are_real(rotation, dir, names));
        assert(number_of(rotation, names[i]) == greatest);
        assert(dir.files.dom().contains(names[i]));
        assert(number_of(rotation, names[i]) <= k);
    }
}

/// Where a rotation stands that began in `dir`, whose numbers go up to `k`.
spec fn under_way<E>(
    start: RotationView,
    dir: LogDir,
    k: int,
    step: RotateStepView<E>,
    now: LogDir,
) -> bool {
    let name = name_of(start, k + 1);
    let moved = dir.files.insert(name, dir.active->0);
    match step {
        RotateStepView::Continue(r) => {
            &&& r == RotationView { next: r.next, ..start }
            &&& match r.next {
                RotateActionView::CheckExists | RotateActionView::List => now == dir,
                RotateActionView::Rename { to } | RotateActionView::Copy { to } => now == dir && to
                    == name && k < u32::MAX,
                RotateActionView::RemoveActive { copy } => now == LogDir { files: moved, ..dir }
                    && k < u32::MAX,
            }
        },
        RotateStepView::Finished(Ok(())) => {
            &&& now == LogDir { active: None, files: moved }
            &&& k < u32::MAX
        },
        RotateStepView::Finished(Err(_)) => true,
    }
}

proof fn lemma_under_way<E>(
    start: RotationView,
    dir: LogDir,
    k: int,
    step: RotateStepView<E>,
    now: LogDir,
    operations: Seq<Performed<E>>,
)
    requires
        parsed_date(start.date.text()) == Some(start.date),
        numbered_up_to(start, dir.files, k),
        dir.active is Some,
        under_way(start, dir, k, step, now),
        told_exactly(step, now, operations),
    ensures
        ({
            let (last, after) = rotation_run(step, now, operations);
            under_way(start, dir, k, last, after)
        }),
    decreases operations.len(),
{
    if let RotateStepView::Continue(rotation) = step {
        if operations.len() > 0 {
            let event = operations[0].event;
            let partial = operations[0].partial;
            let after = now.performed(rotation.next, event, partial);
            if let (RotateActionView::List, RotateEventView::Listed(Some(names))) = (
                rotation.next,
                event,
            ) {
                assert(numbered_up_to(rotation, dir.files, k)) by {
                    assert(name_of(rotation, k) == name_of(start, k));
                    assert forall|name: Seq<char>| #[trigger]
                        dir.files.dom().contains(name) implies number_of(rotation, name) <= k by {
                        assert(number_of(start, name) <= k);
                    }
                }
                lemma_listing::<E>(rotation, dir, names, k);
            }
            assert(under_way(start, dir, k, rotation.after(event), after));
            lemma_under_way(
                start,
                dir,
                k,
                rotation.after(event),
                after,
                operations.drop_first(),
            );
        }
    }
}

/// Something is written to the active file, and the file is rotated.
pub struct Round<E> {
    pub content: Seq<u8>,
    pub operations: Seq<Performed<E>>,
}

/// The directory once something was written to the active file.
pub open spec fn with_active(dir: LogDir, content: Seq<u8>) -> LogDir {
    LogDir { active: Some(content), ..dir }
}

/// The directory after some rounds.
pub open spec fn after_rounds<E>(
    rotation: RotationView,
    dir: LogDir,
    rounds: Seq<Round<E>>,
) -> LogDir
    decreases rounds.len(),
{
    if rounds.len() == 0 {
        dir
    } else {
        let before = after_rounds(rotation, dir, rounds.drop_last());
        let round = rounds.last();
        rotation_run(
            RotateStepView::Continue(rotation),
            with_active(before, round.content),
            round.operations,
        ).1
    }
}

/// Whether every rotation succeeds, with outcomes that tell the truth.
pub open spec fn all_succeed<E>(
    rotation: RotationView,
    dir: LogDir,
    rounds: Seq<Round<E>>,
) -> bool
    decreases rounds.len(),
{
    rounds.len() > 0 ==> {
        let written = with_active(
            after_rounds(rotation, dir, rounds.drop_last()),
            rounds.last().content,
        );
        let start = RotateStepView::<E>::Continue(rotation);
        &&& all_succeed(rotation, dir, rounds.drop_last())
        &&& told_exactly(start, written, rounds.last().operations)
        &&& rotation_run(start, written, rounds.last().operations).0
            == RotateStepView::<E>::Finished(Ok(()))
    }
}

/// Whether what was written in a round stands under its number, counted from 1.
pub open spec fn holds_round<E>(
    rotation: RotationView,
    files: Map<Seq<char>, Seq<u8>>,
    rounds: Seq<Round<E>>,
    i: int,
) -> bool {
    let name = name_of(rotation, i + 1);
    files.dom().contains(name) && files[name] == rounds[i].content
}

/// The rotations of one day are numbered 1, 2, 3 and so on, each holds what was written before it,
/// and none replaces another file. The directory has no rotation of that day to begin with.
pub proof fn law_rotations_of_a_day_are_numbered<E>(
    rotation: RotationView,
    dir: LogDir,
    rounds: Seq<Round<E>>,
)
    requires
        rotation.next == RotateActionView::CheckExists,
        parsed_date(rotation.date.text()) == Some(rotation.date),
        forall|name: Seq<char>| #[trigger]
            dir.files.dom().contains(name) ==> number_of(rotation, name) == 0,
        all_succeed(rotation, dir, rounds),
    ensures
        ({
            let now = after_rounds(rotation, dir, rounds);
            &&& rounds.len() <= u32::MAX
            &&& rounds.len() > 0 ==> now.active is None
            &&& forall|i: int|
                0 <= i < rounds.len() ==> #[trigger] holds_round(rotation, now.files, rounds, i)
            &&& forall|name: Seq<char>| #[trigger]
                dir.files.dom().contains(name) ==> now.files.dom().contains(name)
                    && now.files[name] == dir.files[name]
            &&& numbered_up_to(rotation, now.files, rounds.len() as int)
        }),
    decreases rounds.len(),
{
    if rounds.len() > 0 {
        let fewer = rounds.drop_last();
        let round = rounds.last();
        let k = fewer.len() as int;
        law_rotations_of_a_day_are_numbered(rotation, dir, fewer);
        let before = after_rounds(rotation, dir, fewer);
        let written = with_active(before, round.content);
        let start = RotateStepView::<E>::Continue(rotation);
        lemma_under_way(rotation, written, k, start, written, round.operations);
        let now = after_rounds(rotation, dir, rounds);
        let new = name_of(rotation, k + 1);
        assert(now.files == before.files.insert(new, round.content));
        lemma_number_of_name(rotation, k + 1);
        assert(!before.files.dom().contains(new)) by {
            if before.files.dom().contains(new) {
                assert(number_of(rotation, new) <= k);
            }
        }
        assert forall|name: Seq<char>| #[trigger] now.files.dom().contains(name) implies number_of(
            rotation,
            name,
        ) <= k + 1 by {
            if name != new {
                assert(before.files.dom().contains(name));
            }
        }
        assert(numbered_up_to(rotation, now.files, k + 1));
        assert forall|name: Seq<char>| #[trigger]
            dir.files.dom().contains(name) implies now.files.dom().contains(name)
            && now.files[name] == dir.files[name] by {
            assert(before.files.dom().contains(name));
        }
        assert forall|i: int| 0 <= i < rounds.len() implies #[trigger] holds_round(
            rotation,
            now.files,
            rounds,
            i,
        ) by {
            if i < k {
                assert(fewer[i] == rounds[i]);
                assert(holds_round(rotation, before.files, fewer, i));
            }
        }
    }
}

} // verus!
