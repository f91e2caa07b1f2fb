//! How a rotation proceeds: what to do with the active file next, given how the last step went.
//!
//! The caller performs the file operations. Each `Rotation` names the one to perform, and
//! `Rotation::advance` takes its outcome.

use vstd::prelude::*;

use crate::dates::Date;
use crate::rotate::{
    checked_next_sequence, dotted, format_rotated_name, greatest_sequence, is_rotation,
    law_greatest_sequence_bounds, law_rotated_names_are_dotted,
    law_the_greatest_number_is_of_the_day, rotated_name,
    taken_sequence, ActiveFile,
};
use crate::text::{decimal, texts};

verus! {

/// The system's error number for a rename across devices.
pub const CROSS_DEVICE: i32 = 18;

/// A file operation of a rotation. `to` is a file name in the directory of the active file.
#[derive(Debug)]
pub enum RotateAction {
    /// Look whether the active file exists.
    CheckExists,
    /// List the file names of the active file's directory.
    List,
    /// Rename the active file.
    Rename { to: String },
    /// Copy the active file.
    Copy { to: String },
    /// Remove the active file, of which `copy` holds a copy.
    RemoveActive { copy: String },
}

/// The outcome of a file operation of a rotation.
#[derive(Debug)]
pub enum RotateEvent<E> {
    /// Whether the active file exists.
    Exists(bool),
    /// The file names of the directory, or `None` where it could not be listed.
    Listed(Option<Vec<String>>),
    /// The operation succeeded.
    Done,
    /// The operation failed, with the system's error number where there is one.
    Failed { os_error: Option<i32>, error: E },
}

/// The file that an error of a rotation is about.
#[derive(Debug)]
pub enum RotationPath {
    Active,
    Rotated(String),
}

/// Why a rotation failed.
#[derive(Debug)]
pub enum RotationError<E> {
    /// A file operation failed.
    Io { at: RotationPath, error: E },
    /// The greatest sequence number of the day is already in use.
    SequenceExhausted,
    /// The outcome does not belong to the operation that was asked for.
    OutOfTurn,
}

/// A rotation under way: `next` is the operation to perform.
#[derive(Debug)]
pub struct Rotation {
    pub active: ActiveFile,
    pub date: Date,
    pub next: RotateAction,
}

/// What follows the outcome of an operation.
#[derive(Debug)]
pub enum RotateStep<E> {
    Continue(Rotation),
    Finished(Result<(), RotationError<E>>),
}

pub enum RotateActionView {
    CheckExists,
    List,
    Rename { to: Seq<char> },
    Copy { to: Seq<char> },
    RemoveActive { copy: Seq<char> },
}

pub enum RotateEventView<E> {
    Exists(bool),
    Listed(Option<Seq<Seq<char>>>),
    Done,
    Failed { os_error: Option<i32>, error: E },
}

pub enum RotationPathView {
    Active,
    Rotated(Seq<char>),
}

pub enum RotationErrorView<E> {
    Io { at: RotationPathView, error: E },
    SequenceExhausted,
    OutOfTurn,
}

pub struct RotationView {
    pub stem: Seq<char>,
    pub ext: Seq<char>,
    pub date: Date,
    pub next: RotateActionView,
}

pub enum RotateStepView<E> {
    Continue(RotationView),
    Finished(Result<(), RotationErrorView<E>>),
}

impl View for RotateAction {
    type V = RotateActionView;

    open spec fn view(&self) -> RotateActionView {
        match *self {
            RotateAction::CheckExists => RotateActionView::CheckExists,
            RotateAction::List => RotateActionView::List,
            RotateAction::Rename { to } => RotateActionView::Rename { to: to@ },
            RotateAction::Copy { to } => RotateActionView::Copy { to: to@ },
            RotateAction::RemoveActive { copy } => RotateActionView::RemoveActive { copy: copy@ },
        }
    }
}

impl<E> View for RotateEvent<E> {
    type V = RotateEventView<E>;

    open spec fn view(&self) -> RotateEventView<E> {
        match *self {
            RotateEvent::Exists(yes) => RotateEventView::Exists(yes),
            RotateEvent::Listed(Some(names)) => RotateEventView::Listed(Some(texts(names@))),
            RotateEvent::Listed(None) => RotateEventView::Listed(None),
            RotateEvent::Done => RotateEventView::Done,
            RotateEvent::Failed { os_error, error } => RotateEventView::Failed { os_error, error },
        }
    }
}

impl<E> View for RotationError<E> {
    type V = RotationErrorView<E>;

    open spec fn view(&self) -> RotationErrorView<E> {
        match *self {
            RotationError::Io { at: RotationPath::Active, error } => RotationErrorView::Io {
                at: RotationPathView::Active,
                error,
            },
            RotationError::Io { at: RotationPath::Rotated(name), error } => RotationErrorView::Io {
                at: RotationPathView::Rotated(name@),
                error,
            },
            RotationError::SequenceExhausted => RotationErrorView::SequenceExhausted,
            RotationError::OutOfTurn => RotationErrorView::OutOfTurn,
        }
    }
}

impl View for Rotation {
    type V = RotationView;

    open spec fn view(&self) -> RotationView {
        RotationView {
            stem: self.active.stem_text(),
            ext: self.active.extension_text(),
            date: self.date,
            next: self.next@,
        }
    }
}

impl<E> View for RotateStep<E> {
    type V = RotateStepView<E>;

    open spec fn view(&self) -> RotateStepView<E> {
        match *self {
            RotateStep::Continue(rotation) => RotateStepView::Continue(rotation@),
            RotateStep::Finished(Ok(())) => RotateStepView::Finished(Ok(())),
            RotateStep::Finished(Err(error)) => RotateStepView::Finished(Err(error@)),
        }
    }
}

/// The sequence number of the next rotation: 1 where the directory could not be listed, else one
/// more than the greatest in use; `None` where there is no such number.
pub open spec fn sequence_after(
    names: Option<Seq<Seq<char>>>,
    stem: Seq<char>,
    ext: Seq<char>,
    date: Date,
) -> Option<u32> {
    match names {
        Some(names) => {
            let greatest = greatest_sequence(names, stem, ext, date);
            if greatest < u32::MAX {
                Some((greatest + 1) as u32)
            } else {
                None
            }
        },
        None => Some(1),
    }
}

impl RotationView {
    /// The same rotation with another operation to perform.
    pub open spec fn with_next<E>(self, next: RotateActionView) -> RotateStepView<E> {
        RotateStepView::Continue(RotationView { next, ..self })
    }

    /// What follows the outcome of an operation.
    ///
    /// A missing file needs no rotation. A rename that fails because the target is on another
    /// device is made up for by a copy and the removal of the active file; any other failure ends
    /// the rotation, with the file that it concerns.
    pub open spec fn after<E>(self, event: RotateEventView<E>) -> RotateStepView<E> {
        match (self.next, event) {
            (RotateActionView::CheckExists, RotateEventView::Exists(true)) => self.with_next(
                RotateActionView::List,
            ),
            (RotateActionView::CheckExists, RotateEventView::Exists(false)) =>
                RotateStepView::Finished(Ok(())),
            (RotateActionView::List, RotateEventView::Listed(names)) => match sequence_after(
                names,
                self.stem,
                self.ext,
                self.date,
            ) {
                Some(seq) => self.with_next(
                    RotateActionView::Rename {
                        to: rotated_name(self.stem, self.date, seq, self.ext),
                    },
                ),
                None => RotateStepView::Finished(Err(RotationErrorView::SequenceExhausted)),
            },
            (RotateActionView::Rename { to }, RotateEventView::Done) => RotateStepView::Finished(
                Ok(()),
            ),
            (RotateActionView::Rename { to }, RotateEventView::Failed { os_error, error }) => if
            os_error == Some(CROSS_DEVICE) {
                self.with_next(RotateActionView::Copy { to })
            } else {
                RotateStepView::Finished(
                    Err(RotationErrorView::Io { at: RotationPathView::Rotated(to), error }),
                )
            },
            (RotateActionView::Copy { to }, RotateEventView::Done) => self.with_next(
                RotateActionView::RemoveActive { copy: to },
            ),
            (RotateActionView::Copy { to }, RotateEventView::Failed { os_error, error }) =>
                RotateStepView::Finished(
                Err(RotationErrorView::Io { at: RotationPathView::Rotated(to), error }),
            ),
            (RotateActionView::RemoveActive { copy }, RotateEventView::Done) =>
                RotateStepView::Finished(Ok(())),
            (
                RotateActionView::RemoveActive { copy },
                RotateEventView::Failed { os_error, error },
            ) => RotateStepView::Finished(
                Err(RotationErrorView::Io { at: RotationPathView::Active, error }),
            ),
            _ => RotateStepView::Finished(Err(RotationErrorView::OutOfTurn)),
        }
    }
}

/// Whether the name that a listing leads to is none of the listed ones.
pub open spec fn target_is_fresh<E>(event: RotateEventView<E>, step: RotateStepView<E>) -> bool {
    match (event, step) {
        (
            RotateEventView::Listed(Some(names)),
            RotateStepView::Continue(RotationView { next: RotateActionView::Rename { to }, .. }),
        ) => !names.contains(to),
        _ => true,
    }
}

/// Starts to rotate the active file under a date: the day it was last written on where the day has
/// changed, the current day where it has grown too large.
pub fn rotate_file(active: ActiveFile, date: Date) -> (rotation: Rotation)
    requires
        date.valid(),
    ensures
        rotation@ == (RotationView {
            stem: active.stem_text(),
            ext: active.extension_text(),
            date,
            next: RotateActionView::CheckExists,
        }),
        rotation.date.valid(),
{
    Rotation { active, date, next: RotateAction::CheckExists }
}

impl Rotation {
    /// Takes the outcome of the operation that was to be performed.
    ///
    /// The name that the active file is given is none of those that were listed.
    pub fn advance<E>(self, event: RotateEvent<E>) -> (step: RotateStep<E>)
        requires
            self.date.valid(),
        ensures
            step@ == self@.after(event@),
            step matches RotateStep::Continue(rotation) ==> rotation.date.valid(),
            target_is_fresh(event@, step@),
    {
        let ghost before = self@;
        match (self.next, event) {
            (RotateAction::CheckExists, RotateEvent::Exists(exists)) => if exists {
                RotateStep::Continue(
                    Rotation { active: self.active, date: self.date, next: RotateAction::List },
                )
            } else {
                RotateStep::Finished(Ok(()))
            },
            (RotateAction::List, RotateEvent::Listed(names)) => {
                let seq: Option<u32> = match &names {
                    Some(names) => checked_next_sequence(names, &self.active, self.date),
                    None => Some(1),
                };
                match seq {
                    Some(seq) => {
                        let to: String = format_rotated_name(&self.active, self.date, seq);
                        proof {
                            if let Some(names) = names {
                                let listed = texts(names@);
                                law_greatest_sequence_bounds(
                                    listed,
                                    before.stem,
                                    before.ext,
                                    before.date,
                                );
                                if listed.contains(to@) {
                                    let i = choose|i: int|
                                        0 <= i < listed.len() && listed[i] == to@;
                                    assert(taken_sequence(
                                        listed[i],
                                        before.stem,
                                        before.ext,
                                        before.date,
                                    ) == seq);
                                }
                            }
                        }
                        RotateStep::Continue(
                            Rotation {
                                active: self.active,
                                date: self.date,
                                next: RotateAction::Rename { to },
                            },
                        )
                    },
                    None => RotateStep::Finished(Err(RotationError::SequenceExhausted)),
                }
            },
            (RotateAction::Rename { to }, RotateEvent::Done) => RotateStep::Finished(Ok(())),
            (RotateAction::Rename { to }, RotateEvent::Failed { os_error, error }) => {
                let cross_device: bool = match os_error {
                    Some(number) => number == CROSS_DEVICE,
                    None => false,
                };
                if cross_device {
                    RotateStep::Continue(
                        Rotation {
                            active: self.active,
                            date: self.date,
                            next: RotateAction::Copy { to },
                        },
                    )
                } else {
                    RotateStep::Finished(
                        Err(RotationError::Io { at: RotationPath::Rotated(to), error }),
                    )
                }
            },
            (RotateAction::Copy { to }, RotateEvent::Done) => RotateStep::Continue(
                Rotation {
                    active: self.active,
                    date: self.date,
                    next: RotateAction::RemoveActive { copy: to },
                },
            ),
            (RotateAction::Copy { to }, RotateEvent::Failed { os_error, error }) =>
                RotateStep::Finished(
                Err(RotationError::Io { at: RotationPath::Rotated(to), error }),
            ),
            (RotateAction::RemoveActive { copy }, RotateEvent::Done) => RotateStep::Finished(
                Ok(()),
            ),
            (RotateAction::RemoveActive { copy }, RotateEvent::Failed { os_error, error }) =>
                RotateStep::Finished(Err(RotationError::Io { at: RotationPath::Active, error })),
            _ => RotateStep::Finished(Err(RotationError::OutOfTurn)),
        }
    }
}

/// The directory of a log: the content of the active file, and the other files by name.
pub struct LogDir {
    pub active: Option<Seq<u8>>,
    pub files: Map<Seq<char>, Seq<u8>>,
}

impl LogDir {
    /// The directory after an operation with this outcome. A copy that fails may leave some bytes
    /// under its target name: `partial`.
    pub open spec fn performed<E>(
        self,
        action: RotateActionView,
        event: RotateEventView<E>,
        partial: Option<Seq<u8>>,
    ) -> LogDir {
        match (action, event) {
            (RotateActionView::Rename { to }, RotateEventView::Done) => LogDir {
                active: None,
                files: self.files.insert(to, self.active->0),
            },
            (RotateActionView::Copy { to }, RotateEventView::Done) => LogDir {
                files: self.files.insert(to, self.active->0),
                ..self
            },
            (RotateActionView::Copy { to }, RotateEventView::Failed { .. }) => match partial {
                Some(bytes) => LogDir { files: self.files.insert(to, bytes), ..self },
                None => self,
            },
            (RotateActionView::RemoveActive { copy }, RotateEventView::Done) => LogDir {
                active: None,
                ..self
            },
            _ => self,
        }
    }

    /// Whether an outcome tells the truth of the directory: the active file is there if it is said
    /// to be, and a listing names every file.
    pub open spec fn tells<E>(self, action: RotateActionView, event: RotateEventView<E>) -> bool {
        match (action, event) {
            (RotateActionView::CheckExists, RotateEventView::Exists(yes)) => yes
                == self.active is Some,
            (RotateActionView::List, RotateEventView::Listed(names)) => names is Some && forall|
                name: Seq<char>,
            |
                #[trigger] self.files.dom().contains(name) ==> names->0.contains(name),
            _ => true,
        }
    }
}

/// One operation of a rotation: its outcome, and what a failed copy left behind.
pub struct Performed<E> {
    pub event: RotateEventView<E>,
    pub partial: Option<Seq<u8>>,
}

/// Where a rotation and its directory stand after some operations.
pub open spec fn rotation_run<E>(
    step: RotateStepView<E>,
    dir: LogDir,
    operations: Seq<Performed<E>>,
) -> (RotateStepView<E>, LogDir)
    decreases operations.len(),
{
    match step {
        RotateStepView::Continue(rotation) if operations.len() > 0 => rotation_run(
            rotation.after(operations[0].event),
            dir.performed(rotation.next, operations[0].event, operations[0].partial),
            operations.drop_first(),
        ),
        _ => (step, dir),
    }
}

/// Whether the outcomes of all operations of a run tell the truth.
pub open spec fn rotation_told<E>(
    step: RotateStepView<E>,
    dir: LogDir,
    operations: Seq<Performed<E>>,
) -> bool
    decreases operations.len(),
{
    match step {
        RotateStepView::Continue(rotation) if operations.len() > 0 => {
            &&& dir.tells(rotation.next, operations[0].event)
            &&& rotation_told(
                rotation.after(operations[0].event),
                dir.performed(rotation.next, operations[0].event, operations[0].partial),
                operations.drop_first(),
            )
        },
        _ => true,
    }
}

/// Whether `now` has the files of `before` and at most one more.
pub open spec fn at_most_one_file_added(before: LogDir, now: LogDir) -> bool {
    ||| now.files == before.files
    ||| exists|name: Seq<char>, bytes: Seq<u8>|
        !before.files.dom().contains(name) && now.files == #[trigger] before.files.insert(
            name,
            bytes,
        )
}

/// Whether the content of the active file has moved to a file that was not there before.
pub open spec fn moved_to_new_file(before: LogDir, now: LogDir) -> bool {
    &&& before.active is Some
    &&& now.active is None
    &&& exists|name: Seq<char>|
        !before.files.dom().contains(name) && now.files == #[trigger] before.files.insert(
            name,
            before.active->0,
        )
}

/// What every run of a rotation keeps: until it has succeeded the active file stays, a success
/// moves its content to a new file, and no other file changes.
pub open spec fn rotation_keeps<E>(before: LogDir, step: RotateStepView<E>, now: LogDir) -> bool {
    match step {
        RotateStepView::Finished(Ok(())) => if before.active is Some {
            moved_to_new_file(before, now)
        } else {
            now == before
        },
        _ => now.active == before.active && at_most_one_file_added(before, now),
    }
}

spec fn rotation_inv<E>(before: LogDir, step: RotateStepView<E>, now: LogDir) -> bool {
    match step {
        RotateStepView::Continue(rotation) => match rotation.next {
            RotateActionView::CheckExists => now == before,
            RotateActionView::List => now == before && before.active is Some,
            RotateActionView::Rename { to } | RotateActionView::Copy { to } => {
                &&& now == before
                &&& before.active is Some
                &&& !before.files.dom().contains(to)
            },
            RotateActionView::RemoveActive { copy } => {
                &&& before.active is Some
                &&& now.active == before.active
                &&& !before.files.dom().contains(copy)
                &&& now.files == before.files.insert(copy, before.active->0)
            },
        },
        RotateStepView::Finished(_) => rotation_keeps(before, step, now),
    }
}

proof fn lemma_rotation_step<E>(
    before: LogDir,
    rotation: RotationView,
    now: LogDir,
    operation: Performed<E>,
)
    requires
        crate::dates::parsed_date(rotation.date.text()) == Some(rotation.date),
        rotation_inv(before, RotateStepView::<E>::Continue(rotation), now),
        now.tells(rotation.next, operation.event),
    ensures
        rotation_inv(
            before,
            rotation.after(operation.event),
            now.performed(rotation.next, operation.event, operation.partial),
        ),
        rotation.after(operation.event) matches RotateStepView::Continue(r) ==> r.date
            == rotation.date,
{
    let event = operation.event;
    let after = now.performed(rotation.next, event, operation.partial);
    let step = rotation.after(event);
    match (rotation.next, event) {
        (RotateActionView::List, RotateEventView::Listed(Some(names))) => {
            let (stem, ext, date) = (rotation.stem, rotation.ext, rotation.date);
            law_greatest_sequence_bounds(names, stem, ext, date);
            if let Some(seq) = sequence_after(Some(names), stem, ext, date) {
                let to = rotated_name(stem, date, seq, ext);
                crate::rotate::law_rotated_name_reads_back(stem, date, seq, ext);
                if before.files.dom().contains(to) {
                    let i = choose|i: int| 0 <= i < names.len() && names[i] == to;
                    assert(taken_sequence(names[i], stem, ext, date) == seq);
                }
            }
        },
        (RotateActionView::Rename { to }, RotateEventView::Done) => {
            assert(after.files == before.files.insert(to, before.active->0));
        },
        (RotateActionView::Copy { to }, RotateEventView::Failed { .. }) => {
            if let Some(bytes) = operation.partial {
                assert(after.files == before.files.insert(to, bytes));
            }
        },
        _ => {},
    }
}

proof fn lemma_rotation_run<E>(
    before: LogDir,
    step: RotateStepView<E>,
    now: LogDir,
    operations: Seq<Performed<E>>,
)
    requires
        rotation_inv(before, step, now),
        step matches RotateStepView::Continue(r) ==> crate::dates::parsed_date(r.date.text())
            == Some(r.date),
        rotation_told(step, now, operations),
    ensures
        ({
            let (last, dir) = rotation_run(step, now, operations);
            rotation_inv(before, last, dir)
        }),
    decreases operations.len(),
{
    if let RotateStepView::Continue(rotation) = step {
        if operations.len() > 0 {
            lemma_rotation_step(before, rotation, now, operations[0]);
            lemma_rotation_run(
                before,
                rotation.after(operations[0].event),
                now.performed(rotation.next, operations[0].event, operations[0].partial),
                operations.drop_first(),
            );
        }
    }
}

/// A rotation never loses what was logged and never overwrites another file.
///
/// Whatever operations fail and wherever the run is broken off, the active file keeps its content
/// until the rotation has succeeded, a success moves that content to a file that was not there
/// before, and all other files stay as they were. The outcomes must tell the truth of the
/// directory, and the date must be one that is read back from its text, as `Date::to_text`
/// ensures of every valid date.
pub proof fn law_rotation_keeps_logs<E>(
    rotation: RotationView,
    dir: LogDir,
    operations: Seq<Performed<E>>,
)
    requires
        rotation.next == RotateActionView::CheckExists,
        crate::dates::parsed_date(rotation.date.text()) == Some(rotation.date),
        rotation_told(RotateStepView::Continue(rotation), dir, operations),
    ensures
        ({
            let (step, now) = rotation_run(RotateStepView::Continue(rotation), dir, operations);
            rotation_keeps(dir, step, now)
        }),
{
    lemma_rotation_run(dir, RotateStepView::Continue(rotation), dir, operations);
    let (step, now) = rotation_run(RotateStepView::Continue(rotation), dir, operations);
    if let RotateStepView::Continue(r) = step {
        if let RotateActionView::RemoveActive { copy } = r.next {
            assert(now.files == dir.files.insert(copy, dir.active->0));
        }
    }
}

/// The next rotation of a day comes after those of that very day alone: it is numbered 1 where no
/// listed file is one, or where nothing could be listed, and else one more than the greatest. Where
/// that is the greatest number there is, there is no next one.
pub proof fn law_the_next_number_follows_those_of_the_day(
    names: Seq<Seq<char>>,
    stem: Seq<char>,
    ext: Seq<char>,
    date: Date,
    i: int,
    seq: u32,
)
    ensures
        sequence_after(None, stem, ext, date) == Some(1u32),
        (forall|j: int, n: u32|
            0 <= j < names.len() ==> !#[trigger] is_rotation(names[j], stem, ext, date, n))
            ==> sequence_after(Some(names), stem, ext, date) == Some(1u32),
        0 <= i < names.len() && is_rotation(names[i], stem, ext, date, seq) && (forall|
            j: int,
            n: u32,
        |
            0 <= j < names.len() && #[trigger] is_rotation(names[j], stem, ext, date, n) ==> n
                <= seq) ==> sequence_after(Some(names), stem, ext, date) == if seq < u32::MAX {
            Some((seq + 1) as u32)
        } else {
            None
        },
{
    law_the_greatest_number_is_of_the_day(names, stem, ext, date, i, seq);
}

/// How a rotation goes whose active file is there and whose directory is listed. A rename that works
/// ends it. A rename that fails for lack of one device, the error 18 of the system, is followed by a
/// copy to the same name and, once that is made, the removal of the active file. Every other failure
/// ends it with that very failure and the path it is about.
pub proof fn law_how_a_rotation_ends<E>(
    rotation: RotationView,
    names: Option<Seq<Seq<char>>>,
    seq: u32,
    os_error: Option<i32>,
    error: E,
)
    requires
        rotation.next == RotateActionView::CheckExists,
        sequence_after(names, rotation.stem, rotation.ext, rotation.date) == Some(seq),
    ensures
        ({
            let to = rotated_name(rotation.stem, rotation.date, seq, rotation.ext);
            let told = |events: Seq<RotateEventView<E>>| rotation_told_events(rotation, events);
            let start = seq![RotateEventView::<E>::Exists(true), RotateEventView::Listed(names)];
            let failed = RotateEventView::Failed { os_error, error };
            let moved = start.push(
                RotateEventView::Failed { os_error: Some(18), error },
            );
            let copied = moved.push(RotateEventView::Done);
            let at_target = RotateStepView::<E>::Finished(
                Err(RotationErrorView::Io { at: RotationPathView::Rotated(to), error }),
            );
            &&& told(seq![RotateEventView::Exists(false)]) == RotateStepView::<E>::Finished(Ok(()))
            &&& told(start) == rotation.with_next::<E>(RotateActionView::Rename { to })
            &&& told(start.push(RotateEventView::Done)) == RotateStepView::<E>::Finished(Ok(()))
            &&& os_error != Some(18i32) ==> told(start.push(failed)) == at_target
            &&& told(moved) == rotation.with_next::<E>(RotateActionView::Copy { to })
            &&& told(moved.push(failed)) == at_target
            &&& told(copied) == rotation.with_next::<E>(RotateActionView::RemoveActive { copy: to })
            &&& told(copied.push(RotateEventView::Done)) == RotateStepView::<E>::Finished(Ok(()))
            &&& told(copied.push(failed)) == RotateStepView::<E>::Finished(
                Err(RotationErrorView::Io { at: RotationPathView::Active, error }),
            )
        }),
{
    reveal_with_fuel(rotation_told_events, 6);
    let start = seq![RotateEventView::<E>::Exists(true), RotateEventView::Listed(names)];
    let failed = RotateEventView::Failed { os_error, error };
    let moved = start.push(RotateEventView::Failed { os_error: Some(18), error });
    let copied = moved.push(RotateEventView::Done);
    assert(seq![RotateEventView::<E>::Exists(false)].drop_last() =~= Seq::empty());
    assert(start.drop_last().drop_last() =~= Seq::empty());
    assert(start.push(RotateEventView::Done).drop_last() =~= start);
    assert(start.push(failed).drop_last() =~= start);
    assert(moved.drop_last() =~= start);
    assert(moved.push(failed).drop_last() =~= moved);
    assert(copied.drop_last() =~= moved);
    assert(copied.push(RotateEventView::Done).drop_last() =~= copied);
    assert(copied.push(failed).drop_last() =~= copied);
}

/// Where a rotation stands once it was told some outcomes.
pub open spec fn rotation_told_events<E>(
    rotation: RotationView,
    events: Seq<RotateEventView<E>>,
) -> RotateStepView<E>
    decreases events.len(),
{
    if events.len() == 0 {
        RotateStepView::Continue(rotation)
    } else {
        match rotation_told_events(rotation, events.drop_last()) {
            RotateStepView::Continue(r) => r.after(events.last()),
            RotateStepView::Finished(result) => RotateStepView::Finished(result),
        }
    }
}

/// Whether a file is renamed to this name next.
pub open spec fn renames_to<E>(step: RotateStepView<E>, to: Seq<char>) -> bool {
    step is Continue && step->Continue_0.next == (RotateActionView::Rename { to })
}

/// Where the active file of a rotation goes: to its stem, the date, the number and its extension with
/// dots between them. The number is 1 where no listed file is a rotation of that date, or where
/// nothing could be listed, and one more than the greatest of that date otherwise. A missing stem or
/// extension is `log`.
pub proof fn law_a_rotated_file_goes_to_the_next_name<E>(
    active: ActiveFile,
    date: Date,
    rotation: Rotation,
    stem: Seq<char>,
    ext: Seq<char>,
    names: Seq<Seq<char>>,
    i: int,
    seq: u32,
)
    requires
        call_ensures(rotate_file, (active, date), rotation),
        active.stem is Some ==> stem == active.stem->0@,
        active.stem is None ==> stem == "log"@,
        active.extension is Some ==> ext == active.extension->0@,
        active.extension is None ==> ext == "log"@,
    ensures
        rotation@.next == RotateActionView::CheckExists,
        renames_to(told_of::<E>(rotation@, None), dotted(stem, date.text(), "1"@, ext)),
        (forall|j: int, n: u32|
            0 <= j < names.len() ==> !#[trigger] is_rotation(names[j], stem, ext, date, n))
            ==> renames_to(
            told_of::<E>(rotation@, Some(names)),
            dotted(stem, date.text(), "1"@, ext),
        ),
        0 <= i < names.len() && is_rotation(names[i], stem, ext, date, seq) && seq < u32::MAX && (
        forall|j: int, n: u32|
            0 <= j < names.len() && #[trigger] is_rotation(names[j], stem, ext, date, n) ==> n
                <= seq) ==> renames_to(
            told_of::<E>(rotation@, Some(names)),
            dotted(stem, date.text(), decimal((seq + 1) as nat), ext),
        ),
{
    law_the_next_number_follows_those_of_the_day(names, stem, ext, date, i, seq);
    law_rotated_names_are_dotted(active, date, 1);
    if seq < u32::MAX {
        law_rotated_names_are_dotted(active, date, (seq + 1) as u32);
    }
    reveal_strlit("1");
    reveal_with_fuel(decimal, 2);
    assert(decimal(1) =~= "1"@);
    lemma_told_of::<E>(rotation@, None);
    lemma_told_of::<E>(rotation@, Some(names));
}

/// Where a rotation stands once its active file was found and its directory was listed.
pub open spec fn told_of<E>(rotation: RotationView, names: Option<Seq<Seq<char>>>) -> RotateStepView<
    E,
> {
    rotation_told_events(
        rotation,
        seq![RotateEventView::<E>::Exists(true), RotateEventView::Listed(names)],
    )
}

proof fn lemma_told_of<E>(rotation: RotationView, names: Option<Seq<Seq<char>>>)
    requires
        rotation.next == RotateActionView::CheckExists,
    ensures
        match sequence_after(names, rotation.stem, rotation.ext, rotation.date) {
            Some(seq) => renames_to(
                told_of::<E>(rotation, names),
                rotated_name(rotation.stem, rotation.date, seq, rotation.ext),
            ),
            None => told_of::<E>(rotation, names) is Finished,
        },
{
    let there = RotateEventView::<E>::Exists(true);
    let events = seq![there, RotateEventView::Listed(names)];
    reveal_with_fuel(rotation_told_events, 3);
    assert(events.drop_last() =~= seq![there]);
    assert(seq![there].drop_last() =~= Seq::empty());
}

} // verus!
