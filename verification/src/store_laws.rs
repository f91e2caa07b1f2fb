//! What the operations of a store keep, whatever fails and wherever they are broken off.

use vstd::prelude::*;
use vstd::utf8::{encode_utf8, valid_utf8};

use crate::directory::{run, untroubled, Desk, Fate, Handle, Setting};
use crate::history::{
    framed, history_lines, is_complete, law_appended_line_is_read_last,
    law_framed_lines_are_read_back, MessageView, LINE_END,
};
use crate::identity::{record_bytes, record_holds, recorded_id};
use crate::keys::{
    data_name, law_file_names_are_distinct, law_listing_is_complete, lock_name, meta_name,
    meta_temp_name, sanitized, sessions_among,
};
use crate::script::{
    ActionView, EditView, EventView, IdTaskView, MetadataView, NextView, OperationView,
    OutcomeView, StepView, StoreErrorView,
};
use crate::session_store::{
    appending, dated, dating, deleting, editing, known_messages, listing, listing_with_metadata,
    loading, resolving, rewriting, rotating,
};

verus! {

/// Whether an operation returned without an error.
pub open spec fn succeeded<E>(result: Option<Result<OutcomeView, StoreErrorView<E>>>) -> bool {
    result is Some && result->0 is Ok
}

/// Writes messages and reads them back.
pub proof fn law_written_messages_are_read_back(setting: Setting, messages: Seq<MessageView>)
    requires
        setting.keeps_all(messages),
    ensures
        setting.read(setting.written(messages)) == messages,
        is_complete(setting.written(messages)),
{
    let lines = messages.map_values(setting.encode);
    assert forall|i: int| 0 <= i < lines.len() implies crate::history::is_clean_line(
        #[trigger] lines[i],
    ) by {
        assert(setting.keeps(messages[i]));
        assert(lines[i] == (setting.encode)(messages[i]));
    }
    law_framed_lines_are_read_back(lines);
    let decoded = lines.map_values(setting.decode);
    assert(decoded =~= messages.map_values(|m: MessageView| Some(m))) by {
        assert forall|i: int| 0 <= i < lines.len() implies decoded[i] == Some(messages[i]) by {
            assert(setting.keeps(messages[i]));
            assert(lines[i] == (setting.encode)(messages[i]));
        }
    }
    lemma_all_known(messages);
}

proof fn lemma_all_known(messages: Seq<MessageView>)
    ensures
        known_messages(messages.map_values(|m: MessageView| Some(m))) == messages,
    decreases messages.len(),
{
    let decoded = messages.map_values(|m: MessageView| Some(m));
    if messages.len() == 0 {
        assert(known_messages(decoded) =~= messages);
    } else {
        let fewer = messages.drop_last();
        lemma_all_known(fewer);
        assert(decoded.drop_last() =~= fewer.map_values(|m: MessageView| Some(m)));
        assert(messages =~= fewer.push(messages.last()));
    }
}

/// An action that is not the last of a script: once it succeeds the rest is performed, and its
/// failure is returned.
pub(crate) proof fn lemma_act<E>(
    setting: Setting,
    desk: Desk,
    operation: OperationView,
    id: Seq<char>,
    fates: Seq<Fate<E>>,
)
    requires
        operation.script.len() > 1,
        fates.len() > 0,
    ensures
        ({
            let (after, event) = desk.happens(setting, operation.script[0], fates[0]);
            let rest = OperationView { script: operation.script.skip(1), next: operation.next };
            &&& event is Done ==> run(setting, desk, operation, id, fates) == run(
                setting,
                after,
                rest,
                id,
                fates.skip(1),
            )
            &&& event matches EventView::Failed(error) ==> run(setting, desk, operation, id, fates)
                == (after, Some(Err::<OutcomeView, StoreErrorView<E>>(StoreErrorView::Io(error))))
        }),
{
}

/// The messages that an edit sees: those of the session, or none where the history file cannot be
/// read, which is the second action of an edit.
pub open spec fn seen<E>(
    setting: Setting,
    files: Map<Seq<char>, Seq<u8>>,
    key: Seq<char>,
    fates: Seq<Fate<E>>,
) -> Seq<MessageView> {
    if fates.len() > 1 && fates[1] is Fails {
        Seq::empty()
    } else {
        setting.stored(files, key)
    }
}

#[verifier::spinoff_prover]
proof fn lemma_replace<E>(
    setting: Setting,
    desk: Desk,
    key: Seq<char>,
    messages: Seq<MessageView>,
    outcome: OutcomeView,
    id: Seq<char>,
    fates: Seq<Fate<E>>,
)
    ensures
        ({
            let (after, result) = run(
                setting,
                desk,
                rewriting(key, messages, outcome),
                id,
                fates,
            );
            &&& result matches Some(Ok(returned)) ==> {
                &&& returned == outcome
                &&& after.files == desk.files.insert(data_name(key), setting.written(messages))
            }
            &&& !succeeded(result) ==> after.files == desk.files
            &&& result matches Some(Err(error)) ==> error is Io
            &&& untroubled(fates) && fates.len() >= 5 ==> succeeded(result)
            &&& desk.careful ==> after.careful
            &&& desk.guarded && desk.shared_lock ==> after.guarded
        }),
{
    reveal_with_fuel(run, 6);
    let written = setting.written(messages);
    assert(Seq::<u8>::empty() + written =~= written);
}

/// Whether an edit reads the history file: it is there, and the second action of the edit succeeds.
pub open spec fn was_read<E>(
    files: Map<Seq<char>, Seq<u8>>,
    key: Seq<char>,
    fates: Seq<Fate<E>>,
) -> bool {
    files.dom().contains(data_name(key)) && !(fates.len() > 1 && fates[1] is Fails)
}

/// The messages that an edit puts in place of these; `None` where it leaves the history file alone.
/// `read` says whether the file was read.
pub open spec fn rewritten(edit: EditView, messages: Seq<MessageView>, read: bool) -> Option<
    Seq<MessageView>,
> {
    match edit {
        EditView::Load => None,
        EditView::RemoveLast => if messages.len() > 0 {
            Some(messages.drop_last())
        } else {
            None
        },
        EditView::UpdateLast(message) => if messages.len() > 0 {
            Some(messages.drop_last().push(message))
        } else {
            None
        },
        EditView::Compact => Some(messages),
        EditView::Clear => if read {
            Some(Seq::empty())
        } else {
            None
        },
    }
}

/// The messages after an edit of a history that could be read.
pub open spec fn edited(edit: EditView, messages: Seq<MessageView>) -> Seq<MessageView> {
    match rewritten(edit, messages, true) {
        Some(new) => new,
        None => messages,
    }
}

/// What an edit of these messages returns.
pub open spec fn edit_outcome(edit: EditView, messages: Seq<MessageView>) -> OutcomeView {
    match edit {
        EditView::Load => OutcomeView::Messages(messages),
        EditView::RemoveLast | EditView::UpdateLast(_) => OutcomeView::Flag(messages.len() > 0),
        EditView::Compact => OutcomeView::Done,
        EditView::Clear => OutcomeView::Count(messages.len()),
    }
}

/// An edit that succeeds returns its outcome and rewrites the history file; one that fails or is
/// broken off leaves every file as it was. No other file changes either way. The new history file
/// is durable before it takes its name, which happens under the shared lock. Clearing leaves a file
/// that was read empty, whatever it held, and another one as it was.
#[verifier::spinoff_prover]
pub proof fn law_edit_is_atomic<E>(
    setting: Setting,
    files: Map<Seq<char>, Seq<u8>>,
    key: Seq<char>,
    edit: EditView,
    id: Seq<char>,
    fates: Seq<Fate<E>>,
)
    ensures
        ({
            let messages = seen(setting, files, key, fates);
            let read = was_read(files, key, fates);
            let (desk, result) = run(setting, Desk::at(files), editing(key, edit), id, fates);
            &&& result matches Some(Ok(returned)) ==> {
                &&& returned == edit_outcome(edit, messages)
                &&& desk.files == match rewritten(edit, messages, read) {
                    Some(new) => files.insert(data_name(key), setting.written(new)),
                    None => files,
                }
                &&& edit is Clear && read ==> holds(desk.files, data_name(key), Seq::empty())
                &&& edit is Clear && !read ==> desk.files == files
            }
            &&& !succeeded(result) ==> desk.files == files
            &&& result matches Some(Err(error)) ==> error is Io
            &&& untroubled(fates) && fates.len() >= 8 ==> succeeded(result)
            &&& desk.careful
            &&& desk.guarded
        }),
{
    reveal_with_fuel(run, 4);
    let desk = Desk { shared_lock: true, ..Desk::at(files) };
    let messages = seen(setting, files, key, fates);
    match rewritten(edit, messages, was_read(files, key, fates)) {
        Some(new) => {
            let outcome = edit_outcome(edit, messages);
            lemma_replace(setting, desk, key, new, outcome, id, fates.skip(1).skip(1));
            lemma_replace(setting, desk, key, new, outcome, id, fates.skip(1).skip(1).skip(1));
        },
        None => {},
    }
}

/// Loading a history changes no file. It returns the messages of the session, or none where the
/// history file cannot be read, and never an error.
pub proof fn law_load_returns_what_is_stored<E>(
    setting: Setting,
    files: Map<Seq<char>, Seq<u8>>,
    key: Seq<char>,
    id: Seq<char>,
    fates: Seq<Fate<E>>,
)
    ensures
        ({
            let (desk, result) = run(setting, Desk::at(files), loading(key), id, fates);
            &&& desk.files == files
            &&& result matches Some(result) ==> result == Ok::<OutcomeView, StoreErrorView<E>>(
                OutcomeView::Messages(
                    if fates[0] is Fails {
                        Seq::empty()
                    } else {
                        setting.stored(files, key)
                    },
                ),
            )
            &&& fates.len() >= 2 ==> result is Some
        }),
{
    reveal_with_fuel(run, 3);
}

/// The files of a directory once a lock file is locked.
pub open spec fn with_lock(files: Map<Seq<char>, Seq<u8>>, key: Seq<char>) -> Map<
    Seq<char>,
    Seq<u8>,
> {
    files.insert(lock_name(key), Desk::at(files).content(lock_name(key)))
}

/// Appending adds the line of the message to the history file and changes no other file but the
/// lock file, which it may create. One that fails or is broken off leaves the history file alone,
/// or creates it empty, or adds the beginning of the line. All of it happens under the lock of the
/// session.
#[verifier::spinoff_prover]
pub proof fn law_append_adds_a_line<E>(
    setting: Setting,
    files: Map<Seq<char>, Seq<u8>>,
    key: Seq<char>,
    message: MessageView,
    id: Seq<char>,
    fates: Seq<Fate<E>>,
)
    ensures
        ({
            let line = setting.written(seq![message]);
            let before = Desk::at(files).content(data_name(key));
            let (desk, result) = run(setting, Desk::at(files), appending(key, message), id, fates);
            &&& result matches Some(Ok(returned)) ==> {
                &&& returned is Done
                &&& desk.files == with_lock(files, key).insert(data_name(key), before + line)
            }
            &&& !succeeded(result) ==> {
                ||| desk.files == files
                ||| desk.files == with_lock(files, key)
                ||| exists|n: int|
                    0 <= n <= line.len() && desk.files == with_lock(files, key).insert(
                        data_name(key),
                        before + #[trigger] line.take(n),
                    )
            }
            &&& result matches Some(Err(error)) ==> error is Io
            &&& untroubled(fates) && fates.len() >= 6 ==> succeeded(result)
            &&& desk.guarded
            &&& desk.housed
            &&& desk.key_lock is Some ==> desk.key_lock == Some(lock_name(key))
        }),
{
    reveal_with_fuel(run, 7);
    law_file_names_are_distinct(key, key);
    let line = setting.written(seq![message]);
    let before = Desk::at(files).content(data_name(key));
    assert(seq![message].map_values(setting.encode) =~= seq![(setting.encode)(message)]);
    assert(before + line.take(0) =~= before);
    assert(line.take(line.len() as int) =~= line);
    let opened = with_lock(files, key).insert(data_name(key), before);
    assert(forall|bytes: Seq<u8>|
        #[trigger] opened.insert(data_name(key), bytes) =~= with_lock(files, key).insert(
            data_name(key),
            bytes,
        ));
}

/// Whether a file is there or not as before, with the same content.
pub open spec fn unchanged(
    before: Map<Seq<char>, Seq<u8>>,
    after: Map<Seq<char>, Seq<u8>>,
    name: Seq<char>,
) -> bool {
    &&& after.dom().contains(name) == before.dom().contains(name)
    &&& before.dom().contains(name) ==> after[name] == before[name]
}

/// Whether a file has this content.
pub open spec fn holds(files: Map<Seq<char>, Seq<u8>>, name: Seq<char>, content: Seq<u8>) -> bool {
    files.dom().contains(name) && files[name] == content
}

/// Deleting removes the history file and the id record and leaves the lock file. The id record goes
/// first: the history file is never gone while the id record is still there. The law is about
/// deletions that can look for both files, which are their fourth and fifth action.
#[verifier::spinoff_prover]
pub proof fn law_delete_removes_the_record_first<E>(
    setting: Setting,
    files: Map<Seq<char>, Seq<u8>>,
    key: Seq<char>,
    id: Seq<char>,
    fates: Seq<Fate<E>>,
)
    requires
        fates.len() > 3 ==> fates[3] is Succeeds,
        fates.len() > 4 ==> fates[4] is Succeeds,
    ensures
        ({
            let locked = with_lock(files, key);
            let record_gone = locked.remove(meta_name(key));
            let both_gone = record_gone.remove(data_name(key));
            let existed = files.dom().contains(data_name(key)) || files.dom().contains(
                meta_name(key),
            );
            let (desk, result) = run(setting, Desk::at(files), deleting(key), id, fates);
            &&& result matches Some(Ok(returned)) ==> {
                &&& returned == OutcomeView::Flag(existed)
                &&& desk.files == both_gone
            }
            &&& desk.files == files || desk.files == locked || desk.files == record_gone
                || desk.files == both_gone
            &&& files.dom().contains(data_name(key)) && !desk.files.dom().contains(data_name(key))
                ==> !desk.files.dom().contains(meta_name(key))
            &&& result matches Some(Err(error)) ==> error is Io
            &&& untroubled(fates) && fates.len() >= 7 ==> succeeded(result)
            &&& desk.guarded
            &&& desk.housed
            &&& desk.key_lock is Some ==> desk.key_lock == Some(lock_name(key))
        }),
{
    reveal_with_fuel(run, 8);
    law_file_names_are_distinct(key, key);
    let locked = with_lock(files, key);
    if !files.dom().contains(meta_name(key)) {
        assert(locked.remove(meta_name(key)) =~= locked);
    }
    if !files.dom().contains(data_name(key)) {
        assert(locked.remove(data_name(key)) =~= locked);
        assert(locked.remove(meta_name(key)).remove(data_name(key)) =~= locked.remove(
            meta_name(key),
        ));
    }
}

/// The id that is recorded for a session: `None` where the record cannot be read, `Some(None)` where
/// there is no record or it holds no id.
pub open spec fn recorded(files: Map<Seq<char>, Seq<u8>>, key: Seq<char>) -> Option<
    Option<Seq<char>>,
> {
    if files.dom().contains(meta_name(key)) {
        recorded_id(files[meta_name(key)])
    } else {
        Some(None)
    }
}

proof fn lemma_clear<E>(
    setting: Setting,
    desk: Desk,
    key: Seq<char>,
    id: Seq<char>,
    fates: Seq<Fate<E>>,
)
    requires
        desk.key_lock is Some,
        desk.careful,
        desk.guarded,
        desk.ready,
        desk.housed,
    ensures
        ({
            let (after, result) = run(
                setting,
                desk,
                OperationView {
                    script: seq![ActionView::Create { name: data_name(key) }, ActionView::Sync],
                    next: NextView::Return(OutcomeView::Id(id)),
                },
                id,
                fates,
            );
            &&& result matches Some(Ok(returned)) ==> {
                &&& returned == OutcomeView::Id(id)
                &&& after.files == desk.files.insert(data_name(key), Seq::empty())
            }
            &&& succeeded(result) ==> after.durable && after.handle == Handle::Named(
                data_name(key),
            )
            &&& after.files == desk.files || after.files == desk.files.insert(
                data_name(key),
                Seq::empty(),
            )
            &&& result matches Some(Err(error)) ==> error is Io
            &&& untroubled(fates) && fates.len() >= 2 ==> succeeded(result)
            &&& after.careful
            &&& after.guarded
            &&& after.housed
            &&& after.key_lock == desk.key_lock
        }),
{
    reveal_with_fuel(run, 3);
}

/// What holds once an id was recorded, or the attempt was given up, in a directory with these files.
spec fn well_recorded<E>(
    files: Map<Seq<char>, Seq<u8>>,
    task: IdTaskView,
    id: Seq<char>,
    lock: Option<Seq<char>>,
    ran: (Desk, Option<Result<OutcomeView, StoreErrorView<E>>>),
) -> bool {
    let key = task.key;
    let named = files.remove(meta_temp_name(key)).insert(meta_name(key), record_bytes(id));
    let (after, result) = ran;
    &&& result matches Some(Ok(returned)) ==> {
        &&& returned == OutcomeView::Id(id)
        &&& after.files == if task.clear {
            named.insert(data_name(key), Seq::empty())
        } else {
            named
        }
        &&& task.clear ==> after.durable && after.handle == Handle::Named(data_name(key))
    }
    &&& result matches Some(Err(error)) ==> error is Io
    &&& forall|name: Seq<char>|
        name != meta_name(key) && name != meta_temp_name(key) && name != data_name(key)
            ==> #[trigger] unchanged(files, after.files, name)
    &&& unchanged(files, after.files, meta_name(key)) || holds(
        after.files,
        meta_name(key),
        record_bytes(id),
    )
    &&& unchanged(files, after.files, data_name(key)) || {
        &&& task.clear
        &&& holds(after.files, data_name(key), Seq::empty())
        &&& holds(after.files, meta_name(key), record_bytes(id))
    }
    &&& after.careful
    &&& after.guarded
    &&& after.housed
    &&& after.key_lock == lock
}

/// The record is written and durable under its temporary name.
#[verifier::spinoff_prover]
#[verifier::rlimit(40)]
proof fn lemma_rename_record<E>(
    setting: Setting,
    files: Map<Seq<char>, Seq<u8>>,
    desk: Desk,
    task: IdTaskView,
    id: Seq<char>,
    fates: Seq<Fate<E>>,
)
    requires
        desk.key_lock is Some,
        desk.careful,
        desk.guarded,
        desk.ready,
        desk.housed,
        desk.durable,
        desk.handle == Handle::Named(meta_temp_name(task.key)),
        desk.files == files.insert(meta_temp_name(task.key), record_bytes(id)),
    ensures
        ({
            let op = task.with_id(id);
            let rest = OperationView { script: op.script.skip(4), next: op.next };
            let ran = run(setting, desk, rest, id, fates);
            &&& well_recorded(files, task, id, desk.key_lock, ran)
            &&& untroubled(fates) && fates.len() >= 3 ==> succeeded(ran.1)
        }),
{
    law_file_names_are_distinct(task.key, task.key);
    let temp = meta_temp_name(task.key);
    let op = task.with_id(id);
    let rest = OperationView { script: op.script.skip(4), next: op.next };
    let renamed = desk.succeeds::<E>(setting, rest.script[0]).0;
    assert(desk.files.remove(temp) =~= files.remove(temp));
    if fates.len() > 0 && task.clear {
        lemma_act(setting, desk, rest, id, fates);
        if fates[0] is Succeeds {
            assert(rest.script.skip(1) =~= seq![
                ActionView::Create { name: data_name(task.key) },
                ActionView::Sync,
            ]);
            lemma_clear(setting, renamed, task.key, id, fates.skip(1));
        }
    }
}

#[verifier::spinoff_prover]
#[verifier::rlimit(60)]
proof fn lemma_record<E>(
    setting: Setting,
    desk: Desk,
    task: IdTaskView,
    id: Seq<char>,
    fates: Seq<Fate<E>>,
)
    requires
        desk.key_lock is Some,
        desk.careful,
        desk.guarded,
        desk.ready,
        desk.housed,
    ensures
        ({
            let ran = run(setting, desk, task.with_id(id), id, fates);
            &&& well_recorded(desk.files, task, id, desk.key_lock, ran)
            &&& untroubled(fates) && fates.len() >= 7 ==> succeeded(ran.1)
        }),
{
    law_file_names_are_distinct(task.key, task.key);
    let temp = meta_temp_name(task.key);
    let bytes = record_bytes(id);
    assert(Seq::<u8>::empty() + bytes =~= bytes);
    let op = task.with_id(id);
    let next = op.next;
    let op1 = OperationView { script: op.script.skip(1), next };
    let op2 = OperationView { script: op1.script.skip(1), next };
    let op3 = OperationView { script: op2.script.skip(1), next };
    let op4 = OperationView { script: op3.script.skip(1), next };
    let (f1, f2) = (fates.skip(1), fates.skip(1).skip(1));
    let (f3, f4) = (f2.skip(1), f2.skip(1).skip(1));
    assert(Desk { ready: true, ..desk } == desk);
    let created = desk.opened(temp, Seq::empty());
    let wrote = created.wrote(bytes);
    let synced = Desk { durable: true, ..wrote };
    assert(forall|content: Seq<u8>| #[trigger]
        created.files.insert(temp, content) =~= desk.files.insert(temp, content));
    assert(op4.script =~= op.script.skip(4));
    if fates.len() > 0 {
        lemma_act(setting, desk, op, id, fates);
        if fates[0] is Succeeds && f1.len() > 0 {
            lemma_act(setting, desk, op1, id, f1);
            if f1[0] is Succeeds && f2.len() > 0 {
                lemma_act(setting, created, op2, id, f2);
                if f2[0] is Succeeds && f3.len() > 0 {
                    lemma_act(setting, wrote, op3, id, f3);
                    if f3[0] is Succeeds {
                        lemma_rename_record(setting, desk.files, synced, task, id, f4);
                    }
                }
            }
        }
    }
}

/// Resolving returns the recorded id where there is one, without changing a file but the lock file;
/// where there is none, it records and returns the minted id. It returns an error about the record
/// exactly if the record is damaged. At no point is the record anything but the one before or the
/// whole new one, and the history file does not change.
#[verifier::spinoff_prover]
pub proof fn law_resolve_returns_the_recorded_id<E>(
    setting: Setting,
    files: Map<Seq<char>, Seq<u8>>,
    key: Seq<char>,
    id: Seq<char>,
    fates: Seq<Fate<E>>,
)
    ensures
        ({
            let locked = with_lock(files, key);
            let (desk, result) = run(setting, Desk::at(files), resolving(key), id, fates);
            &&& result matches Some(Ok(returned)) ==> match recorded(files, key) {
                Some(Some(old)) => returned == OutcomeView::Id(old) && desk.files == locked,
                Some(None) => {
                    &&& returned == OutcomeView::Id(id)
                    &&& desk.files == locked.remove(meta_temp_name(key)).insert(
                        meta_name(key),
                        record_bytes(id),
                    )
                },
                None => false,
            }
            &&& result matches Some(Err(error)) ==> {
                ||| error is Io
                ||| recorded(files, key) is None && desk.files == locked && error
                    == if valid_utf8(files[meta_name(key)]) {
                    StoreErrorView::<E>::NotJson
                } else {
                    StoreErrorView::<E>::NotText
                }
            }
            &&& untroubled(fates) && fates.len() >= 10 ==> {
                &&& result is Some
                &&& succeeded(result) <==> recorded(files, key) is Some
                &&& result matches Some(Err(error)) ==> error !is Io
            }
            &&& forall|name: Seq<char>|
                name != meta_name(key) && name != meta_temp_name(key) && name != lock_name(key)
                    ==> #[trigger] unchanged(files, desk.files, name)
            &&& unchanged(files, desk.files, meta_name(key)) || {
                &&& recorded(files, key) == Some(None::<Seq<char>>)
                &&& holds(desk.files, meta_name(key), record_bytes(id))
            }
            &&& desk.careful
            &&& desk.guarded
            &&& desk.housed
            &&& desk.key_lock is Some ==> desk.key_lock == Some(lock_name(key))
        }),
{
    reveal_with_fuel(run, 4);
    law_file_names_are_distinct(key, key);
    let locked = with_lock(files, key);
    let desk = Desk {
        files: locked,
        key_lock: Some(lock_name(key)),
        ready: true,
        ..Desk::at(files)
    };
    let task = IdTaskView { key, clear: false };
    let rest = fates.skip(1).skip(1).skip(1);
    lemma_record(setting, desk, task, id, rest);
    let after = run(setting, desk, task.with_id(id), id, rest).0;
    assert forall|name: Seq<char>|
        name != meta_name(key) && name != meta_temp_name(key) && name != lock_name(
            key,
        ) implies #[trigger] unchanged(files, after.files, name) by {
        assert(unchanged(locked, after.files, name) || name == data_name(key));
    }
}

/// Clearing and rotating returns the minted id, records it and empties the history file. The record
/// goes first: at no point is the history emptied while the old id is still recorded, nor is the
/// record anything but the one before or the whole new one. The cleared history is durable when it
/// returns.
#[verifier::spinoff_prover]
pub proof fn law_rotate_records_before_clearing<E>(
    setting: Setting,
    files: Map<Seq<char>, Seq<u8>>,
    key: Seq<char>,
    id: Seq<char>,
    fates: Seq<Fate<E>>,
)
    ensures
        ({
            let locked = with_lock(files, key);
            let (desk, result) = run(setting, Desk::at(files), rotating(key), id, fates);
            &&& result matches Some(Ok(returned)) ==> {
                &&& returned == OutcomeView::Id(id)
                &&& desk.files == locked.remove(meta_temp_name(key)).insert(
                    meta_name(key),
                    record_bytes(id),
                ).insert(data_name(key), Seq::empty())
            }
            &&& succeeded(result) ==> desk.durable && desk.handle == Handle::Named(data_name(key))
            &&& result matches Some(Err(error)) ==> error is Io
            &&& untroubled(fates) && fates.len() >= 10 ==> succeeded(result)
            &&& forall|name: Seq<char>|
                name != meta_name(key) && name != meta_temp_name(key) && name != lock_name(key)
                    && name != data_name(key) ==> #[trigger] unchanged(files, desk.files, name)
            &&& unchanged(files, desk.files, meta_name(key)) || holds(
                desk.files,
                meta_name(key),
                record_bytes(id),
            )
            &&& unchanged(files, desk.files, data_name(key)) || {
                &&& holds(desk.files, data_name(key), Seq::empty())
                &&& holds(desk.files, meta_name(key), record_bytes(id))
            }
            &&& desk.careful
            &&& desk.guarded
            &&& desk.housed
            &&& desk.key_lock is Some ==> desk.key_lock == Some(lock_name(key))
        }),
{
    reveal_with_fuel(run, 4);
    law_file_names_are_distinct(key, key);
    let locked = with_lock(files, key);
    let desk = Desk {
        files: locked,
        key_lock: Some(lock_name(key)),
        ready: true,
        ..Desk::at(files)
    };
    let task = IdTaskView { key, clear: true };
    let rest = fates.skip(1).skip(1).skip(1);
    lemma_record(setting, desk, task, id, rest);
    let after = run(setting, desk, task.with_id(id), id, rest).0;
    assert forall|name: Seq<char>|
        name != meta_name(key) && name != meta_temp_name(key) && name != lock_name(key) && name
            != data_name(key) implies #[trigger] unchanged(files, after.files, name) by {
        assert(unchanged(locked, after.files, name));
    }
}

/// After a successful edit that could read the history, the session has the messages of the edit:
/// removing takes the last one away, updating replaces the last one and keeps all before it,
/// compacting keeps all, and clearing leaves none. Where the history file was rewritten it is there,
/// so that the session stays listed.
pub proof fn law_edit_then_load<E>(
    setting: Setting,
    files: Map<Seq<char>, Seq<u8>>,
    key: Seq<char>,
    edit: EditView,
    id: Seq<char>,
    fates: Seq<Fate<E>>,
)
    requires
        rewritten(
            edit,
            setting.stored(files, key),
            files.dom().contains(data_name(key)),
        ) matches Some(new) ==> setting.keeps_all(new),
        fates.len() > 1 ==> fates[1] is Succeeds,
        succeeded(run(setting, Desk::at(files), editing(key, edit), id, fates).1),
    ensures
        ({
            let before = setting.stored(files, key);
            let (desk, result) = run(setting, Desk::at(files), editing(key, edit), id, fates);
            &&& result->0->Ok_0 == edit_outcome(edit, before)
            &&& setting.stored(desk.files, key) == edited(edit, before)
            &&& rewritten(edit, before, files.dom().contains(data_name(key))) is Some ==> {
                &&& desk.files.dom().contains(data_name(key))
                &&& is_complete(desk.files[data_name(key)])
            }
            &&& forall|name: Seq<char>|
                name != data_name(key) ==> #[trigger] unchanged(files, desk.files, name)
        }),
{
    law_edit_is_atomic(setting, files, key, edit, id, fates);
    let there = files.dom().contains(data_name(key));
    if let Some(new) = rewritten(edit, setting.stored(files, key), there) {
        law_written_messages_are_read_back(setting, new);
    }
}

/// After a message was appended to a history file that is empty, missing or ends with a line end,
/// the session has its messages of before and this one after them. The history file has one line
/// more, and ends with a line end again.
pub proof fn law_append_then_load<E>(
    setting: Setting,
    files: Map<Seq<char>, Seq<u8>>,
    key: Seq<char>,
    message: MessageView,
    id: Seq<char>,
    fates: Seq<Fate<E>>,
)
    requires
        setting.keeps(message),
        is_complete(Desk::at(files).content(data_name(key))),
        succeeded(run(setting, Desk::at(files), appending(key, message), id, fates).1),
    ensures
        ({
            let desk = run(setting, Desk::at(files), appending(key, message), id, fates).0;
            let before = Desk::at(files).content(data_name(key));
            &&& setting.stored(desk.files, key) == setting.stored(files, key).push(message)
            &&& desk.files.dom().contains(data_name(key))
            &&& history_lines(desk.files[data_name(key)]) == history_lines(before).push(
                (setting.encode)(message),
            )
            &&& is_complete(desk.files[data_name(key)])
        }),
{
    law_append_adds_a_line(setting, files, key, message, id, fates);
    let content = Desk::at(files).content(data_name(key));
    let text = (setting.encode)(message);
    law_appended_line_is_read_last(content, text);
    assert(seq![message].map_values(setting.encode) =~= seq![text]);
    reveal_with_fuel(framed, 2);
    assert(seq![text].drop_last() =~= Seq::<Seq<char>>::empty());
    assert(framed(seq![text]) =~= encode_utf8(text).push(LINE_END));
    let lines = history_lines(content);
    let decoded = lines.map_values(setting.decode);
    assert(lines.push(text).map_values(setting.decode) =~= decoded.push(Some(message)));
    assert(decoded.push(Some(message)).drop_last() =~= decoded);
    if !files.dom().contains(data_name(key)) {
        assert(setting.read(content) =~= Seq::<MessageView>::empty());
    }
}

/// Removing the last message undoes an append: the session has the messages of before, and its
/// history file holds just these. It is there, and empty, where there were none.
pub proof fn law_remove_last_undoes_append<E>(
    setting: Setting,
    files: Map<Seq<char>, Seq<u8>>,
    key: Seq<char>,
    message: MessageView,
    id: Seq<char>,
    append_fates: Seq<Fate<E>>,
    remove_fates: Seq<Fate<E>>,
)
    requires
        setting.keeps(message),
        setting.keeps_all(setting.stored(files, key)),
        is_complete(Desk::at(files).content(data_name(key))),
        succeeded(run(setting, Desk::at(files), appending(key, message), id, append_fates).1),
        ({
            let between = run(setting, Desk::at(files), appending(key, message), id, append_fates).0;
            let remove = editing(key, EditView::RemoveLast);
            &&& remove_fates.len() > 1 ==> remove_fates[1] is Succeeds
            &&& succeeded(run(setting, Desk::at(between.files), remove, id, remove_fates).1)
        }),
    ensures
        ({
            let between = run(setting, Desk::at(files), appending(key, message), id, append_fates).0;
            let remove = editing(key, EditView::RemoveLast);
            let (desk, result) = run(setting, Desk::at(between.files), remove, id, remove_fates);
            let before = setting.stored(files, key);
            &&& result->0->Ok_0 == OutcomeView::Flag(true)
            &&& setting.stored(desk.files, key) == before
            &&& holds(desk.files, data_name(key), setting.written(before))
            &&& before.len() == 0 ==> holds(desk.files, data_name(key), Seq::empty())
        }),
{
    law_append_then_load(setting, files, key, message, id, append_fates);
    let between = run(setting, Desk::at(files), appending(key, message), id, append_fates).0;
    law_edit_then_load(setting, between.files, key, EditView::RemoveLast, id, remove_fates);
    law_edit_is_atomic(setting, between.files, key, EditView::RemoveLast, id, remove_fates);
    let before = setting.stored(files, key);
    assert(before.push(message).drop_last() =~= before);
}

proof fn lemma_known_is_decoded(decoded: Seq<Option<MessageView>>)
    ensures
        forall|i: int|
            0 <= i < known_messages(decoded).len() ==> decoded.contains(
                Some(#[trigger] known_messages(decoded)[i]),
            ),
    decreases decoded.len(),
{
    if decoded.len() > 0 {
        let fewer = decoded.drop_last();
        lemma_known_is_decoded(fewer);
        let all = known_messages(decoded);
        let before = known_messages(fewer);
        assert forall|i: int| 0 <= i < all.len() implies decoded.contains(
            Some(#[trigger] all[i]),
        ) by {
            if i < before.len() {
                assert(all[i] == before[i]);
                let j = choose|j: int| 0 <= j < fewer.len() && fewer[j] == Some(before[i]);
                assert(decoded[j] == Some(all[i]));
            } else {
                assert(decoded[decoded.len() - 1] == Some(all[i]));
            }
        }
    }
}

/// Where every message that is read from some line is read back once it is written again, this holds
/// of all messages of every session, whatever its history file holds.
pub proof fn law_stored_messages_are_kept(
    setting: Setting,
    files: Map<Seq<char>, Seq<u8>>,
    key: Seq<char>,
)
    requires
        setting.keeps_what_it_reads(),
    ensures
        setting.keeps_all(setting.stored(files, key)),
{
    if files.dom().contains(data_name(key)) {
        let lines = history_lines(files[data_name(key)]);
        let decoded = lines.map_values(setting.decode);
        let messages = known_messages(decoded);
        lemma_known_is_decoded(decoded);
        assert forall|i: int| 0 <= i < messages.len() implies setting.keeps(
            #[trigger] messages[i],
        ) by {
            let j = choose|j: int| 0 <= j < decoded.len() && decoded[j] == Some(messages[i]);
            assert((setting.decode)(lines[j]) == Some(messages[i]));
        }
    }
}

/// After a history that could be read was compacted, its file holds the lines of its messages and no
/// other line, and is empty where it was missing. The messages are those of before, the id record is
/// left alone, and compacting once more leaves every file as it is.
pub proof fn law_compacting_is_settled<E>(
    setting: Setting,
    files: Map<Seq<char>, Seq<u8>>,
    key: Seq<char>,
    id: Seq<char>,
    fates: Seq<Fate<E>>,
    later_fates: Seq<Fate<E>>,
)
    requires
        setting.keeps_all(setting.stored(files, key)),
        fates.len() > 1 ==> fates[1] is Succeeds,
        later_fates.len() > 1 ==> later_fates[1] is Succeeds,
        succeeded(
            run(setting, Desk::at(files), editing(key, EditView::Compact), id, fates).1,
        ),
    ensures
        ({
            let compact = editing(key, EditView::Compact);
            let before = setting.stored(files, key);
            let first = run(setting, Desk::at(files), compact, id, fates).0;
            let second = run(setting, Desk::at(first.files), compact, id, later_fates).0;
            &&& first.files == files.insert(data_name(key), setting.written(before))
            &&& !files.dom().contains(data_name(key)) ==> holds(
                first.files,
                data_name(key),
                Seq::empty(),
            )
            &&& setting.stored(first.files, key) == before
            &&& unchanged(files, first.files, meta_name(key))
            &&& second.files == first.files
        }),
{
    let compact = editing(key, EditView::Compact);
    let first = run(setting, Desk::at(files), compact, id, fates).0;
    law_file_names_are_distinct(key, key);
    law_edit_is_atomic(setting, files, key, EditView::Compact, id, fates);
    law_edit_then_load(setting, files, key, EditView::Compact, id, fates);
    law_edit_is_atomic(setting, first.files, key, EditView::Compact, id, later_fates);
    let written = setting.written(setting.stored(files, key));
    assert(first.files.insert(data_name(key), written) =~= first.files);
}

/// After a history was cleared and a message was appended, the session has that message alone,
/// whatever the history file held before.
pub proof fn law_clear_then_append<E>(
    setting: Setting,
    files: Map<Seq<char>, Seq<u8>>,
    key: Seq<char>,
    message: MessageView,
    id: Seq<char>,
    clear_fates: Seq<Fate<E>>,
    append_fates: Seq<Fate<E>>,
)
    requires
        setting.keeps(message),
        clear_fates.len() > 1 ==> clear_fates[1] is Succeeds,
        ({
            let clear = editing(key, EditView::Clear);
            let (between, cleared) = run(setting, Desk::at(files), clear, id, clear_fates);
            let append = appending(key, message);
            &&& succeeded(cleared)
            &&& succeeded(run(setting, Desk::at(between.files), append, id, append_fates).1)
        }),
    ensures
        ({
            let clear = editing(key, EditView::Clear);
            let between = run(setting, Desk::at(files), clear, id, clear_fates).0;
            let append = appending(key, message);
            let desk = run(setting, Desk::at(between.files), append, id, append_fates).0;
            &&& setting.stored(between.files, key) == Seq::<MessageView>::empty()
            &&& setting.stored(desk.files, key) == seq![message]
        }),
{
    let clear = editing(key, EditView::Clear);
    let between = run(setting, Desk::at(files), clear, id, clear_fates).0;
    law_edit_then_load(setting, files, key, EditView::Clear, id, clear_fates);
    law_edit_is_atomic(setting, files, key, EditView::Clear, id, clear_fates);
    law_append_then_load(setting, between.files, key, message, id, append_fates);
    assert(Seq::<MessageView>::empty().push(message) =~= seq![message]);
}

/// Once an id was resolved, resolving again returns the same id and changes no file, whatever is
/// minted then.
pub proof fn law_resolved_id_is_stable<E>(
    setting: Setting,
    files: Map<Seq<char>, Seq<u8>>,
    key: Seq<char>,
    id: Seq<char>,
    fates: Seq<Fate<E>>,
    later_id: Seq<char>,
    later_fates: Seq<Fate<E>>,
)
    requires
        id.len() > 0,
        record_holds(id),
        succeeded(run(setting, Desk::at(files), resolving(key), id, fates).1),
        succeeded(
            run(
                setting,
                Desk::at(run(setting, Desk::at(files), resolving(key), id, fates).0.files),
                resolving(key),
                later_id,
                later_fates,
            ).1,
        ),
    ensures
        ({
            let (first, resolved) = run(setting, Desk::at(files), resolving(key), id, fates);
            let (second, again) = run(
                setting,
                Desk::at(first.files),
                resolving(key),
                later_id,
                later_fates,
            );
            &&& again->0->Ok_0 == resolved->0->Ok_0
            &&& second.files == first.files
        }),
{
    law_resolve_returns_the_recorded_id(setting, files, key, id, fates);
    let (first, resolved) = run(setting, Desk::at(files), resolving(key), id, fates);
    law_resolve_returns_the_recorded_id(setting, first.files, key, later_id, later_fates);
    law_file_names_are_distinct(key, key);
    assert(with_lock(first.files, key) =~= first.files);
}

/// After a session was cleared and its id rotated, it has no messages, still has a history file, and
/// resolving returns the rotated id.
pub proof fn law_rotate_then_resolve<E>(
    setting: Setting,
    files: Map<Seq<char>, Seq<u8>>,
    key: Seq<char>,
    id: Seq<char>,
    fates: Seq<Fate<E>>,
    later_id: Seq<char>,
    later_fates: Seq<Fate<E>>,
)
    requires
        id.len() > 0,
        record_holds(id),
        succeeded(run(setting, Desk::at(files), rotating(key), id, fates).1),
        succeeded(
            run(
                setting,
                Desk::at(run(setting, Desk::at(files), rotating(key), id, fates).0.files),
                resolving(key),
                later_id,
                later_fates,
            ).1,
        ),
    ensures
        ({
            let (first, rotated) = run(setting, Desk::at(files), rotating(key), id, fates);
            let (second, resolved) = run(
                setting,
                Desk::at(first.files),
                resolving(key),
                later_id,
                later_fates,
            );
            &&& rotated->0->Ok_0 == OutcomeView::Id(id)
            &&& resolved->0->Ok_0 == OutcomeView::Id(id)
            &&& setting.stored(first.files, key).len() == 0
            &&& first.files.dom().contains(data_name(key))
            &&& second.files == first.files
        }),
{
    law_rotate_records_before_clearing(setting, files, key, id, fates);
    let (first, rotated) = run(setting, Desk::at(files), rotating(key), id, fates);
    law_resolve_returns_the_recorded_id(setting, first.files, key, later_id, later_fates);
    law_file_names_are_distinct(key, key);
    assert(with_lock(first.files, key) =~= first.files);
    assert(setting.read(Seq::empty()) =~= Seq::<MessageView>::empty()) by {
        assert(history_lines(Seq::empty()).map_values(setting.decode) =~= Seq::empty());
    }
}

/// After a session was deleted it has no messages, no history file and no id: resolving mints one.
pub proof fn law_delete_then_resolve<E>(
    setting: Setting,
    files: Map<Seq<char>, Seq<u8>>,
    key: Seq<char>,
    id: Seq<char>,
    fates: Seq<Fate<E>>,
    later_id: Seq<char>,
    later_fates: Seq<Fate<E>>,
)
    requires
        fates.len() > 3 ==> fates[3] is Succeeds,
        fates.len() > 4 ==> fates[4] is Succeeds,
        succeeded(run(setting, Desk::at(files), deleting(key), id, fates).1),
        succeeded(
            run(
                setting,
                Desk::at(run(setting, Desk::at(files), deleting(key), id, fates).0.files),
                resolving(key),
                later_id,
                later_fates,
            ).1,
        ),
    ensures
        ({
            let first = run(setting, Desk::at(files), deleting(key), id, fates).0;
            let (second, resolved) = run(
                setting,
                Desk::at(first.files),
                resolving(key),
                later_id,
                later_fates,
            );
            &&& setting.stored(first.files, key).len() == 0
            &&& !first.files.dom().contains(data_name(key))
            &&& !first.files.dom().contains(meta_name(key))
            &&& first.files.dom().contains(lock_name(key))
            &&& resolved->0->Ok_0 == OutcomeView::Id(later_id)
        }),
{
    law_delete_removes_the_record_first(setting, files, key, id, fates);
    let first = run(setting, Desk::at(files), deleting(key), id, fates).0;
    law_resolve_returns_the_recorded_id(setting, first.files, key, later_id, later_fates);
    law_file_names_are_distinct(key, key);
}

/// An operation on one session.
pub enum SessionOperation {
    Load,
    Append(MessageView),
    Edit(EditView),
    Delete,
    Resolve,
    Rotate,
}

impl SessionOperation {
    /// The operation on this session.
    pub open spec fn on(self, key: Seq<char>) -> OperationView {
        match self {
            SessionOperation::Load => loading(key),
            SessionOperation::Append(message) => appending(key, message),
            SessionOperation::Edit(edit) => editing(key, edit),
            SessionOperation::Delete => deleting(key),
            SessionOperation::Resolve => resolving(key),
            SessionOperation::Rotate => rotating(key),
        }
    }
}

#[verifier::spinoff_prover]
#[verifier::rlimit(40)]
proof fn lemma_delete_frame<E>(
    setting: Setting,
    files: Map<Seq<char>, Seq<u8>>,
    key: Seq<char>,
    id: Seq<char>,
    fates: Seq<Fate<E>>,
)
    ensures
        ({
            let desk = run(setting, Desk::at(files), deleting(key), id, fates).0;
            forall|name: Seq<char>|
                name != data_name(key) && name != meta_name(key) && name != lock_name(key)
                    ==> #[trigger] unchanged(files, desk.files, name)
        }),
{
    reveal_with_fuel(run, 8);
}

/// An operation on a session changes no file of a session whose key is sanitized to another name,
/// whatever fails and wherever it is broken off.
pub proof fn law_other_sessions_are_left_alone<E>(
    setting: Setting,
    files: Map<Seq<char>, Seq<u8>>,
    key: Seq<char>,
    operation: SessionOperation,
    id: Seq<char>,
    fates: Seq<Fate<E>>,
    other: Seq<char>,
)
    requires
        sanitized(other) != sanitized(key),
    ensures
        ({
            let desk = run(setting, Desk::at(files), operation.on(key), id, fates).0;
            &&& unchanged(files, desk.files, data_name(other))
            &&& unchanged(files, desk.files, lock_name(other))
            &&& unchanged(files, desk.files, meta_name(other))
            &&& setting.stored(desk.files, other) == setting.stored(files, other)
            &&& recorded(desk.files, other) == recorded(files, other)
        }),
{
    law_file_names_are_distinct(key, key);
    law_file_names_are_distinct(other, key);
    law_file_names_are_distinct(key, other);
    match operation {
        SessionOperation::Load => law_load_returns_what_is_stored(setting, files, key, id, fates),
        SessionOperation::Append(message) => law_append_adds_a_line(
            setting,
            files,
            key,
            message,
            id,
            fates,
        ),
        SessionOperation::Edit(edit) => law_edit_is_atomic(setting, files, key, edit, id, fates),
        SessionOperation::Delete => lemma_delete_frame(setting, files, key, id, fates),
        SessionOperation::Resolve => law_resolve_returns_the_recorded_id(
            setting,
            files,
            key,
            id,
            fates,
        ),
        SessionOperation::Rotate => law_rotate_records_before_clearing(
            setting,
            files,
            key,
            id,
            fates,
        ),
    }
}

/// Loading, appending, removing, updating, compacting and clearing leave the id record of the
/// session alone, whatever fails and wherever they are broken off: none of them rotates the id.
pub proof fn law_history_operations_keep_the_id<E>(
    setting: Setting,
    files: Map<Seq<char>, Seq<u8>>,
    key: Seq<char>,
    operation: SessionOperation,
    id: Seq<char>,
    fates: Seq<Fate<E>>,
)
    requires
        operation is Load || operation is Append || operation is Edit,
    ensures
        ({
            let desk = run(setting, Desk::at(files), operation.on(key), id, fates).0;
            &&& unchanged(files, desk.files, meta_name(key))
            &&& recorded(desk.files, key) == recorded(files, key)
        }),
{
    law_file_names_are_distinct(key, key);
    match operation {
        SessionOperation::Append(message) => law_append_adds_a_line(
            setting,
            files,
            key,
            message,
            id,
            fates,
        ),
        SessionOperation::Edit(edit) => law_edit_is_atomic(setting, files, key, edit, id, fates),
        _ => law_load_returns_what_is_stored(setting, files, key, id, fates),
    }
}

/// Listing returns the sanitized key of a session exactly if the session has a history file. It
/// changes no file, and lists nothing where the directory cannot be read.
pub proof fn law_listing_shows_sessions_with_a_history<E>(
    setting: Setting,
    files: Map<Seq<char>, Seq<u8>>,
    id: Seq<char>,
    fates: Seq<Fate<E>>,
    key: Seq<char>,
)
    requires
        setting.lists(files),
        fates.len() > 0,
    ensures
        ({
            let (desk, result) = run(setting, Desk::at(files), listing(), id, fates);
            let keys = if fates[0] is Succeeds {
                sessions_among((setting.order)(files.dom()))
            } else {
                Seq::empty()
            };
            &&& desk.files == files
            &&& result == Some(Ok::<OutcomeView, StoreErrorView<E>>(OutcomeView::Keys(keys)))
            &&& fates[0] is Succeeds ==> (keys.contains(sanitized(key)) <==> files.dom().contains(
                data_name(key),
            ))
        }),
{
    let names = (setting.order)(files.dom());
    law_listing_is_complete(names, sanitized(key));
    assert(names.contains(data_name(key)) <==> files.dom().contains(data_name(key)));
}

/// Which action of a listing looks up the time of its `i`-th session, where the first session is
/// looked up by the first action: a lookup that fails is followed by a look at the clock.
pub open spec fn lookup_of<E>(fates: Seq<Fate<E>>, i: nat) -> int
    decreases i,
{
    if i == 0 {
        0
    } else {
        let before = lookup_of(fates, (i - 1) as nat);
        if fates[before] is Succeeds {
            before + 1
        } else {
            before + 2
        }
    }
}

/// Whether a list is about these sessions, in their order: each is dated by its history file where
/// that could be looked up, and by the clock where it could not.
pub open spec fn dated_as_listed<E>(
    setting: Setting,
    keys: Seq<Seq<char>>,
    list: Seq<MetadataView>,
    fates: Seq<Fate<E>>,
) -> bool {
    &&& list.len() == keys.len()
    &&& forall|i: int|
        0 <= i < keys.len() ==> #[trigger] list[i] == dated(
            keys[i],
            if fates[lookup_of(fates, i as nat)] is Succeeds {
                (setting.modified)(data_name(keys[i]))
            } else {
                setting.now
            },
        )
}

/// A listing whose first `done.len()` sessions are dated, with its action number `n` up next.
proof fn lemma_dating<E>(
    setting: Setting,
    desk: Desk,
    all: Seq<Seq<char>>,
    keys: Seq<Seq<char>>,
    done: Seq<MetadataView>,
    id: Seq<char>,
    fates: Seq<Fate<E>>,
    n: int,
)
    requires
        done.len() + keys.len() == all.len(),
        keys == all.skip(done.len() as int),
        n == lookup_of(fates, done.len()),
        0 <= n <= fates.len(),
        dated_as_listed(setting, all.take(done.len() as int), done, fates),
    ensures
        match dating::<E>(keys, done) {
            StepView::Perform(operation) => {
                let (after, result) = run(setting, desk, operation, id, fates.skip(n));
                &&& after.files == desk.files
                &&& result matches Some(result) ==> result matches Ok(OutcomeView::Metadata(list))
                    && dated_as_listed(setting, all, list, fates)
                &&& fates.len() - n >= 2 * keys.len() ==> result is Some
            },
            StepView::Finished(result) => {
                &&& result == Ok::<OutcomeView, StoreErrorView<E>>(OutcomeView::Metadata(done))
                &&& dated_as_listed(setting, all, done, fates)
            },
        },
    decreases keys.len(),
{
    assert(all.take(all.len() as int) =~= all);
    if keys.len() > 0 && n < fates.len() {
        let d = done.len() as int;
        let key = keys[0];
        let rest = keys.skip(1);
        let now = fates.skip(n);
        assert(key == all[d]);
        assert(rest =~= all.skip(d + 1));
        assert(all.take(d + 1) =~= all.take(d).push(key));
        assert(now[0] == fates[n]);
        assert(now.skip(1) =~= fates.skip(n + 1));
        if fates[n] is Succeeds {
            let list = done.push(dated(key, (setting.modified)(data_name(key))));
            assert(lookup_of(fates, list.len()) == n + 1);
            lemma_dating(setting, desk, all, rest, list, id, fates, n + 1);
        } else {
            let clocked = OperationView {
                script: seq![ActionView::Clock],
                next: NextView::Clocked { key, rest, done },
            };
            let list = done.push(dated(key, setting.now));
            assert(lookup_of(fates, list.len()) == n + 2);
            if n + 1 < fates.len() {
                assert(now.skip(1).skip(1) =~= fates.skip(n + 2));
                lemma_dating(setting, desk, all, rest, list, id, fates, n + 2);
            }
            let (after, result) = run(setting, desk, clocked, id, now.skip(1));
            assert(after.files == desk.files);
        }
    }
}

/// Listing with metadata returns the same sessions as listing, in the same order. Exactly those
/// whose history file cannot be looked up are dated by the clock, all others by their history file.
/// It changes no file. The listing itself is the first action.
pub proof fn law_metadata_follows_the_listing<E>(
    setting: Setting,
    files: Map<Seq<char>, Seq<u8>>,
    id: Seq<char>,
    fates: Seq<Fate<E>>,
)
    requires
        fates.len() > 0,
        fates[0] is Succeeds,
    ensures
        ({
            let keys = sessions_among((setting.order)(files.dom()));
            let (desk, result) = run(setting, Desk::at(files), listing_with_metadata(), id, fates);
            &&& desk.files == files
            &&& result matches Some(result) ==> result matches Ok(OutcomeView::Metadata(list))
                && dated_as_listed(setting, keys, list, fates.skip(1))
            &&& fates.len() > 2 * keys.len() ==> result is Some
        }),
{
    let keys = sessions_among((setting.order)(files.dom()));
    let later = fates.skip(1);
    assert(keys.skip(0) =~= keys);
    assert(later.skip(0) =~= later);
    lemma_dating(setting, Desk::at(files), keys, keys, Seq::empty(), id, later, 0);
}

} // verus!
