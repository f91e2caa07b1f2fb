//! What each operation of a store is for, told of the files and messages before and after it.

use vstd::prelude::*;
use vstd::utf8::{decode_utf8, valid_utf8};

use crate::directory::{run, untroubled, Desk, Fate, Setting};
use crate::history::MessageView;
use crate::identity::{json_string_member, law_a_record_holds_what_stands_in_it, record_bytes};
use crate::keys::{data_name, law_file_names_are_distinct, meta_name, sessions_among};
use crate::script::{ActionView, EditView, OperationView, OutcomeView, StoreErrorView, Timestamp};
use crate::session_store::{
    appending, dated, deleting, editing, listing, listing_with_metadata, opening, probing,
    resolving, rotating, timing,
};
use crate::store_laws::{
    holds, law_append_adds_a_line, law_delete_removes_the_record_first, law_edit_is_atomic,
    law_edit_then_load, law_metadata_follows_the_listing,
    law_resolve_returns_the_recorded_id, law_rotate_records_before_clearing,
    lemma_act, lookup_of, succeeded, unchanged,
};

verus! {

/// Asking whether a session exists returns whether its history file is there, and no where that
/// cannot be looked for. It always returns, and changes no file.
pub proof fn law_a_session_exists_by_its_history<E>(
    setting: Setting,
    files: Map<Seq<char>, Seq<u8>>,
    key: Seq<char>,
    id: Seq<char>,
    fates: Seq<Fate<E>>,
)
    requires
        fates.len() > 0,
    ensures
        ({
            let (desk, result) = run(setting, Desk::at(files), probing(key), id, fates);
            &&& desk.files == files
            &&& result == Some(
                Ok::<OutcomeView, StoreErrorView<E>>(
                    OutcomeView::Flag(
                        fates[0] is Succeeds && files.dom().contains(data_name(key)),
                    ),
                ),
            )
        }),
{
}

/// A session exists once a message was appended to it or it was rotated, and does not exist once it
/// was deleted, as long as its files could be looked for.
pub proof fn law_a_session_exists_from_append_to_delete<E>(
    setting: Setting,
    files: Map<Seq<char>, Seq<u8>>,
    key: Seq<char>,
    message: MessageView,
    id: Seq<char>,
    fates: Seq<Fate<E>>,
)
    ensures
        ({
            let asked = |desk: Desk|
                run(setting, Desk::at(desk.files), probing(key), id, seq![Fate::<E>::Succeeds]).1;
            let looked = forall|i: int|
                3 <= i <= 4 && i < fates.len() ==> #[trigger] fates[i] is Succeeds;
            let yes = |there: bool|
                Some(Ok::<OutcomeView, StoreErrorView<E>>(OutcomeView::Flag(there)));
            let append = run(setting, Desk::at(files), appending(key, message), id, fates);
            let rotate = run(setting, Desk::at(files), rotating(key), id, fates);
            let delete = run(setting, Desk::at(files), deleting(key), id, fates);
            &&& succeeded(append.1) ==> asked(append.0) == yes(true)
            &&& succeeded(rotate.1) ==> asked(rotate.0) == yes(true)
            &&& succeeded(delete.1) && looked ==> asked(delete.0) == yes(false)
        }),
{
    let one = seq![Fate::<E>::Succeeds];
    let append = run(setting, Desk::at(files), appending(key, message), id, fates);
    let rotate = run(setting, Desk::at(files), rotating(key), id, fates);
    let delete = run(setting, Desk::at(files), deleting(key), id, fates);
    law_append_adds_a_line(setting, files, key, message, id, fates);
    law_rotate_records_before_clearing(setting, files, key, id, fates);
    if forall|i: int| 3 <= i <= 4 && i < fates.len() ==> #[trigger] fates[i] is Succeeds {
        law_delete_removes_the_record_first(setting, files, key, id, fates);
    }
    law_a_session_exists_by_its_history(setting, append.0.files, key, id, one);
    law_a_session_exists_by_its_history(setting, rotate.0.files, key, id, one);
    law_a_session_exists_by_its_history(setting, delete.0.files, key, id, one);
}

/// The modification time of a session is that of its history file, and there is none where that
/// cannot be looked up. Looking it up always returns, and changes no file.
pub proof fn law_a_session_is_as_old_as_its_history<E>(
    setting: Setting,
    files: Map<Seq<char>, Seq<u8>>,
    key: Seq<char>,
    id: Seq<char>,
    fates: Seq<Fate<E>>,
)
    requires
        fates.len() > 0,
    ensures
        ({
            let (desk, result) = run(setting, Desk::at(files), timing(key), id, fates);
            &&& desk.files == files
            &&& result == Some(
                Ok::<OutcomeView, StoreErrorView<E>>(
                    OutcomeView::Time(
                        if fates[0] is Succeeds {
                            Some((setting.modified)(data_name(key)))
                        } else {
                            None
                        },
                    ),
                ),
            )
        }),
{
}

/// Removing the last message of a session that has messages takes just that one away and says so;
/// where there is none, it says so and changes no file.
pub proof fn law_remove_last_takes_the_last_away<E>(
    setting: Setting,
    files: Map<Seq<char>, Seq<u8>>,
    key: Seq<char>,
    id: Seq<char>,
    fates: Seq<Fate<E>>,
)
    requires
        setting.keeps_all(setting.stored(files, key)),
        fates.len() > 1 ==> fates[1] is Succeeds,
        succeeded(run(setting, Desk::at(files), editing(key, EditView::RemoveLast), id, fates).1),
    ensures
        ({
            let before = setting.stored(files, key);
            let remove = editing(key, EditView::RemoveLast);
            let (desk, result) = run(setting, Desk::at(files), remove, id, fates);
            let after = setting.stored(desk.files, key);
            &&& result->0->Ok_0 == OutcomeView::Flag(before.len() > 0)
            &&& before.len() > 0 ==> exists|last: MessageView| before == #[trigger] after.push(last)
            &&& before.len() == 0 ==> desk.files == files
            &&& forall|name: Seq<char>|
                name != data_name(key) ==> #[trigger] unchanged(files, desk.files, name)
        }),
{
    let before = setting.stored(files, key);
    law_edit_then_load(setting, files, key, EditView::RemoveLast, id, fates);
    law_edit_is_atomic(setting, files, key, EditView::RemoveLast, id, fates);
    let desk = run(setting, Desk::at(files), editing(key, EditView::RemoveLast), id, fates).0;
    let after = setting.stored(desk.files, key);
    if before.len() > 0 {
        assert(before =~= after.push(before.last()));
    }
}

/// Updating the last message of a session that has messages puts the new one in its place, keeps all
/// before it, and says so; where there is none, it says so and changes no file.
pub proof fn law_update_last_replaces_the_last_alone<E>(
    setting: Setting,
    files: Map<Seq<char>, Seq<u8>>,
    key: Seq<char>,
    message: MessageView,
    id: Seq<char>,
    fates: Seq<Fate<E>>,
)
    requires
        setting.keeps_all(setting.stored(files, key)),
        setting.keeps(message),
        fates.len() > 1 ==> fates[1] is Succeeds,
        succeeded(
            run(setting, Desk::at(files), editing(key, EditView::UpdateLast(message)), id, fates).1,
        ),
    ensures
        ({
            let before = setting.stored(files, key);
            let update = editing(key, EditView::UpdateLast(message));
            let (desk, result) = run(setting, Desk::at(files), update, id, fates);
            let after = setting.stored(desk.files, key);
            &&& result->0->Ok_0 == OutcomeView::Flag(before.len() > 0)
            &&& after.len() == before.len()
            &&& forall|i: int| 0 <= i < before.len() - 1 ==> #[trigger] after[i] == before[i]
            &&& before.len() > 0 ==> after.last() == message
            &&& before.len() == 0 ==> desk.files == files
            &&& forall|name: Seq<char>|
                name != data_name(key) ==> #[trigger] unchanged(files, desk.files, name)
        }),
{
    let edit = EditView::UpdateLast(message);
    law_edit_then_load(setting, files, key, edit, id, fates);
    law_edit_is_atomic(setting, files, key, edit, id, fates);
}

/// Compacting a session keeps its messages. Clearing one leaves none and says how many there were;
/// its history file is there and empty then, if it was there.
pub proof fn law_compact_keeps_and_clear_empties<E>(
    setting: Setting,
    files: Map<Seq<char>, Seq<u8>>,
    key: Seq<char>,
    id: Seq<char>,
    fates: Seq<Fate<E>>,
)
    requires
        setting.keeps_all(setting.stored(files, key)),
        fates.len() > 1 ==> fates[1] is Succeeds,
    ensures
        ({
            let before = setting.stored(files, key);
            let there = files.dom().contains(data_name(key));
            let compact = run(setting, Desk::at(files), editing(key, EditView::Compact), id, fates);
            let clear = run(setting, Desk::at(files), editing(key, EditView::Clear), id, fates);
            &&& succeeded(compact.1) ==> {
                &&& compact.1->0->Ok_0 == OutcomeView::Done
                &&& setting.stored(compact.0.files, key) == before
                &&& compact.0.files.dom().contains(data_name(key))
            }
            &&& succeeded(clear.1) ==> {
                &&& clear.1->0->Ok_0 == OutcomeView::Count(before.len())
                &&& setting.stored(clear.0.files, key) == Seq::<MessageView>::empty()
                &&& there ==> holds(clear.0.files, data_name(key), Seq::empty())
                &&& !there ==> clear.0.files == files
            }
        }),
{
    let compact = run(setting, Desk::at(files), editing(key, EditView::Compact), id, fates);
    let clear = run(setting, Desk::at(files), editing(key, EditView::Clear), id, fates);
    law_edit_is_atomic(setting, files, key, EditView::Compact, id, fates);
    law_edit_is_atomic(setting, files, key, EditView::Clear, id, fates);
    if succeeded(compact.1) {
        law_edit_then_load(setting, files, key, EditView::Compact, id, fates);
    }
    if succeeded(clear.1) {
        law_edit_then_load(setting, files, key, EditView::Clear, id, fates);
    }
}

/// A history that cannot be read counts as one without messages: removing and updating find none and
/// change no file, clearing counts none and changes no file, and compacting leaves an empty file.
pub proof fn law_an_unreadable_history_has_no_messages<E>(
    setting: Setting,
    files: Map<Seq<char>, Seq<u8>>,
    key: Seq<char>,
    message: MessageView,
    id: Seq<char>,
    fates: Seq<Fate<E>>,
)
    requires
        fates.len() > 1,
        fates[1] is Fails,
    ensures
        ({
            let ran = |edit: EditView| run(setting, Desk::at(files), editing(key, edit), id, fates);
            let (remove, update) = (ran(EditView::RemoveLast), ran(EditView::UpdateLast(message)));
            let (clear, compact) = (ran(EditView::Clear), ran(EditView::Compact));
            &&& remove.0.files == files
            &&& succeeded(remove.1) ==> remove.1->0->Ok_0 == OutcomeView::Flag(false)
            &&& update.0.files == files
            &&& succeeded(update.1) ==> update.1->0->Ok_0 == OutcomeView::Flag(false)
            &&& clear.0.files == files
            &&& succeeded(clear.1) ==> clear.1->0->Ok_0 == OutcomeView::Count(0)
            &&& succeeded(compact.1) ==> compact.0.files == files.insert(
                data_name(key),
                Seq::empty(),
            )
        }),
{
    law_edit_is_atomic(setting, files, key, EditView::RemoveLast, id, fates);
    law_edit_is_atomic(setting, files, key, EditView::UpdateLast(message), id, fates);
    law_edit_is_atomic(setting, files, key, EditView::Clear, id, fates);
    law_edit_is_atomic(setting, files, key, EditView::Compact, id, fates);
    let none = Seq::<MessageView>::empty();
    assert(none.map_values(setting.encode) =~= Seq::<Seq<char>>::empty());
}

/// What is known of a session from a point in time: its key, and that time as its creation and its
/// last activity. Nothing else is known, and no message is counted.
pub proof fn law_a_dated_session_has_its_key_and_time(key: Seq<char>, time: Timestamp)
    ensures
        ({
            let known = dated(key, time);
            &&& known.key == key
            &&& known.created_at == time
            &&& known.last_activity == time
            &&& known.message_count == 0
            &&& known.name is None && known.agent_alias is None && known.channel_id is None
            &&& known.room_id is None && known.sender_id is None && known.conversation_id is None
        }),
{
}

/// Listing with metadata tells of each session of the listing, in its order, with the time of its
/// history file where that could be looked up, and the current time where it could not. The listing
/// is the first action.
pub proof fn law_metadata_tells_of_each_session<E>(
    setting: Setting,
    files: Map<Seq<char>, Seq<u8>>,
    id: Seq<char>,
    fates: Seq<Fate<E>>,
    i: int,
)
    requires
        fates.len() > 0,
        fates[0] is Succeeds,
        succeeded(run(setting, Desk::at(files), listing_with_metadata(), id, fates).1),
        0 <= i < sessions_among((setting.order)(files.dom())).len(),
    ensures
        ({
            let keys = sessions_among((setting.order)(files.dom()));
            let result = run(setting, Desk::at(files), listing_with_metadata(), id, fates).1;
            let list = result->0->Ok_0->Metadata_0;
            let later = fates.skip(1);
            let time = if later[lookup_of(later, i as nat)] is Succeeds {
                (setting.modified)(data_name(keys[i]))
            } else {
                setting.now
            };
            &&& result->0->Ok_0 is Metadata
            &&& list.len() == keys.len()
            &&& list[i].key == keys[i]
            &&& list[i].created_at == time
            &&& list[i].last_activity == time
            &&& list[i].message_count == 0
            &&& list[i].name is None
            &&& list[i].conversation_id is None
        }),
{
    law_metadata_follows_the_listing(setting, files, id, fates);
    let keys = sessions_among((setting.order)(files.dom()));
    let result = run(setting, Desk::at(files), listing_with_metadata(), id, fates).1;
    let list = result->0->Ok_0->Metadata_0;
    assert(list[i].key == keys[i]);
}

/// Opening a store creates the directory first and joins the lock of that directory then; once it is
/// opened, both are done. It changes no file, returns the error of what failed, and waits for no
/// operation on the directory.
pub proof fn law_opening_joins_the_lock_of_the_directory<E>(
    setting: Setting,
    files: Map<Seq<char>, Seq<u8>>,
    id: Seq<char>,
    fates: Seq<Fate<E>>,
)
    ensures
        ({
            let (desk, result) = run(setting, Desk::at(files), opening(), id, fates);
            &&& desk.files == files
            &&& desk.housed && !desk.shared_lock && desk.key_lock is None
            &&& result is None ==> fates.len() < 2
            &&& succeeded(result) ==> desk.ready && desk.joined && result->0->Ok_0
                == OutcomeView::Done
            &&& succeeded(result) ==> fates[0] is Succeeds && fates[1] is Succeeds
            &&& result matches Some(Err(error)) ==> error is Io
            &&& untroubled(fates) && fates.len() >= 2 ==> succeeded(result)
        }),
{
    let script = opening().script;
    assert(script.skip(1) =~= seq![ActionView::ShareLock]);
    if fates.len() > 0 {
        lemma_act(setting, Desk::at(files), opening(), id, fates);
        if fates[0] is Succeeds && fates.len() > 1 {
            let rest = OperationView { script: script.skip(1), next: opening().next };
            let desk = Desk { ready: true, ..Desk::at(files) };
            assert(rest.script.skip(1).len() == 0);
            reveal_with_fuel(run, 2);
        }
    }
}

/// Where the directory cannot be listed, there are no sessions to tell of, and that is no error.
pub proof fn law_an_unlisted_directory_has_no_sessions<E>(
    setting: Setting,
    files: Map<Seq<char>, Seq<u8>>,
    id: Seq<char>,
    fates: Seq<Fate<E>>,
)
    requires
        fates.len() > 0,
        fates[0] is Fails,
    ensures
        ({
            let plain = run(setting, Desk::at(files), listing(), id, fates);
            let told = run(setting, Desk::at(files), listing_with_metadata(), id, fates);
            &&& plain.0.files == files
            &&& told.0.files == files
            &&& plain.1 == Some(
                Ok::<OutcomeView, StoreErrorView<E>>(OutcomeView::Keys(Seq::empty())),
            )
            &&& told.1 == Some(
                Ok::<OutcomeView, StoreErrorView<E>>(OutcomeView::Metadata(Seq::empty())),
            )
        }),
{
}

/// What a resolution without failures returns, by what stands in the record: the id where there is
/// one, the minted id, which is recorded then, where there is no record or none in it, and an error
/// where the record is no text or no JSON, in which case the record stays as it is.
pub proof fn law_the_record_decides_the_id<E>(
    setting: Setting,
    files: Map<Seq<char>, Seq<u8>>,
    key: Seq<char>,
    id: Seq<char>,
    fates: Seq<Fate<E>>,
)
    requires
        untroubled(fates),
        fates.len() >= 10,
    ensures
        ({
            let name = meta_name(key);
            let record = files[name];
            let found = json_string_member(decode_utf8(record), "conversation_id"@);
            let (desk, result) = run(setting, Desk::at(files), resolving(key), id, fates);
            let minted = {
                &&& result == Some(Ok::<OutcomeView, StoreErrorView<E>>(OutcomeView::Id(id)))
                &&& holds(desk.files, name, record_bytes(id))
            };
            let refused = |error: StoreErrorView<E>|
                {
                    &&& result == Some(Err::<OutcomeView, StoreErrorView<E>>(error))
                    &&& unchanged(files, desk.files, name)
                };
            if !files.dom().contains(name) {
                minted
            } else if !valid_utf8(record) {
                refused(StoreErrorView::NotText)
            } else if found is None {
                refused(StoreErrorView::NotJson)
            } else if found == Some(None::<Seq<char>>) || found == Some(Some(""@)) {
                minted
            } else {
                &&& result == Some(
                    Ok::<OutcomeView, StoreErrorView<E>>(OutcomeView::Id(found->0->0)),
                )
                &&& unchanged(files, desk.files, name)
            }
        }),
{
    law_resolve_returns_the_recorded_id(setting, files, key, id, fates);
    law_file_names_are_distinct(key, key);
    if files.dom().contains(meta_name(key)) {
        law_a_record_holds_what_stands_in_it(files[meta_name(key)]);
    }
}

} // verus!
