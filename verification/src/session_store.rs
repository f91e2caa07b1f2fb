//! The session store: what is done to the files of a sessions directory, and in which order.
//!
//! The store does not touch the file system itself. Each of its methods starts an `Operation`,
//! which names the next file action to perform; `Operation::advance` takes the outcome of that
//! action. File names are names within the sessions directory.

use vstd::prelude::*;
use vstd::utf8::valid_utf8;

use crate::history::{
    frame_lines, framed, history_lines, messages_view, read_lines, ChatMessage, MessageView,
};
use crate::identity::{
    draw_id, drawn, is_uuid_v4, read_record, record_bytes, record_holds, recorded_id, write_record,
};
use crate::keys::{
    data_file, data_name, lock_file, lock_name, meta_file, meta_name, meta_temp_file,
    meta_temp_name, session_keys, sessions_among,
};
use crate::script::{
    metadata_view, optional_message, script_view, Action, ActionView, Edit, EditView, Event,
    EventView, IdTask, IdTaskView, MetadataView, Next, NextView, Operation, OperationView, Outcome,
    OutcomeView, Reaction, ReactionView, SessionMetadata, Step, StepView, StoreError,
    StoreErrorView, Timestamp,
};
use crate::text::texts;

verus! {

/// The name of the sessions directory within a workspace.
pub const SESSIONS_DIR: &'static str = "sessions";

/// The messages that lines stand for, in their order, without the lines that stand for none.
pub open spec fn known_messages(decoded: Seq<Option<MessageView>>) -> Seq<MessageView>
    decreases decoded.len(),
{
    if decoded.len() == 0 {
        Seq::empty()
    } else {
        match decoded.last() {
            Some(message) => known_messages(decoded.drop_last()).push(message),
            None => known_messages(decoded.drop_last()),
        }
    }
}

/// What is known of a session from a point in time: it is both its creation and its last activity.
pub open spec fn dated(key: Seq<char>, time: Timestamp) -> MetadataView {
    MetadataView {
        key,
        name: None,
        created_at: time,
        last_activity: time,
        message_count: 0,
        agent_alias: None,
        channel_id: None,
        room_id: None,
        sender_id: None,
        conversation_id: None,
    }
}

/// The step that performs a script.
pub open spec fn performing<E>(script: Seq<ActionView>, next: NextView) -> StepView<E> {
    StepView::Perform(OperationView { script, next })
}

/// The operation that puts messages in place of a history: they are written to a temporary file,
/// which is made durable and then takes the name of the history file.
pub open spec fn rewriting(
    key: Seq<char>,
    messages: Seq<MessageView>,
    outcome: OutcomeView,
) -> OperationView {
    OperationView {
        script: seq![ActionView::CreateTemp, ActionView::Encode { messages }],
        next: NextView::ReplaceHistory { key, outcome },
    }
}

/// The step that dates the remaining sessions.
pub open spec fn dating<E>(keys: Seq<Seq<char>>, done: Seq<MetadataView>) -> StepView<E> {
    if keys.len() == 0 {
        StepView::Finished(Ok(OutcomeView::Metadata(done)))
    } else {
        performing(
            seq![ActionView::Modified { name: data_name(keys[0]) }],
            NextView::Dated { key: keys[0], rest: keys.skip(1), done },
        )
    }
}

impl EditView {
    /// The step that edits a history file that was read, with these messages.
    pub open spec fn applied<E>(self, key: Seq<char>, messages: Seq<MessageView>) -> StepView<E> {
        match self {
            EditView::Load => StepView::Finished(Ok(OutcomeView::Messages(messages))),
            EditView::RemoveLast => if messages.len() == 0 {
                StepView::Finished(Ok(OutcomeView::Flag(false)))
            } else {
                StepView::Perform(
                    rewriting(key, messages.drop_last(), OutcomeView::Flag(true)),
                )
            },
            EditView::UpdateLast(message) => if messages.len() == 0 {
                StepView::Finished(Ok(OutcomeView::Flag(false)))
            } else {
                StepView::Perform(
                    rewriting(key, messages.drop_last().push(message), OutcomeView::Flag(true)),
                )
            },
            EditView::Compact => StepView::Perform(
                rewriting(key, messages, OutcomeView::Done),
            ),
            EditView::Clear => StepView::Perform(
                rewriting(key, Seq::empty(), OutcomeView::Count(messages.len())),
            ),
        }
    }

    /// The step that edits a history file that is missing or cannot be read. There are no messages
    /// then, and clearing leaves the file alone.
    pub open spec fn unread<E>(self, key: Seq<char>) -> StepView<E> {
        match self {
            EditView::Clear => StepView::Finished(Ok(OutcomeView::Count(0))),
            _ => self.applied(key, Seq::empty()),
        }
    }
}

/// The actions that remove the files of a session which exist, the id record first.
pub open spec fn removals(key: Seq<char>, data: bool, meta: bool) -> Seq<ActionView> {
    (if meta {
        seq![ActionView::Remove { name: meta_name(key) }]
    } else {
        Seq::empty()
    }) + (if data {
        seq![ActionView::Remove { name: data_name(key) }]
    } else {
        Seq::empty()
    })
}

impl IdTaskView {
    /// The operation that records an id: the record is written to a temporary file, made durable
    /// and renamed. Where the history is cleared, that comes after.
    pub open spec fn with_id(self, id: Seq<char>) -> OperationView {
        OperationView {
            script: seq![
                ActionView::CreateDir,
                ActionView::Create { name: meta_temp_name(self.key) },
                ActionView::Write { bytes: record_bytes(id) },
                ActionView::Sync,
                ActionView::Rename { from: meta_temp_name(self.key), to: meta_name(self.key) },
            ] + (if self.clear {
                seq![ActionView::Create { name: data_name(self.key) }, ActionView::Sync]
            } else {
                Seq::empty()
            }),
            next: NextView::Return(OutcomeView::Id(id)),
        }
    }
}

/// The reaction to an outcome for which there is no use: a failure is returned, anything else is
/// out of turn.
pub open spec fn unexpected<E>(event: EventView<E>) -> ReactionView<E> {
    ReactionView::Step(
        StepView::Finished(
            match event {
                EventView::Failed(error) => Err(StoreErrorView::Io(error)),
                _ => Err(StoreErrorView::OutOfTurn),
            },
        ),
    )
}

impl NextView {
    /// What follows the outcome of the last action of a script.
    pub open spec fn after<E>(self, event: EventView<E>) -> ReactionView<E> {
        match self {
            NextView::Return(outcome) => match event {
                EventView::Done => ReactionView::Step(StepView::Finished(Ok(outcome))),
                _ => unexpected(event),
            },
            NextView::ReturnPresence => match event {
                EventView::Present(yes) => ReactionView::Step(
                    StepView::Finished(Ok(OutcomeView::Flag(yes))),
                ),
                _ => unexpected(event),
            },
            NextView::ReturnTime => match event {
                EventView::Time(time) => ReactionView::Step(
                    StepView::Finished(Ok(OutcomeView::Time(Some(time)))),
                ),
                EventView::Failed(_) => ReactionView::Step(
                    StepView::Finished(Ok(OutcomeView::Time(None))),
                ),
                _ => unexpected(event),
            },
            NextView::ReturnKeys => match event {
                EventView::Names(names) => ReactionView::Step(
                    StepView::Finished(Ok(OutcomeView::Keys(sessions_among(names)))),
                ),
                EventView::Failed(_) => ReactionView::Step(
                    StepView::Finished(Ok(OutcomeView::Keys(Seq::empty()))),
                ),
                _ => unexpected(event),
            },
            NextView::DateKeys => match event {
                EventView::Names(names) => ReactionView::Step(
                    dating(sessions_among(names), Seq::empty()),
                ),
                EventView::Failed(_) => ReactionView::Step(dating(Seq::empty(), Seq::empty())),
                _ => unexpected(event),
            },
            NextView::Dated { key, rest, done } => match event {
                EventView::Time(time) => ReactionView::Step(
                    dating(rest, done.push(dated(key, time))),
                ),
                EventView::Failed(_) => ReactionView::Step(
                    performing(seq![ActionView::Clock], NextView::Clocked { key, rest, done }),
                ),
                _ => unexpected(event),
            },
            NextView::Clocked { key, rest, done } => match event {
                EventView::Time(time) => ReactionView::Step(
                    dating(rest, done.push(dated(key, time))),
                ),
                _ => unexpected(event),
            },
            NextView::WriteEncoded => match event {
                EventView::Encoded(lines) => ReactionView::Step(
                    performing(
                        seq![ActionView::Write { bytes: framed(lines) }],
                        NextView::Return(OutcomeView::Done),
                    ),
                ),
                _ => unexpected(event),
            },
            NextView::ProbeRecord { key } => match event {
                EventView::Present(data) => ReactionView::Step(
                    performing(
                        seq![ActionView::Exists { name: meta_name(key) }],
                        NextView::RemoveFiles { key, data },
                    ),
                ),
                _ => unexpected(event),
            },
            NextView::RemoveFiles { key, data } => match event {
                EventView::Present(meta) => ReactionView::Step(
                    if data || meta {
                        performing(
                            removals(key, data, meta),
                            NextView::Return(OutcomeView::Flag(true)),
                        )
                    } else {
                        StepView::Finished(Ok(OutcomeView::Flag(false)))
                    },
                ),
                _ => unexpected(event),
            },
            NextView::DecodeHistory { key, edit } => match event {
                EventView::Content(content) => ReactionView::Step(
                    performing(
                        seq![ActionView::Decode { lines: history_lines(content) }],
                        NextView::EditHistory { key, edit },
                    ),
                ),
                EventView::Missing | EventView::Failed(_) => ReactionView::Step(edit.unread(key)),
                _ => unexpected(event),
            },
            NextView::EditHistory { key, edit } => match event {
                EventView::Decoded(messages) => ReactionView::Step(
                    edit.applied(key, known_messages(messages)),
                ),
                _ => unexpected(event),
            },
            NextView::ReplaceHistory { key, outcome } => match event {
                EventView::Encoded(lines) => ReactionView::Step(
                    performing(
                        seq![
                            ActionView::Write { bytes: framed(lines) },
                            ActionView::Sync,
                            ActionView::Persist { name: data_name(key) },
                        ],
                        NextView::Return(outcome),
                    ),
                ),
                _ => unexpected(event),
            },
            NextView::ResolveId { key } => match event {
                EventView::Content(content) => match recorded_id(content) {
                    Some(Some(id)) => ReactionView::Step(
                        StepView::Finished(Ok(OutcomeView::Id(id))),
                    ),
                    Some(None) => ReactionView::Mint(IdTaskView { key, clear: false }),
                    None => ReactionView::Step(
                        StepView::Finished(
                            Err(
                                if valid_utf8(content) {
                                    StoreErrorView::NotJson
                                } else {
                                    StoreErrorView::NotText
                                },
                            ),
                        ),
                    ),
                },
                EventView::Missing => ReactionView::Mint(IdTaskView { key, clear: false }),
                _ => unexpected(event),
            },
            NextView::RotateId { key } => match event {
                EventView::Done => ReactionView::Mint(IdTaskView { key, clear: true }),
                _ => unexpected(event),
            },
        }
    }
}

impl OperationView {
    /// What follows the outcome of the action that is to be performed now. An action that is not
    /// the last of the script must succeed for the next one to be performed.
    pub open spec fn after<E>(self, event: EventView<E>) -> ReactionView<E> {
        if self.script.len() > 1 {
            match event {
                EventView::Done => ReactionView::Step(performing(self.script.skip(1), self.next)),
                _ => unexpected(event),
            }
        } else {
            self.next.after(event)
        }
    }
}

/// Whether a step records an id that was drawn for it.
pub open spec fn mints<E>(task: IdTaskView, step: StepView<E>) -> bool {
    exists|id: Seq<char>| #[trigger]
        drawn(id) && is_uuid_v4(id) && record_holds(id) && step == StepView::<E>::Perform(task.with_id(id))
}

impl SessionMetadata {
    /// What is known of a session from a point in time.
    pub fn dated(key: String, time: Timestamp) -> (metadata: SessionMetadata)
        ensures
            metadata@ == dated(key@, time),
    {
        SessionMetadata {
            key,
            name: None,
            created_at: time,
            last_activity: time,
            message_count: 0,
            agent_alias: None,
            channel_id: None,
            room_id: None,
            sender_id: None,
            conversation_id: None,
        }
    }
}

/// The messages that lines stand for, without the lines that stand for none.
fn keep_known(decoded: Vec<Option<ChatMessage>>) -> (messages: Vec<ChatMessage>)
    ensures
        messages_view(messages@) == known_messages(
            decoded@.map_values(|m: Option<ChatMessage>| optional_message(m)),
        ),
{
    let ghost views = decoded@.map_values(|m: Option<ChatMessage>| optional_message(m));
    let mut messages: Vec<ChatMessage> = Vec::new();
    for message in it: decoded
        invariant
            it.seq() == decoded@,
            views == decoded@.map_values(|m: Option<ChatMessage>| optional_message(m)),
            messages_view(messages@) == known_messages(views.take(it.index())),
    {
        proof {
            assert(views.take(it.index() + 1).drop_last() =~= views.take(it.index()));
        }
        if let Some(message) = message {
            let ghost before = messages@;
            messages.push(message);
            assert(messages_view(messages@) =~= messages_view(before).push(message@));
        }
    }
    assert(views.take(views.len() as int) =~= views);
    messages
}

/// The operation that performs a script.
fn operation(actions: Vec<Action>, next: Next) -> (operation: Operation)
    requires
        actions@.len() > 0,
    ensures
        operation@ == (OperationView { script: script_view(actions@), next: next@ }),
{
    let ghost script = script_view(actions@);
    let mut rest: Vec<Action> = actions;
    let action: Action = rest.remove(0);
    let operation = Operation { action, rest, next };
    assert(operation@.script =~= script);
    operation
}

/// The step that performs a script.
fn perform<E>(actions: Vec<Action>, next: Next) -> (step: Step<E>)
    requires
        actions@.len() > 0,
    ensures
        step@ == performing::<E>(script_view(actions@), next@),
{
    Step::Perform(operation(actions, next))
}

/// Puts messages in place of a history, and returns `outcome` then.
pub fn rewrite(key: String, messages: Vec<ChatMessage>, outcome: Outcome) -> (operation: Operation)
    ensures
        operation@ == rewriting(key@, messages_view(messages@), outcome@),
{
    let actions: Vec<Action> = vec![Action::CreateTemp, Action::Encode { messages }];
    assert(script_view(actions@) =~= seq![
        ActionView::CreateTemp,
        ActionView::Encode { messages: messages_view(messages@) },
    ]);
    self::operation(actions, Next::ReplaceHistory { key, outcome })
}

/// The step that dates the remaining sessions.
fn date_keys<E>(keys: Vec<String>, done: Vec<SessionMetadata>) -> (step: Step<E>)
    ensures
        step@ == dating::<E>(texts(keys@), metadata_view(done@)),
{
    if keys.len() == 0 {
        return Step::Finished(Ok(Outcome::Metadata(done)));
    }
    let ghost all = texts(keys@);
    let mut rest: Vec<String> = keys;
    let key: String = rest.remove(0);
    assert(texts(rest@) =~= all.skip(1));
    let actions: Vec<Action> = vec![Action::Modified { name: data_file(key.as_str()) }];
    assert(script_view(actions@) =~= seq![ActionView::Modified { name: data_name(key@) }]);
    perform(actions, Next::Dated { key, rest, done })
}

/// The step that follows when a session is dated.
fn date_one<E>(
    key: String,
    time: Timestamp,
    rest: Vec<String>,
    done: Vec<SessionMetadata>,
) -> (step: Step<E>)
    ensures
        step@ == dating::<E>(texts(rest@), metadata_view(done@).push(dated(key@, time))),
{
    let ghost before = metadata_view(done@);
    let ghost last = dated(key@, time);
    let mut done: Vec<SessionMetadata> = done;
    done.push(SessionMetadata::dated(key, time));
    assert(metadata_view(done@) =~= before.push(last));
    date_keys(rest, done)
}

impl Edit {
    /// Edits a history file that was read, with these messages.
    pub fn apply<E>(self, key: String, messages: Vec<ChatMessage>) -> (step: Step<E>)
        ensures
            step@ == self@.applied::<E>(key@, messages_view(messages@)),
    {
        let ghost before = messages_view(messages@);
        let mut messages: Vec<ChatMessage> = messages;
        match self {
            Edit::Load => Step::Finished(Ok(Outcome::Messages(messages))),
            Edit::RemoveLast => match messages.pop() {
                None => Step::Finished(Ok(Outcome::Flag(false))),
                Some(_) => {
                    assert(messages_view(messages@) =~= before.drop_last());
                    Step::Perform(rewrite(key, messages, Outcome::Flag(true)))
                },
            },
            Edit::UpdateLast(message) => match messages.pop() {
                None => Step::Finished(Ok(Outcome::Flag(false))),
                Some(_) => {
                    messages.push(message);
                    assert(messages_view(messages@) =~= before.drop_last().push(message@));
                    Step::Perform(rewrite(key, messages, Outcome::Flag(true)))
                },
            },
            Edit::Compact => Step::Perform(rewrite(key, messages, Outcome::Done)),
            Edit::Clear => {
                let count: usize = messages.len();
                let none: Vec<ChatMessage> = Vec::new();
                assert(messages_view(none@) =~= Seq::<MessageView>::empty());
                Step::Perform(rewrite(key, none, Outcome::Count(count)))
            },
        }
    }

    /// Edits a history file that is missing or cannot be read.
    pub fn apply_unread<E>(self, key: String) -> (step: Step<E>)
        ensures
            step@ == self@.unread::<E>(key@),
    {
        match self {
            Edit::Clear => Step::Finished(Ok(Outcome::Count(0))),
            _ => {
                let none: Vec<ChatMessage> = Vec::new();
                assert(messages_view(none@) =~= Seq::<MessageView>::empty());
                self.apply(key, none)
            },
        }
    }
}

impl IdTask {
    /// Records an id: the record is written to a temporary file, made durable and renamed. Where
    /// the history is cleared, that comes after.
    pub fn with_id(self, id: String) -> (operation: Operation)
        ensures
            operation@ == self@.with_id(id@),
            record_holds(id@),
    {
        let key: &str = self.key.as_str();
        let mut actions: Vec<Action> = vec![
            Action::CreateDir,
            Action::Create { name: meta_temp_file(key) },
            Action::Write { bytes: write_record(id.as_str()) },
            Action::Sync,
            Action::Rename { from: meta_temp_file(key), to: meta_file(key) },
        ];
        if self.clear {
            actions.push(Action::Create { name: data_file(key) });
            actions.push(Action::Sync);
        }
        assert(script_view(actions@) =~= self@.with_id(id@).script);
        self::operation(actions, Next::Return(Outcome::Id(id)))
    }
}

/// The reaction to an outcome for which there is no use.
fn refuse<E>(event: Event<E>) -> (reaction: Reaction<E>)
    ensures
        reaction@ == unexpected(event@),
{
    match event {
        Event::Failed(error) => Reaction::Step(Step::Finished(Err(StoreError::Io(error)))),
        _ => Reaction::Step(Step::Finished(Err(StoreError::OutOfTurn))),
    }
}

impl Next {
    /// Reacts to the outcome of the last action of a script.
    pub fn react<E>(self, event: Event<E>) -> (reaction: Reaction<E>)
        ensures
            reaction@ == self@.after(event@),
    {
        match self {
            Next::Return(outcome) => match event {
                Event::Done => Reaction::Step(Step::Finished(Ok(outcome))),
                _ => refuse(event),
            },
            Next::ReturnPresence => match event {
                Event::Present(yes) => Reaction::Step(Step::Finished(Ok(Outcome::Flag(yes)))),
                _ => refuse(event),
            },
            Next::ReturnTime => match event {
                Event::Time(time) => Reaction::Step(Step::Finished(Ok(Outcome::Time(Some(time))))),
                Event::Failed(_) => Reaction::Step(Step::Finished(Ok(Outcome::Time(None)))),
                _ => refuse(event),
            },
            Next::ReturnKeys => match event {
                Event::Names(names) => Reaction::Step(
                    Step::Finished(Ok(Outcome::Keys(session_keys(&names)))),
                ),
                Event::Failed(_) => {
                    let none: Vec<String> = Vec::new();
                    assert(texts(none@) =~= Seq::<Seq<char>>::empty());
                    Reaction::Step(Step::Finished(Ok(Outcome::Keys(none))))
                },
                _ => refuse(event),
            },
            Next::DateKeys => {
                let none: Vec<SessionMetadata> = Vec::new();
                assert(metadata_view(none@) =~= Seq::<MetadataView>::empty());
                match event {
                    Event::Names(names) => Reaction::Step(date_keys(session_keys(&names), none)),
                    Event::Failed(_) => {
                        let keys: Vec<String> = Vec::new();
                        assert(texts(keys@) =~= Seq::<Seq<char>>::empty());
                        Reaction::Step(date_keys(keys, none))
                    },
                    _ => refuse(event),
                }
            },
            Next::Dated { key, rest, done } => match event {
                Event::Time(time) => Reaction::Step(date_one(key, time, rest, done)),
                Event::Failed(_) => {
                    let actions: Vec<Action> = vec![Action::Clock];
                    assert(script_view(actions@) =~= seq![ActionView::Clock]);
                    Reaction::Step(perform(actions, Next::Clocked { key, rest, done }))
                },
                _ => refuse(event),
            },
            Next::Clocked { key, rest, done } => match event {
                Event::Time(time) => Reaction::Step(date_one(key, time, rest, done)),
                _ => refuse(event),
            },
            Next::WriteEncoded => match event {
                Event::Encoded(lines) => {
                    let actions: Vec<Action> = vec![Action::Write { bytes: frame_lines(&lines) }];
                    assert(script_view(actions@) =~= seq![
                        ActionView::Write { bytes: framed(texts(lines@)) },
                    ]);
                    Reaction::Step(perform(actions, Next::Return(Outcome::Done)))
                },
                _ => refuse(event),
            },
            Next::ProbeRecord { key } => match event {
                Event::Present(data) => {
                    let actions: Vec<Action> = vec![
                        Action::Exists { name: meta_file(key.as_str()) },
                    ];
                    assert(script_view(actions@) =~= seq![
                        ActionView::Exists { name: meta_name(key@) },
                    ]);
                    Reaction::Step(perform(actions, Next::RemoveFiles { key, data }))
                },
                _ => refuse(event),
            },
            Next::RemoveFiles { key, data } => match event {
                Event::Present(meta) => {
                    let mut actions: Vec<Action> = Vec::new();
                    if meta {
                        actions.push(Action::Remove { name: meta_file(key.as_str()) });
                    }
                    if data {
                        actions.push(Action::Remove { name: data_file(key.as_str()) });
                    }
                    if data || meta {
                        assert(script_view(actions@) =~= removals(key@, data, meta));
                        Reaction::Step(perform(actions, Next::Return(Outcome::Flag(true))))
                    } else {
                        Reaction::Step(Step::Finished(Ok(Outcome::Flag(false))))
                    }
                },
                _ => refuse(event),
            },
            Next::DecodeHistory { key, edit } => match event {
                Event::Content(content) => {
                    let actions: Vec<Action> = vec![Action::Decode { lines: read_lines(&content) }];
                    assert(script_view(actions@) =~= seq![
                        ActionView::Decode { lines: history_lines(content@) },
                    ]);
                    Reaction::Step(perform(actions, Next::EditHistory { key, edit }))
                },
                Event::Missing | Event::Failed(_) => Reaction::Step(edit.apply_unread(key)),
                _ => refuse(event),
            },
            Next::EditHistory { key, edit } => match event {
                Event::Decoded(decoded) => Reaction::Step(edit.apply(key, keep_known(decoded))),
                _ => refuse(event),
            },
            Next::ReplaceHistory { key, outcome } => match event {
                Event::Encoded(lines) => {
                    let actions: Vec<Action> = vec![
                        Action::Write { bytes: frame_lines(&lines) },
                        Action::Sync,
                        Action::Persist { name: data_file(key.as_str()) },
                    ];
                    assert(script_view(actions@) =~= seq![
                        ActionView::Write { bytes: framed(texts(lines@)) },
                        ActionView::Sync,
                        ActionView::Persist { name: data_name(key@) },
                    ]);
                    Reaction::Step(perform(actions, Next::Return(outcome)))
                },
                _ => refuse(event),
            },
            Next::ResolveId { key } => match event {
                Event::Content(content) => match read_record(&content) {
                    Ok(Some(id)) => Reaction::Step(Step::Finished(Ok(Outcome::Id(id)))),
                    Ok(None) => Reaction::Mint(IdTask { key, clear: false }),
                    Err(error) => Reaction::Step(Step::Finished(Err(StoreError::BadRecord(error)))),
                },
                Event::Missing => Reaction::Mint(IdTask { key, clear: false }),
                _ => refuse(event),
            },
            Next::RotateId { key } => match event {
                Event::Done => Reaction::Mint(IdTask { key, clear: true }),
                _ => refuse(event),
            },
        }
    }
}

impl Operation {
    /// Reacts to the outcome of the action that is to be performed now. Where an id is to be
    /// minted, the task says for what.
    pub fn react<E>(self, event: Event<E>) -> (reaction: Reaction<E>)
        ensures
            reaction@ == self@.after(event@),
    {
        if self.rest.len() == 0 {
            return self.next.react(event);
        }
        match event {
            Event::Done => {
                assert(script_view(self.rest@) =~= self@.script.skip(1));
                Reaction::Step(perform(self.rest, self.next))
            },
            _ => refuse(event),
        }
    }

    /// Takes the outcome of the action that is to be performed now, and says what follows. Where
    /// an id is to be minted, it is a fresh one.
    pub fn advance<E>(self, event: Event<E>) -> (step: Step<E>)
        ensures
            match self@.after(event@) {
                ReactionView::Step(after) => step@ == after,
                ReactionView::Mint(task) => mints(task, step@),
            },
    {
        match self.react(event) {
            Reaction::Step(step) => step,
            Reaction::Mint(task) => {
                let id: String = draw_id();
                Step::Perform(task.with_id(id))
            },
        }
    }
}

/// The operation that opens a store.
pub open spec fn opening() -> OperationView {
    OperationView {
        script: seq![
            ActionView::CreateDir,
            ActionView::ShareLock,
        ],
        next: NextView::Return(OutcomeView::Done),
    }
}

/// The operation that appends a message.
pub open spec fn appending(key: Seq<char>, message: MessageView) -> OperationView {
    OperationView {
        script: seq![
            ActionView::LockMutations,
            ActionView::CreateDir,
            ActionView::LockKey { name: lock_name(key) },
            ActionView::OpenAppend { name: data_name(key) },
            ActionView::Encode { messages: seq![message] },
        ],
        next: NextView::WriteEncoded,
    }
}

/// The operation that loads a history.
pub open spec fn loading(key: Seq<char>) -> OperationView {
    OperationView {
        script: seq![
            ActionView::Read { name: data_name(key) },
        ],
        next: NextView::DecodeHistory { key, edit: EditView::Load },
    }
}

/// The operation that edits a history.
pub open spec fn editing(key: Seq<char>, edit: EditView) -> OperationView {
    OperationView {
        script: seq![
            ActionView::LockMutations,
            ActionView::Read { name: data_name(key) },
        ],
        next: NextView::DecodeHistory { key, edit },
    }
}

/// The operation that deletes a session.
pub open spec fn deleting(key: Seq<char>) -> OperationView {
    OperationView {
        script: seq![
            ActionView::LockMutations,
            ActionView::CreateDir,
            ActionView::LockKey { name: lock_name(key) },
            ActionView::Exists { name: data_name(key) },
        ],
        next: NextView::ProbeRecord { key },
    }
}

/// The operation that resolves the conversation id of a session.
pub open spec fn resolving(key: Seq<char>) -> OperationView {
    OperationView {
        script: seq![
            ActionView::CreateDir,
            ActionView::LockKey { name: lock_name(key) },
            ActionView::Read { name: meta_name(key) },
        ],
        next: NextView::ResolveId { key },
    }
}

/// The operation that clears a session and rotates its conversation id.
pub open spec fn rotating(key: Seq<char>) -> OperationView {
    OperationView {
        script: seq![
            ActionView::CreateDir,
            ActionView::LockKey { name: lock_name(key) },
            ActionView::CreateDir,
        ],
        next: NextView::RotateId { key },
    }
}

/// The operation that looks up when a history was last modified.
pub open spec fn timing(key: Seq<char>) -> OperationView {
    OperationView {
        script: seq![ActionView::Modified { name: data_name(key) }],
        next: NextView::ReturnTime,
    }
}

/// The operation that lists the sessions.
pub open spec fn listing() -> OperationView {
    OperationView { script: seq![ActionView::List], next: NextView::ReturnKeys }
}

/// The operation that lists the sessions with what is known of them.
pub open spec fn listing_with_metadata() -> OperationView {
    OperationView { script: seq![ActionView::List], next: NextView::DateKeys }
}

/// The operation that looks whether a session has a history.
pub open spec fn probing(key: Seq<char>) -> OperationView {
    OperationView {
        script: seq![ActionView::Exists { name: data_name(key) }],
        next: NextView::ReturnPresence,
    }
}

/// A store of sessions: histories with one message per line, and conversation ids.
#[derive(Debug)]
pub struct SessionStore {
    /// The name of the sessions directory within the workspace.
    pub sessions_dir: String,
}

impl SessionStore {
    /// A store, and the operation that opens it.
    pub fn new() -> (opened: (SessionStore, Operation))
        ensures
            opened.0.sessions_dir@ == SESSIONS_DIR@,
            opened.1@ == opening(),
    {
        let actions: Vec<Action> = vec![Action::CreateDir, Action::ShareLock];
        assert(script_view(actions@) =~= opening().script);
        (
            SessionStore { sessions_dir: SESSIONS_DIR.to_owned() },
            operation(actions, Next::Return(Outcome::Done)),
        )
    }

    /// Loads the messages of a session. There are none where the file is missing or unreadable.
    pub fn load(&self, key: &str) -> (operation: Operation)
        ensures
            operation@ == loading(key@),
    {
        let actions: Vec<Action> = vec![
            Action::Read { name: data_file(key) },
        ];
        assert(script_view(actions@) =~= loading(key@).script);
        self::operation(actions, Next::DecodeHistory { key: key.to_owned(), edit: Edit::Load })
    }

    /// Appends a message to a session.
    pub fn append(&self, key: &str, message: &ChatMessage) -> (operation: Operation)
        ensures
            operation@ == appending(key@, message@),
    {
        let messages: Vec<ChatMessage> = vec![message.duplicate()];
        assert(messages_view(messages@) =~= seq![message@]);
        let actions: Vec<Action> = vec![
            Action::LockMutations,
            Action::CreateDir,
            Action::LockKey { name: lock_file(key) },
            Action::OpenAppend { name: data_file(key) },
            Action::Encode { messages },
        ];
        assert(script_view(actions@) =~= appending(key@, message@).script);
        self::operation(actions, Next::WriteEncoded)
    }

    /// Removes the last message of a session, and says whether there was one.
    pub fn remove_last(&self, key: &str) -> (operation: Operation)
        ensures
            operation@ == editing(key@, EditView::RemoveLast),
    {
        let actions: Vec<Action> = vec![
            Action::LockMutations,
            Action::Read { name: data_file(key) },
        ];
        assert(script_view(actions@) =~= editing(key@, EditView::RemoveLast).script);
        self::operation(actions, Next::DecodeHistory { key: key.to_owned(), edit: Edit::RemoveLast })
    }

    /// Replaces the last message of a session, and says whether there was one.
    pub fn update_last(&self, key: &str, message: &ChatMessage) -> (operation: Operation)
        ensures
            operation@ == editing(key@, EditView::UpdateLast(message@)),
    {
        let actions: Vec<Action> = vec![
            Action::LockMutations,
            Action::Read { name: data_file(key) },
        ];
        assert(script_view(actions@) =~= editing(key@, EditView::UpdateLast(message@)).script);
        self::operation(actions, Next::DecodeHistory { key: key.to_owned(), edit: Edit::UpdateLast(message.duplicate()) })
    }

    /// Rewrites the history of a session without the lines that stand for no message.
    pub fn compact(&self, key: &str) -> (operation: Operation)
        ensures
            operation@ == editing(key@, EditView::Compact),
    {
        let actions: Vec<Action> = vec![
            Action::LockMutations,
            Action::Read { name: data_file(key) },
        ];
        assert(script_view(actions@) =~= editing(key@, EditView::Compact).script);
        self::operation(actions, Next::DecodeHistory { key: key.to_owned(), edit: Edit::Compact })
    }

    /// Clears the history of a session, and says how many messages it had. The file stays, and is
    /// empty then. A file that is missing or cannot be read is left alone.
    pub fn clear_messages(&self, key: &str) -> (operation: Operation)
        ensures
            operation@ == editing(key@, EditView::Clear),
    {
        let actions: Vec<Action> = vec![
            Action::LockMutations,
            Action::Read { name: data_file(key) },
        ];
        assert(script_view(actions@) =~= editing(key@, EditView::Clear).script);
        self::operation(actions, Next::DecodeHistory { key: key.to_owned(), edit: Edit::Clear })
    }

    /// Deletes the history and the id record of a session, and says whether either existed. The lock
    /// file stays.
    pub fn delete_session(&self, key: &str) -> (operation: Operation)
        ensures
            operation@ == deleting(key@),
    {
        let actions: Vec<Action> = vec![
            Action::LockMutations,
            Action::CreateDir,
            Action::LockKey { name: lock_file(key) },
            Action::Exists { name: data_file(key) },
        ];
        assert(script_view(actions@) =~= deleting(key@).script);
        self::operation(actions, Next::ProbeRecord { key: key.to_owned() })
    }

    /// Looks up when the history of a session was last modified.
    pub fn session_mtime(&self, key: &str) -> (operation: Operation)
        ensures
            operation@ == timing(key@),
    {
        let actions: Vec<Action> = vec![
            Action::Modified { name: data_file(key) },
        ];
        assert(script_view(actions@) =~= timing(key@).script);
        self::operation(actions, Next::ReturnTime)
    }

    /// Lists the sessions that have a history file.
    pub fn list_sessions(&self) -> (operation: Operation)
        ensures
            operation@ == listing(),
    {
        let actions: Vec<Action> = vec![
            Action::List,
        ];
        assert(script_view(actions@) =~= listing().script);
        self::operation(actions, Next::ReturnKeys)
    }

    /// Lists the sessions that have a history file, with the time when it was last modified, or the
    /// current time where that cannot be looked up.
    pub fn list_sessions_with_metadata(&self) -> (operation: Operation)
        ensures
            operation@ == listing_with_metadata(),
    {
        let actions: Vec<Action> = vec![
            Action::List,
        ];
        assert(script_view(actions@) =~= listing_with_metadata().script);
        self::operation(actions, Next::DateKeys)
    }

    /// Looks whether a session has a history file.
    pub fn session_exists(&self, key: &str) -> (operation: Operation)
        ensures
            operation@ == probing(key@),
    {
        let actions: Vec<Action> = vec![
            Action::Exists { name: data_file(key) },
        ];
        assert(script_view(actions@) =~= probing(key@).script);
        self::operation(actions, Next::ReturnPresence)
    }

    /// Reads the conversation id of a session, or mints and records one where there is none.
    pub fn resolve_or_create_conversation_id(&self, key: &str) -> (operation: Operation)
        ensures
            operation@ == resolving(key@),
    {
        let actions: Vec<Action> = vec![
            Action::CreateDir,
            Action::LockKey { name: lock_file(key) },
            Action::Read { name: meta_file(key) },
        ];
        assert(script_view(actions@) =~= resolving(key@).script);
        self::operation(actions, Next::ResolveId { key: key.to_owned() })
    }

    /// Mints and records a new conversation id for a session, and clears its history.
    pub fn clear_and_rotate_conversation(&self, key: &str) -> (operation: Operation)
        ensures
            operation@ == rotating(key@),
    {
        let actions: Vec<Action> = vec![
            Action::CreateDir,
            Action::LockKey { name: lock_file(key) },
            Action::CreateDir,
        ];
        assert(script_view(actions@) =~= rotating(key@).script);
        self::operation(actions, Next::RotateId { key: key.to_owned() })
    }
}

} // verus!
