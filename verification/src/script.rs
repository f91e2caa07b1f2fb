//! The words in which the operations of a session store are told: the file actions that they ask
//! for, the outcomes that they are handed, and what they return.

use vstd::prelude::*;

use crate::history::{messages_view, ChatMessage, MessageView};
use crate::identity::{optional_text, RecordError};
use crate::text::texts;

verus! {

/// A point in time: seconds and nanoseconds since the start of 1970, UTC.
#[derive(Clone, Copy, Debug, PartialEq, Eq, Structural)]
pub struct Timestamp {
    pub secs: i64,
    pub nanos: u32,
}

/// What is known of a session.
#[derive(Debug)]
pub struct SessionMetadata {
    pub key: String,
    pub name: Option<String>,
    pub created_at: Timestamp,
    pub last_activity: Timestamp,
    pub message_count: usize,
    pub agent_alias: Option<String>,
    pub channel_id: Option<String>,
    pub room_id: Option<String>,
    pub sender_id: Option<String>,
    pub conversation_id: Option<String>,
}

/// A file action. `Write` and `Sync` are about the file that was last opened or created.
#[derive(Debug)]
pub enum Action {
    /// Join the lock that all stores of this process on the same directory share.
    ShareLock,
    /// Take the shared lock, until the operation ends.
    LockMutations,
    /// Create the sessions directory and its parents where they are missing.
    CreateDir,
    /// Open the lock file, creating it where it is missing, and lock it until the operation ends.
    LockKey { name: String },
    /// List the file names of the sessions directory.
    List,
    /// Look whether a file exists.
    Exists { name: String },
    /// Look up when a file was last modified.
    Modified { name: String },
    /// Look up the current time.
    Clock,
    /// Read a file.
    Read { name: String },
    /// Read each line as the JSON text of a message.
    Decode { lines: Vec<String> },
    /// Write each message as JSON text on one line.
    Encode { messages: Vec<ChatMessage> },
    /// Open a file to append to it, creating it where it is missing.
    OpenAppend { name: String },
    /// Create a file to write to it, emptying it where it exists.
    Create { name: String },
    /// Create a temporary file in the sessions directory to write to it. It is gone when the
    /// operation ends without having put it in place.
    CreateTemp,
    /// Write bytes at the end of the open file.
    Write { bytes: Vec<u8> },
    /// Make the open file durable.
    Sync,
    /// Give the temporary file its name, in place of any file that has it.
    Persist { name: String },
    /// Rename a file, in place of any file that has the new name.
    Rename { from: String, to: String },
    /// Remove a file.
    Remove { name: String },
}

/// The outcome of a file action.
#[derive(Debug)]
pub enum Event<E> {
    /// The action succeeded.
    Done,
    /// The action failed.
    Failed(E),
    /// There is no file to read.
    Missing,
    /// The bytes of a file.
    Content(Vec<u8>),
    /// Whether a file exists.
    Present(bool),
    /// The file names of a directory.
    Names(Vec<String>),
    /// A modification time, or the current time.
    Time(Timestamp),
    /// The messages that lines stand for, `None` where a line stands for none.
    Decoded(Vec<Option<ChatMessage>>),
    /// The lines that stand for messages.
    Encoded(Vec<String>),
}

/// What an operation returns.
#[derive(Debug)]
pub enum Outcome {
    Done,
    Flag(bool),
    Count(usize),
    Id(String),
    Messages(Vec<ChatMessage>),
    Keys(Vec<String>),
    Time(Option<Timestamp>),
    Metadata(Vec<SessionMetadata>),
}

/// Why an operation failed.
#[derive(Debug)]
pub enum StoreError<E> {
    /// A file action failed.
    Io(E),
    /// An id record is damaged.
    BadRecord(RecordError),
    /// The outcome does not belong to the action that was asked for.
    OutOfTurn,
}

/// What is done with the messages of a history once they are loaded.
#[derive(Debug)]
pub enum Edit {
    Load,
    RemoveLast,
    UpdateLast(ChatMessage),
    Compact,
    Clear,
}

/// What follows the last action of an operation's script.
#[derive(Debug)]
pub enum Next {
    /// Return this.
    Return(Outcome),
    /// Return whether the file exists.
    ReturnPresence,
    /// Return the modification time.
    ReturnTime,
    /// Return the sessions among the listed names.
    ReturnKeys,
    /// Look up the modification times of the sessions among the listed names.
    DateKeys,
    /// Date the session by its history file; `rest` come after it, `done` are dated already.
    Dated { key: String, rest: Vec<String>, done: Vec<SessionMetadata> },
    /// Date the session by the clock; `rest` come after it, `done` are dated already.
    Clocked { key: String, rest: Vec<String>, done: Vec<SessionMetadata> },
    /// Write the encoded message at the end of the history.
    WriteEncoded,
    /// The history file was looked for; look for the id record.
    ProbeRecord { key: String },
    /// Both were looked for; remove what exists.
    RemoveFiles { key: String, data: bool },
    /// Decode the history that was read.
    DecodeHistory { key: String, edit: Edit },
    /// Edit the messages that were decoded.
    EditHistory { key: String, edit: Edit },
    /// Write the encoded messages in place of the history, then return `outcome`.
    ReplaceHistory { key: String, outcome: Outcome },
    /// Return the id of the record that was read, or mint one.
    ResolveId { key: String },
    /// Mint an id and clear the history.
    RotateId { key: String },
}

/// An operation under way: `action` is to be performed now, `rest` after it in order, and `next`
/// says what follows.
#[derive(Debug)]
pub struct Operation {
    pub action: Action,
    pub rest: Vec<Action>,
    pub next: Next,
}

/// What follows the outcome of an action.
#[derive(Debug)]
pub enum Step<E> {
    Perform(Operation),
    Finished(Result<Outcome, StoreError<E>>),
}

/// An id is to be minted for a session and recorded; `clear` says whether its history is cleared
/// afterwards.
#[derive(Debug)]
pub struct IdTask {
    pub key: String,
    pub clear: bool,
}

/// What follows the outcome of an action, before an id is minted.
#[derive(Debug)]
pub enum Reaction<E> {
    Step(Step<E>),
    Mint(IdTask),
}

pub struct MetadataView {
    pub key: Seq<char>,
    pub name: Option<Seq<char>>,
    pub created_at: Timestamp,
    pub last_activity: Timestamp,
    pub message_count: nat,
    pub agent_alias: Option<Seq<char>>,
    pub channel_id: Option<Seq<char>>,
    pub room_id: Option<Seq<char>>,
    pub sender_id: Option<Seq<char>>,
    pub conversation_id: Option<Seq<char>>,
}

pub enum ActionView {
    ShareLock,
    LockMutations,
    CreateDir,
    LockKey { name: Seq<char> },
    List,
    Exists { name: Seq<char> },
    Modified { name: Seq<char> },
    Clock,
    Read { name: Seq<char> },
    Decode { lines: Seq<Seq<char>> },
    Encode { messages: Seq<MessageView> },
    OpenAppend { name: Seq<char> },
    Create { name: Seq<char> },
    CreateTemp,
    Write { bytes: Seq<u8> },
    Sync,
    Persist { name: Seq<char> },
    Rename { from: Seq<char>, to: Seq<char> },
    Remove { name: Seq<char> },
}

pub enum EventView<E> {
    Done,
    Failed(E),
    Missing,
    Content(Seq<u8>),
    Present(bool),
    Names(Seq<Seq<char>>),
    Time(Timestamp),
    Decoded(Seq<Option<MessageView>>),
    Encoded(Seq<Seq<char>>),
}

pub enum OutcomeView {
    Done,
    Flag(bool),
    Count(nat),
    Id(Seq<char>),
    Messages(Seq<MessageView>),
    Keys(Seq<Seq<char>>),
    Time(Option<Timestamp>),
    Metadata(Seq<MetadataView>),
}

pub enum StoreErrorView<E> {
    Io(E),
    NotText,
    NotJson,
    OutOfTurn,
}

pub enum EditView {
    Load,
    RemoveLast,
    UpdateLast(MessageView),
    Compact,
    Clear,
}

pub enum NextView {
    Return(OutcomeView),
    ReturnPresence,
    ReturnTime,
    ReturnKeys,
    DateKeys,
    Dated { key: Seq<char>, rest: Seq<Seq<char>>, done: Seq<MetadataView> },
    Clocked { key: Seq<char>, rest: Seq<Seq<char>>, done: Seq<MetadataView> },
    WriteEncoded,
    ProbeRecord { key: Seq<char> },
    RemoveFiles { key: Seq<char>, data: bool },
    DecodeHistory { key: Seq<char>, edit: EditView },
    EditHistory { key: Seq<char>, edit: EditView },
    ReplaceHistory { key: Seq<char>, outcome: OutcomeView },
    ResolveId { key: Seq<char> },
    RotateId { key: Seq<char> },
}

pub struct OperationView {
    pub script: Seq<ActionView>,
    pub next: NextView,
}

pub enum StepView<E> {
    Perform(OperationView),
    Finished(Result<OutcomeView, StoreErrorView<E>>),
}

pub struct IdTaskView {
    pub key: Seq<char>,
    pub clear: bool,
}

pub enum ReactionView<E> {
    Step(StepView<E>),
    Mint(IdTaskView),
}

impl View for SessionMetadata {
    type V = MetadataView;

    open spec fn view(&self) -> MetadataView {
        MetadataView {
            key: self.key@,
            name: optional_text(self.name),
            created_at: self.created_at,
            last_activity: self.last_activity,
            message_count: self.message_count as nat,
            agent_alias: optional_text(self.agent_alias),
            channel_id: optional_text(self.channel_id),
            room_id: optional_text(self.room_id),
            sender_id: optional_text(self.sender_id),
            conversation_id: optional_text(self.conversation_id),
        }
    }
}

/// The views of a list of session metadata.
pub open spec fn metadata_view(list: Seq<SessionMetadata>) -> Seq<MetadataView> {
    list.map_values(|m: SessionMetadata| m@)
}

impl View for Action {
    type V = ActionView;

    open spec fn view(&self) -> ActionView {
        match *self {
            Action::ShareLock => ActionView::ShareLock,
            Action::LockMutations => ActionView::LockMutations,
            Action::CreateDir => ActionView::CreateDir,
            Action::LockKey { name } => ActionView::LockKey { name: name@ },
            Action::List => ActionView::List,
            Action::Exists { name } => ActionView::Exists { name: name@ },
            Action::Modified { name } => ActionView::Modified { name: name@ },
            Action::Clock => ActionView::Clock,
            Action::Read { name } => ActionView::Read { name: name@ },
            Action::Decode { lines } => ActionView::Decode { lines: texts(lines@) },
            Action::Encode { messages } => ActionView::Encode {
                messages: messages_view(messages@),
            },
            Action::OpenAppend { name } => ActionView::OpenAppend { name: name@ },
            Action::Create { name } => ActionView::Create { name: name@ },
            Action::CreateTemp => ActionView::CreateTemp,
            Action::Write { bytes } => ActionView::Write { bytes: bytes@ },
            Action::Sync => ActionView::Sync,
            Action::Persist { name } => ActionView::Persist { name: name@ },
            Action::Rename { from, to } => ActionView::Rename { from: from@, to: to@ },
            Action::Remove { name } => ActionView::Remove { name: name@ },
        }
    }
}

/// The views of a list of actions.
pub open spec fn script_view(actions: Seq<Action>) -> Seq<ActionView> {
    actions.map_values(|a: Action| a@)
}

/// The view of a message that may be missing.
pub open spec fn optional_message(message: Option<ChatMessage>) -> Option<MessageView> {
    match message {
        Some(m) => Some(m@),
        None => None,
    }
}

impl<E> View for Event<E> {
    type V = EventView<E>;

    open spec fn view(&self) -> EventView<E> {
        match *self {
            Event::Done => EventView::Done,
            Event::Failed(error) => EventView::Failed(error),
            Event::Missing => EventView::Missing,
            Event::Content(bytes) => EventView::Content(bytes@),
            Event::Present(yes) => EventView::Present(yes),
            Event::Names(names) => EventView::Names(texts(names@)),
            Event::Time(time) => EventView::Time(time),
            Event::Decoded(messages) => EventView::Decoded(
                messages@.map_values(|m: Option<ChatMessage>| optional_message(m)),
            ),
            Event::Encoded(lines) => EventView::Encoded(texts(lines@)),
        }
    }
}

impl View for Outcome {
    type V = OutcomeView;

    open spec fn view(&self) -> OutcomeView {
        match *self {
            Outcome::Done => OutcomeView::Done,
            Outcome::Flag(yes) => OutcomeView::Flag(yes),
            Outcome::Count(n) => OutcomeView::Count(n as nat),
            Outcome::Id(id) => OutcomeView::Id(id@),
            Outcome::Messages(messages) => OutcomeView::Messages(messages_view(messages@)),
            Outcome::Keys(keys) => OutcomeView::Keys(texts(keys@)),
            Outcome::Time(time) => OutcomeView::Time(time),
            Outcome::Metadata(list) => OutcomeView::Metadata(metadata_view(list@)),
        }
    }
}

impl<E> View for StoreError<E> {
    type V = StoreErrorView<E>;

    open spec fn view(&self) -> StoreErrorView<E> {
        match *self {
            StoreError::Io(error) => StoreErrorView::Io(error),
            StoreError::BadRecord(RecordError::NotText(_)) => StoreErrorView::NotText,
            StoreError::BadRecord(RecordError::NotJson(_)) => StoreErrorView::NotJson,
            StoreError::OutOfTurn => StoreErrorView::OutOfTurn,
        }
    }
}

impl View for Edit {
    type V = EditView;

    open spec fn view(&self) -> EditView {
        match *self {
            Edit::Load => EditView::Load,
            Edit::RemoveLast => EditView::RemoveLast,
            Edit::UpdateLast(message) => EditView::UpdateLast(message@),
            Edit::Compact => EditView::Compact,
            Edit::Clear => EditView::Clear,
        }
    }
}

impl View for Next {
    type V = NextView;

    open spec fn view(&self) -> NextView {
        match *self {
            Next::Return(outcome) => NextView::Return(outcome@),
            Next::ReturnPresence => NextView::ReturnPresence,
            Next::ReturnTime => NextView::ReturnTime,
            Next::ReturnKeys => NextView::ReturnKeys,
            Next::DateKeys => NextView::DateKeys,
            Next::Dated { key, rest, done } => NextView::Dated {
                key: key@,
                rest: texts(rest@),
                done: metadata_view(done@),
            },
            Next::Clocked { key, rest, done } => NextView::Clocked {
                key: key@,
                rest: texts(rest@),
                done: metadata_view(done@),
            },
            Next::WriteEncoded => NextView::WriteEncoded,
            Next::ProbeRecord { key } => NextView::ProbeRecord { key: key@ },
            Next::RemoveFiles { key, data } => NextView::RemoveFiles { key: key@, data },
            Next::DecodeHistory { key, edit } => NextView::DecodeHistory {
                key: key@,
                edit: edit@,
            },
            Next::EditHistory { key, edit } => NextView::EditHistory { key: key@, edit: edit@ },
            Next::ReplaceHistory { key, outcome } => NextView::ReplaceHistory {
                key: key@,
                outcome: outcome@,
            },
            Next::ResolveId { key } => NextView::ResolveId { key: key@ },
            Next::RotateId { key } => NextView::RotateId { key: key@ },
        }
    }
}

impl View for Operation {
    type V = OperationView;

    open spec fn view(&self) -> OperationView {
        OperationView {
            script: seq![self.action@] + script_view(self.rest@),
            next: self.next@,
        }
    }
}

impl<E> View for Step<E> {
    type V = StepView<E>;

    open spec fn view(&self) -> StepView<E> {
        match *self {
            Step::Perform(operation) => StepView::Perform(operation@),
            Step::Finished(Ok(outcome)) => StepView::Finished(Ok(outcome@)),
            Step::Finished(Err(error)) => StepView::Finished(Err(error@)),
        }
    }
}

impl View for IdTask {
    type V = IdTaskView;

    open spec fn view(&self) -> IdTaskView {
        IdTaskView { key: self.key@, clear: self.clear }
    }
}

impl<E> View for Reaction<E> {
    type V = ReactionView<E>;

    open spec fn view(&self) -> ReactionView<E> {
        match *self {
            Reaction::Step(step) => ReactionView::Step(step@),
            Reaction::Mint(task) => ReactionView::Mint(task@),
        }
    }
}

} // verus!
