//! A model of the sessions directory, and of what the operations of a store do to it: every action
//! may succeed or fail, and an operation may be broken off after any action.

use vstd::prelude::*;

use crate::history::{framed, history_lines, is_clean_line, MessageView};
use crate::keys::data_name;
use crate::script::{
    ActionView, EventView, OperationView, OutcomeView, ReactionView, StepView, StoreErrorView,
    Timestamp,
};
use crate::session_store::known_messages;

verus! {

/// What an operation meets outside the directory: how messages are written as lines and read from
/// them, the clock, when files were modified, and in which order file names are listed.
pub struct Setting {
    pub encode: spec_fn(MessageView) -> Seq<char>,
    pub decode: spec_fn(Seq<char>) -> Option<MessageView>,
    pub now: Timestamp,
    pub modified: spec_fn(Seq<char>) -> Timestamp,
    pub order: spec_fn(Set<Seq<char>>) -> Seq<Seq<char>>,
}

impl Setting {
    /// Whether a message is read back from the line that it is written as.
    pub open spec fn keeps(self, message: MessageView) -> bool {
        &&& is_clean_line((self.encode)(message))
        &&& (self.decode)((self.encode)(message)) == Some(message)
    }

    /// Whether each of these messages is read back from the line that it is written as.
    pub open spec fn keeps_all(self, messages: Seq<MessageView>) -> bool {
        forall|i: int| 0 <= i < messages.len() ==> self.keeps(#[trigger] messages[i])
    }

    /// Whether every message that is read from some line is read back once it is written again.
    pub open spec fn keeps_what_it_reads(self) -> bool {
        forall|line: Seq<char>|
            (#[trigger] (self.decode)(line)) matches Some(message) ==> self.keeps(message)
    }

    /// Whether a listing names every file once.
    pub open spec fn lists(self, files: Map<Seq<char>, Seq<u8>>) -> bool {
        &&& (self.order)(files.dom()).no_duplicates()
        &&& forall|name: Seq<char>|
            #[trigger] (self.order)(files.dom()).contains(name) <==> files.dom().contains(name)
    }

    /// The messages that a history file holds.
    pub open spec fn read(self, content: Seq<u8>) -> Seq<MessageView> {
        known_messages(history_lines(content).map_values(self.decode))
    }

    /// The history file that is written for messages.
    pub open spec fn written(self, messages: Seq<MessageView>) -> Seq<u8> {
        framed(messages.map_values(self.encode))
    }

    /// The messages of a session. There are none where it has no history file.
    pub open spec fn stored(self, files: Map<Seq<char>, Seq<u8>>, key: Seq<char>) -> Seq<
        MessageView,
    > {
        if files.dom().contains(data_name(key)) {
            self.read(files[data_name(key)])
        } else {
            Seq::empty()
        }
    }
}

/// The file that is open.
pub enum Handle {
    Closed,
    Named(Seq<char>),
    Temporary,
}

/// The sessions directory while an operation works on it.
pub struct Desk {
    /// The files by their names. The temporary file is not among them.
    pub files: Map<Seq<char>, Seq<u8>>,
    /// The content of the temporary file.
    pub temp: Seq<u8>,
    /// The file that is open.
    pub handle: Handle,
    /// Whether all that was written to the open file is durable.
    pub durable: bool,
    /// Whether the shared lock is held.
    pub shared_lock: bool,
    /// The lock file that is locked, if any.
    pub key_lock: Option<Seq<char>>,
    /// Whether every file that was given another name was durable then.
    pub careful: bool,
    /// Whether every file that was created, replaced or removed was so under a lock: a temporary
    /// file takes its name under the shared lock, and all else happens under the lock of a key.
    pub guarded: bool,
    /// Whether the directory was created where it was missing.
    pub ready: bool,
    /// Whether every lock file was locked, and every file opened, once the directory was ready.
    pub housed: bool,
    /// Whether the lock that all stores on the directory share was joined, once the directory was
    /// ready.
    pub joined: bool,
}

/// How an action ends. A failing write may have written some of its bytes.
pub enum Fate<E> {
    Succeeds,
    Fails { error: E, written: nat },
}

impl Desk {
    /// The directory before an operation.
    pub open spec fn at(files: Map<Seq<char>, Seq<u8>>) -> Desk {
        Desk {
            files,
            temp: Seq::empty(),
            handle: Handle::Closed,
            durable: false,
            shared_lock: false,
            key_lock: None,
            careful: true,
            guarded: true,
            ready: false,
            housed: true,
            joined: false,
        }
    }

    /// Bytes are written at the end of the open file.
    pub open spec fn wrote(self, bytes: Seq<u8>) -> Desk {
        match self.handle {
            Handle::Closed => self,
            Handle::Temporary => Desk { temp: self.temp + bytes, durable: false, ..self },
            Handle::Named(name) => Desk {
                files: self.files.insert(name, self.files[name] + bytes),
                durable: false,
                ..self
            },
        }
    }

    /// A file has this content and is open.
    pub open spec fn opened(self, name: Seq<char>, content: Seq<u8>) -> Desk {
        Desk {
            files: self.files.insert(name, content),
            handle: Handle::Named(name),
            durable: false,
            guarded: self.guarded && self.key_lock is Some,
            housed: self.housed && self.ready,
            ..self
        }
    }

    /// The content of a file, nothing where it is missing.
    pub open spec fn content(self, name: Seq<char>) -> Seq<u8> {
        if self.files.dom().contains(name) {
            self.files[name]
        } else {
            Seq::empty()
        }
    }

    /// An action succeeds.
    pub open spec fn succeeds<E>(self, setting: Setting, action: ActionView) -> (
        Desk,
        EventView<E>,
    ) {
        match action {
            ActionView::ShareLock => (Desk { joined: self.ready, ..self }, EventView::Done),
            ActionView::CreateDir => (Desk { ready: true, ..self }, EventView::Done),
            ActionView::LockMutations => (Desk { shared_lock: true, ..self }, EventView::Done),
            ActionView::LockKey { name } => (
                Desk {
                    files: self.files.insert(name, self.content(name)),
                    key_lock: Some(name),
                    housed: self.housed && self.ready,
                    ..self
                },
                EventView::Done,
            ),
            ActionView::List => (self, EventView::Names((setting.order)(self.files.dom()))),
            ActionView::Exists { name } => (
                self,
                EventView::Present(self.files.dom().contains(name)),
            ),
            ActionView::Modified { name } => (self, EventView::Time((setting.modified)(name))),
            ActionView::Clock => (self, EventView::Time(setting.now)),
            ActionView::Read { name } => (
                self,
                if self.files.dom().contains(name) {
                    EventView::Content(self.files[name])
                } else {
                    EventView::Missing
                },
            ),
            ActionView::Decode { lines } => (
                self,
                EventView::Decoded(lines.map_values(setting.decode)),
            ),
            ActionView::Encode { messages } => (
                self,
                EventView::Encoded(messages.map_values(setting.encode)),
            ),
            ActionView::OpenAppend { name } => (
                self.opened(name, self.content(name)),
                EventView::Done,
            ),
            ActionView::Create { name } => (self.opened(name, Seq::empty()), EventView::Done),
            ActionView::CreateTemp => (
                Desk {
                    temp: Seq::empty(),
                    handle: Handle::Temporary,
                    durable: false,
                    ..self
                },
                EventView::Done,
            ),
            ActionView::Write { bytes } => (self.wrote(bytes), EventView::Done),
            ActionView::Sync => (Desk { durable: true, ..self }, EventView::Done),
            ActionView::Persist { name } => (
                Desk {
                    files: self.files.insert(name, self.temp),
                    handle: Handle::Closed,
                    careful: self.careful && self.handle is Temporary && self.durable,
                    guarded: self.guarded && self.shared_lock,
                    ..self
                },
                EventView::Done,
            ),
            ActionView::Rename { from, to } => (
                Desk {
                    files: self.files.remove(from).insert(to, self.files[from]),
                    handle: Handle::Closed,
                    careful: self.careful && self.handle == Handle::Named(from) && self.durable,
                    guarded: self.guarded && self.key_lock is Some,
                    ..self
                },
                EventView::Done,
            ),
            ActionView::Remove { name } => (
                Desk {
                    files: self.files.remove(name),
                    guarded: self.guarded && self.key_lock is Some,
                    ..self
                },
                EventView::Done,
            ),
        }
    }

    /// An action ends. A file that cannot be looked for counts as missing; decoding and the clock
    /// do not fail.
    pub open spec fn happens<E>(self, setting: Setting, action: ActionView, fate: Fate<E>) -> (
        Desk,
        EventView<E>,
    ) {
        match fate {
            Fate::Succeeds => self.succeeds(setting, action),
            Fate::Fails { error, written } => match action {
                ActionView::Decode { .. } | ActionView::Clock => self.succeeds(setting, action),
                ActionView::Exists { .. } => (self, EventView::Present(false)),
                ActionView::Write { bytes } => (
                    self.wrote(
                        if written < bytes.len() {
                            bytes.take(written as int)
                        } else {
                            bytes
                        },
                    ),
                    EventView::Failed(error),
                ),
                _ => (self, EventView::Failed(error)),
            },
        }
    }
}

/// Where an operation ends whose actions end as `fates` say, and what it returns: nothing where it
/// is broken off, since there are no more `fates`. Should it mint an id, that is `id`.
pub open spec fn run<E>(
    setting: Setting,
    desk: Desk,
    operation: OperationView,
    id: Seq<char>,
    fates: Seq<Fate<E>>,
) -> (Desk, Option<Result<OutcomeView, StoreErrorView<E>>>)
    decreases fates.len(),
{
    if fates.len() == 0 {
        (desk, None)
    } else {
        let (after, event) = desk.happens(setting, operation.script[0], fates[0]);
        match operation.after(event) {
            ReactionView::Step(StepView::Perform(next)) => run(
                setting,
                after,
                next,
                id,
                fates.skip(1),
            ),
            ReactionView::Step(StepView::Finished(result)) => (after, Some(result)),
            ReactionView::Mint(task) => run(setting, after, task.with_id(id), id, fates.skip(1)),
        }
    }
}

/// Whether no action fails.
pub open spec fn untroubled<E>(fates: Seq<Fate<E>>) -> bool {
    forall|i: int| 0 <= i < fates.len() ==> #[trigger] fates[i] is Succeeds
}

} // verus!
