use std::cell::RefCell;
use std::collections::{BTreeMap, BTreeSet};

use zeroclaw_sessions::history::{frame_lines, read_lines, ChatMessage};
use zeroclaw_sessions::identity::{id_of_member, read_record, write_record, RecordError};
use zeroclaw_sessions::keys::{
    data_file, lock_file, meta_file, meta_temp_file, sanitize_session_key, session_keys,
};
use zeroclaw_sessions::script::{
    Action, Edit, Event, IdTask, Next, Operation, Outcome, Reaction, SessionMetadata, Step,
    StoreError, Timestamp,
};
use zeroclaw_sessions::session_store::{rewrite, SessionStore};
use zeroclaw_sessions::text::trim;

type Failure = StoreError<String>;

/// The files of a sessions directory, in memory.
struct Disk {
    files: RefCell<BTreeMap<String, Vec<u8>>>,
    directories: RefCell<BTreeSet<String>>,
    shared_lock: RefCell<bool>,
    key_locks: RefCell<BTreeSet<String>>,
    unlisted: RefCell<bool>,
}

impl Disk {
    fn new() -> Disk {
        Disk {
            files: RefCell::new(BTreeMap::new()),
            directories: RefCell::new(BTreeSet::new()),
            shared_lock: RefCell::new(false),
            key_locks: RefCell::new(BTreeSet::new()),
            unlisted: RefCell::new(false),
        }
    }

    fn has(&self, name: &str) -> bool {
        self.files.borrow().contains_key(name) || self.directories.borrow().contains(name)
    }

    fn read(&self, name: &str) -> Vec<u8> {
        self.files.borrow()[name].clone()
    }

    fn write(&self, name: &str, content: &[u8]) {
        self.files
            .borrow_mut()
            .insert(name.to_string(), content.to_vec());
    }
}

/// An operation under way, with what it holds.
struct Worker<'a> {
    disk: &'a Disk,
    operation: Option<Operation>,
    result: Option<Result<Outcome, Failure>>,
    open: Option<String>,
    temp: Option<Vec<u8>>,
    shared: bool,
    key: Option<String>,
    performed: usize,
    fail_at: Option<usize>,
}

fn encode(message: &ChatMessage) -> String {
    let mut object = serde_json::Map::new();
    let text = |s: &str| serde_json::Value::String(s.to_string());
    object.insert("role".to_string(), text(&message.role));
    object.insert("content".to_string(), text(&message.content));
    serde_json::Value::Object(object).to_string()
}

fn decode(line: &str) -> Option<ChatMessage> {
    let value: serde_json::Value = serde_json::from_str(line).ok()?;
    Some(ChatMessage {
        role: value.get("role")?.as_str()?.to_string(),
        content: value.get("content")?.as_str()?.to_string(),
    })
}

impl<'a> Worker<'a> {
    fn new(disk: &'a Disk, operation: Operation) -> Worker<'a> {
        Worker {
            disk,
            operation: Some(operation),
            result: None,
            open: None,
            temp: None,
            shared: false,
            key: None,
            performed: 0,
            fail_at: None,
        }
    }

    /// Performs an action; nothing where it waits for a lock.
    fn perform(&mut self, action: &Action) -> Option<Event<String>> {
        if self.fail_at == Some(self.performed) {
            if let Action::Write { bytes } = action {
                let half = bytes.len() / 2;
                self.write(&bytes[..half]);
            }
            return Some(Event::Failed("injected failure".to_string()));
        }
        let mut files = self.disk.files.borrow_mut();
        Some(match action {
            Action::ShareLock | Action::CreateDir | Action::Sync => Event::Done,
            Action::LockMutations => {
                if *self.disk.shared_lock.borrow() {
                    return None;
                }
                *self.disk.shared_lock.borrow_mut() = true;
                self.shared = true;
                Event::Done
            }
            Action::LockKey { name } => {
                if !self.disk.key_locks.borrow_mut().insert(name.clone()) {
                    return None;
                }
                files.entry(name.clone()).or_default();
                self.key = Some(name.clone());
                Event::Done
            }
            Action::List => {
                if *self.disk.unlisted.borrow() {
                    Event::Failed("unreadable".to_string())
                } else {
                    Event::Names(files.keys().cloned().collect())
                }
            }
            Action::Exists { name } => Event::Present(
                files.contains_key(name) || self.disk.directories.borrow().contains(name),
            ),
            Action::Modified { name } => match files.get(name) {
                Some(content) => Event::Time(Timestamp {
                    secs: content.len() as i64,
                    nanos: 1,
                }),
                None => Event::Failed("missing".to_string()),
            },
            Action::Clock => Event::Time(Timestamp {
                secs: 1_000_000,
                nanos: 2,
            }),
            Action::Read { name } => match files.get(name) {
                Some(content) => Event::Content(content.clone()),
                None if self.disk.directories.borrow().contains(name) => {
                    Event::Failed("is a directory".to_string())
                }
                None => Event::Missing,
            },
            Action::Decode { lines } => Event::Decoded(lines.iter().map(|l| decode(l)).collect()),
            Action::Encode { messages } => Event::Encoded(messages.iter().map(encode).collect()),
            Action::OpenAppend { name } => {
                files.entry(name.clone()).or_default();
                self.open = Some(name.clone());
                Event::Done
            }
            Action::Create { name } => {
                files.insert(name.clone(), Vec::new());
                self.open = Some(name.clone());
                Event::Done
            }
            Action::CreateTemp => {
                self.open = None;
                self.temp = Some(Vec::new());
                Event::Done
            }
            Action::Write { bytes } => {
                drop(files);
                self.write(bytes);
                Event::Done
            }
            Action::Persist { name } => {
                files.insert(name.clone(), self.temp.take().unwrap());
                Event::Done
            }
            Action::Rename { from, to } => {
                let content = files.remove(from).unwrap();
                files.insert(to.clone(), content);
                Event::Done
            }
            Action::Remove { name } => match files.remove(name) {
                Some(_) => Event::Done,
                None => Event::Failed("cannot be removed".to_string()),
            },
        })
    }

    fn write(&mut self, bytes: &[u8]) {
        match &self.open {
            Some(name) => self
                .disk
                .files
                .borrow_mut()
                .get_mut(name)
                .unwrap()
                .extend_from_slice(bytes),
            None => self.temp.as_mut().unwrap().extend_from_slice(bytes),
        }
    }

    /// Performs the next action, unless it waits for a lock, and says whether it did.
    fn step(&mut self) -> bool {
        let operation = self.operation.take().unwrap();
        match self.perform(&operation.action) {
            None => {
                self.operation = Some(operation);
                false
            }
            Some(event) => {
                self.performed += 1;
                match operation.advance(event) {
                    Step::Perform(next) => self.operation = Some(next),
                    Step::Finished(result) => {
                        self.result = Some(result);
                        self.release();
                    }
                }
                true
            }
        }
    }

    fn release(&mut self) {
        if self.shared {
            *self.disk.shared_lock.borrow_mut() = false;
        }
        if let Some(name) = self.key.take() {
            self.disk.key_locks.borrow_mut().remove(&name);
        }
    }

    fn finish(mut self) -> Result<Outcome, Failure> {
        while self.result.is_none() {
            assert!(self.step(), "waits for a lock");
        }
        self.result.take().unwrap()
    }
}

/// A store on a disk.
struct Store<'a> {
    disk: &'a Disk,
    store: SessionStore,
}

impl<'a> Store<'a> {
    fn new(disk: &'a Disk) -> Store<'a> {
        let (store, opening) = SessionStore::new();
        assert!(matches!(
            Worker::new(disk, opening).finish(),
            Ok(Outcome::Done)
        ));
        Store { disk, store }
    }

    fn run(&self, operation: Operation) -> Result<Outcome, Failure> {
        Worker::new(self.disk, operation).finish()
    }

    fn load(&self, key: &str) -> Vec<ChatMessage> {
        match self.run(self.store.load(key)) {
            Ok(Outcome::Messages(messages)) => messages,
            other => panic!("{:?}", other),
        }
    }

    fn append(&self, key: &str, message: &ChatMessage) -> Result<(), Failure> {
        self.run(self.store.append(key, message))
            .map(|outcome| assert!(matches!(outcome, Outcome::Done)))
    }

    fn remove_last(&self, key: &str) -> Result<bool, Failure> {
        self.run(self.store.remove_last(key)).map(flag)
    }

    fn update_last(&self, key: &str, message: &ChatMessage) -> Result<bool, Failure> {
        self.run(self.store.update_last(key, message)).map(flag)
    }

    fn compact(&self, key: &str) -> Result<(), Failure> {
        self.run(self.store.compact(key))
            .map(|outcome| assert!(matches!(outcome, Outcome::Done)))
    }

    fn clear_messages(&self, key: &str) -> Result<usize, Failure> {
        self.run(self.store.clear_messages(key))
            .map(|outcome| match outcome {
                Outcome::Count(n) => n,
                other => panic!("{:?}", other),
            })
    }

    fn delete_session(&self, key: &str) -> Result<bool, Failure> {
        self.run(self.store.delete_session(key)).map(flag)
    }

    fn session_exists(&self, key: &str) -> bool {
        self.run(self.store.session_exists(key)).map(flag).unwrap()
    }

    fn session_mtime(&self, key: &str) -> Option<Timestamp> {
        match self.run(self.store.session_mtime(key)) {
            Ok(Outcome::Time(time)) => time,
            other => panic!("{:?}", other),
        }
    }

    fn list_sessions(&self) -> Vec<String> {
        match self.run(self.store.list_sessions()) {
            Ok(Outcome::Keys(keys)) => keys,
            other => panic!("{:?}", other),
        }
    }

    fn list_sessions_with_metadata(&self) -> Vec<SessionMetadata> {
        match self.run(self.store.list_sessions_with_metadata()) {
            Ok(Outcome::Metadata(list)) => list,
            other => panic!("{:?}", other),
        }
    }

    fn resolve_or_create_conversation_id(&self, key: &str) -> Result<String, Failure> {
        self.run(self.store.resolve_or_create_conversation_id(key))
            .map(id)
    }

    fn clear_and_rotate_conversation(&self, key: &str) -> Result<String, Failure> {
        self.run(self.store.clear_and_rotate_conversation(key))
            .map(id)
    }
}

fn flag(outcome: Outcome) -> bool {
    match outcome {
        Outcome::Flag(yes) => yes,
        other => panic!("{:?}", other),
    }
}

fn id(outcome: Outcome) -> String {
    match outcome {
        Outcome::Id(id) => id,
        other => panic!("{:?}", other),
    }
}

fn strings(texts: &[&str]) -> Vec<String> {
    texts.iter().map(|t| t.to_string()).collect()
}

#[test]
fn round_trip_append_and_load() {
    let disk = Disk::new();
    let store = Store::new(&disk);

    store
        .append("telegram_user123", &ChatMessage::user("hello"))
        .unwrap();
    store
        .append("telegram_user123", &ChatMessage::assistant("hi there"))
        .unwrap();

    let messages = store.load("telegram_user123");
    assert_eq!(messages.len(), 2);
    assert_eq!(messages[0].role, "user");
    assert_eq!(messages[0].content, "hello");
    assert_eq!(messages[1].role, "assistant");
    assert_eq!(messages[1].content, "hi there");
}

#[test]
fn load_nonexistent_session_returns_empty() {
    let disk = Disk::new();
    let store = Store::new(&disk);

    let messages = store.load("nonexistent");
    assert!(messages.is_empty());
}

#[test]
fn key_sanitization() {
    let disk = Disk::new();
    let store = Store::new(&disk);

    store
        .append("slack/thread:123/user", &ChatMessage::user("test"))
        .unwrap();

    let messages = store.load("slack/thread:123/user");
    assert_eq!(messages.len(), 1);
}

#[test]
fn sanitize_session_key_is_idempotent() {
    let raw = "slack_C123_1.2_user one";
    let once = sanitize_session_key(raw);
    let twice = sanitize_session_key(&once);
    assert_eq!(once, "slack_C123_1_2_user_one");
    assert_eq!(once, twice);
}

#[test]
fn restart_simulation_matches_when_caller_pre_sanitizes() {
    let disk = Disk::new();
    let runtime_key = sanitize_session_key("slack_C123_1.2_user one");

    {
        let store = Store::new(&disk);
        store
            .append(&runtime_key, &ChatMessage::user("first"))
            .unwrap();
        store
            .append(&runtime_key, &ChatMessage::assistant("ack"))
            .unwrap();
    }

    let store = Store::new(&disk);
    let listed = store.list_sessions();
    assert_eq!(listed, vec![runtime_key.clone()]);

    let msgs = store.load(&listed[0]);
    assert_eq!(msgs.len(), 2);
    assert_eq!(msgs[0].content, "first");
    assert_eq!(msgs[1].content, "ack");
}

#[test]
fn list_sessions_returns_keys() {
    let disk = Disk::new();
    let store = Store::new(&disk);

    store
        .append("telegram_alice", &ChatMessage::user("hi"))
        .unwrap();
    store
        .append("discord_bob", &ChatMessage::user("hey"))
        .unwrap();

    let mut sessions = store.list_sessions();
    sessions.sort();
    assert_eq!(sessions.len(), 2);
    assert!(sessions.contains(&"discord_bob".to_string()));
    assert!(sessions.contains(&"telegram_alice".to_string()));
}

#[test]
fn append_is_truly_append_only() {
    let disk = Disk::new();
    let store = Store::new(&disk);
    let key = "test_session";

    store.append(key, &ChatMessage::user("msg1")).unwrap();
    store.append(key, &ChatMessage::user("msg2")).unwrap();

    let content = String::from_utf8(disk.read(&data_file(key))).unwrap();
    let lines: Vec<&str> = content.trim().lines().collect();
    assert_eq!(lines.len(), 2);
}

#[test]
fn remove_last_drops_final_message() {
    let disk = Disk::new();
    let store = Store::new(&disk);

    store
        .append("rm_test", &ChatMessage::user("first"))
        .unwrap();
    store
        .append("rm_test", &ChatMessage::user("second"))
        .unwrap();

    assert!(store.remove_last("rm_test").unwrap());
    let messages = store.load("rm_test");
    assert_eq!(messages.len(), 1);
    assert_eq!(messages[0].content, "first");
}

#[test]
fn remove_last_empty_returns_false() {
    let disk = Disk::new();
    let store = Store::new(&disk);
    assert!(!store.remove_last("nonexistent").unwrap());
}

#[test]
fn update_last_via_trait_replaces_final_message() {
    let disk = Disk::new();
    let backend = Store::new(&disk);
    let key = "update_test";

    backend.append(key, &ChatMessage::user("first")).unwrap();
    backend.append(key, &ChatMessage::assistant("old")).unwrap();

    assert!(backend
        .update_last(key, &ChatMessage::assistant("new"))
        .unwrap());

    let messages = backend.load(key);
    assert_eq!(messages.len(), 2);
    assert_eq!(messages[0].content, "first");
    assert_eq!(messages[1].content, "new");
}

#[test]
fn failed_rewrite_preserves_original_file() {
    let disk = Disk::new();
    let store = Store::new(&disk);
    let key = "rewrite_failure";

    store.append(key, &ChatMessage::user("first")).unwrap();
    store
        .append(key, &ChatMessage::assistant("second"))
        .unwrap();
    let original = disk.read(&data_file(key));
    let names: Vec<String> = disk.files.borrow().keys().cloned().collect();

    let rewriting = rewrite(
        key.to_string(),
        vec![ChatMessage::user("replacement")],
        Outcome::Done,
    );
    let mut worker = Worker::new(&disk, rewriting);
    worker.fail_at = Some(4);
    let result = worker.finish();

    assert!(matches!(result, Err(StoreError::Io(_))));
    assert!(result.is_err());
    assert_eq!(disk.read(&data_file(key)), original);
    let names_after: Vec<String> = disk.files.borrow().keys().cloned().collect();
    assert_eq!(names_after, names);
}

#[test]
fn concurrent_append_waits_for_update_last_commit() {
    let disk = Disk::new();
    let update_store = Store::new(&disk);
    let append_store = Store::new(&disk);
    let key = "concurrent_update";
    update_store
        .append(key, &ChatMessage::user("first"))
        .unwrap();
    update_store
        .append(key, &ChatMessage::assistant("old"))
        .unwrap();

    let update = update_store
        .store
        .update_last(key, &ChatMessage::assistant("new"));
    let mut updater = Worker::new(&disk, update);
    while !matches!(
        updater.operation.as_ref().unwrap().action,
        Action::Persist { .. }
    ) {
        assert!(updater.step());
    }

    let append = append_store
        .store
        .append(key, &ChatMessage::user("concurrent"));
    let mut appender = Worker::new(&disk, append);
    assert!(!appender.step());
    assert!(appender.result.is_none());

    assert!(updater.finish().map(flag).unwrap());
    appender.finish().unwrap();

    let messages = update_store.load(key);
    assert_eq!(messages.len(), 3);
    assert_eq!(messages[0].content, "first");
    assert_eq!(messages[1].content, "new");
    assert_eq!(messages[2].content, "concurrent");
}

#[test]
fn compact_removes_corrupt_lines() {
    let disk = Disk::new();
    let store = Store::new(&disk);
    let key = "compact_test";

    let lines = strings(&[
        r#"{"role":"user","content":"ok"}"#,
        "corrupt line",
        r#"{"role":"assistant","content":"hi"}"#,
    ]);
    disk.write(&data_file(key), &frame_lines(&lines));

    store.compact(key).unwrap();

    let raw = String::from_utf8(disk.read(&data_file(key))).unwrap();
    assert_eq!(raw.trim().lines().count(), 2);
}

#[test]
fn session_backend_trait_works_via_dyn() {
    let disk = Disk::new();
    let backend = Store::new(&disk);

    backend
        .append("trait_test", &ChatMessage::user("hello"))
        .unwrap();
    let msgs = backend.load("trait_test");
    assert_eq!(msgs.len(), 1);
}

#[test]
fn handles_corrupt_lines_gracefully() {
    let disk = Disk::new();
    let store = Store::new(&disk);
    let key = "corrupt_test";

    let lines = strings(&[
        r#"{"role":"user","content":"hello"}"#,
        "this is not valid json",
        r#"{"role":"assistant","content":"world"}"#,
    ]);
    disk.write(&data_file(key), &frame_lines(&lines));

    let messages = store.load(key);
    assert_eq!(messages.len(), 2);
    assert_eq!(messages[0].content, "hello");
    assert_eq!(messages[1].content, "world");
}

#[test]
fn clear_messages_truncates_file() {
    let disk = Disk::new();
    let store = Store::new(&disk);
    let key = "clear_test";

    store.append(key, &ChatMessage::user("hello")).unwrap();
    store.append(key, &ChatMessage::assistant("world")).unwrap();

    let cleared = store.clear_messages(key).unwrap();
    assert_eq!(cleared, 2);
    assert!(store.load(key).is_empty());
    assert!(disk.has(&data_file(key)));
}

#[test]
fn clear_messages_empty_returns_zero() {
    let disk = Disk::new();
    let store = Store::new(&disk);
    assert_eq!(store.clear_messages("nonexistent").unwrap(), 0);
}

#[test]
fn clear_messages_does_not_affect_other_sessions() {
    let disk = Disk::new();
    let store = Store::new(&disk);

    store
        .append("alice", &ChatMessage::user("alice msg"))
        .unwrap();
    store.append("bob", &ChatMessage::user("bob msg")).unwrap();

    store.clear_messages("alice").unwrap();
    assert!(store.load("alice").is_empty());
    assert_eq!(store.load("bob").len(), 1);
}

#[test]
fn clear_messages_then_append_works() {
    let disk = Disk::new();
    let store = Store::new(&disk);
    let key = "reuse_test";

    store.append(key, &ChatMessage::user("old")).unwrap();
    store.clear_messages(key).unwrap();
    store.append(key, &ChatMessage::user("new")).unwrap();

    let messages = store.load(key);
    assert_eq!(messages.len(), 1);
    assert_eq!(messages[0].content, "new");
}

#[test]
fn delete_session_removes_jsonl_file() {
    let disk = Disk::new();
    let store = Store::new(&disk);
    let key = "delete_test";

    store.append(key, &ChatMessage::user("hello")).unwrap();
    assert_eq!(store.load(key).len(), 1);

    let deleted = store.delete_session(key).unwrap();
    assert!(deleted);
    assert!(store.load(key).is_empty());
    assert!(!disk.has(&data_file(key)));
    assert!(disk.has(&lock_file(key)));
}

#[test]
fn delete_session_nonexistent_returns_false() {
    let disk = Disk::new();
    let store = Store::new(&disk);

    let deleted = store.delete_session("nonexistent").unwrap();
    assert!(!deleted);
}

#[test]
fn delete_session_via_trait() {
    let disk = Disk::new();
    let backend = Store::new(&disk);

    backend
        .append("trait_delete", &ChatMessage::user("hello"))
        .unwrap();
    assert_eq!(backend.load("trait_delete").len(), 1);

    let deleted = backend.delete_session("trait_delete").unwrap();
    assert!(deleted);
    assert!(backend.load("trait_delete").is_empty());
}

#[test]
fn session_exists_tracks_lifecycle() {
    let disk = Disk::new();
    let backend = Store::new(&disk);

    assert!(!backend.session_exists("ghost"));

    backend
        .append("ghost", &ChatMessage::user("first"))
        .unwrap();
    assert!(backend.session_exists("ghost"));

    backend.delete_session("ghost").unwrap();
    assert!(!backend.session_exists("ghost"));
}

#[test]
fn conversation_id_resolve_is_idempotent_jsonl() {
    let disk = Disk::new();
    let store = Store::new(&disk);

    let id1 = store.resolve_or_create_conversation_id("k").unwrap();
    let id2 = store.resolve_or_create_conversation_id("k").unwrap();
    assert!(!id1.is_empty());
    assert_eq!(id1, id2, "repeated resolve must return the same id");
    assert!(disk.has(&meta_file("k")));
}

#[test]
fn conversation_id_legacy_jsonl_backfills_sidecar() {
    let disk = Disk::new();
    let store = Store::new(&disk);

    store.append("legacy", &ChatMessage::user("old")).unwrap();
    assert!(!disk.has(&meta_file("legacy")), "legacy has no sidecar");

    let id = store.resolve_or_create_conversation_id("legacy").unwrap();
    assert!(!id.is_empty());
    assert!(
        disk.has(&meta_file("legacy")),
        "resolve must create sidecar"
    );
    assert_eq!(
        store.resolve_or_create_conversation_id("legacy").unwrap(),
        id,
        "re-resolve returns the same id"
    );
}

#[test]
fn conversation_id_survives_reopen_jsonl() {
    let disk = Disk::new();
    let id_before = {
        let store = Store::new(&disk);
        store.resolve_or_create_conversation_id("persist").unwrap()
    };
    let store2 = Store::new(&disk);
    let id_after = store2.resolve_or_create_conversation_id("persist").unwrap();
    assert_eq!(id_before, id_after);
}

#[test]
fn conversation_id_clear_and_rotate_clears_history_and_mints_new_id_jsonl() {
    let disk = Disk::new();
    let store = Store::new(&disk);

    store.append("rot", &ChatMessage::user("a")).unwrap();
    store.append("rot", &ChatMessage::assistant("b")).unwrap();
    let id1 = store.resolve_or_create_conversation_id("rot").unwrap();
    assert_eq!(store.load("rot").len(), 2);

    let id2 = store.clear_and_rotate_conversation("rot").unwrap();
    assert_ne!(id1, id2, "rotate must mint a fresh id");
    assert!(store.load("rot").is_empty(), "rotate must clear history");
    assert!(disk.has(&data_file("rot")));
    let stored = read_record(&disk.read(&meta_file("rot"))).unwrap();
    assert_eq!(stored.as_deref(), Some(id2.as_str()));
    assert_eq!(store.resolve_or_create_conversation_id("rot").unwrap(), id2);
}

#[test]
fn conversation_id_other_key_isolation_jsonl() {
    let disk = Disk::new();
    let store = Store::new(&disk);

    let id_a = store.resolve_or_create_conversation_id("a").unwrap();
    let id_b = store.resolve_or_create_conversation_id("b").unwrap();
    assert_ne!(id_a, id_b);

    let id_a2 = store.clear_and_rotate_conversation("a").unwrap();
    assert_ne!(id_a, id_a2);
    assert_eq!(
        store.resolve_or_create_conversation_id("b").unwrap(),
        id_b,
        "other-key isolation: rotate(a) must not change b"
    );
}

#[test]
fn conversation_id_delete_then_recreate_mints_new_id_jsonl() {
    let disk = Disk::new();
    let store = Store::new(&disk);

    store.append("del", &ChatMessage::user("x")).unwrap();
    let id1 = store.resolve_or_create_conversation_id("del").unwrap();
    assert!(store.delete_session("del").unwrap());
    assert!(!disk.has(&meta_file("del")), "delete must remove sidecar");
    let id2 = store.resolve_or_create_conversation_id("del").unwrap();
    assert_ne!(id1, id2, "delete + recreate must mint a fresh id");
}

/// Lets the workers take turns, each as often as its number says, until all are done.
fn take_turns(workers: &mut [(Worker<'_>, usize)]) {
    while workers.iter().any(|(w, _)| w.result.is_none()) {
        for (worker, turns) in workers.iter_mut() {
            for _ in 0..*turns {
                if worker.result.is_none() {
                    worker.step();
                }
            }
        }
    }
}

#[test]
fn conversation_id_concurrent_resolve_converges_jsonl() {
    let key = "conv_concurrent";
    for turns in [(1, 1), (1, 2), (3, 1), (2, 5)] {
        let disk = Disk::new();
        let a = Store::new(&disk);
        let b = Store::new(&disk);
        let mut workers = [
            (
                Worker::new(&disk, a.store.resolve_or_create_conversation_id(key)),
                turns.0,
            ),
            (
                Worker::new(&disk, b.store.resolve_or_create_conversation_id(key)),
                turns.1,
            ),
        ];
        take_turns(&mut workers);
        let [(first, _), (second, _)] = workers;
        let id1 = id(first.result.unwrap().unwrap());
        let id2 = id(second.result.unwrap().unwrap());

        assert!(!id1.is_empty() && !id2.is_empty());
        assert_eq!(
            id1, id2,
            "two concurrent first-access resolves must converge on one id"
        );

        let c = Store::new(&disk);
        assert_eq!(c.resolve_or_create_conversation_id(key).unwrap(), id1);
    }
}

#[test]
fn conversation_id_resolve_and_rotate_race_stays_consistent_jsonl() {
    for before in 0..64 {
        let disk = Disk::new();
        let a = Store::new(&disk);
        let initial = a.resolve_or_create_conversation_id("race").unwrap();
        let b = Store::new(&disk);

        let rotation = b.store.clear_and_rotate_conversation("race");
        let mut rotator = Worker::new(&disk, rotation);
        let mut ids = Vec::new();
        for round in 0..64 {
            let resolving = a.store.resolve_or_create_conversation_id("race");
            let mut resolver = Worker::new(&disk, resolving);
            while resolver.result.is_none() {
                resolver.step();
                if round >= before && rotator.result.is_none() {
                    rotator.step();
                }
            }
            ids.push(id(resolver.result.unwrap().unwrap()));
        }

        let rotated = id(rotator.finish_now());
        assert_ne!(rotated, initial);
        for id in &ids {
            assert!(!id.is_empty(), "race produced an empty id");
            assert!(
                *id == initial || *id == rotated,
                "race produced an id ({id}) that is neither the pre- nor post-rotate value"
            );
        }

        let c = Store::new(&disk);
        assert_eq!(
            c.resolve_or_create_conversation_id("race").unwrap(),
            rotated,
            "final persisted id must be the rotated one"
        );
        assert!(
            c.load("race").is_empty(),
            "rotate must have cleared history"
        );
    }
}

impl Worker<'_> {
    fn finish_now(mut self) -> Outcome {
        while self.result.is_none() {
            assert!(self.step(), "waits for a lock");
        }
        self.result.take().unwrap().unwrap()
    }
}

#[test]
fn clear_and_rotate_mints_fresh_id_and_truncates() {
    let disk = Disk::new();
    let store = Store::new(&disk);

    store.append("rot", &ChatMessage::user("a")).unwrap();
    store.append("rot", &ChatMessage::assistant("b")).unwrap();
    let id_before = store.resolve_or_create_conversation_id("rot").unwrap();
    assert_eq!(store.load("rot").len(), 2);

    let id_after = store.clear_and_rotate_conversation("rot").unwrap();
    assert_ne!(id_after, id_before, "rotate must mint a fresh id");
    assert!(store.load("rot").is_empty(), "history must be truncated");
    assert_eq!(
        store.resolve_or_create_conversation_id("rot").unwrap(),
        id_after,
        "fresh id must be persisted to the sidecar"
    );
}

#[test]
fn delete_session_propagates_sidecar_removal_error() {
    let disk = Disk::new();
    let store = Store::new(&disk);

    store.append("del", &ChatMessage::user("x")).unwrap();
    let _ = store.resolve_or_create_conversation_id("del").unwrap();
    let meta_path = meta_file("del");
    let data_path = data_file("del");
    assert!(disk.has(&meta_path), "sidecar must exist after resolve");
    assert!(disk.has(&data_path), "data must exist after append");

    disk.files.borrow_mut().remove(&meta_path);
    disk.directories.borrow_mut().insert(meta_path);

    let result = store.delete_session("del");
    assert!(
        result.is_err(),
        "delete must propagate sidecar-removal failure"
    );
    assert!(
        disk.has(&data_path),
        "data file must survive when sidecar removal fails first"
    );
}

#[test]
fn names_of_the_files_of_a_session() {
    assert_eq!(data_file("a/b c"), "a_b_c.jsonl");
    assert_eq!(lock_file("a/b c"), "a_b_c.lock");
    assert_eq!(meta_file("a/b c"), "a_b_c.meta.json");
    assert_eq!(meta_temp_file("a/b c"), "a_b_c.meta.tmp");
    assert_eq!(sanitize_session_key("Zoë-9_x"), "Zoë-9_x");
    assert_eq!(sanitize_session_key(""), "");
    let listed = session_keys(&strings(&[
        "a.jsonl",
        "a.lock",
        "a.meta.json",
        "a.meta.tmp",
        ".jsonl",
        "jsonl",
        "b.c.jsonl",
    ]));
    assert_eq!(listed, strings(&["a", "", "b.c"]));
    assert_eq!(SessionStore::new().0.sessions_dir, "sessions");
}

#[test]
fn lines_of_a_history() {
    let content = b"one\n\n  two \r\n\xff\xfe\n\tthree".to_vec();
    assert_eq!(read_lines(&content), strings(&["one", "two", "three"]));
    let lines = strings(&["one", "zwei ü", "3"]);
    assert_eq!(frame_lines(&lines), "one\nzwei ü\n3\n".as_bytes());
    assert_eq!(read_lines(&frame_lines(&lines)), lines);
    assert!(read_lines(&Vec::new()).is_empty());
}

#[test]
fn records_of_ids() {
    assert_eq!(
        write_record("abc"),
        b"{\"conversation_id\":\"abc\"}\n".to_vec()
    );
    assert_eq!(
        write_record("a\"b\n"),
        b"{\"conversation_id\":\"a\\\"b\\n\"}\n".to_vec()
    );
    for id in ["abc", "a\"b\\c\n\u{1}", "ünï"] {
        assert_eq!(
            read_record(&write_record(id)).unwrap(),
            Some(id.to_string())
        );
    }
    assert_eq!(read_record(&write_record("")).unwrap(), None);
    assert_eq!(read_record(&b"{}".to_vec()).unwrap(), None);
    assert_eq!(read_record(&b"[1]".to_vec()).unwrap(), None);
    assert_eq!(
        read_record(&b"{\"conversation_id\":7}".to_vec()).unwrap(),
        None
    );
    assert!(matches!(
        read_record(&b"{\"conversation_id\":".to_vec()),
        Err(RecordError::NotJson(_))
    ));
    assert!(matches!(
        read_record(&b"\xff".to_vec()),
        Err(RecordError::NotText(_))
    ));
}

#[test]
fn damaged_records_are_errors() {
    let disk = Disk::new();
    let store = Store::new(&disk);
    disk.write(&meta_file("k"), b"not json");
    assert!(matches!(
        store.resolve_or_create_conversation_id("k"),
        Err(StoreError::BadRecord(RecordError::NotJson(_)))
    ));
    disk.write(&meta_file("k"), b"\xff");
    assert!(matches!(
        store.resolve_or_create_conversation_id("k"),
        Err(StoreError::BadRecord(RecordError::NotText(_)))
    ));
    assert_eq!(disk.read(&meta_file("k")), b"\xff".to_vec());
    disk.write(&meta_file("k"), b"{\"conversation_id\":\"\"}");
    let id = store.resolve_or_create_conversation_id("k").unwrap();
    assert_eq!(disk.read(&meta_file("k")), write_record(&id));
    disk.files.borrow_mut().remove(&meta_file("k"));
    disk.directories.borrow_mut().insert(meta_file("k"));
    assert!(matches!(
        store.resolve_or_create_conversation_id("k"),
        Err(StoreError::Io(_))
    ));
}

#[test]
fn id_tasks_take_the_id() {
    let disk = Disk::new();
    let store = Store::new(&disk);
    store.append("k", &ChatMessage::user("a")).unwrap();
    let task = IdTask {
        key: "k".to_string(),
        clear: false,
    };
    assert_eq!(id(store.run(task.with_id("mine".to_string())).unwrap()), "mine");
    assert_eq!(
        disk.read(&meta_file("k")),
        b"{\"conversation_id\":\"mine\"}\n".to_vec()
    );
    assert!(!disk.has(&meta_temp_file("k")));
    assert_eq!(store.load("k").len(), 1);
    let task = IdTask {
        key: "k".to_string(),
        clear: true,
    };
    assert_eq!(
        id(store.run(task.with_id("other".to_string())).unwrap()),
        "other"
    );
    assert!(store.load("k").is_empty());
    assert_eq!(disk.read(&data_file("k")), Vec::<u8>::new());
}

#[test]
fn a_mint_is_asked_for_before_it_is_made() {
    let rotating = SessionStore::new().0.clear_and_rotate_conversation("k");
    let mut reaction = Reaction::<String>::Step(Step::Perform(rotating));
    for _ in 0..3 {
        reaction = match reaction {
            Reaction::Step(Step::Perform(operation)) => operation.react(Event::Done),
            other => panic!("{:?}", other),
        };
    }
    match reaction {
        Reaction::Mint(task) => assert!(task.clear && task.key == "k"),
        other => panic!("{:?}", other),
    }
}

#[test]
fn minted_ids_are_random_uuids() {
    let disk = Disk::new();
    let store = Store::new(&disk);
    let resolved = store.resolve_or_create_conversation_id("k").unwrap();
    let parsed = uuid::Uuid::parse_str(&resolved).unwrap();
    assert_eq!(parsed.get_version(), Some(uuid::Version::Random));
    assert_eq!(parsed.to_string(), resolved);
}

#[test]
fn history_operations_keep_the_id() {
    let disk = Disk::new();
    let store = Store::new(&disk);
    store.append("k", &ChatMessage::user("a")).unwrap();
    let id = store.resolve_or_create_conversation_id("k").unwrap();
    store.append("k", &ChatMessage::user("b")).unwrap();
    store.update_last("k", &ChatMessage::user("c")).unwrap();
    store.compact("k").unwrap();
    store.remove_last("k").unwrap();
    store.clear_messages("k").unwrap();
    assert_eq!(store.resolve_or_create_conversation_id("k").unwrap(), id);
    assert_eq!(store.list_sessions(), strings(&["k"]));
}

#[test]
fn remove_last_undoes_append() {
    let disk = Disk::new();
    let store = Store::new(&disk);
    store.append("k", &ChatMessage::user("a\nb")).unwrap();
    let before = disk.read(&data_file("k"));
    store.append("k", &ChatMessage::assistant("c")).unwrap();
    assert!(store.remove_last("k").unwrap());
    assert_eq!(disk.read(&data_file("k")), before);
    assert!(store.remove_last("k").unwrap());
    assert!(!store.remove_last("k").unwrap());
    assert!(!store
        .update_last("k", &ChatMessage::user("none to replace"))
        .unwrap());
}

#[test]
fn compact_creates_the_file_of_a_missing_history() {
    let disk = Disk::new();
    let store = Store::new(&disk);
    store.compact("k").unwrap();
    assert_eq!(disk.read(&data_file("k")), Vec::<u8>::new());
}

#[test]
fn a_broken_rewrite_leaves_the_history_at_every_step() {
    for fail_at in 0..8 {
        let disk = Disk::new();
        let store = Store::new(&disk);
        store.append("k", &ChatMessage::user("a")).unwrap();
        store.append("k", &ChatMessage::user("b")).unwrap();
        let before = disk.read(&data_file("k"));
        let mut worker = Worker::new(&disk, store.store.remove_last("k"));
        worker.fail_at = Some(fail_at);
        let result = worker.finish();
        match fail_at {
            1 => assert!(!flag(result.unwrap())),
            _ => assert!(matches!(result, Err(StoreError::Io(_)))),
        }
        assert_eq!(disk.read(&data_file("k")), before);
    }
}

#[test]
fn a_broken_rotation_never_clears_under_the_old_id() {
    for fail_at in 0..10 {
        let disk = Disk::new();
        let store = Store::new(&disk);
        store.append("k", &ChatMessage::user("a")).unwrap();
        let old = store.resolve_or_create_conversation_id("k").unwrap();
        let rotating = store.store.clear_and_rotate_conversation("k");
        let mut worker = Worker::new(&disk, rotating);
        worker.fail_at = Some(fail_at);
        assert!(worker.finish().is_err());
        let now = store.resolve_or_create_conversation_id("k").unwrap();
        assert!(now != old || store.load("k").len() == 1);
        assert_eq!(now == old, fail_at < 8);
    }
}

#[test]
fn a_broken_append_adds_at_most_the_beginning_of_a_line() {
    let disk = Disk::new();
    let store = Store::new(&disk);
    store.append("k", &ChatMessage::user("a")).unwrap();
    let before = disk.read(&data_file("k"));
    let mut worker = Worker::new(&disk, store.store.append("k", &ChatMessage::user("b")));
    worker.fail_at = Some(5);
    assert!(worker.finish().is_err());
    let after = disk.read(&data_file("k"));
    assert!(after.starts_with(&before) && after.len() > before.len());
    assert_eq!(store.load("k").len(), 1);
}

#[test]
fn times_and_metadata() {
    let disk = Disk::new();
    let store = Store::new(&disk);
    assert_eq!(store.session_mtime("k"), None);
    disk.write("k.jsonl", b"12345");
    disk.write("strange name.jsonl", b"");
    let time = Timestamp { secs: 5, nanos: 1 };
    assert_eq!(store.session_mtime("k"), Some(time));
    let list = store.list_sessions_with_metadata();
    assert_eq!(list.len(), 2);
    assert_eq!(list[0].key, "k");
    assert_eq!((list[0].created_at, list[0].last_activity), (time, time));
    assert_eq!(list[0].message_count, 0);
    assert!(list[0].name.is_none() && list[0].conversation_id.is_none());
    assert!(list[0].agent_alias.is_none() && list[0].channel_id.is_none());
    assert!(list[0].room_id.is_none() && list[0].sender_id.is_none());
    assert_eq!(list[1].key, "strange name");
    assert_eq!(
        list[1].last_activity,
        Timestamp {
            secs: 1_000_000,
            nanos: 2
        }
    );
    *disk.unlisted.borrow_mut() = true;
    assert!(store.list_sessions().is_empty());
    assert!(store.list_sessions_with_metadata().is_empty());
}

#[test]
fn outcomes_out_of_turn_are_refused() {
    let store = SessionStore::new().0;
    for operation in [
        store.load("k"),
        store.append("k", &ChatMessage::user("a")),
        store.remove_last("k"),
        store.delete_session("k"),
        store.session_mtime("k"),
        store.list_sessions(),
        store.resolve_or_create_conversation_id("k"),
        store.clear_and_rotate_conversation("k"),
    ] {
        assert!(matches!(
            operation.advance::<String>(Event::Encoded(Vec::new())),
            Step::Finished(Err(StoreError::OutOfTurn))
        ));
    }
    assert!(matches!(
        Next::ReturnPresence.react(Event::Failed("gone".to_string())),
        Reaction::Step(Step::Finished(Err(StoreError::Io(_))))
    ));
}

#[test]
fn edits_are_exact() {
    let messages = || {
        vec![
            ChatMessage::user("a"),
            ChatMessage::user("b"),
        ]
    };
    let written = |step: Step<String>| match step {
        Step::Perform(operation) => {
            assert!(matches!(operation.action, Action::CreateTemp));
            match &operation.rest[0] {
                Action::Encode { messages } => messages.clone(),
                other => panic!("{:?}", other),
            }
        }
        other => panic!("{:?}", other),
    };
    let key = || "k".to_string();
    match Edit::Load.apply::<String>(key(), messages()) {
        Step::Finished(Ok(Outcome::Messages(loaded))) => assert_eq!(loaded, messages()),
        other => panic!("{:?}", other),
    }
    assert_eq!(
        written(Edit::RemoveLast.apply(key(), messages())),
        vec![ChatMessage::user("a")]
    );
    assert_eq!(
        written(Edit::UpdateLast(ChatMessage::assistant("c")).apply(key(), messages())),
        vec![ChatMessage::user("a"), ChatMessage::assistant("c")]
    );
    assert_eq!(
        written(Edit::Compact.apply(key(), messages())),
        messages()
    );
    assert!(written(Edit::Clear.apply(key(), messages())).is_empty());
}

/// Runs two operations to their ends, with all ways of switching between them twice.
fn mixed(
    prepare: impl Fn(&Store<'_>),
    left: impl Fn(&SessionStore) -> Operation,
    right: impl Fn(&SessionStore) -> Operation,
    check: impl Fn(&Store<'_>),
) {
    for left_first in 0..12 {
        for right_next in 0..12 {
            let disk = Disk::new();
            let store = Store::new(&disk);
            prepare(&store);
            let mut a = Worker::new(&disk, left(&store.store));
            let mut b = Worker::new(&disk, right(&store.store));
            for _ in 0..left_first {
                if a.result.is_none() {
                    a.step();
                }
            }
            for _ in 0..right_next {
                if b.result.is_none() {
                    b.step();
                }
            }
            let mut workers = [(a, 1), (b, 1)];
            take_turns(&mut workers);
            assert!(workers.iter().all(|(w, _)| matches!(w.result, Some(Ok(_)))));
            check(&store);
        }
    }
}

#[test]
fn append_and_rotation_do_not_mix() {
    mixed(
        |store| store.append("k", &ChatMessage::user("old")).unwrap(),
        |scripts| scripts.append("k", &ChatMessage::user("new")),
        |scripts| scripts.clear_and_rotate_conversation("k"),
        |store| {
            let messages = store.load("k");
            assert!(messages.is_empty() || messages == vec![ChatMessage::user("new")]);
        },
    );
}

#[test]
fn append_and_edit_do_not_mix() {
    mixed(
        |store| {
            store.append("k", &ChatMessage::user("a")).unwrap();
            store.append("k", &ChatMessage::user("b")).unwrap();
        },
        |scripts| scripts.append("k", &ChatMessage::user("c")),
        |scripts| scripts.update_last("k", &ChatMessage::user("d")),
        |store| {
            let contents: Vec<String> = store.load("k").into_iter().map(|m| m.content).collect();
            assert!(contents == strings(&["a", "d", "c"]) || contents == strings(&["a", "b", "d"]));
        },
    );
}

#[test]
fn resolutions_agree() {
    mixed(
        |_| {},
        |scripts| scripts.resolve_or_create_conversation_id("k"),
        |scripts| scripts.resolve_or_create_conversation_id("k"),
        |store| {
            let id = store.resolve_or_create_conversation_id("k").unwrap();
            assert_eq!(store.disk.read(&meta_file("k")), write_record(&id));
        },
    );
}

#[test]
fn clearing_empties_whatever_the_file_holds() {
    let disk = Disk::new();
    let store = Store::new(&disk);
    disk.write(&data_file("k"), b"corrupt line\n");
    assert_eq!(store.clear_messages("k").unwrap(), 0);
    assert_eq!(disk.read(&data_file("k")), Vec::<u8>::new());

    disk.write(&data_file("k"), b"broken off");
    assert_eq!(store.clear_messages("k").unwrap(), 0);
    store.append("k", &ChatMessage::user("new")).unwrap();
    assert_eq!(store.load("k"), vec![ChatMessage::user("new")]);

    assert_eq!(store.clear_messages("missing").unwrap(), 0);
    assert!(!disk.has(&data_file("missing")));
    disk.directories.borrow_mut().insert(data_file("dir"));
    assert_eq!(store.clear_messages("dir").unwrap(), 0);
    assert!(!disk.files.borrow().contains_key(&data_file("dir")));
}

#[test]
fn unread_histories_have_no_messages() {
    let key = || "k".to_string();
    assert!(matches!(
        Edit::Clear.apply_unread::<String>(key()),
        Step::Finished(Ok(Outcome::Count(0)))
    ));
    assert!(matches!(
        Edit::RemoveLast.apply_unread::<String>(key()),
        Step::Finished(Ok(Outcome::Flag(false)))
    ));
    assert!(matches!(
        Edit::Compact.apply_unread::<String>(key()),
        Step::Perform(_)
    ));
}

#[test]
fn an_empty_member_is_no_id() {
    assert_eq!(id_of_member(Some("x".to_string())), Some("x".to_string()));
    assert_eq!(id_of_member(Some(String::new())), None);
    assert_eq!(id_of_member(None), None);
}

#[test]
fn white_space_is_that_of_unicode() {
    for n in 0..=0x10ffff_u32 {
        if let Some(c) = char::from_u32(n) {
            let code = c as u32;
            let white = matches!(
                code,
                0x9..=0xd
                    | 0x20
                    | 0x85
                    | 0xa0
                    | 0x1680
                    | 0x2000..=0x200a
                    | 0x2028
                    | 0x2029
                    | 0x202f
                    | 0x205f
                    | 0x3000
            );
            let trimmed = trim(&format!("{c}x{c}"));
            assert_eq!(trimmed == "x", white, "{code:x}");
        }
    }
    assert_eq!(trim(" {} "), "{}");
}

#[test]
fn many_resolutions_agree() {
    let disk = Disk::new();
    let store = Store::new(&disk);
    let mut workers: Vec<(Worker<'_>, usize)> = (0..5)
        .map(|n| {
            let resolving = store.store.resolve_or_create_conversation_id("k");
            (Worker::new(&disk, resolving), n % 3 + 1)
        })
        .collect();
    take_turns(&mut workers);
    let recorded = store.resolve_or_create_conversation_id("k").unwrap();
    for (worker, _) in workers {
        assert_eq!(id(worker.result.unwrap().unwrap()), recorded);
    }
}

#[test]
fn lookups_that_fail_are_dated_by_the_clock_alone() {
    let disk = Disk::new();
    let store = Store::new(&disk);
    for name in ["a.jsonl", "b x.jsonl", "c.jsonl"] {
        disk.write(name, b"12");
    }
    let list = store.list_sessions_with_metadata();
    let seconds: Vec<i64> = list.iter().map(|entry| entry.last_activity.secs).collect();
    assert_eq!(seconds, vec![2, 1_000_000, 2]);
}

#[test]
fn compacting_is_settled() {
    let disk = Disk::new();
    let store = Store::new(&disk);
    disk.write(
        &data_file("k"),
        b"\n{\"content\":\"a\", \"role\":\"user\"}\nno json\n\xff\n",
    );
    let before = store.load("k");
    let id = store.resolve_or_create_conversation_id("k").unwrap();
    store.compact("k").unwrap();
    let lines: Vec<String> = before.iter().map(encode).collect();
    assert_eq!(disk.read(&data_file("k")), frame_lines(&lines));
    assert_eq!(store.load("k"), before);
    let compacted = disk.files.borrow().clone();
    store.compact("k").unwrap();
    assert_eq!(*disk.files.borrow(), compacted);
    assert_eq!(store.resolve_or_create_conversation_id("k").unwrap(), id);
}

#[test]
fn removing_the_only_message_leaves_an_empty_file() {
    let disk = Disk::new();
    let store = Store::new(&disk);
    store.append("k", &ChatMessage::user("a")).unwrap();
    assert!(store.remove_last("k").unwrap());
    assert_eq!(disk.read(&data_file("k")), Vec::<u8>::new());
}

#[test]
fn resolutions_race_with_a_rotation() {
    for first in 1..4 {
        let disk = Disk::new();
        let store = Store::new(&disk);
        store.append("k", &ChatMessage::user("a")).unwrap();
        let initial = store.resolve_or_create_conversation_id("k").unwrap();
        let mut workers: Vec<(Worker<'_>, usize)> = (0..6)
            .map(|n| {
                let operation = if n == 2 {
                    store.store.clear_and_rotate_conversation("k")
                } else {
                    store.store.resolve_or_create_conversation_id("k")
                };
                (Worker::new(&disk, operation), (n + first) % 4 + 1)
            })
            .collect();
        take_turns(&mut workers);
        let ids: Vec<String> = workers
            .into_iter()
            .map(|(worker, _)| id(worker.result.unwrap().unwrap()))
            .collect();
        let rotated = &ids[2];
        assert!(ids.iter().all(|id| *id == initial || id == rotated));
        assert_eq!(
            disk.read(&meta_file("k")),
            write_record(rotated)
        );
        assert!(store.load("k").is_empty());
    }
}
