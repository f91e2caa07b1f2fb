use std::cell::RefCell;
use std::collections::BTreeMap;

use zeroclaw_sessions::channel_session::{
    BackendCall, ChannelSessionState as Ids, ChannelStep, MAX_CHANNEL_SESSIONS,
};

/// A backend.
trait SessionBackend {
    fn resolve_or_create_conversation_id(&self, session_key: &str) -> Result<String, String>;
    fn clear_and_rotate_conversation(&self, session_key: &str) -> Result<String, String>;
}

/// A backend that keeps its records in memory.
struct Records {
    ids: RefCell<BTreeMap<String, String>>,
    calls: RefCell<Vec<String>>,
}

impl Records {
    fn new() -> Records {
        Records {
            ids: RefCell::new(BTreeMap::new()),
            calls: RefCell::new(Vec::new()),
        }
    }
}

impl SessionBackend for &Records {
    fn resolve_or_create_conversation_id(&self, session_key: &str) -> Result<String, String> {
        self.calls
            .borrow_mut()
            .push(format!("resolve {}", session_key));
        let mut ids = self.ids.borrow_mut();
        let fresh = format!("record {}", ids.len());
        Ok(ids
            .entry(session_key.to_string())
            .or_insert(fresh)
            .to_string())
    }

    fn clear_and_rotate_conversation(&self, session_key: &str) -> Result<String, String> {
        self.calls
            .borrow_mut()
            .push(format!("rotate {}", session_key));
        let mut ids = self.ids.borrow_mut();
        let fresh = format!("rotated {}", ids.len());
        ids.insert(session_key.to_string(), fresh.clone());
        Ok(fresh)
    }
}

/// A backend that fails.
struct Broken;

impl SessionBackend for Broken {
    fn resolve_or_create_conversation_id(&self, session_key: &str) -> Result<String, String> {
        Err(format!("cannot resolve {}", session_key))
    }

    fn clear_and_rotate_conversation(&self, session_key: &str) -> Result<String, String> {
        Err(format!("cannot rotate {}", session_key))
    }
}

/// The ids of channels, with the calls of the backend made.
struct ChannelSessionState<B> {
    ids: Ids<B>,
}

impl<B: SessionBackend> ChannelSessionState<B> {
    fn new(backend: Option<B>) -> Self {
        ChannelSessionState {
            ids: Ids::new(backend),
        }
    }

    fn finish(&self, first: ChannelStep<String>) -> Result<String, String> {
        let mut step = first;
        loop {
            match step {
                ChannelStep::Finished(result) => return result,
                ChannelStep::Ask(call) => {
                    let backend = self.ids.backend().unwrap();
                    let reply = match &call {
                        BackendCall::ResolveOrCreateConversationId { session_key } => {
                            backend.resolve_or_create_conversation_id(session_key)
                        }
                        BackendCall::ClearAndRotateConversation { session_key } => {
                            backend.clear_and_rotate_conversation(session_key)
                        }
                    };
                    step = call.advance(reply);
                }
            }
        }
    }

    fn backend(&self) -> Option<&B> {
        self.ids.backend()
    }

    fn resolve_conversation_id(&mut self, key: &str) -> Result<String, String> {
        let step = self.ids.resolve_conversation_id(key);
        self.finish(step)
    }

    fn clear_and_rotate_conversation(&mut self, key: &str) -> Result<String, String> {
        let step = self.ids.clear_and_rotate_conversation(key);
        self.finish(step)
    }

    fn memory_id_count(&self) -> usize {
        self.ids.memory_id_count()
    }

    fn lookup(&mut self, key: &str) -> Option<String> {
        self.ids.lookup(key)
    }

    fn assign(&mut self, key: &str, id: &str) {
        self.ids.assign(key, id)
    }
}

fn memory_only() -> ChannelSessionState<Broken> {
    ChannelSessionState::new(None)
}

fn nth_id(n: usize) -> String {
    format!("00000000-0000-4000-8000-{:012}", n)
}

#[test]
fn memory_only_reuses_one_uuid_per_history_key() {
    let mut state = memory_only();

    let first = state
        .resolve_conversation_id("whatsapp.main_room_alice")
        .unwrap();
    let second = state
        .resolve_conversation_id("whatsapp.main_room_alice")
        .unwrap();
    let other = state
        .resolve_conversation_id("whatsapp.main_room_bob")
        .unwrap();

    assert_eq!(first, second);
    assert_ne!(first, other);
    assert_eq!(
        uuid::Uuid::parse_str(&first).unwrap().get_version(),
        Some(uuid::Version::Random)
    );
}

#[test]
fn durable_state_reads_backend_without_mirroring_an_id() {
    let records = Records::new();
    let backend = &records;
    let mut state = ChannelSessionState::new(Some(backend));

    let first = state
        .resolve_conversation_id("linq.main_chat_alice")
        .unwrap();
    let second = state
        .resolve_conversation_id("linq.main_chat_alice")
        .unwrap();

    assert_eq!(first, second);
    assert_eq!(
        backend
            .resolve_or_create_conversation_id("linq.main_chat_alice")
            .unwrap(),
        first
    );
    assert_eq!(state.memory_id_count(), 0);
}

#[test]
fn memory_only_concurrent_first_resolve_materializes_one_entry() {
    let mut state = memory_only();
    let key = "whatsapp.main_room_alice".to_string();
    let n = 8;
    let ids: Vec<String> = (0..n)
        .map(|_| state.resolve_conversation_id(&key).unwrap())
        .collect();
    let first = &ids[0];
    assert!(uuid::Uuid::parse_str(first).is_ok());
    for id in &ids {
        assert_eq!(id, first, "all concurrent resolves must converge on one id");
    }
    assert_eq!(
        state.memory_id_count(),
        1,
        "exactly one entry materialized under contention"
    );
}

#[test]
fn durable_rotation_goes_to_the_backend() {
    let records = Records::new();
    let mut state = ChannelSessionState::new(Some(&records));
    assert_eq!(state.resolve_conversation_id("a").unwrap(), "record 0");
    assert_eq!(state.clear_and_rotate_conversation("a").unwrap(), "rotated 1");
    assert_eq!(state.resolve_conversation_id("a").unwrap(), "rotated 1");
    assert_eq!(state.memory_id_count(), 0);
    assert!(state.backend().is_some());
}

#[test]
fn backend_failures_are_returned_as_they_are() {
    let mut state = ChannelSessionState::new(Some(Broken));
    assert_eq!(
        state.resolve_conversation_id("k"),
        Err("cannot resolve k".to_string())
    );
    assert_eq!(
        state.clear_and_rotate_conversation("k"),
        Err("cannot rotate k".to_string())
    );
    assert_eq!(state.memory_id_count(), 0);
    assert!(memory_only().backend().is_none());
}

#[test]
fn memory_rotation_replaces_the_id_of_its_key_alone() {
    let mut state = memory_only();
    let a = state.resolve_conversation_id("a").unwrap();
    let b = state.resolve_conversation_id("b").unwrap();
    let rotated = state.clear_and_rotate_conversation("a").unwrap();
    assert_ne!(rotated, a);
    assert_eq!(state.resolve_conversation_id("a").unwrap(), rotated);
    assert_eq!(state.resolve_conversation_id("b").unwrap(), b);
    assert_eq!(state.memory_id_count(), 2);
    assert_ne!(rotated, "a");
}

#[test]
fn lookup_and_assign_are_exact() {
    let mut state = memory_only();
    assert_eq!(state.lookup("a"), None);
    state.assign("a", &nth_id(1));
    assert_eq!(state.lookup("a"), Some(nth_id(1)));
    state.assign("a", &nth_id(2));
    assert_eq!(state.lookup("a"), Some(nth_id(2)));
    assert_eq!(state.memory_id_count(), 1);
    assert_eq!(state.resolve_conversation_id("a"), Ok(nth_id(2)));
}

#[test]
fn the_least_recently_used_id_makes_room() {
    let mut state = memory_only();
    for n in 0..MAX_CHANNEL_SESSIONS {
        state.assign(&format!("key {}", n), &nth_id(n));
    }
    assert_eq!(state.memory_id_count(), 1000);
    assert_eq!(state.lookup("key 0"), Some(nth_id(0)));
    state.assign("one more", &nth_id(5000));
    assert_eq!(state.memory_id_count(), 1000);
    assert_eq!(state.lookup("key 1"), None);
    assert_eq!(state.lookup("key 0"), Some(nth_id(0)));
    assert_eq!(state.lookup("key 2"), Some(nth_id(2)));
    assert_eq!(state.lookup("one more"), Some(nth_id(5000)));
    state.assign("key 3", &nth_id(6000));
    assert_eq!(state.memory_id_count(), 1000);
    assert_eq!(state.lookup("key 4"), Some(nth_id(4)));
}

#[test]
fn the_backend_is_asked_once() {
    let records = Records::new();
    let mut state = ChannelSessionState::new(Some(&records));
    state.resolve_conversation_id("a").unwrap();
    assert_eq!(*records.calls.borrow(), vec!["resolve a".to_string()]);
    state.clear_and_rotate_conversation("a").unwrap();
    state.resolve_conversation_id("a").unwrap();
    assert_eq!(
        *records.calls.borrow(),
        vec![
            "resolve a".to_string(),
            "rotate a".to_string(),
            "resolve a".to_string()
        ]
    );
}

#[test]
fn steps_name_the_call_and_take_the_reply() {
    let mut ids = Ids::new(Some(7));
    match ids.resolve_conversation_id::<String>("k") {
        ChannelStep::Ask(BackendCall::ResolveOrCreateConversationId { session_key }) => {
            assert_eq!(session_key, "k")
        }
        other => panic!("{:?}", other),
    }
    match ids.clear_and_rotate_conversation::<String>("k") {
        ChannelStep::Ask(call) => {
            assert!(matches!(
                &call,
                BackendCall::ClearAndRotateConversation { session_key } if session_key == "k"
            ));
            assert!(matches!(
                call.advance(Err("gone".to_string())),
                ChannelStep::Finished(Err(error)) if error == "gone"
            ));
        }
        other => panic!("{:?}", other),
    }
    assert_eq!(ids.backend(), Some(&7));
    assert_eq!(ids.memory_id_count(), 0);
}

#[test]
fn a_hit_refreshes_and_the_oldest_goes() {
    let mut state = memory_only();
    let key = |n: usize| format!("key {}", n);
    let ids: Vec<String> = (0..MAX_CHANNEL_SESSIONS)
        .map(|n| state.resolve_conversation_id(&key(n)).unwrap())
        .collect();
    assert_eq!(state.resolve_conversation_id(&key(0)).unwrap(), ids[0]);
    state.resolve_conversation_id(&key(1000)).unwrap();
    assert_eq!(state.memory_id_count(), 1000);
    assert_eq!(state.resolve_conversation_id(&key(0)).unwrap(), ids[0]);
    assert_ne!(state.resolve_conversation_id(&key(1)).unwrap(), ids[1]);
    assert_eq!(state.memory_id_count(), 1000);
}
