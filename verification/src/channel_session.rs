//! The conversation ids of channels: a durable backend holds them, or else a bounded cache in
//! memory does.

use vstd::prelude::*;

use crate::identity::{draw_id, drawn, is_uuid_v4, optional_text};

verus! {

/// The greatest number of conversation ids that are held in memory.
pub const MAX_CHANNEL_SESSIONS: usize = 1000;

/// The bounded cache of the `lru` crate, which forgets what was used longest ago.
#[verifier::external_type_specification]
#[verifier::external_body]
#[verifier::reject_recursive_types(K)]
#[verifier::reject_recursive_types(V)]
#[verifier::reject_recursive_types(S)]
pub struct ExLruCache<K, V, S>(lru::LruCache<K, V, S>);

/// The hasher that the `lru` crate uses where none is chosen.
#[verifier::external_type_specification]
#[verifier::external_body]
pub struct ExDefaultHasher(lru::DefaultHasher);

/// The keys and values of a cache, the most recently used first.
pub uninterp spec fn cache_entries(cache: lru::LruCache<String, String>) -> Seq<
    (Seq<char>, Seq<char>),
>;

/// How many entries a cache can hold.
pub uninterp spec fn cache_limit(cache: lru::LruCache<String, String>) -> nat;

/// Trusted: `LruCache::new`. The cache is empty and holds at most `limit` entries. The bound on
/// `limit` keeps clear of the capacities that cannot be allocated.
#[verifier::external_body]
fn cache_new(limit: usize) -> (cache: lru::LruCache<String, String>)
    requires
        0 < limit <= 0xffff,
    ensures
        cache_entries(cache) == Seq::<(Seq<char>, Seq<char>)>::empty(),
        cache_limit(cache) == limit,
{
    lru::LruCache::new(core::num::NonZeroUsize::new(limit).unwrap())
}

/// Trusted: `LruCache::get`. Returns the value of a key and makes it the most recently used.
#[verifier::external_body]
fn cache_get(cache: &mut lru::LruCache<String, String>, key: &str) -> (value: Option<String>)
    ensures
        optional_text(value) == id_of(cache_entries(*old(cache)), key@),
        cache_entries(*final(cache)) == used(cache_entries(*old(cache)), key@),
        cache_limit(*final(cache)) == cache_limit(*old(cache)),
{
    cache.get(key).cloned()
}

/// Trusted: `LruCache::put`. Gives a key a value and makes it the most recently used. A new key in a
/// full cache takes the place of the least recently used one.
#[verifier::external_body]
fn cache_put(cache: &mut lru::LruCache<String, String>, key: String, value: String)
    ensures
        cache_entries(*final(cache)) == placed(
            cache_entries(*old(cache)),
            key@,
            value@,
            cache_limit(*old(cache)),
        ),
        cache_limit(*final(cache)) == cache_limit(*old(cache)),
{
    cache.put(key, value);
}

/// Trusted: `LruCache::len`, the number of entries.
#[verifier::external_body]
fn cache_len(cache: &lru::LruCache<String, String>) -> (len: usize)
    ensures
        len == cache_entries(*cache).len(),
{
    cache.len()
}

/// The id that is held for a key.
pub open spec fn id_of(entries: Seq<(Seq<char>, Seq<char>)>, key: Seq<char>) -> Option<Seq<char>>
    decreases entries.len(),
{
    if entries.len() == 0 {
        None
    } else if entries[0].0 == key {
        Some(entries[0].1)
    } else {
        id_of(entries.skip(1), key)
    }
}

/// The entries without that of a key.
pub open spec fn without(entries: Seq<(Seq<char>, Seq<char>)>, key: Seq<char>) -> Seq<
    (Seq<char>, Seq<char>),
>
    decreases entries.len(),
{
    if entries.len() == 0 {
        Seq::empty()
    } else if entries[0].0 == key {
        entries.skip(1)
    } else {
        seq![entries[0]] + without(entries.skip(1), key)
    }
}

/// The entries once a key was looked up: it comes first.
pub open spec fn used(entries: Seq<(Seq<char>, Seq<char>)>, key: Seq<char>) -> Seq<
    (Seq<char>, Seq<char>),
> {
    match id_of(entries, key) {
        Some(id) => seq![(key, id)] + without(entries, key),
        None => entries,
    }
}

/// The entries once a key was given an id: it comes first, and where it is new and there is no room
/// for it, the last one goes.
pub open spec fn placed(
    entries: Seq<(Seq<char>, Seq<char>)>,
    key: Seq<char>,
    id: Seq<char>,
    limit: nat,
) -> Seq<(Seq<char>, Seq<char>)> {
    seq![(key, id)] + (if id_of(entries, key) is Some {
        without(entries, key)
    } else if entries.len() == limit {
        entries.drop_last()
    } else {
        entries
    })
}

/// Whether every key is held once, every id is a random UUID, and there are at most `limit` entries.
pub open spec fn is_id_cache(entries: Seq<(Seq<char>, Seq<char>)>, limit: nat) -> bool {
    &&& entries.len() <= limit
    &&& forall|i: int, j: int|
        0 <= i < j < entries.len() ==> #[trigger] entries[i].0 != #[trigger] entries[j].0
    &&& forall|i: int| 0 <= i < entries.len() ==> is_uuid_v4(#[trigger] entries[i].1)
}

/// Where the entry of a key stands.
pub open spec fn stands_at(entries: Seq<(Seq<char>, Seq<char>)>, key: Seq<char>, at: int) -> bool {
    &&& 0 <= at < entries.len()
    &&& entries[at].0 == key
    &&& forall|i: int| 0 <= i < at ==> #[trigger] entries[i].0 != key
}

/// The entry of a key is the first with that key.
pub proof fn lemma_first(entries: Seq<(Seq<char>, Seq<char>)>, key: Seq<char>)
    ensures
        id_of(entries, key) is None ==> forall|i: int|
            0 <= i < entries.len() ==> #[trigger] entries[i].0 != key,
        id_of(entries, key) is Some ==> exists|at: int| #[trigger]
            stands_at(entries, key, at) && id_of(entries, key) == Some(entries[at].1) && without(
                entries,
                key,
            ) == entries.remove(at),
    decreases entries.len(),
{
    if entries.len() > 0 {
        let rest = entries.skip(1);
        if entries[0].0 == key {
            assert(stands_at(entries, key, 0));
            assert(rest =~= entries.remove(0));
        } else {
            lemma_first(rest, key);
            assert forall|i: int|
                id_of(entries, key) is None && 0 <= i < entries.len() implies #[trigger] entries[i].0
                != key by {
                if i > 0 {
                    assert(rest[i - 1].0 != key);
                }
            }
            if id_of(rest, key) is Some {
                let at = choose|at: int| #[trigger]
                    stands_at(rest, key, at) && id_of(rest, key) == Some(rest[at].1) && without(
                        rest,
                        key,
                    ) == rest.remove(at);
                assert forall|i: int| 0 <= i < at + 1 implies #[trigger] entries[i].0 != key by {
                    if i > 0 {
                        assert(rest[i - 1].0 != key);
                    }
                }
                assert(stands_at(entries, key, at + 1));
                assert(seq![entries[0]] + rest.remove(at) =~= entries.remove(at + 1));
            }
        }
    }
}

/// Where every key is held once, the id of a key is the one of any entry with that key.
pub proof fn lemma_id_at(entries: Seq<(Seq<char>, Seq<char>)>, limit: nat, at: int)
    requires
        is_id_cache(entries, limit),
        0 <= at < entries.len(),
    ensures
        id_of(entries, entries[at].0) == Some(entries[at].1),
{
    let key = entries[at].0;
    lemma_first(entries, key);
    let first = choose|i: int| #[trigger]
        stands_at(entries, key, i) && id_of(entries, key) == Some(entries[i].1) && without(
            entries,
            key,
        ) == entries.remove(i);
    if first < at {
        assert(entries[first].0 != entries[at].0);
    }
    if at < first {
        assert(entries[at].0 != key);
    }
}

/// Where all entries of `some` are among those of `all`, the ids are the same.
proof fn lemma_same_id(
    some: Seq<(Seq<char>, Seq<char>)>,
    all: Seq<(Seq<char>, Seq<char>)>,
    limit: nat,
    key: Seq<char>,
)
    requires
        is_id_cache(some, limit),
        is_id_cache(all, limit),
        id_of(some, key) is Some,
        forall|i: int|
            0 <= i < some.len() && (#[trigger] some[i]).0 == key ==> exists|j: int|
                0 <= j < all.len() && all[j] == some[i],
    ensures
        id_of(all, key) == id_of(some, key),
{
    lemma_first(some, key);
    let i = choose|i: int| #[trigger]
        stands_at(some, key, i) && id_of(some, key) == Some(some[i].1) && without(some, key)
            == some.remove(i);
    let j = choose|j: int| 0 <= j < all.len() && all[j] == some[i];
    lemma_id_at(all, limit, j);
}

/// Moving the entry of a key to the front and giving it an id keeps a cache a cache, and keeps the
/// ids of all other keys.
proof fn lemma_moved(
    entries: Seq<(Seq<char>, Seq<char>)>,
    limit: nat,
    key: Seq<char>,
    id: Seq<char>,
)
    requires
        is_id_cache(entries, limit),
        is_uuid_v4(id),
        id_of(entries, key) is Some,
    ensures
        ({
            let moved = seq![(key, id)] + without(entries, key);
            &&& is_id_cache(moved, limit)
            &&& moved.len() == entries.len()
            &&& id_of(moved, key) == Some(id)
            &&& forall|other: Seq<char>|
                other != key ==> #[trigger] id_of(moved, other) == id_of(entries, other)
        }),
{
    lemma_first(entries, key);
    let at = choose|at: int| #[trigger]
        stands_at(entries, key, at) && id_of(entries, key) == Some(entries[at].1) && without(
            entries,
            key,
        ) == entries.remove(at);
    let rest = entries.remove(at);
    let moved = seq![(key, id)] + rest;
    assert forall|i: int| 0 < i < moved.len() implies #[trigger] moved[i] == entries[if i <= at {
        i - 1
    } else {
        i
    }] by {
        assert(moved[i] == rest[i - 1]);
    }
    assert forall|i: int, j: int| 0 <= i < j < moved.len() implies #[trigger] moved[i].0
        != #[trigger] moved[j].0 by {
        let q = if j <= at {
            j - 1
        } else {
            j
        };
        let p = if i == 0 {
            at
        } else if i <= at {
            i - 1
        } else {
            i
        };
        assert(moved[i].0 == entries[p].0 && moved[j].0 == entries[q].0);
        if p < q {
            assert(entries[p].0 != entries[q].0);
        } else {
            assert(entries[q].0 != entries[p].0);
        }
    }
    assert forall|i: int| 0 <= i < moved.len() implies is_uuid_v4(#[trigger] moved[i].1) by {
        if i > 0 {
            assert(is_uuid_v4(entries[if i <= at {
                i - 1
            } else {
                i
            }].1));
        }
    }
    assert forall|other: Seq<char>| other != key implies #[trigger] id_of(moved, other) == id_of(
        entries,
        other,
    ) by {
        if id_of(moved, other) is Some {
            assert forall|i: int| 0 <= i < moved.len() && (#[trigger] moved[i]).0
                == other implies exists|j: int| 0 <= j < entries.len() && entries[j] == moved[i] by {
                assert(entries[if i <= at {
                    i - 1
                } else {
                    i
                }] == moved[i]);
            }
            lemma_same_id(moved, entries, limit, other);
        } else if id_of(entries, other) is Some {
            assert forall|j: int| 0 <= j < entries.len() && (#[trigger] entries[j]).0
                == other implies exists|i: int| 0 <= i < moved.len() && moved[i] == entries[j] by {
                assert(moved[if j < at {
                    j + 1
                } else {
                    j
                }] == entries[j]);
            }
            lemma_same_id(entries, moved, limit, other);
        }
    }
}

/// Looking an id up keeps a cache a cache, and keeps the id of every key.
pub proof fn law_looking_up_keeps_all_ids(
    entries: Seq<(Seq<char>, Seq<char>)>,
    limit: nat,
    key: Seq<char>,
)
    requires
        is_id_cache(entries, limit),
    ensures
        is_id_cache(used(entries, key), limit),
        used(entries, key).len() == entries.len(),
        forall|other: Seq<char>| #[trigger]
            id_of(used(entries, key), other) == id_of(entries, other),
{
    if let Some(id) = id_of(entries, key) {
        lemma_first(entries, key);
        lemma_moved(entries, limit, key, id);
        assert forall|other: Seq<char>| #[trigger] id_of(used(entries, key), other) == id_of(
            entries,
            other,
        ) by {
            if other == key {
                assert(id_of(used(entries, key), key) == Some(id));
            }
        }
    }
}

/// Giving a key an id keeps a cache a cache. The key has that id then, and every other key keeps its
/// id, except for the least recently used one where the key is new and there was no room for it.
pub proof fn law_giving_an_id_keeps_the_others(
    entries: Seq<(Seq<char>, Seq<char>)>,
    limit: nat,
    key: Seq<char>,
    id: Seq<char>,
)
    requires
        is_id_cache(entries, limit),
        limit > 0,
        is_uuid_v4(id),
    ensures
        ({
            let new = placed(entries, key, id, limit);
            let full = id_of(entries, key) is None && entries.len() == limit;
            &&& is_id_cache(new, limit)
            &&& id_of(new, key) == Some(id)
            &&& forall|other: Seq<char>|
                other != key ==> #[trigger] id_of(new, other) == if full && other
                    == entries.last().0 {
                    None
                } else {
                    id_of(entries, other)
                }
        }),
{
    let new = placed(entries, key, id, limit);
    let full = id_of(entries, key) is None && entries.len() == limit;
    if id_of(entries, key) is Some {
        lemma_moved(entries, limit, key, id);
    } else {
        lemma_first(entries, key);
        assert forall|i: int| 0 < i < new.len() implies #[trigger] new[i] == entries[i - 1] by {}
        assert forall|i: int, j: int| 0 <= i < j < new.len() implies #[trigger] new[i].0
            != #[trigger] new[j].0 by {
            assert(new[j] == entries[j - 1]);
            if i > 0 {
                assert(new[i] == entries[i - 1]);
                assert(entries[i - 1].0 != entries[j - 1].0);
            }
        }
        assert forall|i: int| 0 <= i < new.len() implies is_uuid_v4(#[trigger] new[i].1) by {
            if i > 0 {
                assert(new[i] == entries[i - 1]);
                assert(is_uuid_v4(entries[i - 1].1));
            }
        }
        assert forall|other: Seq<char>| other != key implies #[trigger] id_of(new, other) == if full
            && other == entries.last().0 {
            None
        } else {
            id_of(entries, other)
        } by {
            lemma_first(new, other);
            if id_of(new, other) is Some {
                assert forall|i: int| 0 <= i < new.len() && (#[trigger] new[i]).0
                    == other implies exists|j: int|
                    0 <= j < entries.len() && entries[j] == new[i] by {
                    assert(entries[i - 1] == new[i]);
                }
                lemma_same_id(new, entries, limit, other);
                if full && other == entries.last().0 {
                    let i = choose|i: int| #[trigger]
                        stands_at(new, other, i) && id_of(new, other) == Some(new[i].1) && without(
                            new,
                            other,
                        ) == new.remove(i);
                    assert(new[i] == entries[i - 1]);
                    assert(entries[i - 1].0 != entries[entries.len() - 1].0);
                }
            } else if id_of(entries, other) is Some && !(full && other == entries.last().0) {
                assert forall|j: int| 0 <= j < entries.len() && (#[trigger] entries[j]).0
                    == other implies exists|i: int| 0 <= i < new.len() && new[i] == entries[j] by {
                    assert(new[j + 1] == entries[j]);
                }
                lemma_same_id(entries, new, limit, other);
            }
        }
    }
}

/// A request for the id of a key. `rotate` says whether a new id is asked for, and `fresh` is the id
/// that is used where a new one is needed.
pub struct Request {
    pub key: Seq<char>,
    pub rotate: bool,
    pub fresh: Seq<char>,
}

/// The id that a request is answered with.
pub open spec fn answer(entries: Seq<(Seq<char>, Seq<char>)>, request: Request) -> Seq<char> {
    match id_of(entries, request.key) {
        Some(id) => if request.rotate {
            request.fresh
        } else {
            id
        },
        None => request.fresh,
    }
}

/// The entries once a request was answered: an id that is known is looked up, a new one is placed.
pub open spec fn served(
    entries: Seq<(Seq<char>, Seq<char>)>,
    request: Request,
    limit: nat,
) -> Seq<(Seq<char>, Seq<char>)> {
    if id_of(entries, request.key) is Some && !request.rotate {
        used(entries, request.key)
    } else {
        placed(entries, request.key, request.fresh, limit)
    }
}

/// A call of the durable backend.
#[derive(Debug)]
pub enum BackendCall {
    /// Read the conversation id of a session, or create and record one.
    ResolveOrCreateConversationId { session_key: String },
    /// Clear a session and record a new conversation id for it.
    ClearAndRotateConversation { session_key: String },
}

pub enum BackendCallView {
    ResolveOrCreateConversationId { session_key: Seq<char> },
    ClearAndRotateConversation { session_key: Seq<char> },
}

/// What follows: a call of the backend, or what is returned.
#[derive(Debug)]
pub enum ChannelStep<E> {
    Ask(BackendCall),
    Finished(Result<String, E>),
}

pub enum ChannelStepView<E> {
    Ask(BackendCallView),
    Finished(Result<Seq<char>, E>),
}

impl View for BackendCall {
    type V = BackendCallView;

    open spec fn view(&self) -> BackendCallView {
        match *self {
            BackendCall::ResolveOrCreateConversationId {
                session_key,
            } => BackendCallView::ResolveOrCreateConversationId { session_key: session_key@ },
            BackendCall::ClearAndRotateConversation {
                session_key,
            } => BackendCallView::ClearAndRotateConversation { session_key: session_key@ },
        }
    }
}

/// The view of what a backend or a channel returns.
pub open spec fn reply_view<E>(reply: Result<String, E>) -> Result<Seq<char>, E> {
    match reply {
        Ok(id) => Ok(id@),
        Err(error) => Err(error),
    }
}

impl<E> View for ChannelStep<E> {
    type V = ChannelStepView<E>;

    open spec fn view(&self) -> ChannelStepView<E> {
        match *self {
            ChannelStep::Ask(call) => ChannelStepView::Ask(call@),
            ChannelStep::Finished(result) => ChannelStepView::Finished(reply_view(result)),
        }
    }
}

impl BackendCallView {
    /// What follows when the backend has replied: the reply is returned as it is.
    pub open spec fn after<E>(self, reply: Result<Seq<char>, E>) -> ChannelStepView<E> {
        ChannelStepView::Finished(reply)
    }
}

impl BackendCall {
    /// Takes the reply of the backend, and says what follows.
    pub fn advance<E>(self, reply: Result<String, E>) -> (step: ChannelStep<E>)
        ensures
            step@ == self@.after(reply_view(reply)),
            step == ChannelStep::Finished(reply),
    {
        ChannelStep::Finished(reply)
    }
}

/// The calls that are made from a step on, and what is returned, where the backend replies with
/// `replies` in turn.
pub open spec fn conversed<E>(
    step: ChannelStepView<E>,
    replies: Seq<Result<Seq<char>, E>>,
) -> (Seq<BackendCallView>, Option<Result<Seq<char>, E>>)
    decreases replies.len(),
{
    match step {
        ChannelStepView::Finished(result) => (Seq::empty(), Some(result)),
        ChannelStepView::Ask(call) => if replies.len() == 0 {
            (seq![call], None)
        } else {
            let (later, result) = conversed(call.after(replies[0]), replies.skip(1));
            (seq![call] + later, result)
        },
    }
}

/// The first step of resolving the id of a key: with a backend it is asked, and without one the id
/// in memory or a fresh one is returned.
pub open spec fn resolving<E>(
    durable: bool,
    entries: Seq<(Seq<char>, Seq<char>)>,
    key: Seq<char>,
    fresh: Seq<char>,
) -> ChannelStepView<E> {
    if durable {
        ChannelStepView::Ask(BackendCallView::ResolveOrCreateConversationId { session_key: key })
    } else {
        ChannelStepView::Finished(Ok(answer(entries, Request { key, rotate: false, fresh })))
    }
}

/// The first step of clearing a conversation and rotating its id: with a backend it is asked, and
/// without one a fresh id is returned.
pub open spec fn rotating<E>(
    durable: bool,
    entries: Seq<(Seq<char>, Seq<char>)>,
    key: Seq<char>,
    fresh: Seq<char>,
) -> ChannelStepView<E> {
    if durable {
        ChannelStepView::Ask(BackendCallView::ClearAndRotateConversation { session_key: key })
    } else {
        ChannelStepView::Finished(Ok(answer(entries, Request { key, rotate: true, fresh })))
    }
}

/// With a backend, resolving makes one call and no other, and so does rotating; what the backend
/// replies is returned as it is. Without one, no call is made.
pub proof fn law_the_backend_is_asked_once<E>(
    durable: bool,
    entries: Seq<(Seq<char>, Seq<char>)>,
    key: Seq<char>,
    fresh: Seq<char>,
    replies: Seq<Result<Seq<char>, E>>,
)
    requires
        replies.len() > 0,
    ensures
        ({
            let resolved = conversed(resolving::<E>(durable, entries, key, fresh), replies);
            let rotated = conversed(rotating::<E>(durable, entries, key, fresh), replies);
            if durable {
                &&& resolved.0 == seq![
                    BackendCallView::ResolveOrCreateConversationId { session_key: key },
                ]
                &&& rotated.0 == seq![
                    BackendCallView::ClearAndRotateConversation { session_key: key },
                ]
                &&& resolved.1 == Some(replies[0])
                &&& rotated.1 == Some(replies[0])
            } else {
                &&& resolved.0 == Seq::<BackendCallView>::empty()
                &&& rotated.0 == Seq::<BackendCallView>::empty()
                &&& resolved.1 is Some && resolved.1->0 is Ok
                &&& entries.len() == 0 ==> resolved.1 == Some(Ok::<Seq<char>, E>(fresh))
                &&& entries.len() > 0 && entries[0].0 == key ==> resolved.1 == Some(
                    Ok::<Seq<char>, E>(entries[0].1),
                )
                &&& resolved.1 == Some(
                    Ok::<Seq<char>, E>(answer(entries, (Request { key, rotate: false, fresh }))),
                )
                &&& rotated.1 == Some(Ok::<Seq<char>, E>(fresh))
            }
        }),
{
    reveal_with_fuel(conversed, 2);
}

/// An id is never a history key, as long as the key is not a random UUID itself.
pub proof fn law_an_id_is_no_history_key(key: Seq<char>, id: Seq<char>)
    requires
        is_uuid_v4(id),
        !is_uuid_v4(key),
    ensures
        id != key,
{
}

/// The conversation ids of channels.
pub struct ChannelSessionState<B> {
    backend: Option<B>,
    memory_conversation_ids: lru::LruCache<String, String>,
}

impl<B> ChannelSessionState<B> {
    /// The durable backend, if any.
    pub closed spec fn durable(&self) -> Option<B> {
        self.backend
    }

    /// The keys and ids in memory, the most recently used first.
    pub closed spec fn ids(&self) -> Seq<(Seq<char>, Seq<char>)> {
        cache_entries(self.memory_conversation_ids)
    }

    /// Whether the ids in memory are those of a cache that holds at most `MAX_CHANNEL_SESSIONS`, and
    /// there are none beside a backend.
    pub closed spec fn inv(&self) -> bool {
        &&& cache_limit(self.memory_conversation_ids) == MAX_CHANNEL_SESSIONS
        &&& is_id_cache(self.ids(), MAX_CHANNEL_SESSIONS as nat)
        &&& self.backend is Some ==> self.ids().len() == 0
    }

    /// What always holds of the ids in memory: there are at most `MAX_CHANNEL_SESSIONS`, none of them
    /// held twice, and none at all beside a backend.
    pub proof fn law_memory_is_bounded(&self)
        requires
            self.inv(),
        ensures
            is_id_cache(self.ids(), MAX_CHANNEL_SESSIONS as nat),
            self.ids().len() <= 1000,
            MAX_CHANNEL_SESSIONS == 1000,
            self.durable() is Some ==> self.ids().len() == 0,
    {
    }

    /// Holds ids in a backend, or in memory where there is none.
    pub fn new(backend: Option<B>) -> (state: Self)
        ensures
            state.inv(),
            state.durable() == backend,
            state.ids() == Seq::<(Seq<char>, Seq<char>)>::empty(),
    {
        ChannelSessionState { backend, memory_conversation_ids: cache_new(MAX_CHANNEL_SESSIONS) }
    }

    /// The durable backend, if any.
    pub fn backend(&self) -> (backend: Option<&B>)
        ensures
            backend matches Some(b) ==> self.durable() == Some(*b),
            backend is None ==> self.durable() is None,
    {
        match &self.backend {
            Some(backend) => Some(backend),
            None => None,
        }
    }

    /// The number of ids in memory.
    pub fn memory_id_count(&self) -> (count: usize)
        ensures
            count == self.ids().len(),
    {
        cache_len(&self.memory_conversation_ids)
    }

    /// The id that is held in memory for a key.
    pub fn lookup(&mut self, history_key: &str) -> (id: Option<String>)
        requires
            old(self).inv(),
        ensures
            final(self).inv(),
            final(self).durable() == old(self).durable(),
            optional_text(id) == id_of(old(self).ids(), history_key@),
            final(self).ids() == used(old(self).ids(), history_key@),
    {
        proof {
            law_looking_up_keeps_all_ids(
                self.ids(),
                MAX_CHANNEL_SESSIONS as nat,
                history_key@,
            );
        }
        cache_get(&mut self.memory_conversation_ids, history_key)
    }

    /// Gives a key an id in memory.
    pub fn assign(&mut self, history_key: &str, id: &str)
        requires
            old(self).inv(),
            old(self).durable() is None,
            is_uuid_v4(id@),
        ensures
            final(self).inv(),
            final(self).durable() is None,
            final(self).ids() == placed(
                old(self).ids(),
                history_key@,
                id@,
                MAX_CHANNEL_SESSIONS as nat,
            ),
    {
        proof {
            law_giving_an_id_keeps_the_others(
                self.ids(),
                MAX_CHANNEL_SESSIONS as nat,
                history_key@,
                id@,
            );
        }
        cache_put(&mut self.memory_conversation_ids, history_key.to_owned(), id.to_owned());
    }

    /// Resolves the conversation id of a key. With a backend, the backend is asked, and nothing is
    /// kept in memory. Without one, the id in memory is returned, and where there is none a fresh one
    /// is drawn, kept there and returned.
    pub fn resolve_conversation_id<E>(&mut self, history_key: &str) -> (step: ChannelStep<E>)
        requires
            old(self).inv(),
        ensures
            final(self).inv(),
            final(self).durable() == old(self).durable(),
            match old(self).durable() {
                Some(_) => {
                    &&& step@ == ChannelStepView::<E>::Ask(
                        BackendCallView::ResolveOrCreateConversationId {
                            session_key: history_key@,
                        },
                    )
                    &&& final(self).ids() == old(self).ids()
                },
                None => {
                    &&& step matches ChannelStep::Finished(Ok(id))
                    &&& is_uuid_v4(id@)
                    &&& step@ == resolving::<E>(false, old(self).ids(), history_key@, id@)
                    &&& id_of(old(self).ids(), history_key@) is None ==> drawn(id@)
                    &&& final(self).ids() == served(
                        old(self).ids(),
                        (Request { key: history_key@, rotate: false, fresh: id@ }),
                        MAX_CHANNEL_SESSIONS as nat,
                    )
                    &&& id_of(final(self).ids(), history_key@) == Some(id@)
                },
            },
    {
        if self.backend.is_some() {
            return ChannelStep::Ask(
                BackendCall::ResolveOrCreateConversationId { session_key: history_key.to_owned() },
            );
        }
        proof {
            lemma_first(self.ids(), history_key@);
        }
        if let Some(id) = self.lookup(history_key) {
            return ChannelStep::Finished(Ok(id));
        }
        let id: String = draw_id();
        self.assign(history_key, id.as_str());
        ChannelStep::Finished(Ok(id))
    }

    /// Clears a conversation and rotates its id. With a backend, the backend is asked, and nothing is
    /// kept in memory. Without one, a fresh id is drawn, kept there and returned.
    pub fn clear_and_rotate_conversation<E>(&mut self, history_key: &str) -> (step: ChannelStep<E>)
        requires
            old(self).inv(),
        ensures
            final(self).inv(),
            final(self).durable() == old(self).durable(),
            match old(self).durable() {
                Some(_) => {
                    &&& step@ == ChannelStepView::<E>::Ask(
                        BackendCallView::ClearAndRotateConversation { session_key: history_key@ },
                    )
                    &&& final(self).ids() == old(self).ids()
                },
                None => {
                    &&& step matches ChannelStep::Finished(Ok(id))
                    &&& is_uuid_v4(id@)
                    &&& step@ == rotating::<E>(false, old(self).ids(), history_key@, id@)
                    &&& drawn(id@)
                    &&& final(self).ids() == served(
                        old(self).ids(),
                        (Request { key: history_key@, rotate: true, fresh: id@ }),
                        MAX_CHANNEL_SESSIONS as nat,
                    )
                    &&& id_of(final(self).ids(), history_key@) == Some(id@)
                },
            },
    {
        if self.backend.is_some() {
            return ChannelStep::Ask(
                BackendCall::ClearAndRotateConversation { session_key: history_key.to_owned() },
            );
        }
        let id: String = draw_id();
        self.assign(history_key, id.as_str());
        ChannelStep::Finished(Ok(id))
    }
}

} // verus!
