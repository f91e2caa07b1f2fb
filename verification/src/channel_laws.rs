//! What holds of the conversation ids in memory over many requests.

use vstd::prelude::*;

use crate::channel_session::{
    answer, id_of, is_id_cache, law_giving_an_id_keeps_the_others, law_looking_up_keeps_all_ids,
    lemma_first, lemma_id_at, served, stands_at, without, Request,
};
use crate::identity::is_uuid_v4;

verus! {

/// The entries after some requests.
pub open spec fn after_all(
    entries: Seq<(Seq<char>, Seq<char>)>,
    requests: Seq<Request>,
    limit: nat,
) -> Seq<(Seq<char>, Seq<char>)>
    decreases requests.len(),
{
    if requests.len() == 0 {
        entries
    } else {
        served(after_all(entries, requests.drop_last(), limit), requests.last(), limit)
    }
}

/// Whether every id that may be used is a random UUID.
pub open spec fn with_uuids(requests: Seq<Request>) -> bool {
    forall|i: int| 0 <= i < requests.len() ==> is_uuid_v4((#[trigger] requests[i]).fresh)
}

/// The keys of some entries.
pub open spec fn keys_of(entries: Seq<(Seq<char>, Seq<char>)>) -> Seq<Seq<char>> {
    entries.map_values(|e: (Seq<char>, Seq<char>)| e.0)
}

/// The keys without the first that is this one.
pub open spec fn dropped(keys: Seq<Seq<char>>, key: Seq<char>) -> Seq<Seq<char>> {
    match keys.index_of_first(key) {
        Some(i) => keys.remove(i),
        None => keys,
    }
}

/// The different keys of some requests, the most recently used first.
pub open spec fn recent(requests: Seq<Request>) -> Seq<Seq<char>>
    decreases requests.len(),
{
    if requests.len() == 0 {
        Seq::empty()
    } else {
        seq![requests.last().key] + dropped(recent(requests.drop_last()), requests.last().key)
    }
}

/// At most the first `limit` of some keys.
pub open spec fn capped(keys: Seq<Seq<char>>, limit: nat) -> Seq<Seq<char>> {
    if keys.len() > limit {
        keys.take(limit as int)
    } else {
        keys
    }
}

proof fn lemma_position(keys: Seq<Seq<char>>, key: Seq<char>, at: int)
    requires
        0 <= at < keys.len(),
        keys[at] == key,
        forall|i: int| 0 <= i < at ==> #[trigger] keys[i] != key,
    ensures
        keys.index_of_first(key) == Some(at),
{
    keys.index_of_first_ensures(key);
    let first = keys.index_of_first(key)->0;
    if first < at {
        assert(keys[first] != key);
    }
}

proof fn lemma_nowhere(keys: Seq<Seq<char>>, key: Seq<char>)
    requires
        forall|i: int| 0 <= i < keys.len() ==> #[trigger] keys[i] != key,
    ensures
        keys.index_of_first(key) is None,
{
    keys.index_of_first_ensures(key);
}

/// A request brings its key to the front; where there are too many keys then, the last one goes.
proof fn lemma_served(entries: Seq<(Seq<char>, Seq<char>)>, request: Request, limit: nat)
    requires
        is_id_cache(entries, limit),
        limit > 0,
        is_uuid_v4(request.fresh),
    ensures
        ({
            let new = served(entries, request, limit);
            &&& is_id_cache(new, limit)
            &&& keys_of(new) == capped(
                seq![request.key] + dropped(keys_of(entries), request.key),
                limit,
            )
            &&& id_of(new, request.key) == Some(answer(entries, request))
            &&& forall|other: Seq<char>|
                other != request.key && keys_of(new).contains(other) ==> #[trigger] id_of(
                    new,
                    other,
                ) == id_of(entries, other)
        }),
{
    let key = request.key;
    let keys = keys_of(entries);
    let new = served(entries, request, limit);
    lemma_first(entries, key);
    law_giving_an_id_keeps_the_others(entries, limit, key, request.fresh);
    law_looking_up_keeps_all_ids(entries, limit, key);
    if id_of(entries, key) is Some {
        let at = choose|at: int| #[trigger]
            stands_at(entries, key, at) && id_of(entries, key) == Some(entries[at].1) && without(
                entries,
                key,
            ) == entries.remove(at);
        assert forall|i: int| 0 <= i < at implies #[trigger] keys[i] != key by {
            assert(entries[i].0 != key);
        }
        lemma_position(keys, key, at);
        assert(keys_of(entries.remove(at)) =~= keys.remove(at));
        assert(keys_of(new) =~= seq![key] + keys.remove(at));
    } else {
        assert forall|i: int| 0 <= i < keys.len() implies #[trigger] keys[i] != key by {
            assert(entries[i].0 != key);
        }
        lemma_nowhere(keys, key);
        if entries.len() == limit {
            assert(keys_of(new) =~= (seq![key] + keys).take(limit as int));
        } else {
            assert(keys_of(new) =~= seq![key] + keys);
        }
    }
    assert forall|other: Seq<char>|
        other != key && keys_of(new).contains(other) implies #[trigger] id_of(new, other) == id_of(
        entries,
        other,
    ) by {
        let i = choose|i: int| 0 <= i < keys_of(new).len() && keys_of(new)[i] == other;
        lemma_id_at(new, limit, i);
    }
}

/// At every time the ids in memory are at most `limit`, and no key is held twice.
pub proof fn law_requests_keep_the_bound(
    entries: Seq<(Seq<char>, Seq<char>)>,
    requests: Seq<Request>,
    limit: nat,
)
    requires
        is_id_cache(entries, limit),
        limit > 0,
        with_uuids(requests),
    ensures
        is_id_cache(after_all(entries, requests, limit), limit),
    decreases requests.len(),
{
    if requests.len() > 0 {
        assert(with_uuids(requests.drop_last()));
        law_requests_keep_the_bound(entries, requests.drop_last(), limit);
        assert(is_uuid_v4(requests[requests.len() - 1].fresh));
        lemma_served(
            after_all(entries, requests.drop_last(), limit),
            requests.last(),
            limit,
        );
    }
}

/// The keys of some requests are those that they are about, each once.
proof fn lemma_recent(requests: Seq<Request>)
    ensures
        recent(requests).no_duplicates(),
        forall|i: int|
            0 <= i < recent(requests).len() ==> exists|j: int|
                0 <= j < requests.len() && (#[trigger] requests[j]).key == #[trigger] recent(
                    requests,
                )[i],
        forall|j: int|
            0 <= j < requests.len() ==> recent(requests).contains((#[trigger] requests[j]).key),
    decreases requests.len(),
{
    if requests.len() > 0 {
        let fewer = requests.drop_last();
        let last = requests.len() - 1;
        let key = requests.last().key;
        lemma_recent(fewer);
        let before = recent(fewer);
        let rest = dropped(before, key);
        let all = recent(requests);
        before.index_of_first_ensures(key);
        assert forall|i: int| 0 <= i < rest.len() implies #[trigger] rest[i] != key
            && before.contains(rest[i]) by {
            match before.index_of_first(key) {
                Some(at) => {
                    let m = if i < at {
                        i
                    } else {
                        i + 1
                    };
                    assert(rest[i] == before[m]);
                    assert(before[at] == key);
                },
                None => {
                    assert(rest[i] == before[i]);
                },
            }
        }
        assert(rest.no_duplicates()) by {
            assert forall|i: int, j: int|
                0 <= i < rest.len() && 0 <= j < rest.len() && i != j implies rest[i]
                != rest[j] by {
                if let Some(at) = before.index_of_first(key) {
                    let m = if i < at {
                        i
                    } else {
                        i + 1
                    };
                    let n = if j < at {
                        j
                    } else {
                        j + 1
                    };
                    assert(rest[i] == before[m] && rest[j] == before[n]);
                }
            }
        }
        assert(all =~= seq![key] + rest);
        assert forall|i: int| 0 <= i < all.len() implies exists|j: int|
            0 <= j < requests.len() && (#[trigger] requests[j]).key == #[trigger] all[i] by {
            if i == 0 {
                assert(requests[last].key == all[0]);
            } else {
                assert(all[i] == rest[i - 1]);
                let m = choose|m: int| 0 <= m < before.len() && before[m] == rest[i - 1];
                let j = choose|j: int|
                    0 <= j < fewer.len() && (#[trigger] fewer[j]).key == before[m];
                assert(requests[j].key == all[i]);
            }
        }
        assert forall|j: int| 0 <= j < requests.len() implies all.contains(
            (#[trigger] requests[j]).key,
        ) by {
            if requests[j].key == key {
                assert(all[0] == key);
            } else {
                assert(fewer[j].key == requests[j].key);
                let m = choose|m: int| 0 <= m < before.len() && before[m] == requests[j].key;
                match before.index_of_first(key) {
                    Some(at) => {
                        let i = if m < at {
                            m
                        } else {
                            m - 1
                        };
                        assert(rest[i] == before[m]);
                        assert(all[i + 1] == requests[j].key);
                    },
                    None => {
                        assert(all[m + 1] == requests[j].key);
                    },
                }
            }
        }
    }
}

/// The id that a key was last given: by its first request, or by the last one that asked for a new
/// id.
pub open spec fn given(requests: Seq<Request>, key: Seq<char>) -> Option<Seq<char>>
    decreases requests.len(),
{
    if requests.len() == 0 {
        None
    } else {
        let before = given(requests.drop_last(), key);
        let last = requests.last();
        if last.key == key && (last.rotate || before is None) {
            Some(last.fresh)
        } else {
            before
        }
    }
}

/// Where there is room for all keys, every key keeps its id: each request is answered with the id
/// that its key was first given, or that it was last rotated to, whatever is asked for other keys.
pub proof fn law_ids_last_where_there_is_room(requests: Seq<Request>, limit: nat)
    requires
        limit > 0,
        with_uuids(requests),
        recent(requests).len() <= limit,
    ensures
        ({
            let entries = after_all(Seq::empty(), requests, limit);
            &&& keys_of(entries) == recent(requests)
            &&& forall|key: Seq<char>| #[trigger] id_of(entries, key) == given(requests, key)
            &&& requests.len() > 0 ==> Some(
                answer(
                    after_all(Seq::empty(), requests.drop_last(), limit),
                    requests.last(),
                ),
            ) == given(requests, requests.last().key)
        }),
    decreases requests.len(),
{
    let nothing = Seq::<(Seq<char>, Seq<char>)>::empty();
    let entries = after_all(nothing, requests, limit);
    if requests.len() == 0 {
        assert(keys_of(entries) =~= recent(requests));
    } else {
        let fewer = requests.drop_last();
        let request = requests.last();
        let before = after_all(nothing, fewer, limit);
        assert(with_uuids(fewer));
        assert(is_uuid_v4(requests[requests.len() - 1].fresh));
        lemma_recent(fewer);
        recent(fewer).index_of_first_ensures(request.key);
        law_ids_last_where_there_is_room(fewer, limit);
        law_requests_keep_the_bound(nothing, fewer, limit);
        lemma_served(before, request, limit);
        lemma_recent(requests);
        assert(keys_of(entries) =~= recent(requests));
        assert forall|key: Seq<char>| #[trigger] id_of(entries, key) == given(requests, key) by {
            if key != request.key {
                if keys_of(entries).contains(key) {
                    assert(id_of(entries, key) == id_of(before, key));
                } else {
                    lemma_not_held(entries, key);
                    lemma_not_given(fewer, key);
                    assert forall|j: int| 0 <= j < fewer.len() implies (#[trigger] fewer[j]).key
                        != key by {
                        assert(requests[j] == fewer[j]);
                    }
                }
            }
        }
    }
}

proof fn lemma_not_held(entries: Seq<(Seq<char>, Seq<char>)>, key: Seq<char>)
    requires
        !keys_of(entries).contains(key),
    ensures
        id_of(entries, key) is None,
{
    lemma_first(entries, key);
    if id_of(entries, key) is Some {
        let at = choose|at: int| #[trigger]
            stands_at(entries, key, at) && id_of(entries, key) == Some(entries[at].1) && without(
                entries,
                key,
            ) == entries.remove(at);
        assert(keys_of(entries)[at] == key);
    }
}

proof fn lemma_not_given(requests: Seq<Request>, key: Seq<char>)
    ensures
        (forall|j: int| 0 <= j < requests.len() ==> (#[trigger] requests[j]).key != key)
            ==> given(requests, key) is None,
    decreases requests.len(),
{
    if requests.len() > 0 {
        let fewer = requests.drop_last();
        lemma_not_given(fewer, key);
        if forall|j: int| 0 <= j < requests.len() ==> (#[trigger] requests[j]).key != key {
            assert forall|j: int| 0 <= j < fewer.len() implies (#[trigger] fewer[j]).key != key by {
                assert(requests[j].key != key);
            }
            assert(requests[requests.len() - 1].key != key);
        }
    }
}

/// The key that was used longest ago goes first. A key that was just used keeps its id as long as
/// fewer than `limit` other keys are used after it, and is forgotten with the `limit`-th.
pub proof fn law_the_least_recently_used_goes_first(
    entries: Seq<(Seq<char>, Seq<char>)>,
    requests: Seq<Request>,
    limit: nat,
)
    requires
        is_id_cache(entries, limit),
        entries.len() > 0,
        with_uuids(requests),
        forall|i: int| 0 <= i < requests.len() ==> (#[trigger] requests[i]).key != entries[0].0,
    ensures
        id_of(after_all(entries, requests, limit), entries[0].0) == if recent(requests).len()
            < limit {
            Some(entries[0].1)
        } else {
            None
        },
{
    lemma_ageing(entries, requests, limit);
    let key = entries[0].0;
    let now = after_all(entries, requests, limit);
    let keys = keys_of(now);
    if recent(requests).len() >= limit {
        lemma_recent(requests);
        if keys.contains(key) {
            let i = choose|i: int| 0 <= i < keys.len() && keys[i] == key;
            let j = choose|j: int|
                0 <= j < requests.len() && (#[trigger] requests[j]).key == recent(requests)[i];
            assert(requests[j].key != key);
        }
        lemma_not_held(now, key);
    }
}

#[verifier::spinoff_prover]
proof fn lemma_ageing(
    entries: Seq<(Seq<char>, Seq<char>)>,
    requests: Seq<Request>,
    limit: nat,
)
    requires
        is_id_cache(entries, limit),
        entries.len() > 0,
        with_uuids(requests),
        forall|i: int| 0 <= i < requests.len() ==> (#[trigger] requests[i]).key != entries[0].0,
    ensures
        ({
            let now = after_all(entries, requests, limit);
            let used = recent(requests);
            if used.len() < limit {
                &&& keys_of(now).len() > used.len()
                &&& keys_of(now).take(used.len() as int) == used
                &&& keys_of(now)[used.len() as int] == entries[0].0
                &&& id_of(now, entries[0].0) == Some(entries[0].1)
            } else {
                keys_of(now) == used.take(limit as int)
            }
        }),
    decreases requests.len(),
{
    let key = entries[0].0;
    let now = after_all(entries, requests, limit);
    if requests.len() == 0 {
        assert(keys_of(now).take(0) =~= recent(requests));
    } else {
        let fewer = requests.drop_last();
        let request = requests.last();
        let x = request.key;
        assert(requests[requests.len() - 1] == request);
        assert(is_uuid_v4(request.fresh) && x != key);
        assert(with_uuids(fewer));
        assert forall|i: int| 0 <= i < fewer.len() implies (#[trigger] fewer[i]).key != key by {
            assert(requests[i].key != key);
        }
        lemma_ageing(entries, fewer, limit);
        law_requests_keep_the_bound(entries, fewer, limit);
        let before = after_all(entries, fewer, limit);
        lemma_served(before, request, limit);
        let used = recent(fewer);
        let n = used.len() as int;
        let keys = keys_of(before);
        used.index_of_first_ensures(x);
        keys.index_of_first_ensures(x);
        let front = seq![x] + dropped(keys, x);
        if n < limit {
            assert forall|i: int| 0 <= i < n implies #[trigger] keys[i] == used[i] by {
                assert(keys.take(n)[i] == used[i]);
            }
            match used.index_of_first(x) {
                Some(at) => {
                    assert forall|i: int| 0 <= i < at implies #[trigger] keys[i] != x by {
                        assert(used[i] != x);
                    }
                    lemma_position(keys, x, at);
                    assert(keys_of(now) =~= front);
                    assert(front.take(n) =~= recent(requests));
                    assert(front[n] == key);
                    assert(keys_of(now).contains(key));
                },
                None => {
                    match keys.index_of_first(x) {
                        Some(at) => {
                            assert(at > n) by {
                                if at < n {
                                    assert(used[at] == x);
                                }
                            }
                        },
                        None => {},
                    }
                    assert(front.take(n + 1) =~= recent(requests));
                    assert(front[n + 1] == key);
                    if n + 1 < limit {
                        assert(keys_of(now).take(n + 1) =~= recent(requests));
                        assert(keys_of(now)[n + 1] == key);
                        assert(keys_of(now).contains(key));
                    } else {
                        assert(keys_of(now) =~= front.take(limit as int));
                        assert(recent(requests).take(limit as int) =~= recent(requests));
                    }
                },
            }
        } else {
            assert forall|i: int| 0 <= i < limit implies #[trigger] keys[i] == used[i] by {}
            match used.index_of_first(x) {
                Some(at) if at < limit => {
                    assert forall|i: int| 0 <= i < at implies #[trigger] keys[i] != x by {
                        assert(used[i] != x);
                    }
                    lemma_position(keys, x, at);
                },
                _ => {
                    assert forall|i: int| 0 <= i < keys.len() implies #[trigger] keys[i] != x by {
                        assert(used[i] != x);
                    }
                    lemma_nowhere(keys, x);
                },
            }
            assert(keys_of(now) =~= recent(requests).take(limit as int));
        }
    }
}

/// However many callers resolve one key in turn, all of them get one id, and there is one entry for
/// it: none but the first adds one.
pub proof fn law_resolutions_of_one_key_agree(
    entries: Seq<(Seq<char>, Seq<char>)>,
    requests: Seq<Request>,
    limit: nat,
    key: Seq<char>,
    i: int,
)
    requires
        is_id_cache(entries, limit),
        limit > 0,
        with_uuids(requests),
        forall|j: int|
            0 <= j < requests.len() ==> (#[trigger] requests[j]).key == key && !requests[j].rotate,
        0 <= i < requests.len(),
    ensures
        answer(after_all(entries, requests.take(i), limit), requests[i]) == answer(
            entries,
            requests[0],
        ),
        after_all(entries, requests, limit) == served(entries, requests[0], limit),
        entries.len() == 0 ==> after_all(entries, requests, limit).len() == 1,
{
    lemma_all_alike(entries, requests, limit, key);
    let before = requests.take(i);
    if i > 0 {
        assert forall|j: int| 0 <= j < before.len() implies (#[trigger] before[j]).key == key
            && !before[j].rotate && is_uuid_v4(before[j].fresh) by {
            assert(requests[j] == before[j]);
        }
        lemma_all_alike(entries, before, limit, key);
        assert(is_uuid_v4(requests[0].fresh));
        lemma_served(entries, requests[0], limit);
        assert(requests[i].key == key && !requests[i].rotate);
    } else {
        assert(before =~= Seq::<Request>::empty());
    }
    if entries.len() == 0 {
        assert(id_of(entries, key) is None);
    }
}

proof fn lemma_all_alike(
    entries: Seq<(Seq<char>, Seq<char>)>,
    requests: Seq<Request>,
    limit: nat,
    key: Seq<char>,
)
    requires
        is_id_cache(entries, limit),
        limit > 0,
        with_uuids(requests),
        requests.len() > 0,
        forall|j: int|
            0 <= j < requests.len() ==> (#[trigger] requests[j]).key == key && !requests[j].rotate,
    ensures
        after_all(entries, requests, limit) == served(entries, requests[0], limit),
    decreases requests.len(),
{
    assert(is_uuid_v4(requests[0].fresh));
    lemma_served(entries, requests[0], limit);
    let one = served(entries, requests[0], limit);
    assert(keys_of(one)[0] == key);
    assert(one[0].0 == key);
    lemma_id_at(one, limit, 0);
    let fewer = requests.drop_last();
    if fewer.len() == 0 {
        assert(after_all(entries, fewer, limit) == entries);
    } else {
        assert forall|j: int| 0 <= j < fewer.len() implies (#[trigger] fewer[j]).key == key
            && !fewer[j].rotate by {
            assert(requests[j] == fewer[j]);
        }
        assert forall|j: int| 0 <= j < fewer.len() implies is_uuid_v4(
            (#[trigger] fewer[j]).fresh,
        ) by {
            assert(requests[j] == fewer[j]);
        }
        lemma_all_alike(entries, fewer, limit, key);
        assert(requests[requests.len() - 1] == requests.last());
        assert(without(one, key) == one.skip(1));
        assert(seq![(key, one[0].1)] + one.skip(1) =~= one);
    }
}

/// Whether no two requests may use the same id.
pub open spec fn with_different_ids(requests: Seq<Request>) -> bool {
    forall|i: int, j: int|
        0 <= i < j < requests.len() ==> (#[trigger] requests[i]).fresh != (
        #[trigger] requests[j]).fresh
}

/// The id that is held for a key is one that a request for that key brought.
proof fn lemma_held_was_brought(requests: Seq<Request>, limit: nat, key: Seq<char>)
    requires
        limit > 0,
        with_uuids(requests),
    ensures
        id_of(after_all(Seq::empty(), requests, limit), key) matches Some(id) ==> exists|i: int|
            0 <= i < requests.len() && (#[trigger] requests[i]).key == key && requests[i].fresh
                == id,
    decreases requests.len(),
{
    let nothing = Seq::<(Seq<char>, Seq<char>)>::empty();
    if requests.len() > 0 {
        let fewer = requests.drop_last();
        let request = requests.last();
        let last = requests.len() - 1;
        assert(requests[last] == request);
        assert forall|j: int| 0 <= j < fewer.len() implies is_uuid_v4(
            (#[trigger] fewer[j]).fresh,
        ) by {
            assert(requests[j] == fewer[j]);
        }
        lemma_held_was_brought(fewer, limit, key);
        law_requests_keep_the_bound(nothing, fewer, limit);
        let before = after_all(nothing, fewer, limit);
        lemma_served(before, request, limit);
        let now = after_all(nothing, requests, limit);
        if id_of(now, key) is Some {
            let id = id_of(now, key)->0;
            if key != request.key && !keys_of(now).contains(key) {
                lemma_not_held(now, key);
            }
            if id_of(before, key) == Some(id) {
                let i = choose|i: int|
                    0 <= i < fewer.len() && (#[trigger] fewer[i]).key == key && fewer[i].fresh
                        == id;
                assert(requests[i].key == key && requests[i].fresh == id);
            }
        }
    }
}

/// As long as no id is drawn twice: different keys have different ids, and a request that asks for a
/// new id, or whose key is not held, is answered with an id that no key had before.
pub proof fn law_ids_differ_as_those_drawn_do(
    requests: Seq<Request>,
    limit: nat,
    a: Seq<char>,
    b: Seq<char>,
)
    requires
        limit > 0,
        with_uuids(requests),
        with_different_ids(requests),
        a != b,
    ensures
        ({
            let now = after_all(Seq::empty(), requests, limit);
            id_of(now, a) is Some ==> id_of(now, a) != id_of(now, b)
        }),
        requests.len() > 0 ==> {
            let before = after_all(Seq::empty(), requests.drop_last(), limit);
            let request = requests.last();
            request.rotate || id_of(before, request.key) is None ==> Some(answer(before, request))
                != id_of(before, a)
        },
{
    lemma_held_was_brought(requests, limit, a);
    lemma_held_was_brought(requests, limit, b);
    let now = after_all(Seq::empty(), requests, limit);
    if id_of(now, a) is Some && id_of(now, a) == id_of(now, b) {
        let id = id_of(now, a)->0;
        let i = choose|i: int|
            0 <= i < requests.len() && (#[trigger] requests[i]).key == a && requests[i].fresh == id;
        let j = choose|j: int|
            0 <= j < requests.len() && (#[trigger] requests[j]).key == b && requests[j].fresh == id;
        if i < j {
            assert(requests[i].fresh != requests[j].fresh);
        } else {
            assert(requests[j].fresh != requests[i].fresh);
        }
    }
    if requests.len() > 0 {
        let fewer = requests.drop_last();
        assert forall|j: int| 0 <= j < fewer.len() implies is_uuid_v4(
            (#[trigger] fewer[j]).fresh,
        ) by {
            assert(requests[j] == fewer[j]);
        }
        lemma_held_was_brought(fewer, limit, a);
        let before = after_all(Seq::empty(), fewer, limit);
        if id_of(before, a) is Some {
            let i = choose|i: int|
                0 <= i < fewer.len() && (#[trigger] fewer[i]).key == a && Some(fewer[i].fresh)
                    == id_of(before, a);
            assert(requests[i].fresh != requests[requests.len() - 1].fresh);
        }
    }
}

/// The entries of all keys but one, in their order.
pub open spec fn of_others(entries: Seq<(Seq<char>, Seq<char>)>, key: Seq<char>) -> Seq<
    (Seq<char>, Seq<char>),
> {
    entries.filter(|e: (Seq<char>, Seq<char>)| e.0 != key)
}

proof fn lemma_all_of_others(entries: Seq<(Seq<char>, Seq<char>)>, key: Seq<char>)
    requires
        forall|i: int| 0 <= i < entries.len() ==> (#[trigger] entries[i]).0 != key,
    ensures
        of_others(entries, key) == entries,
    decreases entries.len(),
{
    reveal(Seq::filter);
    if entries.len() > 0 {
        lemma_all_of_others(entries.drop_last(), key);
        assert(entries.drop_last().push(entries.last()) =~= entries);
    } else {
        assert(of_others(entries, key) =~= entries);
    }
}

proof fn lemma_without_one(entries: Seq<(Seq<char>, Seq<char>)>, limit: nat, key: Seq<char>)
    requires
        is_id_cache(entries, limit),
    ensures
        id_of(entries, key) is Some ==> without(entries, key) == of_others(entries, key),
        id_of(entries, key) is None ==> of_others(entries, key) == entries,
{
    lemma_first(entries, key);
    if id_of(entries, key) is Some {
        let at = choose|at: int| #[trigger]
            stands_at(entries, key, at) && id_of(entries, key) == Some(entries[at].1) && without(
                entries,
                key,
            ) == entries.remove(at);
        let (before, this, past) = (
            entries.take(at),
            seq![entries[at]],
            entries.skip(at + 1),
        );
        assert forall|i: int| 0 <= i < past.len() implies (#[trigger] past[i]).0 != key by {
            assert(entries[at].0 != entries[at + 1 + i].0);
        }
        assert forall|i: int| 0 <= i < before.len() implies (#[trigger] before[i]).0 != key by {
            assert(entries[i].0 != entries[at].0);
        }
        lemma_all_of_others(before, key);
        lemma_all_of_others(past, key);
        let other = |e: (Seq<char>, Seq<char>)| e.0 != key;
        assert(of_others(this, key) == Seq::<(Seq<char>, Seq<char>)>::empty()) by {
            reveal(Seq::filter);
            assert(this.drop_last() =~= Seq::empty());
            assert(this.drop_last().filter(other) =~= Seq::empty());
        }
        Seq::filter_distributes_over_add(before + this, past, other);
        Seq::filter_distributes_over_add(before, this, other);
        assert(entries =~= before + this + past);
        assert(before + Seq::empty() + past =~= entries.remove(at));
    } else {
        lemma_all_of_others(entries, key);
    }
}

/// How a request is answered, and what is held then. A key that is held is answered with the id that
/// stands beside it, unless a new id is asked for; a key that is not held, or that asks for a new
/// id, is answered with the fresh one. The key and the answer then come first, and behind them all
/// that was held for other keys, in its order, as far as there is room.
pub proof fn law_a_request_is_answered_and_remembered(
    entries: Seq<(Seq<char>, Seq<char>)>,
    limit: nat,
    request: Request,
)
    requires
        is_id_cache(entries, limit),
        limit > 0,
    ensures
        ({
            let got = answer(entries, request);
            let rest = of_others(entries, request.key);
            &&& request.rotate ==> got == request.fresh
            &&& rest.len() == entries.len() ==> got == request.fresh
            &&& forall|i: int|
                0 <= i < entries.len() && (#[trigger] entries[i]).0 == request.key
                    && !request.rotate ==> got == entries[i].1
            &&& served(entries, request, limit) == seq![(request.key, got)] + rest.take(
                if rest.len() < limit {
                    rest.len() as int
                } else {
                    limit - 1
                },
            )
        }),
{
    let key = request.key;
    let rest = of_others(entries, key);
    lemma_first(entries, key);
    lemma_without_one(entries, limit, key);
    if id_of(entries, key) is Some {
        assert(without(entries, key).len() == entries.len() - 1);
        assert(rest.take(rest.len() as int) =~= rest);
    } else if entries.len() == limit {
        assert(entries.take(limit - 1) =~= entries.drop_last());
    } else {
        assert(rest.take(rest.len() as int) =~= rest);
    }
    assert forall|i: int|
        0 <= i < entries.len() && (#[trigger] entries[i]).0 == key && !request.rotate implies answer(
        entries,
        request,
    ) == entries[i].1 by {
        lemma_id_at(entries, limit, i);
    }
}

/// What is asked right after is answered by what was answered before: the same key, resolved again,
/// gets the same id, whatever fresh one is at hand; and any other key gets the answer it would have
/// got before, unless it had to make room.
pub proof fn law_the_next_request_knows_the_last(
    entries: Seq<(Seq<char>, Seq<char>)>,
    limit: nat,
    first: Request,
    second: Request,
)
    requires
        is_id_cache(entries, limit),
        limit > 0,
        is_uuid_v4(first.fresh),
        !second.rotate,
    ensures
        ({
            let after = served(entries, first, limit);
            &&& second.key == first.key ==> answer(after, second) == answer(entries, first)
            &&& second.key != first.key && !(entries.len() == limit && second.key
                == entries.last().0) ==> answer(after, second) == answer(entries, second)
        }),
{
    law_looking_up_keeps_all_ids(entries, limit, first.key);
    law_giving_an_id_keeps_the_others(entries, limit, first.key, first.fresh);
}

} // verus!
