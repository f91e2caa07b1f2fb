//! The locks that all stores of a process share, one per sessions directory.

use vstd::prelude::*;

verus! {

/// A sessions directory, by the bytes of its canonical path, and its lock: `None` once no store
/// holds the lock any more.
pub struct Registered<L> {
    pub dir: Vec<u8>,
    pub lock: Option<L>,
}

/// The directories and locks of a registry.
pub open spec fn registry_view<L>(registry: Seq<Registered<L>>) -> Seq<(Seq<u8>, Option<L>)> {
    registry.map_values(|r: Registered<L>| (r.dir@, r.lock))
}

/// Whether no directory is registered twice.
pub open spec fn is_registry<L>(registry: Seq<(Seq<u8>, Option<L>)>) -> bool {
    forall|i: int, j: int|
        0 <= i < j < registry.len() ==> #[trigger] registry[i].0 != #[trigger] registry[j].0
}

/// The entries whose lock some store still holds.
pub open spec fn held<L>(registry: Seq<(Seq<u8>, Option<L>)>) -> Seq<(Seq<u8>, Option<L>)>
    decreases registry.len(),
{
    if registry.len() == 0 {
        Seq::empty()
    } else if registry.last().1 is Some {
        held(registry.drop_last()).push(registry.last())
    } else {
        held(registry.drop_last())
    }
}

/// The lock that is registered for a directory and still held.
pub open spec fn lock_of<L>(registry: Seq<(Seq<u8>, Option<L>)>, dir: Seq<u8>) -> Option<L>
    decreases registry.len(),
{
    if registry.len() == 0 {
        None
    } else if registry.last().0 == dir && registry.last().1 is Some {
        registry.last().1
    } else {
        lock_of(registry.drop_last(), dir)
    }
}

fn same_bytes(a: &Vec<u8>, b: &Vec<u8>) -> (same: bool)
    ensures
        same <==> a@ == b@,
{
    if a.len() != b.len() {
        return false;
    }
    let mut i: usize = 0;
    while i < a.len()
        invariant
            i <= a@.len(),
            a@.len() == b@.len(),
            a@.take(i as int) =~= b@.take(i as int),
        decreases a@.len() - i,
    {
        if a[i] != b[i] {
            return false;
        }
        assert(a@.take(i + 1) =~= a@.take(i as int).push(a@[i as int]));
        assert(b@.take(i + 1) =~= b@.take(i as int).push(b@[i as int]));
        i += 1;
    }
    assert(a@.take(i as int) =~= a@);
    assert(b@.take(i as int) =~= b@);
    true
}

/// The registry without the locks that no store holds any more, and with a lock for the directory:
/// the one it has if some store holds it, otherwise `fresh`. The number says where that lock is.
pub fn mutation_lock_for<L>(registry: Vec<Registered<L>>, dir: &Vec<u8>, fresh: L) -> (found: (
    Vec<Registered<L>>,
    usize,
))
    requires
        is_registry(registry_view(registry@)),
    ensures
        ({
            let old = registry_view(registry@);
            let (new, at) = (registry_view(found.0@), found.1);
            &&& is_registry(new)
            &&& at < new.len()
            &&& new[at as int].0 == dir@
            &&& new == asked(old, dir@, fresh)
            &&& new[at as int].1 == Some(
                match lock_of(old, dir@) {
                    Some(lock) => lock,
                    None => fresh,
                },
            )
        }),
{
    let ghost old = registry_view(registry@);
    let mut kept: Vec<Registered<L>> = Vec::new();
    let mut at: Option<usize> = None;
    for entry in it: registry
        invariant
            it.seq() == registry@,
            old == registry_view(registry@),
            is_registry(old),
            registry_view(kept@) == held(old.take(it.index())),
            kept@.len() <= it.index(),
            forall|i: int| 0 <= i < kept@.len() ==> exists|j: int|
                0 <= j < it.index() && (#[trigger] kept@[i]).dir@ == old[j].0,
            is_registry(registry_view(kept@)),
            match lock_of(old.take(it.index()), dir@) {
                Some(lock) => at is Some && at->0 < kept@.len() && kept@[at->0 as int].dir@ == dir@
                    && kept@[at->0 as int].lock == Some(lock),
                None => at is None,
            },
    {
        let ghost k = it.index();
        let ghost before = kept@;
        proof {
            assert(old.take(k + 1).drop_last() =~= old.take(k));
            assert(old.take(k + 1).last() == old[k]);
            assert(old[k] == (entry.dir@, entry.lock));
        }
        if entry.lock.is_some() {
            if same_bytes(&entry.dir, dir) {
                at = Some(kept.len());
            }
            kept.push(entry);
            proof {
                assert(registry_view(kept@) =~= registry_view(before).push(old[k]));
                assert forall|i: int| 0 <= i < kept@.len() implies exists|j: int|
                    0 <= j < k + 1 && (#[trigger] kept@[i]).dir@ == old[j].0 by {
                    if i < before.len() {
                        assert(kept@[i] == before[i]);
                        let j = choose|j: int| 0 <= j < k && before[i].dir@ == old[j].0;
                        assert(0 <= j < k + 1 && kept@[i].dir@ == old[j].0);
                    } else {
                        assert(kept@[i].dir@ == old[k].0);
                    }
                }
                let view = registry_view(kept@);
                assert forall|i: int, j: int| 0 <= i < j < view.len() implies #[trigger] view[i].0
                    != #[trigger] view[j].0 by {
                    if j == before.len() {
                        assert(kept@[i] == before[i]);
                        let m = choose|m: int| 0 <= m < k && before[i].dir@ == old[m].0;
                        assert(old[m].0 != old[k].0);
                    } else {
                        assert(registry_view(before)[i] == view[i]);
                        assert(registry_view(before)[j] == view[j]);
                    }
                }
            }
        }
    }
    assert(old.take(old.len() as int) =~= old);
    match at {
        Some(at) => (kept, at),
        None => {
            let ghost before = kept@;
            let at: usize = kept.len();
            kept.push(Registered { dir: dir.clone(), lock: Some(fresh) });
            proof {
                let view = registry_view(kept@);
                assert(view =~= registry_view(before).push((dir@, Some(fresh))));
                lemma_no_other(old, dir@);
            }
            (kept, at)
        },
    }
}

/// Where no held lock is registered for a directory, no held entry is about it.
proof fn lemma_no_other<L>(registry: Seq<(Seq<u8>, Option<L>)>, dir: Seq<u8>)
    ensures
        lock_of(registry, dir) is None ==> forall|i: int|
            0 <= i < held(registry).len() ==> (#[trigger] held(registry)[i]).0 != dir,
    decreases registry.len(),
{
    if registry.len() > 0 {
        let fewer = registry.drop_last();
        lemma_no_other(fewer, dir);
        if lock_of(registry, dir) is None {
            let all = held(registry);
            assert forall|i: int| 0 <= i < all.len() implies (#[trigger] all[i]).0 != dir by {
                if i < held(fewer).len() {
                    assert(all[i] == held(fewer)[i]);
                }
            }
        }
    }
}

/// Whether a registry is an earlier one in which some locks are no longer held.
pub open spec fn later<L>(
    earlier: Seq<(Seq<u8>, Option<L>)>,
    now: Seq<(Seq<u8>, Option<L>)>,
) -> bool {
    &&& now.len() == earlier.len()
    &&& forall|i: int|
        0 <= i < now.len() ==> (#[trigger] now[i]).0 == earlier[i].0 && (now[i].1 == earlier[i].1
            || now[i].1 is None)
}

/// All stores on a directory share one lock: as long as the lock that stands at `at` is held, it is
/// the lock of its directory, whichever other locks are given up.
pub proof fn law_a_directory_has_one_lock<L>(
    earlier: Seq<(Seq<u8>, Option<L>)>,
    now: Seq<(Seq<u8>, Option<L>)>,
    at: int,
)
    requires
        is_registry(earlier),
        later(earlier, now),
        0 <= at < now.len(),
        now[at].1 is Some,
    ensures
        is_registry(now),
        lock_of(now, now[at].0) == earlier[at].1,
{
    assert forall|i: int, j: int| 0 <= i < j < now.len() implies #[trigger] now[i].0
        != #[trigger] now[j].0 by {
        assert(earlier[i].0 != earlier[j].0);
    }
    lemma_lock_of(now, at);
}

proof fn lemma_lock_of<L>(registry: Seq<(Seq<u8>, Option<L>)>, at: int)
    requires
        is_registry(registry),
        0 <= at < registry.len(),
        registry[at].1 is Some,
    ensures
        lock_of(registry, registry[at].0) == registry[at].1,
    decreases registry.len(),
{
    if at < registry.len() - 1 {
        let fewer = registry.drop_last();
        assert(registry[at].0 != registry[registry.len() - 1].0);
        assert forall|i: int, j: int| 0 <= i < j < fewer.len() implies #[trigger] fewer[i].0
            != #[trigger] fewer[j].0 by {
            assert(registry[i].0 != registry[j].0);
        }
        lemma_lock_of(fewer, at);
    }
}

/// Whether no two entries have the same lock.
pub open spec fn locks_differ<L>(registry: Seq<(Seq<u8>, Option<L>)>) -> bool {
    forall|i: int, j: int|
        0 <= i < j < registry.len() && (#[trigger] registry[i]).1 is Some && (
        #[trigger] registry[j]).1 is Some ==> registry[i].1 != registry[j].1
}

/// Whether a lock is in no entry.
pub open spec fn is_new_lock<L>(registry: Seq<(Seq<u8>, Option<L>)>, lock: L) -> bool {
    forall|i: int| 0 <= i < registry.len() ==> (#[trigger] registry[i]).1 != Some(lock)
}

/// The registry once a directory has asked for its lock, as `mutation_lock_for` returns it.
pub open spec fn asked<L>(
    registry: Seq<(Seq<u8>, Option<L>)>,
    dir: Seq<u8>,
    fresh: L,
) -> Seq<(Seq<u8>, Option<L>)> {
    match lock_of(registry, dir) {
        Some(_) => held(registry),
        None => held(registry).push((dir, Some(fresh))),
    }
}

proof fn lemma_held_entries<L>(registry: Seq<(Seq<u8>, Option<L>)>)
    ensures
        is_registry(registry) ==> is_registry(held(registry)),
        locks_differ(registry) ==> locks_differ(held(registry)),
        forall|lock: L| is_new_lock(registry, lock) ==> #[trigger] is_new_lock(
            held(registry),
            lock,
        ),
        forall|i: int|
            0 <= i < held(registry).len() ==> exists|j: int|
                0 <= j < registry.len() && registry[j] == #[trigger] held(registry)[i],
    decreases registry.len(),
{
    if registry.len() > 0 {
        let fewer = registry.drop_last();
        let last = registry.len() - 1;
        lemma_held_entries(fewer);
        let (all, before) = (held(registry), held(fewer));
        assert forall|i: int| 0 <= i < all.len() implies exists|j: int|
            0 <= j < registry.len() && registry[j] == #[trigger] all[i] by {
            if i < before.len() {
                assert(all[i] == before[i]);
                let j = choose|j: int| 0 <= j < fewer.len() && fewer[j] == before[i];
                assert(registry[j] == all[i]);
            } else {
                assert(registry[last] == all[i]);
            }
        }
        if is_registry(registry) {
            assert forall|i: int, j: int| 0 <= i < j < fewer.len() implies #[trigger] fewer[i].0
                != #[trigger] fewer[j].0 by {
                assert(registry[i].0 != registry[j].0);
            }
            assert forall|i: int, j: int| 0 <= i < j < all.len() implies #[trigger] all[i].0
                != #[trigger] all[j].0 by {
                assert(all[i] == before[i]);
                if j < before.len() {
                    assert(all[j] == before[j]);
                } else {
                    let m = choose|m: int| 0 <= m < fewer.len() && fewer[m] == before[i];
                    assert(registry[m].0 != registry[last].0);
                }
            }
        }
        if locks_differ(registry) {
            assert forall|i: int, j: int|
                0 <= i < j < fewer.len() && (#[trigger] fewer[i]).1 is Some && (
                #[trigger] fewer[j]).1 is Some implies fewer[i].1 != fewer[j].1 by {
                assert(registry[i].1 != registry[j].1);
            }
            assert forall|i: int, j: int|
                0 <= i < j < all.len() && (#[trigger] all[i]).1 is Some && (
                #[trigger] all[j]).1 is Some implies all[i].1 != all[j].1 by {
                assert(all[i] == before[i]);
                if j < before.len() {
                    assert(all[j] == before[j]);
                } else {
                    let m = choose|m: int| 0 <= m < fewer.len() && fewer[m] == before[i];
                    assert(registry[m].1 != registry[last].1);
                }
            }
        }
        assert forall|lock: L| is_new_lock(registry, lock) implies #[trigger] is_new_lock(
            all,
            lock,
        ) by {
            assert forall|i: int| 0 <= i < all.len() implies (#[trigger] all[i]).1 != Some(
                lock,
            ) by {
                let j = choose|j: int| 0 <= j < registry.len() && registry[j] == all[i];
                assert(registry[j].1 != Some(lock));
            }
        }
    }
}

/// Directories with different paths never share a lock: where the registered locks differ and
/// `fresh` is none of them, the locks of the registry that results differ too, and so do those of
/// any two directories in it.
pub proof fn law_directories_do_not_share_a_lock<L>(
    registry: Seq<(Seq<u8>, Option<L>)>,
    dir: Seq<u8>,
    fresh: L,
    a: Seq<u8>,
    b: Seq<u8>,
)
    requires
        is_registry(registry),
        locks_differ(registry),
        is_new_lock(registry, fresh),
        a != b,
    ensures
        ({
            let new = asked(registry, dir, fresh);
            &&& is_registry(new)
            &&& locks_differ(new)
            &&& lock_of(new, a) is Some && lock_of(new, b) is Some ==> lock_of(new, a) != lock_of(
                new,
                b,
            )
        }),
{
    let new = asked(registry, dir, fresh);
    lemma_held_entries(registry);
    lemma_no_other(registry, dir);
    assert(is_new_lock(held(registry), fresh));
    if lock_of(new, a) is Some && lock_of(new, b) is Some {
        lemma_found(new, a);
        lemma_found(new, b);
        let i = choose|i: int| 0 <= i < new.len() && #[trigger] new[i] == (a, lock_of(new, a));
        let j = choose|j: int| 0 <= j < new.len() && #[trigger] new[j] == (b, lock_of(new, b));
        if i < j {
            assert(new[i].1 != new[j].1);
        } else {
            assert(new[j].1 != new[i].1);
        }
    }
}

proof fn lemma_found<L>(registry: Seq<(Seq<u8>, Option<L>)>, dir: Seq<u8>)
    requires
        lock_of(registry, dir) is Some,
    ensures
        exists|i: int|
            0 <= i < registry.len() && #[trigger] registry[i] == (dir, lock_of(registry, dir)),
    decreases registry.len(),
{
    let last = registry.len() - 1;
    if registry[last].0 == dir && registry[last].1 is Some {
        assert(registry[last] == (dir, lock_of(registry, dir)));
    } else {
        let fewer = registry.drop_last();
        lemma_found(fewer, dir);
        let i = choose|i: int|
            0 <= i < fewer.len() && #[trigger] fewer[i] == (dir, lock_of(fewer, dir));
        assert(registry[i] == (dir, lock_of(registry, dir)));
    }
}

/// A directory has a lock exactly if the registry holds an entry of that directory with the lock in
/// it.
pub proof fn law_a_lock_is_found_by_its_directory<L>(
    registry: Seq<(Seq<u8>, Option<L>)>,
    dir: Seq<u8>,
    lock: L,
)
    requires
        is_registry(registry),
    ensures
        lock_of(registry, dir) == Some(lock) <==> registry.contains((dir, Some(lock))),
{
    if lock_of(registry, dir) == Some(lock) {
        lemma_found(registry, dir);
    }
    if registry.contains((dir, Some(lock))) {
        let at = choose|i: int| 0 <= i < registry.len() && registry[i] == (dir, Some(lock));
        lemma_lock_of(registry, at);
    }
}

proof fn lemma_held_filters<L>(registry: Seq<(Seq<u8>, Option<L>)>)
    ensures
        held(registry) == registry.filter(|e: (Seq<u8>, Option<L>)| e.1 is Some),
    decreases registry.len(),
{
    reveal(Seq::filter);
    if registry.len() > 0 {
        lemma_held_filters(registry.drop_last());
    }
}

/// Asking for the lock of a directory drops the entries that nobody holds, in place, and no other:
/// every directory keeps the lock it has, and only the one that asked, where it had none, gets the
/// fresh lock.
pub proof fn law_asking_keeps_every_held_lock<L>(
    registry: Seq<(Seq<u8>, Option<L>)>,
    dir: Seq<u8>,
    fresh: L,
)
    requires
        is_registry(registry),
    ensures
        ({
            let new = asked(registry, dir, fresh);
            let kept = registry.filter(|e: (Seq<u8>, Option<L>)| e.1 is Some);
            let known = exists|lock: L| #[trigger] registry.contains((dir, Some(lock)));
            &&& known ==> new == kept
            &&& !known ==> new == kept + seq![(dir, Some(fresh))]
            &&& forall|other: Seq<u8>, lock: L|
                registry.contains((other, Some(lock))) ==> #[trigger] new.contains(
                    (other, Some(lock)),
                )
            &&& forall|other: Seq<u8>, lock: L| #[trigger]
                new.contains((other, Some(lock))) ==> registry.contains((other, Some(lock))) || (
                other == dir && lock == fresh && !known)
        }),
{
    let new = asked(registry, dir, fresh);
    let keep = |e: (Seq<u8>, Option<L>)| e.1 is Some;
    let kept = registry.filter(keep);
    lemma_held_filters(registry);
    assert(new == kept || new =~= kept + seq![(dir, Some(fresh))]);
    let known = exists|lock: L| #[trigger] registry.contains((dir, Some(lock)));
    if known {
        let lock = choose|lock: L| #[trigger] registry.contains((dir, Some(lock)));
        law_a_lock_is_found_by_its_directory(registry, dir, lock);
    } else if lock_of(registry, dir) is Some {
        law_a_lock_is_found_by_its_directory(registry, dir, lock_of(registry, dir)->0);
    }
    assert forall|other: Seq<u8>, lock: L| registry.contains(
        (other, Some(lock)),
    ) implies #[trigger] new.contains((other, Some(lock))) by {
        let i = choose|i: int| 0 <= i < registry.len() && registry[i] == (other, Some(lock));
        registry.lemma_filter_contains(keep, i);
        assert(kept.contains(registry[i]));
        let j = choose|j: int| 0 <= j < kept.len() && kept[j] == registry[i];
        assert(new[j] == kept[j]);
    }
    assert forall|other: Seq<u8>, lock: L| #[trigger]
        new.contains((other, Some(lock))) implies registry.contains((other, Some(lock))) || (other
        == dir && lock == fresh && !known) by {
        let i = choose|i: int| 0 <= i < new.len() && new[i] == (other, Some(lock));
        if i < kept.len() {
            assert(kept[i] == new[i]);
            registry.lemma_filter_contains_rev(keep, kept[i]);
        }
    }
}

/// Whoever asks again gets the lock of the first time, whatever fresh lock it brings, and changes
/// nothing.
pub proof fn law_asking_again_changes_nothing<L>(
    registry: Seq<(Seq<u8>, Option<L>)>,
    dir: Seq<u8>,
    first: L,
    second: L,
)
    requires
        is_registry(registry),
    ensures
        ({
            let new = asked(registry, dir, first);
            &&& asked(new, dir, second) == new
            &&& exists|lock: L| #[trigger] new.contains((dir, Some(lock)))
        }),
{
    let new = asked(registry, dir, first);
    let keep = |e: (Seq<u8>, Option<L>)| e.1 is Some;
    law_asking_keeps_every_held_lock(registry, dir, first);
    lemma_held_entries(registry);
    lemma_no_other(registry, dir);
    lemma_held_filters(registry);
    assert forall|i: int| 0 <= i < new.len() implies keep(#[trigger] new[i]) by {
        if i < held(registry).len() {
            assert(new[i] == held(registry)[i]);
            registry.lemma_filter_contains_rev(keep, new[i]);
        }
    }
    lemma_all_held(new);
    assert(new.last() == (dir, Some(first)) || lock_of(registry, dir) is Some);
    let lock = match lock_of(registry, dir) {
        Some(lock) => lock,
        None => first,
    };
    if lock_of(registry, dir) is Some {
        law_a_lock_is_found_by_its_directory(registry, dir, lock);
    } else {
        assert(new[new.len() - 1] == (dir, Some(lock)));
    }
    assert(new.contains((dir, Some(lock))));
    law_a_lock_is_found_by_its_directory(new, dir, lock);
}

proof fn lemma_all_held<L>(registry: Seq<(Seq<u8>, Option<L>)>)
    requires
        forall|i: int| 0 <= i < registry.len() ==> (#[trigger] registry[i]).1 is Some,
    ensures
        held(registry) == registry,
    decreases registry.len(),
{
    if registry.len() > 0 {
        lemma_all_held(registry.drop_last());
        assert(registry.drop_last().push(registry.last()) =~= registry);
    } else {
        assert(held(registry) =~= registry);
    }
}

} // verus!
