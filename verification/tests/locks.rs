use zeroclaw_sessions::locks::{mutation_lock_for, Registered};

#[test]
fn stores_on_one_directory_share_a_lock() {
    let (registry, at) = mutation_lock_for(Vec::new(), &b"/a".to_vec(), 1);
    assert_eq!((registry.len(), at, registry[at].lock), (1, 0, Some(1)));
    let (registry, at) = mutation_lock_for(registry, &b"/b".to_vec(), 2);
    assert_eq!((registry.len(), at, registry[at].lock), (2, 1, Some(2)));
    let (registry, at) = mutation_lock_for(registry, &b"/a".to_vec(), 3);
    assert_eq!((registry.len(), at, registry[at].lock), (2, 0, Some(1)));
    assert_eq!(registry[at].dir, b"/a".to_vec());
}

#[test]
fn locks_that_nobody_holds_are_forgotten() {
    let registry = vec![
        Registered {
            dir: b"/a".to_vec(),
            lock: None,
        },
        Registered {
            dir: b"/b".to_vec(),
            lock: Some(2),
        },
        Registered {
            dir: b"/c".to_vec(),
            lock: None,
        },
    ];
    let (registry, at) = mutation_lock_for(registry, &b"/a".to_vec(), 9);
    assert_eq!((registry.len(), at, registry[at].lock), (2, 1, Some(9)));
    assert_eq!(registry[0].dir, b"/b".to_vec());
    assert_eq!(registry[0].lock, Some(2));
}

#[test]
fn directories_do_not_share_a_lock() {
    let mut registry = Vec::new();
    let mut locks = Vec::new();
    for n in 0..4 {
        let (next, at) = mutation_lock_for(registry, &vec![n], 10 + n);
        locks.push(next[at].lock.unwrap());
        registry = next;
    }
    assert_eq!(locks, vec![10, 11, 12, 13]);
}
