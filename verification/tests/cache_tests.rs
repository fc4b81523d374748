use chlorine::cache::{ThumbState, ThumbnailCache, MAX_CONCURRENT_LOADS};

fn key(n: usize) -> String {
    format!("/images/photo_{}.png", n)
}

#[test]
fn fresh_cache_holds_nothing() {
    let cache = ThumbnailCache::new();
    assert_eq!(cache.pending_count(), 0);
    assert_eq!(cache.probe(&key(1)), ThumbState::Absent);
    assert_eq!(cache.probe(&String::from("/other/path.jpg")), ThumbState::Absent);
}

#[test]
fn unrequested_keys_stay_absent_while_others_move() {
    let mut cache = ThumbnailCache::new();
    assert!(cache.try_dispatch(&key(1)));
    cache.resolve_ready(&key(1), 7);
    assert!(cache.try_dispatch(&key(2)));
    cache.resolve_failed(&key(2));
    assert_eq!(cache.probe(&key(3)), ThumbState::Absent);
}

#[test]
fn ready_outcome_is_stable_and_triggers_no_new_work() {
    let mut cache = ThumbnailCache::new();
    assert!(cache.try_dispatch(&key(1)));
    assert_eq!(cache.probe(&key(1)), ThumbState::Pending);
    cache.resolve_ready(&key(1), 42);
    assert_eq!(cache.probe(&key(1)), ThumbState::Ready(42));
    assert_eq!(cache.probe(&key(1)), ThumbState::Ready(42));
    assert!(!cache.try_dispatch(&key(1)));
    assert_eq!(cache.probe(&key(1)), ThumbState::Ready(42));
    assert_eq!(cache.pending_count(), 0);
}

#[test]
fn failed_outcome_is_sticky_and_never_ready() {
    let mut cache = ThumbnailCache::new();
    assert!(cache.try_dispatch(&key(1)));
    // The decode task of a missing file completes with no bitmap.
    cache.resolve_failed(&key(1));
    assert_eq!(cache.probe(&key(1)), ThumbState::Failed);
    // Even if the file appears later, no re-probe happens.
    assert!(!cache.try_dispatch(&key(1)));
    assert_eq!(cache.probe(&key(1)), ThumbState::Failed);
}

#[test]
fn ceiling_admits_exactly_ten_of_fifteen() {
    let mut cache = ThumbnailCache::new();
    let mut admitted = 0;
    let mut deferred = 0;
    for n in 0..15 {
        if cache.try_dispatch(&key(n)) {
            admitted += 1;
        } else {
            deferred += 1;
        }
    }
    assert_eq!(admitted, 10);
    assert_eq!(deferred, 5);
    assert_eq!(cache.pending_count(), MAX_CONCURRENT_LOADS);
    for n in 0..10 {
        assert_eq!(cache.probe(&key(n)), ThumbState::Pending);
    }
    for n in 10..15 {
        assert_eq!(cache.probe(&key(n)), ThumbState::Absent);
    }
}

#[test]
fn deferred_key_is_admitted_once_a_slot_frees() {
    let mut cache = ThumbnailCache::new();
    for n in 0..10 {
        assert!(cache.try_dispatch(&key(n)));
    }
    assert!(!cache.try_dispatch(&key(10)));
    cache.resolve_ready(&key(3), 3);
    assert_eq!(cache.pending_count(), 9);
    assert!(cache.try_dispatch(&key(10)));
    assert_eq!(cache.pending_count(), 10);
    assert_eq!(cache.probe(&key(10)), ThumbState::Pending);
}
