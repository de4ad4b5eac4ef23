use lru_rs::LRUCache;

type TestCache = LRUCache<i32, 4>;

#[test]
fn test_empty() {
    let mut cache = TestCache::default();

    assert_eq!(cache.len(), 0);
    assert_eq!(cache.items(), []);
}

#[test]
fn test_insert() {
    let mut cache = TestCache::default();

    cache.insert(1);
    assert_eq!(cache.len(), 1);

    cache.insert(2);
    assert_eq!(cache.len(), 2);

    cache.insert(3);
    assert_eq!(cache.len(), 3);

    cache.insert(4);
    assert_eq!(cache.len(), 4);

    assert_eq!(
        cache.items(),
        [4, 3, 2, 1],
        "Ordered from most to least recent"
    );

    cache.insert(5);
    assert_eq!(cache.len(), 4);

    assert_eq!(
        cache.items(),
        [5, 4, 3, 2],
        "Ordered from most to least recent"
    );

    cache.insert(6);
    cache.insert(7);
    cache.insert(8);
    cache.insert(9);

    assert_eq!(cache.len(), 4);
    assert_eq!(
        cache.items(),
        [9, 8, 7, 6],
        "Least-recently-used item evicted"
    );
}

#[test]
fn test_lookup() {
    let mut cache = TestCache::default();
    cache.insert(1);
    cache.insert(2);
    cache.insert(3);
    cache.insert(4);

    let result = cache.lookup(|x| if *x == 5 { Some(()) } else { None });
    assert_eq!(result, None, "Cache miss.");
    assert_eq!(cache.items(), [4, 3, 2, 1], "Order not changed.");

    // Cache hit
    let result = cache.lookup(|x| if *x == 3 { Some(*x * 2) } else { None });
    assert_eq!(result, Some(6), "Cache hit.");
    assert_eq!(cache.items(), [3, 4, 2, 1], "Matching item moved to front.");
}

#[test]
fn test_clear() {
    let mut cache = TestCache::default();
    cache.insert(1);
    cache.clear();

    assert_eq!(cache.len(), 0);
    assert_eq!(cache.items(), [], "All items evicted");

    cache.insert(1);
    cache.insert(2);
    cache.insert(3);
    cache.insert(4);
    assert_eq!(cache.items(), [4, 3, 2, 1]);
    cache.clear();
    assert_eq!(cache.items(), [], "All items evicted again");
}

#[test]
fn test_touch() {
    let first: i32 = 10;
    let second = first + 1;
    let third = first + 2;
    let fourth = first + 3;

    let mut cache = TestCache::default();

    cache.insert(first);
    cache.insert(second);
    cache.insert(third);
    cache.insert(fourth);

    assert!(!cache.touch(|x| *x == fourth + 1));

    assert_eq!(
        cache.items(),
        [fourth, third, second, first],
        "Nothing is touched."
    );

    assert!(cache.touch(|x| *x == second));

    assert_eq!(
        cache.items(),
        [second, fourth, third, first],
        "Touched item is moved to front."
    );
}

#[test]
fn test_fetch() {
    let first: i32 = -3;
    let second = first + 1;
    let third = first + 2;
    let fourth = first + 3;

    let mut cache = TestCache::default();

    cache.insert(first);
    cache.insert(second);
    cache.insert(third);
    cache.insert(fourth);

    assert!(cache.fetch(|x| *x == fourth + 1).is_none());

    assert_eq!(
        cache.items(),
        [fourth, third, second, first],
        "Nothing is touched."
    );

    assert_eq!(cache.fetch(|x| *x == second).copied(), Some(second));

    assert_eq!(
        cache.items(),
        [second, fourth, third, first],
        "Fetched item is moved to front."
    );
}

#[test]
fn test_front() {
    let first: i32 = 7;
    let second = first + 1;

    let mut cache = TestCache::default();

    assert_eq!(cache.front(), None, "Nothing is in the front.");

    cache.insert(first);
    cache.insert(second);

    assert_eq!(
        cache.front(),
        Some(&second),
        "The last inserted item should be in the front."
    );

    assert!(cache.touch(|x| *x == first));

    assert_eq!(
        cache.front(),
        Some(&first),
        "Touched item should be in the front."
    );
}

#[test]
fn test_front_mut() {
    let mut cache = TestCache::default();

    assert_eq!(cache.front_mut(), None, "Nothing is in the front.");

    cache.insert(1);
    cache.insert(2);

    if let Some(v) = cache.front_mut() {
        assert_eq!(*v, 2);
        *v = 20;
    } else {
        panic!("A non-empty cache must have a front.");
    }

    assert_eq!(cache.items(), [20, 1], "Writes through the handle stick.");
    assert_eq!(cache.len(), 2, "Writing does not reorder or grow.");
}

#[test]
fn test_fetch_writes_through_handle() {
    let mut cache = TestCache::default();
    cache.insert(1);
    cache.insert(2);
    cache.insert(3);

    if let Some(v) = cache.fetch(|x| *x == 2) {
        *v = 22;
    } else {
        panic!("The match must yield a handle.");
    }

    assert_eq!(
        cache.items(),
        [22, 3, 1],
        "The matched item is promoted and the write sticks."
    );
}

#[test]
fn test_is_empty() {
    let mut cache = TestCache::default();
    assert!(cache.is_empty());
    cache.insert(1);
    assert!(!cache.is_empty());
    cache.clear();
    assert!(cache.is_empty());
}

#[test]
fn test_recency_scenario() {
    let mut cache = TestCache::default();
    cache.insert(1);
    cache.insert(2);
    cache.insert(3);
    cache.insert(4);
    assert_eq!(cache.items(), [4, 3, 2, 1]);

    cache.insert(5);
    assert_eq!(cache.items(), [5, 4, 3, 2], "1 evicted");

    assert!(cache.touch(|x| *x == 3));
    assert_eq!(cache.items(), [3, 5, 4, 2]);

    let r = cache.lookup(|x| if *x == 2 { Some(*x * 10) } else { None });
    assert_eq!(r, Some(20));
    assert_eq!(cache.items(), [2, 3, 5, 4]);
}

#[test]
fn test_capacity_one() {
    let mut cache: LRUCache<u8, 1> = LRUCache::default();
    cache.insert(1);
    assert_eq!(cache.items(), [1]);
    cache.insert(2);
    assert_eq!(cache.len(), 1);
    assert_eq!(cache.items(), [2], "The only slot is reused");
    assert!(cache.touch(|x| *x == 2));
    assert_eq!(cache.items(), [2], "Touching the head changes nothing");
}

#[test]
fn test_zero_capacity_reads() {
    let mut cache: LRUCache<u8, 0> = LRUCache::default();
    assert_eq!(cache.len(), 0);
    assert!(cache.is_empty());
    assert_eq!(cache.front(), None);
    assert_eq!(cache.front_mut(), None);
    assert_eq!(cache.items(), []);
    assert!(!cache.touch(|_x| true));
    assert_eq!(cache.lookup(|x| Some(*x)), None);
    assert!(cache.fetch(|_x| true).is_none());
}

#[test]
fn test_duplicate_values_first_hit_wins() {
    let mut cache = TestCache::default();
    cache.insert(1);
    cache.insert(2);
    cache.insert(1);
    assert_eq!(cache.items(), [1, 2, 1], "Duplicates are independent entries");

    assert!(cache.touch(|x| *x == 1));
    assert_eq!(
        cache.items(),
        [1, 2, 1],
        "The most recent duplicate is the one matched, so nothing moves"
    );

    assert!(cache.touch(|x| *x == 2));
    assert_eq!(cache.items(), [2, 1, 1]);
}
