use icon_cache::cache::{Cache, LoadError, Loader};
use icon_cache::image::Image;

/// A loader that always succeeds and stamps each artifact with the number of
/// loads performed so far, so distinct loads are distinguishable.
struct CountingLoader {
    calls: u8,
}

impl Loader<String> for CountingLoader {
    fn produce(&mut self, key: &String) -> Result<Image, LoadError> {
        self.calls += 1;
        Ok(Image { pixels: vec![key.as_bytes()[0], self.calls, 0, 0], width: 1, height: 1 })
    }
}

/// A loader that always fails.
struct FailingLoader;

impl Loader<String> for FailingLoader {
    fn produce(&mut self, _key: &String) -> Result<Image, LoadError> {
        Err(LoadError { message: String::from("no artifact") })
    }
}

#[test]
fn scenario_capacity_two() {
    // Capacity 2, keys A, B, C, a loader that always succeeds.
    let mut cache: Cache<String> = Cache::new(2);
    let mut loader = CountingLoader { calls: 0 };
    let a = String::from("A");
    let b = String::from("B");
    let c = String::from("C");

    // get(A) -> load A, len = 1
    let r = cache.get(&a, &mut loader, 1).unwrap();
    assert_eq!(loader.calls, 1);
    assert_eq!(r.pixels, vec![b'A', 1, 0, 0]);
    assert_eq!(cache.len(), 1);

    // get(B) -> load B, len = 2
    cache.get(&b, &mut loader, 2).unwrap();
    assert_eq!(loader.calls, 2);
    assert_eq!(cache.len(), 2);

    // get(A) -> hit, no load, A now most recent
    let r = cache.get(&a, &mut loader, 3).unwrap();
    assert_eq!(loader.calls, 2);
    assert_eq!(r.pixels, vec![b'A', 1, 0, 0]);

    // get(C) -> miss, store full, oldest is B -> evict B, insert C
    cache.get(&c, &mut loader, 4).unwrap();
    assert_eq!(loader.calls, 3);
    assert_eq!(cache.len(), 2);
    assert!(cache.get_stats(&a).is_some());
    assert!(cache.get_stats(&b).is_none());
    assert!(cache.get_stats(&c).is_some());

    // get(B) -> miss again, loads B anew, evicts A (now oldest)
    cache.get(&b, &mut loader, 5).unwrap();
    assert_eq!(loader.calls, 4);
    assert_eq!(cache.len(), 2);
    assert!(cache.get_stats(&a).is_none());
    assert!(cache.get_stats(&b).is_some());
    assert!(cache.get_stats(&c).is_some());
}

#[test]
fn hit_after_insert_ignores_later_loader() {
    let mut cache: Cache<String> = Cache::new(4);
    let mut loader = CountingLoader { calls: 0 };
    let k = String::from("K");
    let first = cache.get(&k, &mut loader, 1).unwrap();
    // A second get returns the artifact of the first call even though this
    // loader would fail.
    let mut failing = FailingLoader;
    let second = cache.get(&k, &mut failing, 2).unwrap();
    assert_eq!(first.pixels, second.pixels);
    assert_eq!(loader.calls, 1);
}

#[test]
fn capacity_bound_holds_after_each_get() {
    let mut cache: Cache<String> = Cache::new(3);
    let mut loader = CountingLoader { calls: 0 };
    for i in 0..10u8 {
        let key = format!("K{i}");
        cache.get(&key, &mut loader, u64::from(i)).unwrap();
        assert!(cache.len() <= 3);
    }
    assert_eq!(cache.len(), 3);
}

#[test]
fn eviction_removes_exactly_the_oldest() {
    let mut cache: Cache<String> = Cache::new(3);
    let mut loader = CountingLoader { calls: 0 };
    for key in ["X", "Y", "Z"] {
        cache.get(&String::from(key), &mut loader, 1).unwrap();
    }
    let oldest = cache.queue.get_oldest().unwrap().clone();
    assert_eq!(oldest, "X");
    cache.get(&String::from("W"), &mut loader, 2).unwrap();
    assert_eq!(cache.len(), 3);
    assert!(cache.get_stats(&oldest).is_none());
    assert!(cache.get_stats(&String::from("Y")).is_some());
    assert!(cache.get_stats(&String::from("Z")).is_some());
    assert!(cache.get_stats(&String::from("W")).is_some());
}

#[test]
fn recency_update_protects_hit_key() {
    let mut cache: Cache<String> = Cache::new(2);
    let mut loader = CountingLoader { calls: 0 };
    let a = String::from("A");
    let b = String::from("B");
    cache.get(&a, &mut loader, 1).unwrap();
    cache.get(&b, &mut loader, 2).unwrap();
    // Hit A: A moves to the back, so the next eviction takes B, not A.
    cache.get(&a, &mut loader, 3).unwrap();
    cache.get(&String::from("C"), &mut loader, 4).unwrap();
    assert!(cache.get_stats(&a).is_some());
    assert!(cache.get_stats(&b).is_none());
}

#[test]
fn ttl_expiry_sweeps_idle_entries_only() {
    let mut cache: Cache<String> = Cache::with_ttl(4, 100);
    let mut loader = CountingLoader { calls: 0 };
    let a = String::from("A");
    let b = String::from("B");
    cache.get(&a, &mut loader, 0).unwrap();
    cache.get(&b, &mut loader, 50).unwrap();
    cache.cleanup_old_entries(120);
    // A idle for 120 >= 100 is gone; B idle for 70 < 100 survives.
    assert!(cache.get_stats(&a).is_none());
    assert!(cache.get_stats(&b).is_some());
    assert_eq!(cache.len(), 1);
    // An entry touched within the TTL survives the next tick too.
    cache.get(&b, &mut loader, 130).unwrap();
    cache.cleanup_old_entries(220);
    assert!(cache.get_stats(&b).is_some());
}

#[test]
fn failed_load_leaves_cache_unchanged() {
    let mut cache: Cache<String> = Cache::new(2);
    let mut loader = CountingLoader { calls: 0 };
    cache.get(&String::from("A"), &mut loader, 1).unwrap();
    let mut failing = FailingLoader;
    let r = cache.get(&String::from("B"), &mut failing, 2);
    assert!(r.is_none());
    assert_eq!(cache.len(), 1);
    assert!(cache.get_stats(&String::from("B")).is_none());
    assert!(cache.get_stats(&String::from("A")).is_some());
    assert!(!cache.is_empty());
}

#[test]
fn stats_track_access_count_and_time() {
    let mut cache: Cache<String> = Cache::new(2);
    let mut loader = CountingLoader { calls: 0 };
    let k = String::from("K");
    cache.get(&k, &mut loader, 7).unwrap();
    assert_eq!(cache.get_stats(&k), Some((1, 7)));
    cache.get(&k, &mut loader, 9).unwrap();
    assert_eq!(cache.get_stats(&k), Some((2, 9)));
}

#[test]
fn empty_cache_reports_empty() {
    let cache: Cache<String> = Cache::new(1);
    assert!(cache.is_empty());
    assert_eq!(cache.len(), 0);
    assert!(cache.get_stats(&String::from("A")).is_none());
}
