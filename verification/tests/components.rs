use icon_cache::cache::Cache;
use icon_cache::cache::{LoadError, Loader};
use icon_cache::eviction::EvictionQueue;
use icon_cache::image::Image;
use icon_cache::keys::CacheKey;
use icon_cache::store::CacheStore;

#[test]
fn queue_orders_by_recency() {
    let mut q: EvictionQueue<String> = EvictionQueue::new(3);
    assert!(q.get_oldest().is_none());
    q.update(String::from("A"));
    q.update(String::from("B"));
    q.update(String::from("C"));
    assert_eq!(q.get_oldest().unwrap(), "A");
    // Touching A moves it to the back: the oldest becomes B.
    q.update(String::from("A"));
    assert_eq!(q.get_oldest().unwrap(), "B");
}

#[test]
fn queue_drops_front_at_capacity() {
    let mut q: EvictionQueue<String> = EvictionQueue::new(2);
    q.update(String::from("A"));
    q.update(String::from("B"));
    q.update(String::from("C"));
    assert_eq!(q.get_oldest().unwrap(), "B");
}

#[test]
fn store_insert_overwrites() {
    let mut store: CacheStore<String> = CacheStore::new();
    let k = String::from("K");
    store.insert(k.clone(), Image { pixels: vec![1], width: 1, height: 1 }, 10);
    store.insert(k.clone(), Image { pixels: vec![2], width: 1, height: 1 }, 20);
    assert_eq!(store.size(), 1);
    let e = store.lookup(&k).unwrap();
    assert_eq!(e.image.pixels, vec![2]);
    assert_eq!(e.access_count, 1);
    assert_eq!(e.last_accessed, 20);
}

#[test]
fn store_touch_and_remove() {
    let mut store: CacheStore<String> = CacheStore::new();
    let k = String::from("K");
    store.insert(k.clone(), Image { pixels: vec![1], width: 1, height: 1 }, 10);
    store.touch(&k, 15);
    let e = store.lookup(&k).unwrap();
    assert_eq!(e.access_count, 2);
    assert_eq!(e.last_accessed, 15);
    // Touching an absent key is a no-op.
    store.touch(&String::from("other"), 16);
    assert_eq!(store.size(), 1);
    store.remove(&k);
    assert!(store.lookup(&k).is_none());
    assert!(store.is_empty());
}

#[test]
fn probe_reads_without_touching() {
    let mut cache: Cache<String> = Cache::new(2);
    let k = String::from("K");
    let img = Image { pixels: vec![1, 2, 3, 4], width: 1, height: 1 };
    assert!(cache.probe(&k).is_none());
    assert!(cache.admit_load(&k, Ok(img), 5).is_some());
    let seen = cache.probe(&k).unwrap();
    assert_eq!(seen.pixels, vec![1, 2, 3, 4]);
    // A probe leaves the access count and timestamp alone.
    assert_eq!(cache.get_stats(&k), Some((1, 5)));
}

#[test]
fn note_hit_refreshes_metadata() {
    let mut cache: Cache<String> = Cache::new(2);
    let k = String::from("K");
    let img = Image { pixels: vec![9], width: 1, height: 1 };
    cache.admit_load(&k, Ok(img), 5);
    cache.note_hit(&k, 8);
    assert_eq!(cache.get_stats(&k), Some((2, 8)));
}

#[test]
fn admit_load_failure_changes_nothing() {
    let mut cache: Cache<String> = Cache::new(2);
    let k = String::from("K");
    let err = icon_cache::cache::LoadError { message: String::from("unavailable") };
    assert!(cache.admit_load(&k, Err(err), 3).is_none());
    assert!(cache.is_empty());
    assert!(cache.probe(&k).is_none());
}

struct DimLoader;

impl Loader<CacheKey> for DimLoader {
    fn produce(&mut self, key: &CacheKey) -> Result<Image, LoadError> {
        let n = (key.width * key.height * 4) as usize;
        Ok(Image { pixels: vec![7u8; n], width: key.width, height: key.height })
    }
}

#[test]
fn dimensioned_keys_are_distinct() {
    // The same path at different sizes occupies different entries.
    let mut cache: Cache<CacheKey> = Cache::new(4);
    let mut loader = DimLoader;
    let small = CacheKey { path: String::from("app.exe"), width: 16, height: 16 };
    let big = CacheKey { path: String::from("app.exe"), width: 32, height: 32 };
    let r1 = cache.get(&small, &mut loader, 1).unwrap();
    let r2 = cache.get(&big, &mut loader, 2).unwrap();
    assert_eq!(cache.len(), 2);
    assert_eq!(r1.pixels.len(), 16 * 16 * 4);
    assert_eq!(r2.pixels.len(), 32 * 32 * 4);
    assert_eq!(cache.get_stats(&small), Some((1, 1)));
    assert_eq!(cache.get_stats(&big), Some((1, 2)));
}
