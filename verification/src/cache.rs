//! The cache facade.
//!
//! A [`Cache`] owns one [`CacheStore`] and one [`EvictionQueue`] and applies
//! the capacity, eviction and expiry policy. On a hit, `get` refreshes the
//! entry's metadata and recency; on a miss it invokes the external loader
//! and, when the store is full, evicts the key the queue reports as oldest.
//! A failed load leaves the cache exactly as it was.
//!
//! The facade's invariant ties the two structures together: the store's keys
//! all appear in the queue, keys the expiry sweep has removed from the store
//! linger only in a prefix of the queue, and the live part of the queue is
//! ordered by last access. That is what makes the front of the queue a sound
//! eviction victim.

use vstd::prelude::*;
use vstd::set_lib::lemma_len_subset;
use crate::eviction::{refresh, lemma_remove_first_at, EvictionQueue};
use crate::image::{Image, ImageAbs};
use crate::keys::LookupKey;
use crate::store::{
    fresh_entry, seen_by, sweep_view, touched, CacheStore, EntryAbs, expired,
};

verus! {

/// The one failure the cache surfaces: the external loader could not produce
/// an artifact for the key. The cache does not classify it further.
pub struct LoadError {
    pub message: String,
}

/// The external artifact producer. On a miss the cache hands it the key and
/// caches whatever artifact it returns; nothing is assumed about when it
/// succeeds.
pub trait Loader<K> {
    fn produce(&mut self, key: &K) -> Result<Image, LoadError>;
}

/// The joint well-formedness of a store content `m` and a queue content `q`
/// under capacity `max`:
/// the queue holds no key twice and at most `max` keys; every stored key is
/// somewhere in the queue; keys that are no longer stored (expired ones)
/// occupy only a prefix of the queue; and the stored keys appear in the
/// queue in order of their last access.
pub open spec fn inv<KV>(m: Map<KV, EntryAbs>, q: Seq<KV>, max: nat) -> bool {
    &&& 1 <= max
    &&& q.no_duplicates()
    &&& q.len() <= max
    &&& m.dom().finite()
    &&& m.dom().len() <= max
    &&& (forall|kv: KV| #[trigger] m.contains_key(kv) ==> q.contains(kv))
    &&& (forall|i: int, j: int| #![trigger q[i], q[j]]
        0 <= i < j < q.len() && !m.contains_key(q[j]) ==> !m.contains_key(q[i]))
    &&& (forall|i: int, j: int| #![trigger q[i], q[j]]
        0 <= i < j < q.len() && m.contains_key(q[i]) && m.contains_key(q[j])
            ==> m[q[i]].last_accessed <= m[q[j]].last_accessed)
}

/// The store after the eviction check a miss-fill performs: when the store
/// is full and the queue can name a victim, that victim is dropped.
pub open spec fn after_evict<KV>(m: Map<KV, EntryAbs>, q: Seq<KV>, max: nat) -> Map<
    KV,
    EntryAbs,
> {
    if m.dom().len() >= max && q.len() > 0 {
        m.remove(q[0])
    } else {
        m
    }
}

/// The store after a successful miss-fill of `kv` at time `now`.
pub open spec fn after_insert<KV>(
    m: Map<KV, EntryAbs>,
    q: Seq<KV>,
    max: nat,
    kv: KV,
    img: ImageAbs,
    now: u64,
) -> Map<KV, EntryAbs> {
    after_evict(m, q, max).insert(kv, fresh_entry(img, now))
}

/// When the store is full, the queue is full too and holds exactly the
/// stored keys; in particular the front of the queue is a stored key.
pub proof fn lemma_full_store<KV>(m: Map<KV, EntryAbs>, q: Seq<KV>, max: nat)
    requires
        inv(m, q, max),
        m.dom().len() == max,
    ensures
        q.len() == max,
        m.dom() =~= q.to_set(),
        forall|j: int| 0 <= j < q.len() ==> m.contains_key(#[trigger] q[j]),
{
    broadcast use vstd::seq_lib::seq_to_set_is_finite;

    q.unique_seq_to_set();
    assert(m.dom().subset_of(q.to_set())) by {
        assert forall|kv: KV| m.dom().contains(kv) implies q.to_set().contains(kv) by {
            assert(m.contains_key(kv));
        }
    }
    lemma_len_subset(m.dom(), q.to_set());
    assert(q.to_set().len() == q.len());
    assert(q.len() == max);
    assert forall|kv: KV| q.to_set().contains(kv) implies m.dom().contains(kv) by {
        if !m.dom().contains(kv) {
            m.dom().lemma_subset_not_in_lt(q.to_set(), kv);
        }
    }
    assert forall|j: int| 0 <= j < q.len() implies m.contains_key(#[trigger] q[j]) by {
        assert(q.to_set().contains(q[j]));
        assert(m.dom().contains(q[j]));
    }
}

/// A hit on a stored key preserves the joint invariant: its entry is
/// touched and the key moves to the back of the queue.
pub proof fn lemma_hit_preserves<KV>(m: Map<KV, EntryAbs>, q: Seq<KV>, max: nat, kv: KV, now: u64)
    requires
        inv(m, q, max),
        seen_by(m, now),
        m.contains_key(kv),
    ensures
        inv(m.insert(kv, touched(m[kv], now)), refresh(q, max, kv), max),
        seen_by(m.insert(kv, touched(m[kv], now)), now),
{
    let m2 = m.insert(kv, touched(m[kv], now));
    assert(q.contains(kv));
    let i = choose|i: int| 0 <= i < q.len() && q[i] == kv;
    assert(forall|j: int| 0 <= j < i ==> q[j] != kv);
    lemma_remove_first_at(q, kv, i);
    let t = q.remove(i);
    assert(t.len() < max);
    let q2 = refresh(q, max, kv);
    assert(q2 == t.push(kv));
    assert(forall|a: int| 0 <= a < t.len() ==> t[a] == (if a < i {
        q[a]
    } else {
        q[a + 1]
    }));
    assert(forall|a: int| 0 <= a < t.len() ==> t[a] != kv);
    assert(q2.no_duplicates()) by {
        assert forall|a: int, b: int| 0 <= a < b < q2.len() implies q2[a] != q2[b] by {
            if b < q2.len() - 1 {
                assert(q2[a] == t[a] && q2[b] == t[b]);
            } else {
                assert(q2[a] == t[a]);
            }
        }
    }
    assert(m2.dom() =~= m.dom());
    assert forall|z: KV| #[trigger] m2.contains_key(z) implies q2.contains(z) by {
        if z == kv {
            assert(q2[q2.len() - 1] == kv);
        } else {
            assert(m.contains_key(z));
            let j = choose|j: int| 0 <= j < q.len() && q[j] == z;
            assert(j != i);
            if j < i {
                assert(q2[j] == z);
            } else {
                assert(q2[j - 1] == z);
            }
        }
    }
    assert forall|a: int, b: int|
        0 <= a < b < q2.len() && !m2.contains_key(q2[b]) implies !m2.contains_key(q2[a]) by {
        if b < q2.len() - 1 {
            let a0 = if a < i {
                a
            } else {
                a + 1
            };
            let b0 = if b < i {
                b
            } else {
                b + 1
            };
            assert(q2[a] == q[a0] && q2[b] == q[b0]);
            assert(a0 < b0);
            assert(q2[a] != kv && q2[b] != kv);
        }
    }
    assert forall|a: int, b: int|
        0 <= a < b < q2.len() && m2.contains_key(q2[a]) && m2.contains_key(q2[b]) implies
        m2[q2[a]].last_accessed <= m2[q2[b]].last_accessed by {
        if b < q2.len() - 1 {
            let a0 = if a < i {
                a
            } else {
                a + 1
            };
            let b0 = if b < i {
                b
            } else {
                b + 1
            };
            assert(q2[a] == q[a0] && q2[b] == q[b0]);
            assert(a0 < b0);
            assert(q2[a] != kv && q2[b] != kv);
            assert(m2[q2[a]] == m[q2[a]] && m2[q2[b]] == m[q2[b]]);
        } else {
            assert(q2[b] == kv);
            assert(q2[a] == t[a] && q2[a] != kv);
            assert(m2[q2[a]] == m[q2[a]]);
            assert(m2[kv].last_accessed == now);
        }
    }
}

/// A successful miss-fill preserves the joint invariant: when the store is
/// full the queue's front is dropped from both structures, and the new key
/// joins both at the most recent position.
pub proof fn lemma_miss_preserves<KV>(
    m: Map<KV, EntryAbs>,
    q: Seq<KV>,
    max: nat,
    kv: KV,
    img: ImageAbs,
    now: u64,
)
    requires
        inv(m, q, max),
        seen_by(m, now),
        !m.contains_key(kv),
    ensures
        inv(after_insert(m, q, max, kv, img, now), refresh(q, max, kv), max),
        seen_by(after_insert(m, q, max, kv, img, now), now),
{
    let m2 = after_insert(m, q, max, kv, img, now);
    let q2 = refresh(q, max, kv);
    if m.dom().len() >= max {
        // The store is full: the queue holds exactly the stored keys, so the
        // evicted front and the popped front coincide.
        lemma_full_store(m, q, max);
        let v = q[0];
        assert(m.contains_key(v));
        assert(!q.contains(kv)) by {
            if q.contains(kv) {
                let j = choose|j: int| 0 <= j < q.len() && q[j] == kv;
                assert(m.contains_key(q[j]));
            }
        }
        assert(m2 == m.remove(v).insert(kv, fresh_entry(img, now)));
        assert(q2 == q.drop_first().push(kv));
        let t = q.drop_first();
        assert(forall|a: int| 0 <= a < t.len() ==> t[a] == q[a + 1]);
        assert(q2.no_duplicates()) by {
            assert forall|a: int, b: int| 0 <= a < b < q2.len() implies q2[a] != q2[b] by {
                if b < q2.len() - 1 {
                    assert(q2[a] == q[a + 1] && q2[b] == q[b + 1]);
                } else {
                    assert(q2[a] == q[a + 1]);
                    assert(!q.contains(kv));
                    assert(q2[a] != kv);
                }
            }
        }
        assert(m2.dom() =~= m.dom().remove(v).insert(kv));
        assert(m2.dom().len() == max);
        assert forall|z: KV| #[trigger] m2.contains_key(z) implies q2.contains(z) by {
            if z == kv {
                assert(q2[q2.len() - 1] == kv);
            } else {
                assert(m.contains_key(z) && z != v);
                let j = choose|j: int| 0 <= j < q.len() && q[j] == z;
                assert(j != 0);
                assert(q2[j - 1] == z);
            }
        }
        assert forall|a: int, b: int|
            0 <= a < b < q2.len() && !m2.contains_key(q2[b]) implies !m2.contains_key(q2[a]) by {
            if b < q2.len() - 1 {
                assert(q2[b] == q[b + 1]);
                assert(m.contains_key(q[b + 1]));
                assert(q[b + 1] != v);
                assert(q2[b] != kv);
                assert(m2.contains_key(q2[b]));
            }
        }
        assert forall|a: int, b: int|
            0 <= a < b < q2.len() && m2.contains_key(q2[a]) && m2.contains_key(q2[b]) implies
            m2[q2[a]].last_accessed <= m2[q2[b]].last_accessed by {
            if b < q2.len() - 1 {
                assert(q2[a] == q[a + 1] && q2[b] == q[b + 1]);
                assert(q2[a] != kv && q2[b] != kv);
                assert(m2[q2[a]] == m[q2[a]] && m2[q2[b]] == m[q2[b]]);
            } else {
                assert(q2[b] == kv);
                assert(q2[a] == q[a + 1] && q2[a] != kv);
                assert(m2[q2[a]] == m[q2[a]]);
                assert(m2[kv].last_accessed == now);
            }
        }
    } else {
        assert(m2 == m.insert(kv, fresh_entry(img, now)));
        assert(m2.dom() =~= m.dom().insert(kv));
        assert(m2.dom().len() <= max);
        if q.contains(kv) {
            // The key lingers in the queue from before its entry expired:
            // move it to the back, no pop is needed.
            let i = choose|i: int| 0 <= i < q.len() && q[i] == kv;
            assert(forall|j: int| 0 <= j < i ==> q[j] != kv);
            lemma_remove_first_at(q, kv, i);
            let t = q.remove(i);
            assert(t.len() < max);
            assert(q2 == t.push(kv));
            assert(forall|a: int| 0 <= a < t.len() ==> t[a] == (if a < i {
                q[a]
            } else {
                q[a + 1]
            }));
            assert(forall|a: int| 0 <= a < t.len() ==> t[a] != kv);
            assert(q2.no_duplicates()) by {
                assert forall|a: int, b: int| 0 <= a < b < q2.len() implies q2[a] != q2[b] by {
                    if b < q2.len() - 1 {
                        assert(q2[a] == t[a] && q2[b] == t[b]);
                    } else {
                        assert(q2[a] == t[a]);
                    }
                }
            }
            assert forall|z: KV| #[trigger] m2.contains_key(z) implies q2.contains(z) by {
                if z == kv {
                    assert(q2[q2.len() - 1] == kv);
                } else {
                    assert(m.contains_key(z));
                    let j = choose|j: int| 0 <= j < q.len() && q[j] == z;
                    assert(j != i);
                    if j < i {
                        assert(q2[j] == z);
                    } else {
                        assert(q2[j - 1] == z);
                    }
                }
            }
            assert forall|a: int, b: int|
                0 <= a < b < q2.len() && !m2.contains_key(q2[b]) implies !m2.contains_key(
                q2[a],
            ) by {
                if b < q2.len() - 1 {
                    let a0 = if a < i {
                        a
                    } else {
                        a + 1
                    };
                    let b0 = if b < i {
                        b
                    } else {
                        b + 1
                    };
                    assert(q2[a] == q[a0] && q2[b] == q[b0]);
                    assert(a0 < b0);
                    assert(q2[a] != kv && q2[b] != kv);
                }
            }
            assert forall|a: int, b: int|
                0 <= a < b < q2.len() && m2.contains_key(q2[a]) && m2.contains_key(q2[b]) implies
                m2[q2[a]].last_accessed <= m2[q2[b]].last_accessed by {
                if b < q2.len() - 1 {
                    let a0 = if a < i {
                        a
                    } else {
                        a + 1
                    };
                    let b0 = if b < i {
                        b
                    } else {
                        b + 1
                    };
                    assert(q2[a] == q[a0] && q2[b] == q[b0]);
                    assert(a0 < b0);
                    assert(q2[a] != kv && q2[b] != kv);
                    assert(m2[q2[a]] == m[q2[a]] && m2[q2[b]] == m[q2[b]]);
                } else {
                    assert(q2[b] == kv);
                    assert(q2[a] == t[a] && q2[a] != kv);
                    assert(m2[q2[a]] == m[q2[a]]);
                    assert(m2[kv].last_accessed == now);
                }
            }
        } else if q.len() >= max {
            // More queued keys than stored ones: the front is a leftover of
            // an expired entry, so popping it touches no stored key.
            assert(q.len() == max);
            assert(q2 == q.drop_first().push(kv));
            assert(exists|j: int| 0 <= j < q.len() && !m.contains_key(#[trigger] q[j])) by {
                broadcast use vstd::seq_lib::seq_to_set_is_finite;

                q.unique_seq_to_set();
                if forall|j: int| 0 <= j < q.len() ==> m.contains_key(#[trigger] q[j]) {
                    assert(q.to_set().subset_of(m.dom())) by {
                        assert forall|z: KV| q.to_set().contains(z) implies m.dom().contains(
                            z,
                        ) by {
                            let j = choose|j: int| 0 <= j < q.len() && q[j] == z;
                            assert(m.contains_key(q[j]));
                        }
                    }
                    lemma_len_subset(q.to_set(), m.dom());
                }
            }
            let jd = choose|j: int| 0 <= j < q.len() && !m.contains_key(#[trigger] q[j]);
            assert(!m.contains_key(q[0]));
            let v = q[0];
            assert(q2.no_duplicates()) by {
                assert forall|a: int, b: int| 0 <= a < b < q2.len() implies q2[a] != q2[b] by {
                    if b < q2.len() - 1 {
                        assert(q2[a] == q[a + 1] && q2[b] == q[b + 1]);
                    } else {
                        assert(q2[a] == q[a + 1]);
                        assert(q2[a] != kv);
                    }
                }
            }
            assert forall|z: KV| #[trigger] m2.contains_key(z) implies q2.contains(z) by {
                if z == kv {
                    assert(q2[q2.len() - 1] == kv);
                } else {
                    assert(m.contains_key(z));
                    assert(z != v);
                    let j = choose|j: int| 0 <= j < q.len() && q[j] == z;
                    assert(j != 0);
                    assert(q2[j - 1] == z);
                }
            }
            assert forall|a: int, b: int|
                0 <= a < b < q2.len() && !m2.contains_key(q2[b]) implies !m2.contains_key(
                q2[a],
            ) by {
                if b < q2.len() - 1 {
                    assert(q2[a] == q[a + 1] && q2[b] == q[b + 1]);
                    assert(q2[a] != kv && q2[b] != kv);
                }
            }
            assert forall|a: int, b: int|
                0 <= a < b < q2.len() && m2.contains_key(q2[a]) && m2.contains_key(q2[b]) implies
                m2[q2[a]].last_accessed <= m2[q2[b]].last_accessed by {
                if b < q2.len() - 1 {
                    assert(q2[a] == q[a + 1] && q2[b] == q[b + 1]);
                    assert(q2[a] != kv && q2[b] != kv);
                    assert(m2[q2[a]] == m[q2[a]] && m2[q2[b]] == m[q2[b]]);
                } else {
                    assert(q2[b] == kv);
                    assert(q2[a] == q[a + 1] && q2[a] != kv);
                    assert(m2[q2[a]] == m[q2[a]]);
                    assert(m2[kv].last_accessed == now);
                }
            }
        } else {
            // Room in both structures: simply append.
            assert(q2 == q.push(kv));
            assert(q2.no_duplicates()) by {
                assert forall|a: int, b: int| 0 <= a < b < q2.len() implies q2[a] != q2[b] by {
                    if b < q2.len() - 1 {
                        assert(q2[a] == q[a] && q2[b] == q[b]);
                    } else {
                        assert(q2[a] == q[a]);
                        assert(q2[a] != kv);
                    }
                }
            }
            assert forall|z: KV| #[trigger] m2.contains_key(z) implies q2.contains(z) by {
                if z == kv {
                    assert(q2[q2.len() - 1] == kv);
                } else {
                    assert(m.contains_key(z));
                    let j = choose|j: int| 0 <= j < q.len() && q[j] == z;
                    assert(q2[j] == z);
                }
            }
            assert forall|a: int, b: int|
                0 <= a < b < q2.len() && !m2.contains_key(q2[b]) implies !m2.contains_key(
                q2[a],
            ) by {
                if b < q2.len() - 1 {
                    assert(q2[a] == q[a] && q2[b] == q[b]);
                    assert(q2[a] != kv && q2[b] != kv);
                }
            }
            assert forall|a: int, b: int|
                0 <= a < b < q2.len() && m2.contains_key(q2[a]) && m2.contains_key(q2[b]) implies
                m2[q2[a]].last_accessed <= m2[q2[b]].last_accessed by {
                if b < q2.len() - 1 {
                    assert(q2[a] == q[a] && q2[b] == q[b]);
                    assert(q2[a] != kv && q2[b] != kv);
                    assert(m2[q2[a]] == m[q2[a]] && m2[q2[b]] == m[q2[b]]);
                } else {
                    assert(q2[b] == kv);
                    assert(q2[a] == q[a] && q2[a] != kv);
                    assert(m2[q2[a]] == m[q2[a]]);
                    assert(m2[kv].last_accessed == now);
                }
            }
        }
    }
}

/// The expiry sweep preserves the joint invariant even though it never
/// touches the queue: what it removes is exactly the longest-idle entries,
/// so the keys left behind in the queue form a prefix.
pub proof fn lemma_sweep_preserves<KV>(
    m: Map<KV, EntryAbs>,
    q: Seq<KV>,
    max: nat,
    now: u64,
    ttl: u64,
)
    requires
        inv(m, q, max),
        seen_by(m, now),
    ensures
        inv(sweep_view(m, now, ttl), q, max),
        seen_by(sweep_view(m, now, ttl), now),
{
    broadcast use vstd::set_lib::lemma_set_subset_finite;

    let m2 = sweep_view(m, now, ttl);
    assert(m2.dom().subset_of(m.dom())) by {
        assert forall|kv: KV| m2.dom().contains(kv) implies m.dom().contains(kv) by {
            assert(m2.contains_key(kv));
        }
    }
    assert(m2.dom().finite());
    lemma_len_subset(m2.dom(), m.dom());
    assert forall|a: int, b: int|
        0 <= a < b < q.len() && !m2.contains_key(q[b]) implies !m2.contains_key(q[a]) by {
        if m2.contains_key(q[a]) {
            assert(m.contains_key(q[a]) && !expired(m[q[a]], now, ttl));
            assert(m.contains_key(q[b]));
            assert(m[q[a]].last_accessed <= m[q[b]].last_accessed);
            assert(!expired(m[q[b]], now, ttl));
        }
    }
}

/// The bounded cache: a store and an eviction queue behind one facade, with
/// a fixed capacity and a fixed time-to-live.
pub struct Cache<K: LookupKey> {
    pub store: CacheStore<K>,
    pub queue: EvictionQueue<K>,
    pub max_size: usize,
    pub ttl: u64,
}

impl<K: LookupKey> Cache<K> {
    /// The facade's invariant: both components are well formed, agree on the
    /// capacity, and are jointly consistent.
    pub open spec fn wf(self) -> bool {
        &&& self.store.wf()
        &&& self.queue.spec_max() == self.max_size
        &&& inv(self.store@, self.queue@, self.max_size as nat)
    }

    /// Every stored entry was last touched at or before `now`. Callers pass
    /// a monotone clock, so this holds of every real timestamp.
    pub open spec fn fresh_time(self, now: u64) -> bool {
        seen_by(self.store@, now)
    }

    /// Creates an empty cache with the given capacity and time-to-live.
    pub fn with_ttl(max_size: usize, ttl: u64) -> (r: Self)
        requires
            1 <= max_size,
        ensures
            r.wf(),
            r.store@ == Map::<K::V, EntryAbs>::empty(),
            r.queue@ == Seq::<K::V>::empty(),
            r.max_size == max_size,
            r.ttl == ttl,
    {
        let r = Cache {
            store: CacheStore::new(),
            queue: EvictionQueue::new(max_size),
            max_size,
            ttl,
        };
        proof {
            assert(r.store@.dom() =~= Set::<K::V>::empty());
        }
        r
    }

    /// Creates an empty cache with the given capacity and the default
    /// time-to-live.
    pub fn new(max_size: usize) -> (r: Self)
        requires
            1 <= max_size,
        ensures
            r.wf(),
            r.store@ == Map::<K::V, EntryAbs>::empty(),
            r.queue@ == Seq::<K::V>::empty(),
            r.max_size == max_size,
            r.ttl == crate::DEFAULT_TTL_SECS,
    {
        Self::with_ttl(max_size, crate::DEFAULT_TTL_SECS)
    }

    /// The read-only probe: clones the artifact out on a hit and touches
    /// nothing.
    pub fn probe(&self, key: &K) -> (r: Option<Image>)
        requires
            self.wf(),
        ensures
            match r {
                Some(img) => self.store@.contains_key(key@) && img@ == self.store@[key@].image,
                None => !self.store@.contains_key(key@),
            },
    {
        match self.store.lookup(key) {
            Some(e) => Some(e.image.clone()),
            None => None,
        }
    }

    /// Records a hit on a stored key: the entry's access count and
    /// last-access time are refreshed and the key becomes the most recent in
    /// the queue.
    pub fn note_hit(&mut self, key: &K, now: u64)
        requires
            old(self).wf(),
            old(self).fresh_time(now),
            old(self).store@.contains_key(key@),
        ensures
            final(self).wf(),
            final(self).fresh_time(now),
            final(self).store@ == old(self).store@.insert(
                key@,
                touched(old(self).store@[key@], now),
            ),
            final(self).queue@ == refresh(old(self).queue@, old(self).max_size as nat, key@),
            final(self).max_size == old(self).max_size,
            final(self).ttl == old(self).ttl,
    {
        proof {
            lemma_hit_preserves(
                self.store@,
                self.queue@,
                self.max_size as nat,
                key@,
                now,
            );
        }
        self.store.touch(key, now);
        self.queue.update(key.dup());
    }

    /// Applies the outcome of an external load for an absent key: a
    /// successful load is inserted (evicting the queue's oldest key first if
    /// the store is full) and returned; a failed load changes nothing and
    /// yields absence.
    pub fn admit_load(&mut self, key: &K, loaded: Result<Image, LoadError>, now: u64) -> (r:
        Option<Image>)
        requires
            old(self).wf(),
            old(self).fresh_time(now),
            !old(self).store@.contains_key(key@),
        ensures
            final(self).wf(),
            final(self).fresh_time(now),
            final(self).max_size == old(self).max_size,
            final(self).ttl == old(self).ttl,
            loaded matches Err(_) ==> r is None && final(self).store@ == old(self).store@
                && final(self).queue@ == old(self).queue@,
            loaded matches Ok(img) ==> (r matches Some(out) && out@ == img@) && final(self).store@ == after_insert(
                old(self).store@,
                old(self).queue@,
                old(self).max_size as nat,
                key@,
                img@,
                now,
            ) && final(self).queue@ == refresh(
                old(self).queue@,
                old(self).max_size as nat,
                key@,
            ),
    {
        match loaded {
            Ok(image) => {
                proof {
                    lemma_miss_preserves(
                        self.store@,
                        self.queue@,
                        self.max_size as nat,
                        key@,
                        image@,
                        now,
                    );
                }
                let out = image.clone();
                if self.store.size() >= self.max_size {
                    match self.queue.get_oldest() {
                        Some(victim) => {
                            let v = victim.dup();
                            self.store.remove(&v);
                        },
                        None => {
                        },
                    }
                }
                self.store.insert(key.dup(), image, now);
                self.queue.update(key.dup());
                Some(out)
            },
            Err(_) => None,
        }
    }

    /// Looks `key` up, invoking `loader` on a miss.
    ///
    /// On a hit the stored artifact is returned and its recency refreshed;
    /// the loader is not consulted. On a miss the loader's artifact is
    /// cached (evicting the oldest key if the store is full) and returned;
    /// a failed load leaves the cache unchanged and yields `None`.
    pub fn get<L: Loader<K>>(&mut self, key: &K, loader: &mut L, now: u64) -> (r: Option<Image>)
        requires
            old(self).wf(),
            old(self).fresh_time(now),
        ensures
            final(self).wf(),
            final(self).fresh_time(now),
            final(self).max_size == old(self).max_size,
            final(self).ttl == old(self).ttl,
            r matches Some(img) ==> final(self).store@.contains_key(key@) && final(self).store@[key@].image == img@,
            r is None ==> !final(self).store@.contains_key(key@),
            old(self).store@.contains_key(key@) ==> (r matches Some(img) && img@ == old(self).store@[key@].image) && final(self).store@ == old(self).store@.insert(
                key@,
                touched(old(self).store@[key@], now),
            ) && final(self).queue@ == refresh(
                old(self).queue@,
                old(self).max_size as nat,
                key@,
            ),
            !old(self).store@.contains_key(key@) && r is None ==> final(self).store@ == old(self).store@ && final(self).queue@ == old(self).queue@,
            !old(self).store@.contains_key(key@) ==> (r matches Some(img) ==> final(self).store@ == after_insert(
                old(self).store@,
                old(self).queue@,
                old(self).max_size as nat,
                key@,
                img@,
                now,
            ) && final(self).queue@ == refresh(
                old(self).queue@,
                old(self).max_size as nat,
                key@,
            )),
    {
        match self.probe(key) {
            Some(img) => {
                self.note_hit(key, now);
                Some(img)
            },
            None => {
                let loaded = loader.produce(key);
                self.admit_load(key, loaded, now)
            },
        }
    }

    /// Access statistics for a key: its access count and last-access time.
    pub fn get_stats(&self, key: &K) -> (r: Option<(u64, u64)>)
        requires
            self.wf(),
        ensures
            match r {
                Some(s) => self.store@.contains_key(key@) && s.0 == self.store@[key@].access_count
                    && s.1 == self.store@[key@].last_accessed,
                None => !self.store@.contains_key(key@),
            },
    {
        match self.store.lookup(key) {
            Some(e) => Some((e.access_count, e.last_accessed)),
            None => None,
        }
    }

    /// The number of cached entries; never exceeds the capacity.
    pub fn len(&self) -> (r: usize)
        requires
            self.wf(),
        ensures
            r == self.store@.dom().len(),
            r <= self.max_size,
    {
        self.store.size()
    }

    /// Whether the cache holds no entry at all.
    pub fn is_empty(&self) -> (r: bool)
        requires
            self.wf(),
        ensures
            r <==> self.store@.dom().len() == 0,
    {
        self.store.is_empty()
    }

    /// The expiry sweep: removes every entry idle for at least the
    /// time-to-live. The queue is left alone; leftover keys in it are
    /// tolerated by the eviction site.
    pub fn cleanup_old_entries(&mut self, now: u64)
        requires
            old(self).wf(),
            old(self).fresh_time(now),
        ensures
            final(self).wf(),
            final(self).fresh_time(now),
            final(self).store@ == sweep_view(old(self).store@, now, old(self).ttl),
            final(self).queue@ == old(self).queue@,
            final(self).max_size == old(self).max_size,
            final(self).ttl == old(self).ttl,
    {
        proof {
            lemma_sweep_preserves(
                self.store@,
                self.queue@,
                self.max_size as nat,
                now,
                self.ttl,
            );
        }
        let ttl = self.ttl;
        self.store.remove_expired(now, ttl);
    }
}

} // verus!
