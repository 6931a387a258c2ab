//! The key/value store at the heart of the cache.
//!
//! A [`CacheStore`] is a metadata-augmented map from key to entry: each entry
//! owns one artifact together with its access count and the time it was last
//! touched. The store is the source of truth for "is this key cached and
//! what does it map to"; it performs no artifact transformation and no I/O.

use vstd::prelude::*;
use crate::image::{Image, ImageAbs};
use crate::keys::LookupKey;

verus! {

/// Abstract value of a [`CacheEntry`].
pub struct EntryAbs {
    pub image: ImageAbs,
    pub access_count: u64,
    pub last_accessed: u64,
}

/// One cached artifact with its access metadata.
pub struct CacheEntry {
    pub image: Image,
    pub access_count: u64,
    pub last_accessed: u64,
}

impl View for CacheEntry {
    type V = EntryAbs;

    open spec fn view(&self) -> EntryAbs {
        EntryAbs {
            image: self.image@,
            access_count: self.access_count,
            last_accessed: self.last_accessed,
        }
    }
}

/// The entry after one hit at time `now`: the access count grows by one
/// (saturating at the largest representable count) and the last-access time
/// is refreshed.
pub open spec fn touched(e: EntryAbs, now: u64) -> EntryAbs {
    EntryAbs {
        image: e.image,
        access_count: if e.access_count == u64::MAX {
            u64::MAX
        } else {
            (e.access_count + 1) as u64
        },
        last_accessed: now,
    }
}

/// The entry a fresh insertion creates at time `now`.
pub open spec fn fresh_entry(image: ImageAbs, now: u64) -> EntryAbs {
    EntryAbs { image, access_count: 1, last_accessed: now }
}

/// An entry is expired at `now` when it has been idle for at least `ttl`.
pub open spec fn expired(e: EntryAbs, now: u64, ttl: u64) -> bool {
    now - e.last_accessed >= ttl
}

/// The part of `m` that survives a sweep at `now` with time-to-live `ttl`.
pub open spec fn sweep_view<KV>(m: Map<KV, EntryAbs>, now: u64, ttl: u64) -> Map<KV, EntryAbs> {
    Map::new(|kv: KV| m.contains_key(kv) && !expired(m[kv], now, ttl), |kv: KV| m[kv])
}

/// Every stored entry was last touched at or before `now`.
pub open spec fn seen_by<KV>(m: Map<KV, EntryAbs>, now: u64) -> bool {
    forall|kv: KV| m.contains_key(kv) ==> m[kv].last_accessed <= now
}

/// The map an association sequence denotes; later pairs shadow earlier ones.
pub open spec fn assoc_view<K: LookupKey>(s: Seq<(K, CacheEntry)>) -> Map<K::V, EntryAbs>
    decreases s.len(),
{
    if s.len() == 0 {
        Map::empty()
    } else {
        assoc_view(s.drop_last()).insert(s.last().0@, s.last().1@)
    }
}

/// No two pairs carry the same key.
pub open spec fn nodup_keys<K: LookupKey>(s: Seq<(K, CacheEntry)>) -> bool {
    forall|i: int, j: int| 0 <= i < j < s.len() ==> s[i].0@ != s[j].0@
}

/// The domain of the denoted map is finite and holds exactly the keys of the
/// sequence.
pub proof fn lemma_assoc_dom<K: LookupKey>(s: Seq<(K, CacheEntry)>)
    ensures
        assoc_view(s).dom().finite(),
        forall|kv: <K as View>::V| #[trigger] assoc_view(s).contains_key(kv) <==> exists|i: int|
            0 <= i < s.len() && s[i].0@ == kv,
    decreases s.len(),
{
    if s.len() > 0 {
        lemma_assoc_dom(s.drop_last());
        assert forall|kv: <K as View>::V| #[trigger] assoc_view(s).contains_key(kv) implies
            exists|i: int| 0 <= i < s.len() && s[i].0@ == kv by {
            if kv == s.last().0@ {
                assert(s[s.len() - 1].0@ == kv);
            } else {
                let i = choose|i: int| 0 <= i < s.drop_last().len() && s.drop_last()[i].0@ == kv;
                assert(s[i].0@ == kv);
            }
        }
        assert forall|kv: <K as View>::V| (exists|i: int| 0 <= i < s.len() && s[i].0@ == kv)
            implies #[trigger] assoc_view(s).contains_key(kv) by {
            let i = choose|i: int| 0 <= i < s.len() && s[i].0@ == kv;
            if i < s.len() - 1 {
                assert(s.drop_last()[i].0@ == kv);
                assert(assoc_view(s.drop_last()).contains_key(kv));
            }
        }
    }
}

/// Looking up the key of pair `i` yields that pair's entry.
pub proof fn lemma_assoc_index<K: LookupKey>(s: Seq<(K, CacheEntry)>, i: int)
    requires
        nodup_keys(s),
        0 <= i < s.len(),
    ensures
        assoc_view(s).contains_key(s[i].0@),
        assoc_view(s)[s[i].0@] == s[i].1@,
    decreases s.len(),
{
    if i < s.len() - 1 {
        assert(s.drop_last()[i] == s[i]);
        lemma_assoc_index(s.drop_last(), i);
    }
}

/// Removing pair `i` from the sequence removes its key from the map.
pub proof fn lemma_assoc_remove<K: LookupKey>(s: Seq<(K, CacheEntry)>, i: int)
    requires
        nodup_keys(s),
        0 <= i < s.len(),
    ensures
        assoc_view(s.remove(i)) == assoc_view(s).remove(s[i].0@),
    decreases s.len(),
{
    let kv = s[i].0@;
    if i == s.len() - 1 {
        assert(s.remove(i) =~= s.drop_last());
        lemma_assoc_dom(s.drop_last());
        assert(!assoc_view(s.drop_last()).contains_key(kv)) by {
            if assoc_view(s.drop_last()).contains_key(kv) {
                let j = choose|j: int|
                    0 <= j < s.drop_last().len() && s.drop_last()[j].0@ == kv;
                assert(s[j].0@ == s[i].0@);
            }
        }
        assert(assoc_view(s.drop_last()) =~= assoc_view(s).remove(kv));
    } else {
        assert(s.remove(i).drop_last() =~= s.drop_last().remove(i));
        assert(s.remove(i).last() == s.last());
        lemma_assoc_remove(s.drop_last(), i);
        assert(assoc_view(s.remove(i)) == assoc_view(s.drop_last()).remove(kv).insert(
            s.last().0@,
            s.last().1@,
        ));
        assert(s.last().0@ != kv);
        assert(assoc_view(s.drop_last()).remove(kv).insert(s.last().0@, s.last().1@)
            =~= assoc_view(s).remove(kv));
    }
}

/// Replacing pair `i` by a pair with the same key updates that key's entry.
pub proof fn lemma_assoc_update<K: LookupKey>(s: Seq<(K, CacheEntry)>, i: int, p: (K, CacheEntry))
    requires
        nodup_keys(s),
        0 <= i < s.len(),
        p.0@ == s[i].0@,
    ensures
        assoc_view(s.update(i, p)) == assoc_view(s).insert(p.0@, p.1@),
    decreases s.len(),
{
    let kv = s[i].0@;
    if i == s.len() - 1 {
        assert(s.update(i, p).drop_last() =~= s.drop_last());
        assert(s.update(i, p).last() == p);
        assert(assoc_view(s.drop_last()).insert(kv, p.1@) =~= assoc_view(s).insert(kv, p.1@));
    } else {
        assert(s.update(i, p).drop_last() =~= s.drop_last().update(i, p));
        assert(s.update(i, p).last() == s.last());
        lemma_assoc_update(s.drop_last(), i, p);
        assert(s.last().0@ != kv);
        assert(assoc_view(s.drop_last()).insert(kv, p.1@).insert(s.last().0@, s.last().1@)
            =~= assoc_view(s).insert(kv, p.1@));
    }
}

/// With distinct keys, the map holds exactly as many entries as the sequence.
pub proof fn lemma_assoc_card<K: LookupKey>(s: Seq<(K, CacheEntry)>)
    requires
        nodup_keys(s),
    ensures
        assoc_view(s).dom().len() == s.len(),
    decreases s.len(),
{
    if s.len() > 0 {
        lemma_assoc_card(s.drop_last());
        lemma_assoc_dom(s.drop_last());
        assert(!assoc_view(s.drop_last()).contains_key(s.last().0@)) by {
            if assoc_view(s.drop_last()).contains_key(s.last().0@) {
                let j = choose|j: int|
                    0 <= j < s.drop_last().len() && s.drop_last()[j].0@ == s.last().0@;
                assert(s[j].0@ == s[s.len() - 1].0@);
            }
        }
        assert(assoc_view(s).dom() =~= assoc_view(s.drop_last()).dom().insert(s.last().0@));
    }
}

/// Prepending a pair whose key is absent from the rest inserts it.
pub proof fn lemma_assoc_cons<K: LookupKey>(p: (K, CacheEntry), t: Seq<(K, CacheEntry)>)
    requires
        forall|j: int| 0 <= j < t.len() ==> t[j].0@ != p.0@,
    ensures
        assoc_view(seq![p] + t) == assoc_view(t).insert(p.0@, p.1@),
    decreases t.len(),
{
    if t.len() == 0 {
        assert((seq![p] + t).len() == 1);
        assert((seq![p] + t).last() == p);
        assert((seq![p] + t).drop_last().len() == 0);
        assert(assoc_view((seq![p] + t).drop_last()) == Map::<K::V, EntryAbs>::empty());
        assert(assoc_view(t) == Map::<K::V, EntryAbs>::empty());
        assert(assoc_view(seq![p] + t) == assoc_view(t).insert(p.0@, p.1@));
    } else {
        assert((seq![p] + t).drop_last() =~= seq![p] + t.drop_last());
        assert((seq![p] + t).last() == t.last());
        assert(forall|j: int| 0 <= j < t.drop_last().len() ==> t.drop_last()[j] == t[j]);
        lemma_assoc_cons(p, t.drop_last());
        assert(t.last().0@ != p.0@);
        assert(assoc_view(t.drop_last()).insert(p.0@, p.1@).insert(t.last().0@, t.last().1@)
            =~= assoc_view(t).insert(p.0@, p.1@));
    }
}

/// Distinctness of keys survives removing a pair.
pub proof fn lemma_nodup_remove<K: LookupKey>(s: Seq<(K, CacheEntry)>, i: int)
    requires
        nodup_keys(s),
        0 <= i < s.len(),
    ensures
        nodup_keys(s.remove(i)),
{
    assert forall|a: int, b: int| 0 <= a < b < s.remove(i).len() implies s.remove(i)[a].0@
        != s.remove(i)[b].0@ by {
        assert(s.remove(i)[a] == if a < i {
            s[a]
        } else {
            s[a + 1]
        });
        assert(s.remove(i)[b] == if b < i {
            s[b]
        } else {
            s[b + 1]
        });
    }
}

/// The concurrent-safe key/value store: a map from key to entry.
pub struct CacheStore<K: LookupKey> {
    pub entries: Vec<(K, CacheEntry)>,
}

impl<K: LookupKey> View for CacheStore<K> {
    type V = Map<K::V, EntryAbs>;

    open spec fn view(&self) -> Map<K::V, EntryAbs> {
        assoc_view(self.entries@)
    }
}

impl<K: LookupKey> CacheStore<K> {
    /// Internal consistency: every key is held at most once.
    pub open spec fn wf(&self) -> bool {
        nodup_keys(self.entries@)
    }

    /// Creates an empty store.
    pub fn new() -> (r: Self)
        ensures
            r.wf(),
            r@ == Map::<K::V, EntryAbs>::empty(),
    {
        let r = CacheStore { entries: Vec::new() };
        proof {
            assert(r@ =~= Map::<K::V, EntryAbs>::empty());
        }
        r
    }

    /// Position of `key` in the backing sequence, if present.
    fn position(&self, key: &K) -> (r: Option<usize>)
        requires
            self.wf(),
        ensures
            match r {
                Some(i) => i < self.entries@.len() && self.entries@[i as int].0@ == key@
                    && self@.contains_key(key@),
                None => !self@.contains_key(key@),
            },
    {
        let n = self.entries.len();
        let mut i: usize = 0;
        while i < n
            invariant
                self.wf(),
                n == self.entries@.len(),
                i <= n,
                forall|j: int| 0 <= j < i ==> self.entries@[j].0@ != key@,
            decreases n - i,
        {
            if self.entries[i].0.key_eq(key) {
                proof {
                    lemma_assoc_index(self.entries@, i as int);
                }
                return Some(i);
            }
            i = i + 1;
        }
        proof {
            lemma_assoc_dom(self.entries@);
            if self@.contains_key(key@) {
                let j = choose|j: int|
                    0 <= j < self.entries@.len() && self.entries@[j].0@ == key@;
                assert(false);
            }
        }
        None
    }

    /// Read-only lookup; does not mutate any metadata.
    pub fn lookup(&self, key: &K) -> (r: Option<&CacheEntry>)
        requires
            self.wf(),
        ensures
            match r {
                Some(e) => self@.contains_key(key@) && e@ == self@[key@],
                None => !self@.contains_key(key@),
            },
    {
        match self.position(key) {
            Some(i) => {
                proof {
                    lemma_assoc_index(self.entries@, i as int);
                }
                Some(&self.entries[i].1)
            },
            None => None,
        }
    }

    /// Increments the access count and refreshes the last-access time of
    /// `key`'s entry; a no-op if the key is absent.
    pub fn touch(&mut self, key: &K, now: u64)
        requires
            old(self).wf(),
        ensures
            final(self).wf(),
            old(self)@.contains_key(key@) ==> final(self)@ == old(self)@.insert(
                key@,
                touched(old(self)@[key@], now),
            ),
            !old(self)@.contains_key(key@) ==> final(self)@ == old(self)@,
    {
        let ghost s0 = self.entries@;
        match self.position(key) {
            Some(i) => {
                proof {
                    lemma_assoc_index(s0, i as int);
                }
                let mut p = self.entries.remove(i);
                if p.1.access_count < u64::MAX {
                    p.1.access_count = p.1.access_count + 1;
                }
                p.1.last_accessed = now;
                self.entries.push(p);
                proof {
                    lemma_assoc_remove(s0, i as int);
                    lemma_nodup_remove(s0, i as int);
                    assert(self.entries@.drop_last() =~= s0.remove(i as int));
                    assert(final(self)@ == assoc_view(s0.remove(i as int)).insert(key@, p.1@));
                    assert(p.1@ == touched(old(self)@[key@], now));
                    assert(assoc_view(s0.remove(i as int)).insert(key@, p.1@) =~= old(
                        self,
                    )@.insert(key@, touched(old(self)@[key@], now)));
                    assert forall|a: int, b: int|
                        0 <= a < b < self.entries@.len() implies self.entries@[a].0@
                        != self.entries@[b].0@ by {
                        if b == self.entries@.len() - 1 {
                            assert(self.entries@[a] == s0.remove(i as int)[a]);
                        }
                    }
                }
            },
            None => {
            },
        }
    }

    /// Creates a fresh entry for `key` with access count one, overwriting any
    /// prior entry for the same key.
    pub fn insert(&mut self, key: K, image: Image, now: u64)
        requires
            old(self).wf(),
        ensures
            final(self).wf(),
            final(self)@ == old(self)@.insert(key@, fresh_entry(image@, now)),
    {
        let ghost s0 = self.entries@;
        let entry = CacheEntry { image, access_count: 1, last_accessed: now };
        match self.position(&key) {
            Some(i) => {
                self.entries.remove(i);
                proof {
                    lemma_assoc_remove(s0, i as int);
                    lemma_nodup_remove(s0, i as int);
                }
                self.entries.push((key, entry));
                proof {
                    assert(self.entries@.drop_last() =~= s0.remove(i as int));
                    assert(assoc_view(s0.remove(i as int)).insert(key@, entry@) =~= old(
                        self,
                    )@.insert(key@, fresh_entry(image@, now)));
                    assert forall|a: int, b: int|
                        0 <= a < b < self.entries@.len() implies self.entries@[a].0@
                        != self.entries@[b].0@ by {
                        if b == self.entries@.len() - 1 {
                            assert(self.entries@[a] == s0.remove(i as int)[a]);
                        }
                    }
                }
            },
            None => {
                self.entries.push((key, entry));
                proof {
                    lemma_assoc_dom(s0);
                    assert(self.entries@.drop_last() =~= s0);
                    assert forall|a: int, b: int|
                        0 <= a < b < self.entries@.len() implies self.entries@[a].0@
                        != self.entries@[b].0@ by {
                        if b == self.entries@.len() - 1 {
                            assert(self.entries@[a] == s0[a]);
                            if self.entries@[a].0@ == key@ {
                                assert(assoc_view(s0).contains_key(key@));
                            }
                        }
                    }
                }
            },
        }
    }

    /// Removes `key`'s entry; a no-op if the key is absent.
    pub fn remove(&mut self, key: &K)
        requires
            old(self).wf(),
        ensures
            final(self).wf(),
            final(self)@ == old(self)@.remove(key@),
    {
        let ghost s0 = self.entries@;
        match self.position(key) {
            Some(i) => {
                self.entries.remove(i);
                proof {
                    lemma_assoc_remove(s0, i as int);
                    lemma_nodup_remove(s0, i as int);
                }
            },
            None => {
                proof {
                    assert(old(self)@.remove(key@) =~= old(self)@);
                }
            },
        }
    }

    /// Removes every entry idle for at least `ttl` at time `now`; entries
    /// touched more recently survive.
    pub fn remove_expired(&mut self, now: u64, ttl: u64)
        requires
            old(self).wf(),
            seen_by(old(self)@, now),
        ensures
            final(self).wf(),
            final(self)@ == sweep_view(old(self)@, now, ttl),
    {
        let ghost s0 = self.entries@;
        let ghost n = s0.len() as int;
        let mut kept: Vec<(K, CacheEntry)> = Vec::new();
        proof {
            assert(s0.subrange(0, n) =~= s0);
        }
        while self.entries.len() > 0
            invariant
                nodup_keys(s0),
                seen_by(assoc_view(s0), now),
                n == s0.len(),
                self.entries@.len() <= n,
                self.entries@ == s0.subrange(0, self.entries@.len() as int),
                assoc_view(kept@) == sweep_view(
                    assoc_view(s0.subrange(self.entries@.len() as int, n)),
                    now,
                    ttl,
                ),
                nodup_keys(kept@),
                forall|a: int| 0 <= a < kept@.len() ==> assoc_view(
                    s0.subrange(self.entries@.len() as int, n),
                ).contains_key(#[trigger] kept@[a].0@),
            decreases self.entries@.len(),
        {
            let ghost m = self.entries@.len() as int;
            let ghost suffix = s0.subrange(m, n);
            let p = self.entries.pop().unwrap();
            proof {
                assert(p == s0[m - 1]);
                assert(self.entries@ =~= s0.subrange(0, m - 1));
                assert(s0.subrange(m - 1, n) =~= seq![p] + suffix);
                assert forall|j: int| 0 <= j < suffix.len() implies suffix[j].0@ != p.0@ by {
                    assert(suffix[j] == s0[m + j]);
                }
                lemma_assoc_cons(p, suffix);
                lemma_assoc_index(s0, m - 1);
                assert(assoc_view(s0).contains_key(p.0@));
                assert(p.1@.last_accessed <= now);
                lemma_assoc_dom(suffix);
                assert(!assoc_view(suffix).contains_key(p.0@)) by {
                    if assoc_view(suffix).contains_key(p.0@) {
                        let j = choose|j: int|
                            0 <= j < suffix.len() && suffix[j].0@ == p.0@;
                        assert(false);
                    }
                }
            }
            if now - p.1.last_accessed < ttl {
                let ghost kept0 = kept@;
                kept.push(p);
                proof {
                    assert(kept@.drop_last() =~= kept0);
                    assert(assoc_view(kept@) == assoc_view(kept0).insert(p.0@, p.1@));
                    assert(assoc_view(kept0).insert(p.0@, p.1@) =~= sweep_view(
                        assoc_view(seq![p] + suffix),
                        now,
                        ttl,
                    ));
                    assert forall|a: int, b: int| 0 <= a < b < kept@.len() implies kept@[a].0@
                        != kept@[b].0@ by {
                        if b == kept@.len() - 1 {
                            assert(assoc_view(suffix).contains_key(kept@[a].0@));
                        }
                    }
                    assert forall|a: int| 0 <= a < kept@.len() implies assoc_view(
                        seq![p] + suffix,
                    ).contains_key(#[trigger] kept@[a].0@) by {
                        if a < kept@.len() - 1 {
                            assert(assoc_view(suffix).contains_key(kept@[a].0@));
                        }
                    }
                }
            } else {
                proof {
                    assert(expired(p.1@, now, ttl));
                    assert(assoc_view(kept@) =~= sweep_view(
                        assoc_view(seq![p] + suffix),
                        now,
                        ttl,
                    ));
                    assert forall|a: int| 0 <= a < kept@.len() implies assoc_view(
                        seq![p] + suffix,
                    ).contains_key(#[trigger] kept@[a].0@) by {
                        assert(assoc_view(suffix).contains_key(kept@[a].0@));
                    }
                }
            }
        }
        proof {
            assert(s0.subrange(0, n) =~= s0);
        }
        self.entries = kept;
    }

    /// The number of cached entries.
    pub fn size(&self) -> (r: usize)
        requires
            self.wf(),
        ensures
            r == self@.dom().len(),
    {
        proof {
            lemma_assoc_card(self.entries@);
        }
        self.entries.len()
    }

    /// Whether the store holds no entry at all.
    pub fn is_empty(&self) -> (r: bool)
        requires
            self.wf(),
        ensures
            r <==> self@.dom().len() == 0,
    {
        proof {
            lemma_assoc_card(self.entries@);
        }
        self.entries.len() == 0
    }
}

} // verus!
