//! The cache policy's guarantees, stated and proved on their own.
//!
//! Each law is phrased over the same spec-level transitions that the
//! facade's contracts use ([`touched`](crate::store::touched),
//! [`refresh`](crate::eviction::refresh), [`after_insert`](crate::cache::after_insert),
//! [`sweep_view`](crate::store::sweep_view)), so together with those
//! contracts it speaks about what the executable cache does.

use vstd::prelude::*;
use crate::cache::{after_insert, inv, lemma_full_store, lemma_hit_preserves};
use crate::eviction::refresh;
use crate::image::ImageAbs;
use crate::store::{expired, seen_by, sweep_view, touched, EntryAbs};

verus! {

/// Hit after insert: a successful load of `kv` leaves the store mapping
/// `kv` to exactly that artifact, so an immediately following `get` of `kv`
/// is a hit that returns it — whatever a later loader would do, it is not
/// consulted.
pub proof fn lemma_hit_after_insert<KV>(
    m: Map<KV, EntryAbs>,
    q: Seq<KV>,
    max: nat,
    kv: KV,
    img: ImageAbs,
    now: u64,
)
    ensures
        after_insert(m, q, max, kv, img, now).contains_key(kv),
        after_insert(m, q, max, kv, img, now)[kv].image == img,
        after_insert(m, q, max, kv, img, now)[kv].access_count == 1,
{
}

/// Capacity bound: any cache state satisfying the facade's invariant holds
/// at most `max` entries; since every operation preserves the invariant,
/// `len() <= max_size` after every `get`.
pub proof fn lemma_capacity_bound<KV>(m: Map<KV, EntryAbs>, q: Seq<KV>, max: nat)
    requires
        inv(m, q, max),
    ensures
        m.dom().len() <= max,
{
}

/// Eviction correctness: when the store is at capacity and a distinct new
/// key is admitted, exactly one entry is removed — the one the eviction
/// queue reports as oldest at that instant — and the store stays at
/// capacity.
pub proof fn lemma_eviction_correct<KV>(
    m: Map<KV, EntryAbs>,
    q: Seq<KV>,
    max: nat,
    kv: KV,
    img: ImageAbs,
    now: u64,
)
    requires
        inv(m, q, max),
        !m.contains_key(kv),
        m.dom().len() == max,
    ensures
        q.len() > 0,
        m.contains_key(q[0]),
        after_insert(m, q, max, kv, img, now).dom() =~= m.dom().remove(q[0]).insert(kv),
        after_insert(m, q, max, kv, img, now).dom().len() == max,
{
    lemma_full_store(m, q, max);
    let m2 = after_insert(m, q, max, kv, img, now);
    assert(m2.dom() =~= m.dom().remove(q[0]).insert(kv));
    assert(m.dom().remove(q[0]).len() == max - 1);
    assert(!m.dom().remove(q[0]).contains(kv));
}

/// Recency update: a hit on `kv` moves it to the back of the queue, so as
/// long as any other key remains queued, the eviction victim — the front —
/// is not `kv`.
pub proof fn lemma_recency_update<KV>(q: Seq<KV>, max: nat, kv: KV)
    requires
        q.no_duplicates(),
        q.len() <= max,
        1 <= max,
        q.contains(kv),
    ensures
        refresh(q, max, kv).last() == kv,
        refresh(q, max, kv).len() >= 2 ==> refresh(q, max, kv)[0] != kv,
{
    let i = choose|i: int| 0 <= i < q.len() && q[i] == kv;
    assert(forall|j: int| 0 <= j < i ==> q[j] != kv);
    crate::eviction::lemma_remove_first_at(q, kv, i);
    let t = q.remove(i);
    assert(t.len() < max);
    let q2 = refresh(q, max, kv);
    assert(q2 == t.push(kv));
    if q2.len() >= 2 {
        assert(q2[0] == t[0]);
        assert(t[0] == (if 0 < i {
            q[0]
        } else {
            q[1]
        }));
    }
}

/// Recency update, at the level of whole states: in a full cache, a hit on
/// `kv` followed by a miss-fill of a distinct fresh key evicts some other
/// key — `kv`, being the most recently touched, survives.
pub proof fn lemma_hit_key_survives_next_eviction<KV>(
    m: Map<KV, EntryAbs>,
    q: Seq<KV>,
    max: nat,
    kv: KV,
    now: u64,
    kv2: KV,
    img2: ImageAbs,
    now2: u64,
)
    requires
        inv(m, q, max),
        seen_by(m, now),
        m.contains_key(kv),
        m.dom().len() == max,
        2 <= max,
        !m.contains_key(kv2),
        kv2 != kv,
    ensures
        after_insert(
            m.insert(kv, touched(m[kv], now)),
            refresh(q, max, kv),
            max,
            kv2,
            img2,
            now2,
        ).contains_key(kv),
{
    lemma_full_store(m, q, max);
    lemma_hit_preserves(m, q, max, kv, now);
    let m2 = m.insert(kv, touched(m[kv], now));
    let q2 = refresh(q, max, kv);
    assert(m2.dom() =~= m.dom());
    lemma_recency_update(q, max, kv);
    assert(q2.len() == max) by {
        let i = choose|i: int| 0 <= i < q.len() && q[i] == kv;
        assert(forall|j: int| 0 <= j < i ==> q[j] != kv);
        crate::eviction::lemma_remove_first_at(q, kv, i);
    }
    assert(q2[0] != kv);
    assert(after_insert(m2, q2, max, kv2, img2, now2) == m2.remove(q2[0]).insert(
        kv2,
        crate::store::fresh_entry(img2, now2),
    ));
}

/// TTL expiry: after a sweep at `now`, an entry idle for at least `ttl` is
/// gone, and an entry touched within `ttl` survives unchanged.
pub proof fn lemma_ttl_expiry<KV>(m: Map<KV, EntryAbs>, now: u64, ttl: u64, kv: KV)
    requires
        m.contains_key(kv),
    ensures
        expired(m[kv], now, ttl) ==> !sweep_view(m, now, ttl).contains_key(kv),
        !expired(m[kv], now, ttl) ==> sweep_view(m, now, ttl).contains_key(kv) && sweep_view(
            m,
            now,
            ttl,
        )[kv] == m[kv],
{
}

} // verus!

