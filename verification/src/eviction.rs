//! Recency tracking for eviction.
//!
//! An [`EvictionQueue`] is a bounded ordered sequence of keys: front = least
//! recently touched, back = most recently touched. `update` moves a key to
//! the back, dropping the front element if the bound would otherwise be
//! exceeded; `get_oldest` peeks the front so the cache facade can pick an
//! eviction victim without scanning the store.

use vstd::prelude::*;
use crate::keys::LookupKey;

verus! {

/// `s` with its first occurrence of `x` removed; `s` itself if `x` is
/// absent.
pub open spec fn remove_first<A>(s: Seq<A>, x: A) -> Seq<A>
    decreases s.len(),
{
    if s.len() == 0 {
        s
    } else if s[0] == x {
        s.drop_first()
    } else {
        seq![s[0]] + remove_first(s.drop_first(), x)
    }
}

/// The recency order after touching `x`: any prior occurrence of `x` is
/// removed, the front is dropped if the result would still be at the bound
/// `max`, and `x` is appended at the back.
pub open spec fn refresh<A>(s: Seq<A>, max: nat, x: A) -> Seq<A> {
    let t = if s.contains(x) {
        remove_first(s, x)
    } else {
        s
    };
    let u = if t.len() >= max && t.len() > 0 {
        t.drop_first()
    } else {
        t
    };
    u.push(x)
}

/// Removing the first occurrence at its index `i` is removing index `i`.
pub proof fn lemma_remove_first_at<A>(s: Seq<A>, x: A, i: int)
    requires
        0 <= i < s.len(),
        s[i] == x,
        forall|j: int| 0 <= j < i ==> s[j] != x,
    ensures
        remove_first(s, x) == s.remove(i),
    decreases i,
{
    if i == 0 {
        assert(remove_first(s, x) =~= s.remove(0));
    } else {
        lemma_remove_first_at(s.drop_first(), x, i - 1);
        assert(seq![s[0]] + s.drop_first().remove(i - 1) =~= s.remove(i));
    }
}

/// A bounded recency queue of keys.
pub struct EvictionQueue<K: LookupKey> {
    pub queue: Vec<K>,
    pub max_size: usize,
}

impl<K: LookupKey> View for EvictionQueue<K> {
    type V = Seq<K::V>;

    open spec fn view(&self) -> Seq<K::V> {
        self.queue@.map_values(|k: K| k@)
    }
}

impl<K: LookupKey> EvictionQueue<K> {
    /// The configured bound on the queue's length.
    pub open spec fn spec_max(&self) -> nat {
        self.max_size as nat
    }

    /// Creates an empty queue with the given bound.
    pub fn new(max_size: usize) -> (r: Self)
        ensures
            r@ == Seq::<K::V>::empty(),
            r.spec_max() == max_size,
    {
        let r = EvictionQueue { queue: Vec::with_capacity(max_size), max_size };
        proof {
            assert(r@ =~= Seq::<K::V>::empty());
        }
        r
    }

    /// Marks `key` as the most recently touched: moves it to the back,
    /// dropping the front element first if the queue is at its bound.
    pub fn update(&mut self, key: K)
        ensures
            final(self)@ == refresh(old(self)@, old(self).spec_max(), key@),
            final(self).spec_max() == old(self).spec_max(),
    {
        let ghost s0 = self@;
        let n = self.queue.len();
        let mut i: usize = 0;
        let mut found = false;
        while i < n && !found
            invariant
                n == self.queue.len(),
                self@ == s0,
                self.max_size == old(self).max_size,
                i <= n,
                !found ==> forall|j: int| 0 <= j < i ==> s0[j] != key@,
                found ==> i < n && s0[i as int] == key@ && forall|j: int|
                    0 <= j < i ==> s0[j] != key@,
            decreases n - i + (if found { 0int } else { 1int }),
        {
            if self.queue[i].key_eq(&key) {
                found = true;
            } else {
                i = i + 1;
            }
        }
        let ghost t = if s0.contains(key@) {
            remove_first(s0, key@)
        } else {
            s0
        };
        if found {
            self.queue.remove(i);
            proof {
                lemma_remove_first_at(s0, key@, i as int);
                assert(self@ =~= s0.remove(i as int));
            }
        } else {
            proof {
                if s0.contains(key@) {
                    let j = choose|j: int| 0 <= j < s0.len() && s0[j] == key@;
                    assert(false);
                }
            }
        }
        assert(self@ == t);
        let ghost u = if t.len() >= old(self).spec_max() && t.len() > 0 {
            t.drop_first()
        } else {
            t
        };
        if self.queue.len() >= self.max_size && self.queue.len() > 0 {
            self.queue.remove(0);
            proof {
                assert(self@ =~= t.remove(0));
                assert(t.remove(0) =~= t.drop_first());
            }
        }
        assert(self@ == u);
        self.queue.push(key);
        proof {
            assert(self@ =~= u.push(key@));
        }
    }

    /// Peeks the least recently touched key, if any.
    pub fn get_oldest(&self) -> (r: Option<&K>)
        ensures
            match r {
                Some(k) => self@.len() > 0 && k@ == self@[0],
                None => self@.len() == 0,
            },
    {
        if self.queue.len() > 0 {
            Some(&self.queue[0])
        } else {
            None
        }
    }
}

} // verus!
