//! Key shapes for cache lookups.
//!
//! A cache is generic over the identity it is keyed by. Two shapes are
//! provided: a bare path (`String`) and a path combined with the requested
//! dimensions (`CacheKey`). The two are deliberately distinct types, so a
//! path-only lookup can never collide with a dimensioned lookup.

use vstd::prelude::*;

verus! {

/// The capability a cache key must offer: an abstract identity (its view),
/// a decidable equality on that identity, and a way to duplicate the key so
/// the store and the eviction queue can each own a copy.
pub trait LookupKey: View + Sized {
    /// Decides whether two keys denote the same identity.
    fn key_eq(&self, other: &Self) -> (r: bool)
        ensures
            r == (self@ == other@),
    ;

    /// Returns an independently owned key with the same identity.
    fn dup(&self) -> (r: Self)
        ensures
            r@ == self@,
    ;
}

impl LookupKey for String {
    fn key_eq(&self, other: &Self) -> (r: bool)
        ensures
            r == (self@ == other@),
    {
        self.eq(other)
    }

    fn dup(&self) -> (r: Self)
        ensures
            r@ == self@,
    {
        self.clone()
    }
}

/// Abstract identity of a [`CacheKey`].
pub struct CacheKeyAbs {
    pub path: Seq<char>,
    pub width: u32,
    pub height: u32,
}

/// A lookup identity made of a filesystem path and the requested artifact
/// dimensions. Requests for the same path at different sizes are distinct
/// entries.
#[derive(Debug)]
pub struct CacheKey {
    pub path: String,
    pub width: u32,
    pub height: u32,
}

impl View for CacheKey {
    type V = CacheKeyAbs;

    open spec fn view(&self) -> CacheKeyAbs {
        CacheKeyAbs { path: self.path@, width: self.width, height: self.height }
    }
}

impl LookupKey for CacheKey {
    fn key_eq(&self, other: &Self) -> (r: bool)
        ensures
            r == (self@ == other@),
    {
        let r = self.path.eq(&other.path) && self.width == other.width && self.height
            == other.height;
        proof {
            if self.path@ == other.path@ && self.width == other.width && self.height
                == other.height {
                assert(self@ == other@);
            }
        }
        r
    }

    fn dup(&self) -> (r: Self)
        ensures
            r@ == self@,
    {
        CacheKey { path: self.path.clone(), width: self.width, height: self.height }
    }
}

} // verus!
