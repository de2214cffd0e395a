//! The cache of composed spreads: a small bounded map from the pages of
//! a spread to its composed image, which forgets the least recently used
//! spread first.

use crate::layout::DualKey;
use crate::lru_binding::{
    spread_entries, spread_limit, spread_lru, spread_lru_clear, spread_lru_keys, spread_lru_len,
    spread_lru_peek, spread_lru_pop, spread_lru_promote, spread_lru_push,
};
use crate::page::DecodedPage;
use crate::recency::{
    distinct, has_key, lemma_stored_cases, lemma_touched, lemma_without, lookup, stored, touched,
    without,
};
use lru::LruCache;
use vstd::prelude::*;

verus! {

/// A bounded cache of composed spreads.
pub struct SpreadCache {
    store: LruCache<DualKey, DecodedPage>,
}

impl View for SpreadCache {
    type V = Seq<(DualKey, DecodedPage)>;

    closed spec fn view(&self) -> Seq<(DualKey, DecodedPage)> {
        spread_entries(self.store)
    }
}

impl SpreadCache {
    /// The largest number of spreads kept.
    pub closed spec fn cap(&self) -> nat {
        spread_limit(self.store)
    }

    /// What holds of every cache between two operations.
    pub closed spec fn wf(&self) -> bool {
        &&& spread_limit(self.store) >= 1
        &&& spread_entries(self.store).len() <= spread_limit(self.store)
        &&& distinct(spread_entries(self.store))
    }

    /// The cache never holds more spreads than it was made for, nor two
    /// for one pair of pages.
    pub proof fn lemma_bounded(&self)
        requires
            self.wf(),
        ensures
            self@.len() <= self.cap(),
            self.cap() >= 1,
            distinct(self@),
    {
    }

    /// An empty cache with room for `capacity` spreads.
    pub fn new(capacity: usize) -> (c: SpreadCache)
        requires
            capacity >= 1,
        ensures
            c.wf(),
            c@.len() == 0,
            c.cap() == capacity,
    {
        SpreadCache { store: spread_lru(capacity) }
    }

    /// The number of spreads.
    pub fn len(&self) -> (n: usize)
        ensures
            n == self@.len(),
    {
        spread_lru_len(&self.store)
    }

    /// The spread of the pages `pair`, if it is kept. Leaves the recency
    /// order alone.
    pub fn peek(&self, pair: DualKey) -> (r: Option<&DecodedPage>)
        ensures
            r is Some == has_key(self@, pair),
            r matches Some(p) ==> Some(*p) == lookup(self@, pair),
    {
        spread_lru_peek(&self.store, pair)
    }

    /// Marks the spread of `pair` as the most recently used, if it is
    /// kept, and says whether it is.
    pub fn touch(&mut self, pair: DualKey) -> (found: bool)
        requires
            old(self).wf(),
        ensures
            final(self).wf(),
            final(self).cap() == old(self).cap(),
            final(self)@ == touched(old(self)@, pair),
            found == has_key(old(self)@, pair),
    {
        proof {
            lemma_touched(self@, pair);
        }
        let found = spread_lru_peek(&self.store, pair).is_some();
        spread_lru_promote(&mut self.store, pair);
        found
    }

    /// Keeps `spread` for the pages `pair` as the most recently used
    /// spread, in place of the one kept for them before, or of the least
    /// recently used one where the cache was full.
    pub fn put(&mut self, pair: DualKey, spread: DecodedPage)
        requires
            old(self).wf(),
        ensures
            final(self).wf(),
            final(self).cap() == old(self).cap(),
            final(self)@ == stored(old(self)@, pair, spread, old(self).cap() as int),
    {
        proof {
            lemma_stored_cases(self@, pair, spread, self.cap() as int);
        }
        let _ = spread_lru_push(&mut self.store, pair, spread);
    }

    /// Forgets the spread of the pages `pair`, if it is kept, and hands it back.
    pub fn remove(&mut self, pair: DualKey) -> (r: Option<DecodedPage>)
        requires
            old(self).wf(),
        ensures
            final(self).wf(),
            final(self).cap() == old(self).cap(),
            final(self)@ == without(old(self)@, pair),
            r == lookup(old(self)@, pair),
    {
        proof {
            lemma_without(self@, pair);
        }
        spread_lru_pop(&mut self.store, pair)
    }

    /// The pages of the spreads that are kept, most recently used first.
    pub fn keys(&self) -> (ks: Vec<DualKey>)
        ensures
            ks@ == self@.map_values(|e: (DualKey, DecodedPage)| e.0),
    {
        spread_lru_keys(&self.store)
    }

    /// Forgets every spread.
    pub fn clear(&mut self)
        requires
            old(self).wf(),
        ensures
            final(self).wf(),
            final(self).cap() == old(self).cap(),
            final(self)@.len() == 0,
    {
        spread_lru_clear(&mut self.store);
    }
}

} // verus!
