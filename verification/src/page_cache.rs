//! The decoded page cache: a bounded map from page index to decoded page
//! that forgets the least recently used pages first.
//!
//! Two budgets hold at once: a number of entries and a number of resident
//! bytes. A page larger than the whole byte budget is still kept, alone.

use crate::lru_binding::{
    lru_clear, lru_contains, lru_entries, lru_get, lru_keys, lru_len, lru_limit, lru_peek,
    lru_pop, lru_pop_lru, lru_put, lru_unbounded,
};
use crate::budget::{
    kept, lemma_kept_bounds, lemma_kept_is, lemma_total_drop_last, lemma_total_push,
    lemma_total_remove, total,
};
use crate::page::DecodedPage;
use crate::recency::{
    distinct, has_key, lemma_prefix, lemma_pushed_front, lemma_touched,
    lemma_touched_all, lemma_without, lookup, touched, touched_all, without,
};
use lru::LruCache;
use vstd::prelude::*;

verus! {

/// The resident size of each entry, in the order of the entries.
pub open spec fn costs(s: Seq<(usize, DecodedPage)>) -> Seq<nat> {
    s.map_values(|e: (usize, DecodedPage)| e.1@.byte_size())
}

/// The entries after `page` was inserted under `k` into a cache of at most
/// `max_entries` entries and `max_bytes` bytes: the new entry in front,
/// then as many of the others, most recently used first, as still fit.
pub open spec fn inserted(
    s: Seq<(usize, DecodedPage)>,
    k: usize,
    page: DecodedPage,
    max_entries: int,
    max_bytes: int,
) -> Seq<(usize, DecodedPage)> {
    let rest = without(s, k);
    seq![(k, page)] + rest.take(
        kept(costs(rest), max_entries - 1, max_bytes - page@.byte_size()) as int,
    )
}

/// The entries respect both budgets, but for a single page that is larger
/// than the byte budget.
pub open spec fn within_budgets(s: Seq<(usize, DecodedPage)>, max_entries: int, max_bytes: int) -> bool {
    &&& s.len() <= max_entries
    &&& (total(costs(s)) <= max_bytes || s.len() == 1)
}

/// Forgetting a page frees its bytes.
proof fn lemma_costs_without(s: Seq<(usize, DecodedPage)>, k: usize)
    requires
        has_key(s, k),
    ensures
        total(costs(without(s, k))) == total(costs(s)) - lookup(s, k).unwrap()@.byte_size(),
{
    let p = crate::recency::position(s, k);
    lemma_total_remove(costs(s), p);
    assert(costs(s.remove(p)) =~= costs(s).remove(p));
}

/// Using a page moves no bytes.
pub proof fn lemma_touched_total(s: Seq<(usize, DecodedPage)>, k: usize)
    ensures
        total(costs(touched(s, k))) == total(costs(s)),
{
    if has_key(s, k) {
        let p = crate::recency::position(s, k);
        lemma_total_remove(costs(s), p);
        assert(costs(s.remove(p)) =~= costs(s).remove(p));
        lemma_total_push(costs(s.remove(p)), s[p].1@.byte_size());
        assert(costs(touched(s, k)) =~= seq![s[p].1@.byte_size()] + costs(s.remove(p)));
    }
}

/// A bounded, recency-ordered cache of decoded pages.
pub struct DecodedPageCache {
    store: LruCache<usize, DecodedPage>,
    bytes: usize,
    max_entries: usize,
    max_bytes: usize,
}

impl DecodedPageCache {
    /// The cached pages with their indices, most recently used first.
    pub closed spec fn entries(&self) -> Seq<(usize, DecodedPage)> {
        lru_entries(self.store)
    }

    /// The largest number of pages kept.
    pub closed spec fn entry_budget(&self) -> nat {
        self.max_entries as nat
    }

    /// The largest number of resident bytes kept, but for a single page
    /// that is larger.
    pub closed spec fn byte_budget(&self) -> nat {
        self.max_bytes as nat
    }

    /// What holds of every cache between two operations.
    pub closed spec fn wf(&self) -> bool {
        &&& self.max_entries >= 1
        &&& lru_limit(self.store) == usize::MAX
        &&& distinct(self.entries())
        &&& self.bytes == total(costs(self.entries()))
        &&& within_budgets(self.entries(), self.max_entries as int, self.max_bytes as int)
    }

    /// The page cached under `i`, if there is one.
    pub open spec fn page(&self, i: usize) -> Option<DecodedPage> {
        lookup(self.entries(), i)
    }

    /// An empty cache of at most `max_entries` pages and `max_bytes` bytes.
    pub fn new(max_entries: usize, max_bytes: usize) -> (c: DecodedPageCache)
        requires
            max_entries >= 1,
        ensures
            c.wf(),
            c.entries().len() == 0,
            c.entry_budget() == max_entries,
            c.byte_budget() == max_bytes,
    {
        let store = lru_unbounded();
        assert(costs(lru_entries(store)) =~= Seq::<nat>::empty());
        DecodedPageCache { store, bytes: 0, max_entries, max_bytes }
    }

    /// The budgets hold of every cache.
    pub proof fn lemma_bounded(&self)
        requires
            self.wf(),
        ensures
            distinct(self.entries()),
            within_budgets(self.entries(), self.entry_budget() as int, self.byte_budget() as int),
    {
    }

    /// The number of cached pages.
    pub fn len(&self) -> (n: usize)
        ensures
            n == self.entries().len(),
    {
        lru_len(&self.store)
    }

    /// The number of bytes the cached pages keep resident.
    pub fn resident_bytes(&self) -> (n: usize)
        requires
            self.wf(),
        ensures
            n == total(costs(self.entries())),
    {
        self.bytes
    }

    /// The largest number of pages kept.
    pub fn max_entries(&self) -> (n: usize)
        ensures
            n == self.entry_budget(),
    {
        self.max_entries
    }

    /// The largest number of resident bytes kept.
    pub fn max_bytes(&self) -> (n: usize)
        ensures
            n == self.byte_budget(),
    {
        self.max_bytes
    }

    /// Whether page `i` is cached. Leaves the recency order alone.
    pub fn contains(&self, i: usize) -> (b: bool)
        ensures
            b == has_key(self.entries(), i),
    {
        lru_contains(&self.store, i)
    }

    /// The page cached under `i`, if any. Leaves the recency order alone.
    pub fn peek(&self, i: usize) -> (r: Option<&DecodedPage>)
        ensures
            r is Some == has_key(self.entries(), i),
            r matches Some(p) ==> Some(*p) == self.page(i),
    {
        lru_peek(&self.store, i)
    }

    /// The page cached under `i`, if any; it becomes the most recently used.
    pub fn get(&mut self, i: usize) -> (r: Option<&DecodedPage>)
        requires
            old(self).wf(),
        ensures
            final(self).wf(),
            final(self).entries() == touched(old(self).entries(), i),
            final(self).entry_budget() == old(self).entry_budget(),
            final(self).byte_budget() == old(self).byte_budget(),
            r is Some == has_key(old(self).entries(), i),
            r matches Some(p) ==> Some(*p) == old(self).page(i),
    {
        proof {
            lemma_touched(self.entries(), i);
            lemma_touched_total(self.entries(), i);
        }
        lru_get(&mut self.store, i)
    }

    /// The cached page indices, most recently used first.
    pub fn keys(&self) -> (ks: Vec<usize>)
        ensures
            ks@ == self.entries().map_values(|e: (usize, DecodedPage)| e.0),
    {
        lru_keys(&self.store)
    }

    /// Forgets every page.
    pub fn clear(&mut self)
        requires
            old(self).wf(),
        ensures
            final(self).wf(),
            final(self).entries().len() == 0,
            final(self).entry_budget() == old(self).entry_budget(),
            final(self).byte_budget() == old(self).byte_budget(),
    {
        lru_clear(&mut self.store);
        self.bytes = 0;
        assert(costs(self.entries()) =~= Seq::<nat>::empty());
    }

    /// Forgets page `i`, if it is cached, and hands it back.
    pub fn remove(&mut self, i: usize) -> (r: Option<DecodedPage>)
        requires
            old(self).wf(),
        ensures
            final(self).wf(),
            final(self).entries() == without(old(self).entries(), i),
            final(self).entry_budget() == old(self).entry_budget(),
            final(self).byte_budget() == old(self).byte_budget(),
            r == old(self).page(i),
    {
        let ghost before = self.entries();
        proof {
            lemma_without(before, i);
        }
        let r = lru_pop(&mut self.store, i);
        match &r {
            Some(p) => {
                proof {
                    lemma_costs_without(before, i);
                }
                self.bytes = self.bytes - p.byte_size();
                proof {
                    let after = self.entries();
                    if after.len() > 1 {
                        assert(total(costs(before)) <= self.max_bytes);
                    }
                }
            },
            None => {},
        }
        r
    }

    /// Caches `page` under `i` as the most recently used page, in place of
    /// what was cached under `i` before. The least recently used of the
    /// other pages are forgotten until the cache is within both budgets, or
    /// until `page` is alone.
    pub fn insert(&mut self, i: usize, page: DecodedPage)
        requires
            old(self).wf(),
        ensures
            final(self).wf(),
            final(self).entries() == inserted(
                old(self).entries(),
                i,
                page,
                old(self).entry_budget() as int,
                old(self).byte_budget() as int,
            ),
            final(self).entry_budget() == old(self).entry_budget(),
            final(self).byte_budget() == old(self).byte_budget(),
    {
        let ghost before = self.entries();
        let ghost rest = without(before, i);
        let need = page.byte_size();
        proof {
            lemma_without(before, i);
        }
        match lru_pop(&mut self.store, i) {
            Some(old_page) => {
                proof {
                    lemma_costs_without(before, i);
                }
                self.bytes = self.bytes - old_page.byte_size();
            },
            None => {},
        }
        assert(self.entries() =~= rest.take(rest.len() as int));
        let ghost slots = self.max_entries as int - 1;
        let ghost budget = self.max_bytes as int - need as int;
        loop
            invariant
                self.max_entries == old(self).max_entries,
                self.max_bytes == old(self).max_bytes,
                self.max_entries >= 1,
                lru_limit(self.store) == usize::MAX,
                distinct(rest),
                !has_key(rest, i),
                rest.len() <= before.len(),
                within_budgets(before, self.max_entries as int, self.max_bytes as int),
                before.len() <= 1 || total(costs(before)) <= self.max_bytes,
                slots == self.max_entries as int - 1,
                budget == self.max_bytes as int - need as int,
                need == page@.byte_size(),
                self.entries().len() <= rest.len(),
                self.entries() == rest.take(self.entries().len() as int),
                self.bytes == total(costs(self.entries())),
                self.entries().len() < rest.len() ==> !(self.entries().len() + 1 <= slots && total(
                    costs(rest).take(self.entries().len() as int + 1),
                ) <= budget),
            ensures
                self.max_entries == old(self).max_entries,
                self.max_bytes == old(self).max_bytes,
                lru_limit(self.store) == usize::MAX,
                self.entries() == rest.take(kept(costs(rest), slots, budget) as int),
                self.bytes == total(costs(self.entries())),
                self.entries().len() == 0 || (self.entries().len() <= slots && self.bytes
                    <= budget),
            decreases self.entries().len(),
        {
            let n = lru_len(&self.store);
            let ghost cur = self.entries();
            assert(costs(cur) =~= costs(rest).take(n as int));
            let fits = n < self.max_entries && need <= self.max_bytes && self.bytes
                <= self.max_bytes - need;
            if n == 0 || fits {
                proof {
                    lemma_kept_is(costs(rest), slots, budget, n as int);
                }
                break ;
            }
            match lru_pop_lru(&mut self.store) {
                Some((_, old_page)) => {
                    proof {
                        lemma_total_drop_last(costs(cur));
                        assert(costs(cur.drop_last()) =~= costs(cur).drop_last());
                        assert(cur.drop_last() =~= rest.take(n - 1));
                    }
                    self.bytes = self.bytes - old_page.byte_size();
                },
                None => {},
            }
        }
        let ghost stay = self.entries();
        proof {
            lemma_prefix(rest, stay.len() as int);
            assert(!has_key(stay, i));
            lemma_pushed_front(stay, i, page);
            lemma_total_push(costs(stay), need as nat);
            assert(costs(seq![(i, page)] + stay) =~= seq![need as nat] + costs(stay));
        }
        lru_put(&mut self.store, i, page);
        self.bytes = self.bytes + need;
    }
}

/// A run of `get` calls leaves as many pages and as many bytes in the
/// cache as there were, so both budgets still hold after it.
pub proof fn lemma_gets_keep_budgets(
    s: Seq<(usize, DecodedPage)>,
    ks: Seq<usize>,
    max_entries: int,
    max_bytes: int,
)
    requires
        distinct(s),
        within_budgets(s, max_entries, max_bytes),
    ensures
        distinct(touched_all(s, ks)),
        touched_all(s, ks).len() == s.len(),
        total(costs(touched_all(s, ks))) == total(costs(s)),
        within_budgets(touched_all(s, ks), max_entries, max_bytes),
    decreases ks.len(),
{
    lemma_touched_all(s, ks);
    if ks.len() > 0 {
        lemma_gets_keep_budgets(s, ks.drop_last(), max_entries, max_bytes);
        lemma_touched_total(touched_all(s, ks.drop_last()), ks.last());
    }
}

/// After an insertion the cache is within both budgets, but for a page
/// that is larger than the byte budget and is then alone; the inserted page
/// is cached in every case.
pub proof fn lemma_inserted(
    s: Seq<(usize, DecodedPage)>,
    k: usize,
    page: DecodedPage,
    max_entries: int,
    max_bytes: int,
)
    requires
        distinct(s),
        max_entries >= 1,
    ensures
        distinct(inserted(s, k, page, max_entries, max_bytes)),
        within_budgets(inserted(s, k, page, max_entries, max_bytes), max_entries, max_bytes),
        lookup(inserted(s, k, page, max_entries, max_bytes), k) == Some(page),
        inserted(s, k, page, max_entries, max_bytes)[0] == (k, page),
        page@.byte_size() > max_bytes ==> inserted(s, k, page, max_entries, max_bytes) == seq![
            (k, page),
        ],
        forall|o: usize|
            has_key(inserted(s, k, page, max_entries, max_bytes), o) ==> o == k || has_key(s, o),
        forall|o: usize|
            o != k && #[trigger] has_key(inserted(s, k, page, max_entries, max_bytes), o)
                ==> lookup(inserted(s, k, page, max_entries, max_bytes), o) == lookup(s, o),
{
    let rest = without(s, k);
    let need = page@.byte_size();
    let n = kept(costs(rest), max_entries - 1, max_bytes - need);
    let stay = rest.take(n as int);
    lemma_without(s, k);
    lemma_kept_bounds(costs(rest), max_entries - 1, max_bytes - need);
    lemma_prefix(rest, n as int);
    lemma_pushed_front(stay, k, page);
    lemma_total_push(costs(stay), need);
    assert(costs(seq![(k, page)] + stay) =~= seq![need] + costs(stay));
    assert(costs(stay) =~= costs(rest).take(n as int));
    if n == 0 {
        assert(stay =~= Seq::empty());
        assert(seq![(k, page)] + stay =~= seq![(k, page)]);
    }
    assert forall|o: usize|
        o != k && #[trigger] has_key(inserted(s, k, page, max_entries, max_bytes), o) implies lookup(
        inserted(s, k, page, max_entries, max_bytes),
        o,
    ) == lookup(s, o) by {
        assert(has_key(stay, o));
        assert(lookup(stay, o) == lookup(rest, o));
        assert(lookup(rest, o) == lookup(s, o));
    }
}

} // verus!
