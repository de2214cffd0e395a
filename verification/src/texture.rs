//! The texture cache: which drawable has which texture on the GPU.
//!
//! A texture is known here by the number its owner gave it. The cache says
//! which numbers are in use and which ones have to be released; uploading
//! and releasing are the owner's work.

use crate::layout::{contains_page, DualKey, Layout};
use crate::recency::{
    displaced, distinct, has_key, lemma_position, lemma_stored_cases, lemma_touched,
    lemma_without, lookup, stored, touched,
};
use crate::lru_binding::{
    texture_entries, texture_limit, texture_lru, texture_lru_clear, texture_lru_get,
    texture_lru_len, texture_lru_list, texture_lru_peek, texture_lru_pop, texture_lru_push,
};
use lru::LruCache;
use vstd::prelude::*;

verus! {

/// What a texture shows: one page or one spread, at one rung of the zoom
/// ladder.
#[derive(Clone, Copy, Debug, PartialEq, Eq, Hash)]
pub enum TextureKey {
    Single { page: usize, bucket: u32 },
    Dual { pages: DualKey, bucket: u32 },
}

impl TextureKey {
    /// The rung of the zoom ladder that the texture was made for.
    pub open spec fn rung(self) -> u32 {
        match self {
            TextureKey::Single { bucket, .. } => bucket,
            TextureKey::Dual { bucket, .. } => bucket,
        }
    }

    /// The layout that the texture belongs to.
    pub open spec fn layout(self) -> Layout {
        match self {
            TextureKey::Single { .. } => Layout::Single,
            TextureKey::Dual { .. } => Layout::Dual,
        }
    }

    /// Whether the texture shows `page`.
    pub open spec fn shows(self, page: usize) -> bool {
        match self {
            TextureKey::Single { page: p, .. } => p == page,
            TextureKey::Dual { pages, .. } => pages.holds(page),
        }
    }

    /// The key of the drawable for the pages `pages` in `layout` at `bucket`.
    pub open spec fn of(layout: Layout, pages: DualKey, bucket: u32) -> TextureKey {
        match layout {
            Layout::Single => TextureKey::Single { page: pages.left, bucket },
            Layout::Dual => TextureKey::Dual { pages, bucket },
        }
    }

    /// The key of the drawable for the pages `pages` in `layout` at `bucket`.
    pub fn for_view(layout: Layout, pages: DualKey, bucket: u32) -> (k: TextureKey)
        ensures
            k == TextureKey::of(layout, pages, bucket),
    {
        match layout {
            Layout::Single => TextureKey::Single { page: pages.left, bucket },
            Layout::Dual => TextureKey::Dual { pages, bucket },
        }
    }
}

impl TextureKey {
    /// Whether two keys name the same drawable.
    pub fn same(&self, other: &TextureKey) -> (b: bool)
        ensures
            b == (*self == *other),
    {
        match (self, other) {
            (
                TextureKey::Single { page: a, bucket: x },
                TextureKey::Single { page: b, bucket: y },
            ) => *a == *b && *x == *y,
            (
                TextureKey::Dual { pages: a, bucket: x },
                TextureKey::Dual { pages: b, bucket: y },
            ) => DualKey::same(a, b) && *x == *y,
            _ => false,
        }
    }
}

/// A texture on the GPU: the number it is known by and the size, in
/// pixels, of the drawable it was made from.
#[derive(Clone, Copy, Debug, PartialEq, Eq)]
pub struct Texture {
    pub id: u64,
    pub width: u32,
    pub height: u32,
}

/// Which textures an invalidation drops.
#[derive(Clone, Copy, Debug, PartialEq, Eq)]
pub enum Invalidation {
    /// Every texture.
    All,
    /// The textures of one layout.
    OfLayout(Layout),
    /// The textures that show one page.
    OfPage(usize),
    /// The textures made for another rung of the zoom ladder than this one.
    NotOfBucket(u32),
}

impl Invalidation {
    /// Whether the invalidation drops the texture of `key`.
    pub open spec fn hits(self, key: TextureKey) -> bool {
        match self {
            Invalidation::All => true,
            Invalidation::OfLayout(l) => key.layout() == l,
            Invalidation::OfPage(p) => key.shows(p),
            Invalidation::NotOfBucket(b) => key.rung() != b,
        }
    }

    /// Whether the invalidation drops the texture of `key`.
    pub fn matches(&self, key: &TextureKey) -> (b: bool)
        ensures
            b == self.hits(*key),
    {
        match self {
            Invalidation::All => true,
            Invalidation::OfLayout(l) => match (l, key) {
                (Layout::Single, TextureKey::Single { .. }) => true,
                (Layout::Dual, TextureKey::Dual { .. }) => true,
                _ => false,
            },
            Invalidation::OfPage(p) => match key {
                TextureKey::Single { page, .. } => *page == *p,
                TextureKey::Dual { pages, .. } => pages.left == *p || match pages.right {
                    Some(r) => r == *p,
                    None => false,
                },
            },
            Invalidation::NotOfBucket(b) => match key {
                TextureKey::Single { bucket, .. } => *bucket != *b,
                TextureKey::Dual { bucket, .. } => *bucket != *b,
            },
        }
    }
}

/// The entries that an invalidation leaves, in their order.
pub open spec fn surviving(s: Seq<(TextureKey, Texture)>, what: Invalidation) -> Seq<
    (TextureKey, Texture),
>
    decreases s.len(),
{
    if s.len() == 0 {
        s
    } else if what.hits(s.last().0) {
        surviving(s.drop_last(), what)
    } else {
        surviving(s.drop_last(), what).push(s.last())
    }
}

/// The entries that an invalidation drops, in their order.
pub open spec fn dropped(s: Seq<(TextureKey, Texture)>, what: Invalidation) -> Seq<
    (TextureKey, Texture),
>
    decreases s.len(),
{
    if s.len() == 0 {
        s
    } else if what.hits(s.last().0) {
        dropped(s.drop_last(), what).push(s.last())
    } else {
        dropped(s.drop_last(), what)
    }
}

/// Whether the mark of `page` as standing alone differs between two sets
/// of marked pages.
pub open spec fn mark_differs(before: Seq<usize>, after: Seq<usize>, page: usize) -> bool {
    before.contains(page) != after.contains(page)
}

/// Whether a texture shows a page whose mark differs between two sets of
/// marked pages.
pub open spec fn remarked(key: TextureKey, before: Seq<usize>, after: Seq<usize>) -> bool {
    match key {
        TextureKey::Single { page, .. } => mark_differs(before, after, page),
        TextureKey::Dual { pages, .. } => mark_differs(before, after, pages.left) || match pages.right {
            Some(r) => mark_differs(before, after, r),
            None => false,
        },
    }
}

/// The entries that show no page whose mark differs, in their order.
pub open spec fn kept_marks(s: Seq<(TextureKey, Texture)>, before: Seq<usize>, after: Seq<usize>) -> Seq<
    (TextureKey, Texture),
>
    decreases s.len(),
{
    if s.len() == 0 {
        s
    } else if remarked(s.last().0, before, after) {
        kept_marks(s.drop_last(), before, after)
    } else {
        kept_marks(s.drop_last(), before, after).push(s.last())
    }
}

/// The entries that show a page whose mark differs, in their order.
pub open spec fn dropped_marks(s: Seq<(TextureKey, Texture)>, before: Seq<usize>, after: Seq<usize>) -> Seq<
    (TextureKey, Texture),
>
    decreases s.len(),
{
    if s.len() == 0 {
        s
    } else if remarked(s.last().0, before, after) {
        dropped_marks(s.drop_last(), before, after).push(s.last())
    } else {
        dropped_marks(s.drop_last(), before, after)
    }
}

/// A change of marks drops exactly the textures that show a page whose
/// mark differs: every entry kept was there before and shows no such
/// page, every entry that shows none is kept, with the texture it had,
/// and every entry dropped shows one.
pub proof fn lemma_kept_marks(s: Seq<(TextureKey, Texture)>, before: Seq<usize>, after: Seq<usize>)
    ensures
        kept_marks(s, before, after).len() + dropped_marks(s, before, after).len() == s.len(),
        forall|i: int|
            0 <= i < kept_marks(s, before, after).len() ==> !remarked(
                (#[trigger] kept_marks(s, before, after)[i]).0,
                before,
                after,
            ) && s.contains(kept_marks(s, before, after)[i]),
        forall|i: int|
            0 <= i < s.len() && !remarked((#[trigger] s[i]).0, before, after) ==> kept_marks(
                s,
                before,
                after,
            ).contains(s[i]),
        forall|i: int|
            0 <= i < dropped_marks(s, before, after).len() ==> remarked(
                (#[trigger] dropped_marks(s, before, after)[i]).0,
                before,
                after,
            ) && s.contains(dropped_marks(s, before, after)[i]),
        forall|i: int|
            0 <= i < s.len() && remarked((#[trigger] s[i]).0, before, after) ==> dropped_marks(
                s,
                before,
                after,
            ).contains(s[i]),
    decreases s.len(),
{
    if s.len() > 0 {
        let t = s.drop_last();
        lemma_kept_marks(t, before, after);
        let a = kept_marks(s, before, after);
        let b = kept_marks(t, before, after);
        let d = dropped_marks(s, before, after);
        let dt = dropped_marks(t, before, after);
        assert forall|i: int| 0 <= i < a.len() implies !remarked(
            (#[trigger] a[i]).0,
            before,
            after,
        ) && s.contains(a[i]) by {
            if i < b.len() {
                assert(a[i] == b[i]);
                let j = choose|j: int| 0 <= j < t.len() && t[j] == b[i];
                assert(s[j] == b[i]);
            } else {
                assert(a[i] == s[s.len() - 1]);
            }
        }
        assert forall|i: int| 0 <= i < d.len() implies remarked((#[trigger] d[i]).0, before, after)
            && s.contains(d[i]) by {
            if i < dt.len() {
                assert(d[i] == dt[i]);
                let j = choose|j: int| 0 <= j < t.len() && t[j] == dt[i];
                assert(s[j] == dt[i]);
            } else {
                assert(d[i] == s[s.len() - 1]);
            }
        }
        assert forall|i: int|
            0 <= i < s.len() && !remarked((#[trigger] s[i]).0, before, after) implies a.contains(
            s[i],
        ) by {
            if i < t.len() {
                assert(t[i] == s[i]);
                let j = choose|j: int| 0 <= j < b.len() && b[j] == t[i];
                assert(a[j] == s[i]);
            } else {
                assert(a[a.len() - 1] == s[i]);
            }
        }
        assert forall|i: int|
            0 <= i < s.len() && remarked((#[trigger] s[i]).0, before, after) implies d.contains(
            s[i],
        ) by {
            if i < t.len() {
                assert(t[i] == s[i]);
                let j = choose|j: int| 0 <= j < dt.len() && dt[j] == t[i];
                assert(d[j] == s[i]);
            } else {
                assert(d[d.len() - 1] == s[i]);
            }
        }
    }
}

/// The numbers of the textures of a run of entries.
pub open spec fn ids_of(s: Seq<(TextureKey, Texture)>) -> Seq<u64> {
    s.map_values(|e: (TextureKey, Texture)| e.1.id)
}

/// What an invalidation leaves is what it does not hit: every entry left
/// was there before and is not hit, every entry not hit is left, and no
/// key comes to stand twice.
pub proof fn lemma_surviving(s: Seq<(TextureKey, Texture)>, what: Invalidation)
    ensures
        surviving(s, what).len() + dropped(s, what).len() == s.len(),
        forall|i: int|
            0 <= i < surviving(s, what).len() ==> !what.hits(
                (#[trigger] surviving(s, what)[i]).0,
            ) && s.contains(surviving(s, what)[i]),
        forall|i: int|
            0 <= i < s.len() && !what.hits((#[trigger] s[i]).0) ==> surviving(s, what).contains(
                s[i],
            ),
        forall|i: int|
            0 <= i < dropped(s, what).len() ==> what.hits((#[trigger] dropped(s, what)[i]).0)
                && s.contains(dropped(s, what)[i]),
        distinct(s) ==> distinct(surviving(s, what)),
        what == Invalidation::All ==> surviving(s, what).len() == 0,
    decreases s.len(),
{
    if s.len() > 0 {
        let t = s.drop_last();
        lemma_surviving(t, what);
        let a = surviving(s, what);
        let b = surviving(t, what);
        let d = dropped(s, what);
        let dt = dropped(t, what);
        assert forall|i: int| 0 <= i < a.len() implies !what.hits((#[trigger] a[i]).0)
            && s.contains(a[i]) by {
            if i < b.len() {
                assert(a[i] == b[i]);
                let j = choose|j: int| 0 <= j < t.len() && t[j] == b[i];
                assert(s[j] == b[i]);
            } else {
                assert(a[i] == s[s.len() - 1]);
            }
        }
        assert forall|i: int| 0 <= i < d.len() implies what.hits((#[trigger] d[i]).0)
            && s.contains(d[i]) by {
            if i < dt.len() {
                assert(d[i] == dt[i]);
                let j = choose|j: int| 0 <= j < t.len() && t[j] == dt[i];
                assert(s[j] == dt[i]);
            } else {
                assert(d[i] == s[s.len() - 1]);
            }
        }
        assert forall|i: int| 0 <= i < s.len() && !what.hits((#[trigger] s[i]).0) implies a.contains(
            s[i],
        ) by {
            if i < t.len() {
                assert(t[i] == s[i]);
                let j = choose|j: int| 0 <= j < b.len() && b[j] == t[i];
                assert(a[j] == s[i]);
            } else {
                assert(a[a.len() - 1] == s[i]);
            }
        }
        if distinct(s) {
            assert(distinct(t)) by {
                assert forall|i: int, j: int| 0 <= i < j < t.len() implies (#[trigger] t[i]).0 != (
                #[trigger] t[j]).0 by {
                    assert(t[i] == s[i] && t[j] == s[j]);
                }
            }
            assert forall|i: int, j: int| 0 <= i < j < a.len() implies (#[trigger] a[i]).0 != (
            #[trigger] a[j]).0 by {
                assert(a[i] == b[i]);
                if j < b.len() {
                    assert(a[j] == b[j]);
                } else {
                    let m = choose|m: int| 0 <= m < t.len() && t[m] == b[i];
                    assert(s[m] == b[i]);
                    assert(s[m].0 != s[s.len() - 1].0);
                }
            }
        }
    }
}

/// An invalidation that hits nothing drops nothing.
pub proof fn lemma_surviving_all(s: Seq<(TextureKey, Texture)>, what: Invalidation)
    requires
        forall|i: int| 0 <= i < s.len() ==> !what.hits((#[trigger] s[i]).0),
    ensures
        surviving(s, what) == s,
        dropped(s, what).len() == 0,
    decreases s.len(),
{
    if s.len() > 0 {
        let t = s.drop_last();
        assert forall|i: int| 0 <= i < t.len() implies !what.hits((#[trigger] t[i]).0) by {
            assert(t[i] == s[i]);
        }
        lemma_surviving_all(t, what);
        assert(!what.hits(s[s.len() - 1].0));
        assert(t.push(s.last()) =~= s);
    }
}

/// An invalidation leaves the texture of a key that it does not hit.
pub proof fn lemma_surviving_lookup(s: Seq<(TextureKey, Texture)>, what: Invalidation, key: TextureKey)
    requires
        distinct(s),
    ensures
        lookup(surviving(s, what), key) == if what.hits(key) {
            None
        } else {
            lookup(s, key)
        },
{
    let a = surviving(s, what);
    lemma_surviving(s, what);
    if has_key(a, key) {
        let i = crate::recency::position(a, key);
        assert(0 <= i < a.len() && a[i].0 == key);
        assert(!what.hits(a[i].0) && s.contains(a[i]));
        let j = choose|j: int| 0 <= j < s.len() && s[j] == a[i];
        crate::recency::lemma_position(s, key, j);
        crate::recency::lemma_position(a, key, i);
    } else if !what.hits(key) && has_key(s, key) {
        let j = crate::recency::position(s, key);
        assert(0 <= j < s.len() && s[j].0 == key);
        assert(a.contains(s[j]));
        let i = choose|i: int| 0 <= i < a.len() && a[i] == s[j];
        assert(a[i].0 == key);
    }
}

/// The number of textures that show `page`.
pub open spec fn resident_for(s: Seq<(TextureKey, Texture)>, page: usize) -> nat
    decreases s.len(),
{
    if s.len() == 0 {
        0
    } else {
        resident_for(s.drop_last(), page) + if s.last().0.shows(page) {
            1nat
        } else {
            0nat
        }
    }
}

/// Where every texture that shows `page` has the key `key`, and no key
/// stands twice, one texture shows the page if `key` has a texture, and
/// none does otherwise.
pub proof fn lemma_resident_for(s: Seq<(TextureKey, Texture)>, page: usize, key: TextureKey)
    requires
        distinct(s),
        key.shows(page),
        forall|i: int| 0 <= i < s.len() && (#[trigger] s[i]).0.shows(page) ==> s[i].0 == key,
    ensures
        resident_for(s, page) == if has_key(s, key) {
            1nat
        } else {
            0nat
        },
    decreases s.len(),
{
    if s.len() > 0 {
        let t = s.drop_last();
        let last = s[s.len() - 1];
        assert forall|i: int| 0 <= i < t.len() implies #[trigger] t[i] == s[i] by {}
        assert(distinct(t));
        lemma_resident_for(t, page, key);
        if has_key(t, key) {
            let i = crate::recency::position(t, key);
            assert(0 <= i < t.len() && t[i].0 == key);
            assert(s[i].0 == key);
            assert(s[i].0 != s[s.len() - 1].0);
        } else if has_key(s, key) {
            let i = crate::recency::position(s, key);
            assert(0 <= i < s.len() && s[i].0 == key);
            if i < t.len() {
                assert(t[i].0 == key);
            }
        }
        if last.0 == key {
            assert(s[s.len() - 1].0 == key);
        }
    }
}

/// A bounded cache of textures that forgets the least recently used first.
pub struct TextureCache {
    store: LruCache<TextureKey, Texture>,
}

impl View for TextureCache {
    type V = Seq<(TextureKey, Texture)>;

    closed spec fn view(&self) -> Seq<(TextureKey, Texture)> {
        texture_entries(self.store)
    }
}

impl TextureCache {
    /// The largest number of textures kept.
    pub closed spec fn cap(&self) -> nat {
        texture_limit(self.store)
    }

    /// What holds of every cache between two operations.
    pub closed spec fn wf(&self) -> bool {
        &&& texture_limit(self.store) >= 1
        &&& texture_entries(self.store).len() <= texture_limit(self.store)
        &&& distinct(texture_entries(self.store))
    }

    /// The cache never holds more textures than it was made for, nor two
    /// for one key.
    pub proof fn lemma_bounded(&self)
        requires
            self.wf(),
        ensures
            self@.len() <= self.cap(),
            self.cap() >= 1,
            distinct(self@),
    {
    }

    /// An empty cache with room for `capacity` textures.
    pub fn new(capacity: usize) -> (c: TextureCache)
        requires
            capacity >= 1,
        ensures
            c.wf(),
            c@.len() == 0,
            c.cap() == capacity,
    {
        TextureCache { store: texture_lru(capacity) }
    }

    /// The number of textures.
    pub fn len(&self) -> (n: usize)
        ensures
            n == self@.len(),
    {
        texture_lru_len(&self.store)
    }

    /// The texture of `key`, if there is one. Leaves the recency order alone.
    pub fn peek(&self, key: TextureKey) -> (r: Option<Texture>)
        ensures
            r == lookup(self@, key),
    {
        texture_lru_peek(&self.store, key)
    }

    /// The texture of `key`, if there is one; it becomes the most recently
    /// used texture.
    pub fn lookup(&mut self, key: TextureKey) -> (r: Option<Texture>)
        requires
            old(self).wf(),
        ensures
            final(self).wf(),
            final(self).cap() == old(self).cap(),
            final(self)@ == touched(old(self)@, key),
            r == lookup(old(self)@, key),
    {
        proof {
            lemma_touched(self@, key);
        }
        texture_lru_get(&mut self.store, key)
    }

    /// Records the texture uploaded for `key` as the most recently used
    /// one. Hands back the numbers of the textures to release: the one
    /// that `key` had before, and the least recently used one where the
    /// cache was full.
    pub fn store(&mut self, key: TextureKey, texture: Texture) -> (release: Vec<u64>)
        requires
            old(self).wf(),
        ensures
            final(self).wf(),
            final(self).cap() == old(self).cap(),
            final(self)@ == stored(old(self)@, key, texture, old(self).cap() as int),
            release@ == ids_of(displaced(old(self)@, key, old(self).cap() as int)),
    {
        let ghost before = self@;
        proof {
            lemma_stored_cases(before, key, texture, self.cap() as int);
        }
        let gone = texture_lru_push(&mut self.store, key, texture);
        let mut release: Vec<u64> = Vec::new();
        match gone {
            Some(e) => {
                release.push(e.1.id);
                assert(release@ =~= ids_of(seq![e]));
            },
            None => {
                assert(release@ =~= ids_of(Seq::<(TextureKey, Texture)>::empty()));
            },
        }
        release
    }

    /// Drops every texture that `what` hits and hands back their numbers,
    /// to be released.
    pub fn invalidate(&mut self, what: Invalidation) -> (release: Vec<u64>)
        requires
            old(self).wf(),
        ensures
            final(self).wf(),
            final(self).cap() == old(self).cap(),
            final(self)@ == surviving(old(self)@, what),
            release@ == ids_of(dropped(old(self)@, what)),
    {
        let list = texture_lru_list(&self.store);
        let ghost all = self@;
        let mut release: Vec<u64> = Vec::new();
        let mut j: usize = 0;
        assert(all.take(0) =~= Seq::empty());
        assert(all.skip(0) =~= all);
        assert(ids_of(Seq::empty()) =~= Seq::<u64>::empty());
        while j < list.len()
            invariant
                j <= list.len(),
                list@ == all,
                texture_limit(self.store) == texture_limit(old(self).store),
                texture_limit(self.store) >= 1,
                distinct(self@),
                self@.len() <= all.len(),
                all.len() <= texture_limit(self.store),
                self@ == surviving(all.take(j as int), what) + all.skip(j as int),
                release@ == ids_of(dropped(all.take(j as int), what)),
            decreases list.len() - j,
        {
            let ghost cur = self@;
            let ghost part = all.take(j as int);
            let ghost next = all.take(j + 1);
            let ghost i = surviving(part, what).len() as int;
            assert(cur[i] == all[j as int]);
            assert(next.drop_last() =~= part);
            assert(next.last() == all[j as int]);
            let (key, texture) = list[j];
            if what.matches(&key) {
                proof {
                    lemma_position(cur, key, i);
                    lemma_without(cur, key);
                }
                let _ = texture_lru_pop(&mut self.store, key);
                release.push(texture.id);
                assert(self@ =~= surviving(next, what) + all.skip(j + 1));
                assert(release@ =~= ids_of(dropped(next, what)));
            } else {
                assert(self@ =~= surviving(next, what) + all.skip(j + 1));
            }
            j += 1;
        }
        assert(all.take(j as int) =~= all);
        assert(self@ =~= surviving(all, what));
        release
    }

    /// Whether the texture of `key` shows a page whose mark differs.
    fn is_remarked(key: &TextureKey, before: &Vec<usize>, after: &Vec<usize>) -> (b: bool)
        ensures
            b == remarked(*key, before@, after@),
    {
        match key {
            TextureKey::Single { page, .. } => contains_page(before, *page) != contains_page(
                after,
                *page,
            ),
            TextureKey::Dual { pages, .. } => {
                let left = contains_page(before, pages.left) != contains_page(after, pages.left);
                let right = match pages.right {
                    Some(r) => contains_page(before, r) != contains_page(after, r),
                    None => false,
                };
                left || right
            },
        }
    }

    /// Drops every texture that shows a page whose mark as standing alone
    /// differs between `before` and `after`, and hands back their numbers,
    /// to be released. Every other texture stays as it is.
    pub fn invalidate_remarked(&mut self, before: &Vec<usize>, after: &Vec<usize>) -> (release: Vec<
        u64,
    >)
        requires
            old(self).wf(),
        ensures
            final(self).wf(),
            final(self).cap() == old(self).cap(),
            final(self)@ == kept_marks(old(self)@, before@, after@),
            release@ == ids_of(dropped_marks(old(self)@, before@, after@)),
    {
        let list = texture_lru_list(&self.store);
        let ghost all = self@;
        let mut release: Vec<u64> = Vec::new();
        let mut j: usize = 0;
        assert(all.take(0) =~= Seq::empty());
        assert(all.skip(0) =~= all);
        assert(ids_of(Seq::empty()) =~= Seq::<u64>::empty());
        while j < list.len()
            invariant
                j <= list.len(),
                list@ == all,
                texture_limit(self.store) == texture_limit(old(self).store),
                texture_limit(self.store) >= 1,
                distinct(self@),
                self@.len() <= all.len(),
                all.len() <= texture_limit(self.store),
                self@ == kept_marks(all.take(j as int), before@, after@) + all.skip(j as int),
                release@ == ids_of(dropped_marks(all.take(j as int), before@, after@)),
            decreases list.len() - j,
        {
            let ghost cur = self@;
            let ghost part = all.take(j as int);
            let ghost next = all.take(j + 1);
            let ghost i = kept_marks(part, before@, after@).len() as int;
            assert(cur[i] == all[j as int]);
            assert(next.drop_last() =~= part);
            assert(next.last() == all[j as int]);
            let (key, texture) = list[j];
            if Self::is_remarked(&key, before, after) {
                proof {
                    lemma_position(cur, key, i);
                    lemma_without(cur, key);
                }
                let _ = texture_lru_pop(&mut self.store, key);
                release.push(texture.id);
                assert(self@ =~= kept_marks(next, before@, after@) + all.skip(j + 1));
                assert(release@ =~= ids_of(dropped_marks(next, before@, after@)));
            } else {
                assert(self@ =~= kept_marks(next, before@, after@) + all.skip(j + 1));
            }
            j += 1;
        }
        assert(all.take(j as int) =~= all);
        assert(self@ =~= kept_marks(all, before@, after@));
        release
    }

    /// Drops every texture and hands back their numbers, to be released.
    pub fn clear(&mut self) -> (release: Vec<u64>)
        requires
            old(self).wf(),
        ensures
            final(self).wf(),
            final(self).cap() == old(self).cap(),
            final(self)@.len() == 0,
            release@ == ids_of(old(self)@),
    {
        let list = texture_lru_list(&self.store);
        let mut release: Vec<u64> = Vec::new();
        let mut i: usize = 0;
        while i < list.len()
            invariant
                i <= list.len(),
                release@ == ids_of(list@.take(i as int)),
            decreases list.len() - i,
        {
            assert(ids_of(list@.take(i + 1)) =~= ids_of(list@.take(i as int)).push(
                list@[i as int].1.id,
            ));
            release.push(list[i].1.id);
            i += 1;
        }
        assert(list@.take(list.len() as int) =~= list@);
        texture_lru_clear(&mut self.store);
        release
    }
}

} // verus!
