//! The recency-ordered map of the `lru` crate that backs the decoded page
//! cache, the cache of composed spreads and the texture cache, and what
//! this library takes for granted about it.
//!
//! Nothing in this module is proved: each function states what the crate's
//! method does to the map, as its source has it.

use crate::layout::DualKey;
use crate::page::DecodedPage;
use crate::recency::{has_key, lookup, touched, value_of, without};
use crate::texture::{Texture, TextureKey};
use lru::LruCache;
use std::num::NonZeroUsize;
use vstd::prelude::*;

verus! {

/// `lru::LruCache`, whose inside the verifier does not see.
#[verifier::external_type_specification]
#[verifier::external_body]
#[verifier::reject_recursive_types(K)]
#[verifier::reject_recursive_types(V)]
#[verifier::reject_recursive_types(S)]
pub struct ExLruCache<K, V, S>(LruCache<K, V, S>);

/// `lru::DefaultHasher`, the hasher that an `LruCache` has unless it is
/// given another.
#[verifier::external_type_specification]
#[verifier::external_body]
pub struct ExDefaultHasher(lru::DefaultHasher);

/// The entries of the map, most recently used first.
pub uninterp spec fn lru_entries(c: LruCache<usize, DecodedPage>) -> Seq<(usize, DecodedPage)>;

/// The number of entries the map was made to hold.
pub uninterp spec fn lru_limit(c: LruCache<usize, DecodedPage>) -> nat;

/// `LruCache::unbounded`: an empty map that holds as many entries as a
/// `usize` can count.
#[verifier::external_body]
pub(crate) fn lru_unbounded() -> (c: LruCache<usize, DecodedPage>)
    ensures
        lru_entries(c) == Seq::<(usize, DecodedPage)>::empty(),
        lru_limit(c) == usize::MAX,
{
    LruCache::unbounded()
}

/// `LruCache::len`: the number of entries.
#[verifier::external_body]
pub(crate) fn lru_len(c: &LruCache<usize, DecodedPage>) -> (n: usize)
    ensures
        n == lru_entries(*c).len(),
{
    c.len()
}

/// `LruCache::contains`: whether the key is present; the order stays.
#[verifier::external_body]
pub(crate) fn lru_contains(c: &LruCache<usize, DecodedPage>, k: usize) -> (b: bool)
    ensures
        b == has_key(lru_entries(*c), k),
{
    c.contains(&k)
}

/// `LruCache::peek`: the value under the key, if any; the order stays.
#[verifier::external_body]
pub(crate) fn lru_peek<'a>(c: &'a LruCache<usize, DecodedPage>, k: usize) -> (r: Option<
    &'a DecodedPage,
>)
    ensures
        r is Some == has_key(lru_entries(*c), k),
        r matches Some(p) ==> Some(*p) == lookup(lru_entries(*c), k),
{
    c.peek(&k)
}

/// `LruCache::get`: the value under the key, if any; a key that is present
/// becomes the most recently used one.
#[verifier::external_body]
pub(crate) fn lru_get<'a>(c: &'a mut LruCache<usize, DecodedPage>, k: usize) -> (r: Option<
    &'a DecodedPage,
>)
    ensures
        lru_entries(*final(c)) == touched(lru_entries(*old(c)), k),
        lru_limit(*final(c)) == lru_limit(*old(c)),
        r is Some == has_key(lru_entries(*old(c)), k),
        r matches Some(p) ==> Some(*p) == lookup(lru_entries(*old(c)), k),
{
    c.get(&k)
}

/// `LruCache::put`: stores the value under the key as the most recently
/// used entry. A value already there is replaced and handed back. A new key
/// in a full map pushes out the least recently used entry.
#[verifier::external_body]
pub(crate) fn lru_put(c: &mut LruCache<usize, DecodedPage>, k: usize, v: DecodedPage) -> (r:
    Option<DecodedPage>)
    ensures
        lru_limit(*final(c)) == lru_limit(*old(c)),
        r == lookup(lru_entries(*old(c)), k),
        lru_entries(*final(c)) == seq![(k, v)] + (if has_key(lru_entries(*old(c)), k) {
            without(lru_entries(*old(c)), k)
        } else if lru_entries(*old(c)).len() == lru_limit(*old(c)) {
            lru_entries(*old(c)).drop_last()
        } else {
            lru_entries(*old(c))
        }),
{
    c.put(k, v)
}

/// `LruCache::pop`: takes the entry of the key out, if there is one.
#[verifier::external_body]
pub(crate) fn lru_pop(c: &mut LruCache<usize, DecodedPage>, k: usize) -> (r: Option<DecodedPage>)
    ensures
        lru_limit(*final(c)) == lru_limit(*old(c)),
        r == lookup(lru_entries(*old(c)), k),
        lru_entries(*final(c)) == without(lru_entries(*old(c)), k),
{
    c.pop(&k)
}

/// `LruCache::pop_lru`: takes the least recently used entry out, if the map
/// is not empty.
#[verifier::external_body]
pub(crate) fn lru_pop_lru(c: &mut LruCache<usize, DecodedPage>) -> (r: Option<
    (usize, DecodedPage),
>)
    ensures
        lru_limit(*final(c)) == lru_limit(*old(c)),
        lru_entries(*old(c)).len() == 0 ==> r is None && lru_entries(*final(c)) == lru_entries(
            *old(c),
        ),
        lru_entries(*old(c)).len() > 0 ==> r == Some(lru_entries(*old(c)).last())
            && lru_entries(*final(c)) == lru_entries(*old(c)).drop_last(),
{
    c.pop_lru()
}

/// `LruCache::clear`: empties the map.
#[verifier::external_body]
pub(crate) fn lru_clear(c: &mut LruCache<usize, DecodedPage>)
    ensures
        lru_limit(*final(c)) == lru_limit(*old(c)),
        lru_entries(*final(c)) == Seq::<(usize, DecodedPage)>::empty(),
{
    c.clear()
}

/// `LruCache::iter`: the keys, most recently used first.
#[verifier::external_body]
pub(crate) fn lru_keys(c: &LruCache<usize, DecodedPage>) -> (ks: Vec<usize>)
    ensures
        ks@ == lru_entries(*c).map_values(|e: (usize, DecodedPage)| e.0),
{
    c.iter().map(|(k, _)| *k).collect()
}

/// The textures of the map, most recently used first. The map tells keys
/// apart by the derived equality of `TextureKey`, which compares the fields.
pub uninterp spec fn texture_entries(c: LruCache<TextureKey, Texture>) -> Seq<(TextureKey, Texture)>;

/// The number of textures the map was made to hold.
pub uninterp spec fn texture_limit(c: LruCache<TextureKey, Texture>) -> nat;

/// `LruCache::unbounded`, then `LruCache::resize`: an empty map that holds
/// at most `cap` entries.
#[verifier::external_body]
pub(crate) fn texture_lru(cap: usize) -> (c: LruCache<TextureKey, Texture>)
    requires
        cap >= 1,
    ensures
        texture_entries(c) == Seq::<(TextureKey, Texture)>::empty(),
        texture_limit(c) == cap,
{
    let mut c = LruCache::unbounded();
    match NonZeroUsize::new(cap) {
        Some(n) => c.resize(n),
        None => {},
    }
    c
}

/// `LruCache::len`: the number of entries.
#[verifier::external_body]
pub(crate) fn texture_lru_len(c: &LruCache<TextureKey, Texture>) -> (n: usize)
    ensures
        n == texture_entries(*c).len(),
{
    c.len()
}

/// `LruCache::push`: stores the value under the key as the most recently
/// used entry, and hands back the entry that left for it: the old entry
/// of the key, or the least recently used entry of a full map.
#[verifier::external_body]
pub(crate) fn texture_lru_push(c: &mut LruCache<TextureKey, Texture>, k: TextureKey, v: Texture) -> (r: Option<(TextureKey, Texture)>)
    ensures
        texture_limit(*final(c)) == texture_limit(*old(c)),
        has_key(texture_entries(*old(c)), k) ==> r == Some((k, value_of(texture_entries(*old(c)), k)))
            && texture_entries(*final(c)) == seq![(k, v)] + without(texture_entries(*old(c)), k),
        !has_key(texture_entries(*old(c)), k) && texture_entries(*old(c)).len() == texture_limit(*old(c)) ==> r == Some(
            texture_entries(*old(c)).last(),
        ) && texture_entries(*final(c)) == seq![(k, v)] + texture_entries(*old(c)).drop_last(),
        !has_key(texture_entries(*old(c)), k) && texture_entries(*old(c)).len() != texture_limit(*old(c)) ==> r is None
            && texture_entries(*final(c)) == seq![(k, v)] + texture_entries(*old(c)),
{
    c.push(k, v)
}

/// `LruCache::pop`: takes the entry of the key out, if there is one.
#[verifier::external_body]
pub(crate) fn texture_lru_pop(c: &mut LruCache<TextureKey, Texture>, k: TextureKey) -> (r: Option<Texture>)
    ensures
        texture_limit(*final(c)) == texture_limit(*old(c)),
        r == lookup(texture_entries(*old(c)), k),
        texture_entries(*final(c)) == without(texture_entries(*old(c)), k),
{
    c.pop(&k)
}

/// `LruCache::clear`: empties the map.
#[verifier::external_body]
pub(crate) fn texture_lru_clear(c: &mut LruCache<TextureKey, Texture>)
    ensures
        texture_limit(*final(c)) == texture_limit(*old(c)),
        texture_entries(*final(c)) == Seq::<(TextureKey, Texture)>::empty(),
{
    c.clear()
}

/// `LruCache::peek`: the value under the key, if any; the order stays.
#[verifier::external_body]
pub(crate) fn texture_lru_peek(c: &LruCache<TextureKey, Texture>, k: TextureKey) -> (r: Option<Texture>)
    ensures
        r == lookup(texture_entries(*c), k),
{
    c.peek(&k).copied()
}

/// `LruCache::get`: the value under the key, if any; a key that is present
/// becomes the most recently used one.
#[verifier::external_body]
pub(crate) fn texture_lru_get(c: &mut LruCache<TextureKey, Texture>, k: TextureKey) -> (r: Option<Texture>)
    ensures
        texture_limit(*final(c)) == texture_limit(*old(c)),
        texture_entries(*final(c)) == touched(texture_entries(*old(c)), k),
        r == lookup(texture_entries(*old(c)), k),
{
    c.get(&k).copied()
}

/// `LruCache::iter`: the entries, most recently used first.
#[verifier::external_body]
pub(crate) fn texture_lru_list(c: &LruCache<TextureKey, Texture>) -> (list: Vec<(TextureKey, Texture)>)
    ensures
        list@ == texture_entries(*c),
{
    c.iter().map(|(k, v)| (*k, *v)).collect()
}

/// The composed spreads of the map, most recently used first. The map
/// tells keys apart by the derived equality of `DualKey`, which compares
/// the fields.
pub uninterp spec fn spread_entries(c: LruCache<DualKey, DecodedPage>) -> Seq<(DualKey, DecodedPage)>;

/// The number of composed spreads the map was made to hold.
pub uninterp spec fn spread_limit(c: LruCache<DualKey, DecodedPage>) -> nat;

/// `LruCache::unbounded`, then `LruCache::resize`: an empty map that holds
/// at most `cap` entries.
#[verifier::external_body]
pub(crate) fn spread_lru(cap: usize) -> (c: LruCache<DualKey, DecodedPage>)
    requires
        cap >= 1,
    ensures
        spread_entries(c) == Seq::<(DualKey, DecodedPage)>::empty(),
        spread_limit(c) == cap,
{
    let mut c = LruCache::unbounded();
    match NonZeroUsize::new(cap) {
        Some(n) => c.resize(n),
        None => {},
    }
    c
}

/// `LruCache::len`: the number of entries.
#[verifier::external_body]
pub(crate) fn spread_lru_len(c: &LruCache<DualKey, DecodedPage>) -> (n: usize)
    ensures
        n == spread_entries(*c).len(),
{
    c.len()
}

/// `LruCache::push`: stores the value under the key as the most recently
/// used entry, and hands back the entry that left for it: the old entry
/// of the key, or the least recently used entry of a full map.
#[verifier::external_body]
pub(crate) fn spread_lru_push(c: &mut LruCache<DualKey, DecodedPage>, k: DualKey, v: DecodedPage) -> (r: Option<(DualKey, DecodedPage)>)
    ensures
        spread_limit(*final(c)) == spread_limit(*old(c)),
        has_key(spread_entries(*old(c)), k) ==> r == Some((k, value_of(spread_entries(*old(c)), k)))
            && spread_entries(*final(c)) == seq![(k, v)] + without(spread_entries(*old(c)), k),
        !has_key(spread_entries(*old(c)), k) && spread_entries(*old(c)).len() == spread_limit(*old(c)) ==> r == Some(
            spread_entries(*old(c)).last(),
        ) && spread_entries(*final(c)) == seq![(k, v)] + spread_entries(*old(c)).drop_last(),
        !has_key(spread_entries(*old(c)), k) && spread_entries(*old(c)).len() != spread_limit(*old(c)) ==> r is None
            && spread_entries(*final(c)) == seq![(k, v)] + spread_entries(*old(c)),
{
    c.push(k, v)
}

/// `LruCache::pop`: takes the entry of the key out, if there is one.
#[verifier::external_body]
pub(crate) fn spread_lru_pop(c: &mut LruCache<DualKey, DecodedPage>, k: DualKey) -> (r: Option<DecodedPage>)
    ensures
        spread_limit(*final(c)) == spread_limit(*old(c)),
        r == lookup(spread_entries(*old(c)), k),
        spread_entries(*final(c)) == without(spread_entries(*old(c)), k),
{
    c.pop(&k)
}

/// `LruCache::clear`: empties the map.
#[verifier::external_body]
pub(crate) fn spread_lru_clear(c: &mut LruCache<DualKey, DecodedPage>)
    ensures
        spread_limit(*final(c)) == spread_limit(*old(c)),
        spread_entries(*final(c)) == Seq::<(DualKey, DecodedPage)>::empty(),
{
    c.clear()
}

/// `LruCache::peek`: the value under the key, if any; the order stays.
#[verifier::external_body]
pub(crate) fn spread_lru_peek<'a>(c: &'a LruCache<DualKey, DecodedPage>, k: DualKey) -> (r: Option<&'a DecodedPage>)
    ensures
        r is Some == has_key(spread_entries(*c), k),
        r matches Some(p) ==> Some(*p) == lookup(spread_entries(*c), k),
{
    c.peek(&k)
}

/// `LruCache::promote`: a key that is present becomes the most recently
/// used one.
#[verifier::external_body]
pub(crate) fn spread_lru_promote(c: &mut LruCache<DualKey, DecodedPage>, k: DualKey)
    ensures
        spread_limit(*final(c)) == spread_limit(*old(c)),
        spread_entries(*final(c)) == touched(spread_entries(*old(c)), k),
{
    c.promote(&k)
}

/// `LruCache::iter`: the keys, most recently used first.
#[verifier::external_body]
pub(crate) fn spread_lru_keys(c: &LruCache<DualKey, DecodedPage>) -> (ks: Vec<DualKey>)
    ensures
        ks@ == spread_entries(*c).map_values(|e: (DualKey, DecodedPage)| e.0),
{
    c.iter().map(|(k, _)| *k).collect()
}

} // verus!
