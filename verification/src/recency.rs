//! Recency-ordered association lists, as specifications see them.
//!
//! A list holds `(key, value)` pairs, most recently used first. These
//! functions say what the usual operations do to such a list.

use vstd::prelude::*;

verus! {

/// Whether some entry of `s` has the key `k`.
pub open spec fn has_key<K, V>(s: Seq<(K, V)>, k: K) -> bool {
    exists|i: int| 0 <= i < s.len() && (#[trigger] s[i]).0 == k
}

/// An index at which `k` is found, if it is there at all.
pub open spec fn position<K, V>(s: Seq<(K, V)>, k: K) -> int {
    choose|i: int| 0 <= i < s.len() && (#[trigger] s[i]).0 == k
}

/// The value stored under `k`.
pub open spec fn value_of<K, V>(s: Seq<(K, V)>, k: K) -> V {
    s[position(s, k)].1
}

/// The value stored under `k`, if there is one.
pub open spec fn lookup<K, V>(s: Seq<(K, V)>, k: K) -> Option<V> {
    if has_key(s, k) {
        Some(value_of(s, k))
    } else {
        None
    }
}

/// No key occurs twice.
pub open spec fn distinct<K, V>(s: Seq<(K, V)>) -> bool {
    forall|i: int, j: int| 0 <= i < j < s.len() ==> (#[trigger] s[i]).0 != (#[trigger] s[j]).0
}

/// The list after `k` was used: its entry moves to the front.
pub open spec fn touched<K, V>(s: Seq<(K, V)>, k: K) -> Seq<(K, V)> {
    if has_key(s, k) {
        seq![s[position(s, k)]] + s.remove(position(s, k))
    } else {
        s
    }
}

/// The list without the entry of `k`.
pub open spec fn without<K, V>(s: Seq<(K, V)>, k: K) -> Seq<(K, V)> {
    if has_key(s, k) {
        s.remove(position(s, k))
    } else {
        s
    }
}

/// The list after a run of uses, one key after the other.
pub open spec fn touched_all<K, V>(s: Seq<(K, V)>, ks: Seq<K>) -> Seq<(K, V)>
    decreases ks.len(),
{
    if ks.len() == 0 {
        s
    } else {
        touched(touched_all(s, ks.drop_last()), ks.last())
    }
}

/// In a list without repeated keys, a key is found where it stands.
pub proof fn lemma_position<K, V>(s: Seq<(K, V)>, k: K, i: int)
    requires
        distinct(s),
        0 <= i < s.len(),
        s[i].0 == k,
    ensures
        has_key(s, k),
        position(s, k) == i,
        value_of(s, k) == s[i].1,
        lookup(s, k) == Some(s[i].1),
{
    let p = position(s, k);
    assert(0 <= p < s.len() && s[p].0 == k);
    if p < i {
        assert(s[p].0 != s[i].0);
    } else if i < p {
        assert(s[i].0 != s[p].0);
    }
}

/// Removing a key keeps the other entries, in order, and nothing else.
pub proof fn lemma_without<K, V>(s: Seq<(K, V)>, k: K)
    requires
        distinct(s),
    ensures
        distinct(without(s, k)),
        !has_key(without(s, k), k),
        has_key(s, k) ==> without(s, k).len() == s.len() - 1,
        !has_key(s, k) ==> without(s, k) == s,
        forall|o: K| o != k ==> has_key(without(s, k), o) == has_key(s, o),
        forall|o: K| o != k ==> lookup(without(s, k), o) == lookup(s, o),
{
    let w = without(s, k);
    if has_key(s, k) {
        let p = position(s, k);
        assert forall|i: int, j: int| 0 <= i < j < w.len() implies (#[trigger] w[i]).0 != (
        #[trigger] w[j]).0 by {
            let si = if i < p { i } else { i + 1 };
            let sj = if j < p { j } else { j + 1 };
            assert(w[i] == s[si] && w[j] == s[sj]);
        }
        if has_key(w, k) {
            let q = position(w, k);
            let sq = if q < p { q } else { q + 1 };
            assert(w[q] == s[sq]);
            if sq < p {
                assert(s[sq].0 != s[p].0);
            } else {
                assert(s[p].0 != s[sq].0);
            }
        }
        assert forall|o: K| o != k implies has_key(w, o) == has_key(s, o) && lookup(w, o)
            == lookup(s, o) by {
            if has_key(s, o) {
                let q = position(s, o);
                let wq = if q < p { q } else { q - 1 };
                assert(w[wq] == s[q]);
                lemma_position(w, o, wq);
                lemma_position(s, o, q);
            }
            if has_key(w, o) {
                let q = position(w, o);
                let sq = if q < p { q } else { q + 1 };
                assert(w[q] == s[sq]);
                lemma_position(s, o, sq);
                lemma_position(w, o, q);
            }
        }
    }
}

/// Using a key reorders the list and changes nothing else.
pub proof fn lemma_touched<K, V>(s: Seq<(K, V)>, k: K)
    requires
        distinct(s),
    ensures
        distinct(touched(s, k)),
        touched(s, k).len() == s.len(),
        forall|o: K| has_key(touched(s, k), o) == has_key(s, o),
        forall|o: K| lookup(touched(s, k), o) == lookup(s, o),
        has_key(s, k) ==> touched(s, k)[0] == (k, value_of(s, k)),
        touched(s, k) == if has_key(s, k) {
            seq![(k, value_of(s, k))] + without(s, k)
        } else {
            s
        },
{
    if has_key(s, k) {
        let p = position(s, k);
        let w = without(s, k);
        let t = touched(s, k);
        lemma_without(s, k);
        assert(t[0] == s[p]);
        assert forall|i: int, j: int| 0 <= i < j < t.len() implies (#[trigger] t[i]).0 != (
        #[trigger] t[j]).0 by {
            assert(t[j] == w[j - 1]);
            if i == 0 {
                assert(w[j - 1].0 != k);
            } else {
                assert(t[i] == w[i - 1]);
            }
        }
        assert forall|o: K| has_key(t, o) == has_key(s, o) && lookup(t, o) == lookup(s, o) by {
            if o == k {
                lemma_position(t, k, 0);
                lemma_position(s, k, p);
            } else {
                if has_key(w, o) {
                    let q = position(w, o);
                    assert(t[q + 1] == w[q]);
                    lemma_position(t, o, q + 1);
                    lemma_position(w, o, q);
                }
                if has_key(t, o) {
                    let q = position(t, o);
                    assert(t[q] == w[q - 1]);
                    lemma_position(w, o, q - 1);
                    lemma_position(t, o, q);
                }
            }
        }
    }
}

/// Putting a fresh key in front keeps the list free of repeated keys.
pub proof fn lemma_pushed_front<K, V>(s: Seq<(K, V)>, k: K, v: V)
    requires
        distinct(s),
        !has_key(s, k),
    ensures
        distinct(seq![(k, v)] + s),
        (seq![(k, v)] + s).len() == s.len() + 1,
        forall|o: K| has_key(seq![(k, v)] + s, o) == (o == k || has_key(s, o)),
        lookup(seq![(k, v)] + s, k) == Some(v),
        forall|o: K| o != k ==> lookup(seq![(k, v)] + s, o) == lookup(s, o),
{
    let t = seq![(k, v)] + s;
    assert forall|i: int, j: int| 0 <= i < j < t.len() implies (#[trigger] t[i]).0 != (
    #[trigger] t[j]).0 by {
        assert(t[j] == s[j - 1]);
        if i > 0 {
            assert(t[i] == s[i - 1]);
        }
    }
    lemma_position(t, k, 0);
    assert forall|o: K| o != k implies has_key(t, o) == has_key(s, o) && lookup(t, o) == lookup(
        s,
        o,
    ) by {
        if has_key(s, o) {
            let q = position(s, o);
            assert(t[q + 1] == s[q]);
            lemma_position(t, o, q + 1);
            lemma_position(s, o, q);
        }
        if has_key(t, o) {
            let q = position(t, o);
            assert(t[q] == s[q - 1]);
            lemma_position(s, o, q - 1);
            lemma_position(t, o, q);
        }
    }
}

/// A prefix of a list free of repeated keys is free of them too, and holds
/// no key that the list does not hold.
pub proof fn lemma_prefix<K, V>(s: Seq<(K, V)>, n: int)
    requires
        distinct(s),
        0 <= n <= s.len(),
    ensures
        distinct(s.take(n)),
        forall|o: K| has_key(s.take(n), o) ==> has_key(s, o) && lookup(s.take(n), o) == lookup(s, o),
{
    let t = s.take(n);
    assert forall|i: int, j: int| 0 <= i < j < t.len() implies (#[trigger] t[i]).0 != (
    #[trigger] t[j]).0 by {
        assert(t[i] == s[i] && t[j] == s[j]);
    }
    assert forall|o: K| has_key(t, o) implies has_key(s, o) && lookup(t, o) == lookup(s, o) by {
        let q = position(t, o);
        assert(t[q] == s[q]);
        lemma_position(s, o, q);
        lemma_position(t, o, q);
    }
}

/// A run of uses reorders the list and changes nothing else.
pub proof fn lemma_touched_all<K, V>(s: Seq<(K, V)>, ks: Seq<K>)
    requires
        distinct(s),
    ensures
        distinct(touched_all(s, ks)),
        touched_all(s, ks).len() == s.len(),
        forall|o: K| has_key(touched_all(s, ks), o) == has_key(s, o),
        forall|o: K| lookup(touched_all(s, ks), o) == lookup(s, o),
    decreases ks.len(),
{
    if ks.len() > 0 {
        lemma_touched_all(s, ks.drop_last());
        lemma_touched(touched_all(s, ks.drop_last()), ks.last());
    }
}

/// Using a key, removing one or cutting the list short brings no entry
/// into the list that was not there.
pub proof fn lemma_members<K, V>(s: Seq<(K, V)>, k: K, n: int)
    requires
        0 <= n <= s.len(),
    ensures
        forall|i: int| 0 <= i < touched(s, k).len() ==> s.contains(#[trigger] touched(s, k)[i]),
        forall|i: int| 0 <= i < without(s, k).len() ==> s.contains(#[trigger] without(s, k)[i]),
        forall|i: int| 0 <= i < n ==> s.contains(#[trigger] s.take(n)[i]),
{
    let t = touched(s, k);
    let w = without(s, k);
    if has_key(s, k) {
        let p = position(s, k);
        assert forall|i: int| 0 <= i < w.len() implies s.contains(#[trigger] w[i]) by {
            let j = if i < p { i } else { i + 1 };
            assert(s[j] == w[i]);
        }
        assert forall|i: int| 0 <= i < t.len() implies s.contains(#[trigger] t[i]) by {
            if i == 0 {
                assert(s[p] == t[0]);
            } else {
                let j = if i - 1 < p { i - 1 } else { i };
                assert(s[j] == t[i]);
            }
        }
    } else {
        assert forall|i: int| 0 <= i < s.len() implies s.contains(#[trigger] s[i]) by {
            assert(s[i] == s[i]);
        }
    }
    assert forall|i: int| 0 <= i < n implies s.contains(#[trigger] s.take(n)[i]) by {
        assert(s[i] == s.take(n)[i]);
    }
}

/// The first `n` entries of a list, or all of them where it has no more.
pub open spec fn trimmed<K, V>(s: Seq<(K, V)>, n: int) -> Seq<(K, V)> {
    if s.len() > n {
        s.take(n)
    } else {
        s
    }
}

/// The entries of a list after its first `n`.
pub open spec fn overflow<K, V>(s: Seq<(K, V)>, n: int) -> Seq<(K, V)> {
    if s.len() > n {
        s.skip(n)
    } else {
        Seq::empty()
    }
}

/// The entry of `k`, as a list of one or no entry.
pub open spec fn entry_of<K, V>(s: Seq<(K, V)>, k: K) -> Seq<(K, V)> {
    if has_key(s, k) {
        seq![s[position(s, k)]]
    } else {
        Seq::empty()
    }
}

/// The list after `v` was stored under `k` with room for `capacity`
/// entries: the new entry in front, then the others as far as there is room.
pub open spec fn stored<K, V>(s: Seq<(K, V)>, k: K, v: V, capacity: int) -> Seq<(K, V)> {
    seq![(k, v)] + trimmed(without(s, k), capacity - 1)
}

/// The entries that storing under `k` pushes out: the old entry of `k`,
/// then what no longer fits.
pub open spec fn displaced<K, V>(s: Seq<(K, V)>, k: K, capacity: int) -> Seq<(K, V)> {
    entry_of(s, k) + overflow(without(s, k), capacity - 1)
}

/// Storing brings one entry into the list, in front, and no other.
pub proof fn lemma_stored<K, V>(s: Seq<(K, V)>, k: K, v: V, capacity: int)
    requires
        distinct(s),
        capacity >= 1,
    ensures
        stored(s, k, v, capacity)[0] == (k, v),
        lookup(stored(s, k, v, capacity), k) == Some(v),
        has_key(stored(s, k, v, capacity), k),
        forall|i: int|
            1 <= i < stored(s, k, v, capacity).len() ==> s.contains(
                #[trigger] stored(s, k, v, capacity)[i],
            ),
{
    let w = without(s, k);
    let t = trimmed(w, capacity - 1);
    let r = stored(s, k, v, capacity);
    lemma_without(s, k);
    lemma_members(s, k, 0);
    let n = t.len() as int;
    assert(t =~= w.take(n));
    lemma_prefix(w, n);
    lemma_pushed_front(t, k, v);
    assert forall|i: int| 1 <= i < r.len() implies s.contains(#[trigger] r[i]) by {
        assert(r[i] == w[i - 1]);
        assert(s.contains(w[i - 1]));
    }
}

/// Storing in a list that keeps to its bound: the old entry of the key
/// leaves, or the last entry of a full list, or none; and the list keeps
/// to its bound, without a key twice.
pub proof fn lemma_stored_cases<K, V>(s: Seq<(K, V)>, k: K, v: V, capacity: int)
    requires
        distinct(s),
        s.len() <= capacity,
        capacity >= 1,
    ensures
        distinct(stored(s, k, v, capacity)),
        stored(s, k, v, capacity).len() <= capacity,
        has_key(s, k) ==> stored(s, k, v, capacity) == seq![(k, v)] + without(s, k) && displaced(
            s,
            k,
            capacity,
        ) == seq![(k, value_of(s, k))],
        !has_key(s, k) && s.len() == capacity ==> stored(s, k, v, capacity) == seq![(k, v)]
            + s.drop_last() && displaced(s, k, capacity) == seq![s.last()],
        !has_key(s, k) && s.len() != capacity ==> stored(s, k, v, capacity) == seq![(k, v)] + s
            && displaced(s, k, capacity) =~= Seq::<(K, V)>::empty(),
{
    let w = without(s, k);
    let t = trimmed(w, capacity - 1);
    lemma_without(s, k);
    lemma_prefix(w, t.len() as int);
    assert(t =~= w.take(t.len() as int));
    lemma_pushed_front(t, k, v);
    if has_key(s, k) {
        let p = position(s, k);
        assert(0 <= p < s.len() && s[p].0 == k);
        assert(displaced(s, k, capacity) =~= seq![(k, value_of(s, k))]);
    } else if s.len() == capacity {
        assert(s.take(capacity - 1) =~= s.drop_last());
        assert(s.skip(capacity - 1) =~= seq![s.last()]);
        assert(displaced(s, k, capacity) =~= seq![s.last()]);
    }
}

} // verus!
