//! Sums of sizes and the longest prefix of a list that fits a budget.

use vstd::prelude::*;

verus! {

/// The sum of a run of sizes.
pub open spec fn total(c: Seq<nat>) -> nat
    decreases c.len(),
{
    if c.len() == 0 {
        0
    } else {
        c[0] + total(c.drop_first())
    }
}

/// How many entries from the front of a list stay when `slots` entries and
/// `budget` bytes are left for them: the longest prefix that fits both.
pub open spec fn kept(c: Seq<nat>, slots: int, budget: int) -> nat
    decreases c.len(),
{
    if c.len() == 0 || slots <= 0 || c[0] > budget {
        0
    } else {
        1 + kept(c.drop_first(), slots - 1, budget - c[0])
    }
}

/// The sum grows by what is put in front.
pub proof fn lemma_total_push(c: Seq<nat>, x: nat)
    ensures
        total(seq![x] + c) == x + total(c),
{
    assert((seq![x] + c).drop_first() =~= c);
}

/// Taking a size out lowers the sum by that size.
pub proof fn lemma_total_remove(c: Seq<nat>, i: int)
    requires
        0 <= i < c.len(),
    ensures
        total(c.remove(i)) == total(c) - c[i],
        total(c) >= c[i],
    decreases c.len(),
{
    if i == 0 {
        assert(c.remove(0) =~= c.drop_first());
    } else {
        lemma_total_remove(c.drop_first(), i - 1);
        assert(c.remove(i).drop_first() =~= c.drop_first().remove(i - 1));
    }
}

/// Taking the last size off lowers the sum by that size.
pub proof fn lemma_total_drop_last(c: Seq<nat>)
    requires
        c.len() > 0,
    ensures
        total(c.drop_last()) == total(c) - c.last(),
        total(c) >= c.last(),
{
    lemma_total_remove(c, c.len() - 1);
    assert(c.remove(c.len() - 1) =~= c.drop_last());
}

/// What stays fits: no more entries than there are or than there are
/// slots for, and no more bytes than the budget.
pub proof fn lemma_kept_bounds(c: Seq<nat>, slots: int, budget: int)
    ensures
        kept(c, slots, budget) <= c.len(),
        kept(c, slots, budget) <= slots || kept(c, slots, budget) == 0,
        total(c.take(kept(c, slots, budget) as int)) <= budget || kept(c, slots, budget) == 0,
    decreases c.len(),
{
    if c.len() == 0 || slots <= 0 || c[0] > budget {
        assert(c.take(0) =~= Seq::<nat>::empty());
    } else {
        let t = c.drop_first();
        lemma_kept_bounds(t, slots - 1, budget - c[0]);
        let n = kept(t, slots - 1, budget - c[0]);
        assert(c.take(n as int + 1).drop_first() =~= t.take(n as int));
        assert(t.take(0) =~= Seq::<nat>::empty());
    }
}

/// The longest prefix that fits is the one that fits while the next longer
/// one does not.
pub proof fn lemma_kept_is(c: Seq<nat>, slots: int, budget: int, m: int)
    requires
        0 <= m <= c.len(),
        m == 0 || (m <= slots && total(c.take(m)) <= budget),
        m < c.len() ==> !(m + 1 <= slots && total(c.take(m + 1)) <= budget),
    ensures
        kept(c, slots, budget) == m,
    decreases c.len(),
{
    if c.len() == 0 {
    } else if m == 0 {
        assert(c.take(1).drop_first() =~= Seq::<nat>::empty());
        assert(c.take(1)[0] == c[0]);
        assert(total(Seq::<nat>::empty()) == 0);
        assert(total(c.take(1)) == c[0]);
    } else {
        let t = c.drop_first();
        assert(c.take(m).drop_first() =~= t.take(m - 1));
        assert(c.take(m)[0] == c[0]);
        if m < c.len() {
            assert(c.take(m + 1).drop_first() =~= t.take(m));
            assert(c.take(m + 1)[0] == c[0]);
        }
        assert(t.take(0) =~= Seq::<nat>::empty());
        lemma_kept_is(t, slots - 1, budget - c[0], m - 1);
    }
}

} // verus!
