//! Page layouts and the pairing of pages into spreads.

use vstd::prelude::*;

verus! {

/// How many pages are shown at once.
#[derive(Clone, Copy, Debug, PartialEq, Eq, Hash, Structural)]
pub enum Layout {
    Single,
    Dual,
}

/// On which side a spread begins.
#[derive(Clone, Copy, Debug, PartialEq, Eq, Hash, Structural)]
pub enum ReadingDirection {
    LeftToRight,
    RightToLeft,
}

/// The pages of one spread: the page it begins with and, unless that page
/// stands alone, the page after it.
#[derive(Clone, Copy, Debug, PartialEq, Eq, Hash)]
pub struct DualKey {
    pub left: usize,
    pub right: Option<usize>,
}

impl DualKey {
    /// Whether `page` is one of the pages of the spread.
    pub open spec fn holds(self, page: usize) -> bool {
        self.left == page || self.right == Some(page)
    }

    /// Whether two keys name the same pages.
    pub fn same(&self, other: &DualKey) -> (b: bool)
        ensures
            b == (*self == *other),
    {
        self.left == other.left && match (self.right, other.right) {
            (Some(a), Some(b)) => a == b,
            (None, None) => true,
            _ => false,
        }
    }
}

/// Whether page `p` of `total` pages is shown without a partner: it is
/// the last page, or it or the page after it is marked as standing alone.
pub open spec fn stands_alone(total: usize, standalone: Seq<usize>, p: usize) -> bool {
    ||| p + 1 >= total
    ||| standalone.contains(p)
    ||| standalone.contains((p + 1) as usize)
}

/// The spread that begins with page `p`.
pub open spec fn pair_of(total: usize, standalone: Seq<usize>, p: usize) -> DualKey {
    DualKey {
        left: p,
        right: if stands_alone(total, standalone, p) {
            None
        } else {
            Some((p + 1) as usize)
        },
    }
}

/// The pages a view of page `p` needs: `p` alone in single layout, the
/// spread that begins with `p` in dual layout.
pub open spec fn required_of(layout: Layout, total: usize, standalone: Seq<usize>, p: usize) -> DualKey {
    match layout {
        Layout::Single => DualKey { left: p, right: None },
        Layout::Dual => pair_of(total, standalone, p),
    }
}

/// The spreads of an archive from page `from` on: each begins where the
/// one before it ended.
pub open spec fn pairs_from(total: usize, standalone: Seq<usize>, from: usize) -> Seq<DualKey>
    decreases total - from,
{
    if from >= total {
        Seq::empty()
    } else if stands_alone(total, standalone, from) {
        seq![pair_of(total, standalone, from)] + pairs_from(
            total,
            standalone,
            (from + 1) as usize,
        )
    } else {
        seq![pair_of(total, standalone, from)] + pairs_from(
            total,
            standalone,
            (from + 2) as usize,
        )
    }
}

/// The spread as it is laid out: read from right to left, a pair of pages
/// has the later page on the left.
pub open spec fn placed_of(pair: DualKey, direction: ReadingDirection) -> DualKey {
    match (direction, pair.right) {
        (ReadingDirection::RightToLeft, Some(r)) => DualKey { left: r, right: Some(pair.left) },
        _ => pair,
    }
}

/// The spread as it is laid out in the given reading direction.
pub fn placed(pair: DualKey, direction: ReadingDirection) -> (k: DualKey)
    ensures
        k == placed_of(pair, direction),
{
    match (direction, pair.right) {
        (ReadingDirection::RightToLeft, Some(r)) => DualKey { left: r, right: Some(pair.left) },
        _ => pair,
    }
}

/// The layout that is not `layout`.
pub open spec fn other_layout(layout: Layout) -> Layout {
    match layout {
        Layout::Single => Layout::Dual,
        Layout::Dual => Layout::Single,
    }
}

/// Whether `page` is in the list.
pub fn contains_page(pages: &Vec<usize>, page: usize) -> (b: bool)
    ensures
        b == pages@.contains(page),
{
    let mut i: usize = 0;
    while i < pages.len()
        invariant
            i <= pages.len(),
            forall|j: int| 0 <= j < i ==> pages@[j] != page,
        decreases pages.len() - i,
    {
        if pages[i] == page {
            return true;
        }
        i += 1;
    }
    false
}

/// The spread that begins with page `p` in an archive of `total` pages of
/// which those in `standalone` are never paired.
pub fn pair_at(p: usize, total: usize, standalone: &Vec<usize>) -> (k: DualKey)
    ensures
        k == pair_of(total, standalone@, p),
{
    if p >= total || p + 1 >= total {
        return DualKey { left: p, right: None };
    }
    if contains_page(standalone, p) || contains_page(standalone, p + 1) {
        DualKey { left: p, right: None }
    } else {
        DualKey { left: p, right: Some(p + 1) }
    }
}

/// The pages that a view of page `p` needs.
pub fn required_pages(layout: Layout, p: usize, total: usize, standalone: &Vec<usize>) -> (k:
    DualKey)
    ensures
        k == required_of(layout, total, standalone@, p),
{
    match layout {
        Layout::Single => DualKey { left: p, right: None },
        Layout::Dual => pair_at(p, total, standalone),
    }
}

/// All spreads of an archive of `total` pages, from page 0 on.
pub fn dual_pairs(total: usize, standalone: &Vec<usize>) -> (pairs: Vec<DualKey>)
    ensures
        pairs@ == pairs_from(total, standalone@, 0),
{
    let mut pairs: Vec<DualKey> = Vec::new();
    let mut i: usize = 0;
    while i < total
        invariant
            i <= total,
            pairs_from(total, standalone@, 0) == pairs@ + pairs_from(total, standalone@, i),
        decreases total - i,
    {
        let k = pair_at(i, total, standalone);
        let ghost tail = pairs_from(total, standalone@, i);
        let step: usize = match k.right {
            Some(_) => 2,
            None => 1,
        };
        proof {
            let next = pairs_from(total, standalone@, (i + step) as usize);
            assert(tail == seq![k] + next);
            assert(pairs@ + tail =~= pairs@.push(k) + next);
        }
        pairs.push(k);
        i += step;
    }
    assert(pairs@ + Seq::<DualKey>::empty() =~= pairs@);
    pairs
}

/// The place of the spread that begins with `page`, if there is one.
pub fn find_pair(pairs: &Vec<DualKey>, page: usize) -> (r: Option<usize>)
    ensures
        match r {
            Some(j) => j < pairs.len() && pairs@[j as int].left == page && forall|i: int|
                0 <= i < j ==> pairs@[i].left != page,
            None => forall|i: int| 0 <= i < pairs.len() ==> pairs@[i].left != page,
        },
{
    let mut i: usize = 0;
    while i < pairs.len()
        invariant
            i <= pairs.len(),
            forall|j: int| 0 <= j < i ==> pairs@[j].left != page,
        decreases pairs.len() - i,
    {
        if pairs[i].left == page {
            return Some(i);
        }
        i += 1;
    }
    None
}

/// Whether the spread at `j` is the first that holds `page`.
pub open spec fn first_holding(pairs: Seq<DualKey>, page: usize, j: int) -> bool {
    &&& 0 <= j < pairs.len()
    &&& pairs[j].holds(page)
    &&& forall|i: int| 0 <= i < j ==> !(#[trigger] pairs[i]).holds(page)
}

/// The place of the spread that shows `page`, if there is one.
pub fn find_holding(pairs: &Vec<DualKey>, page: usize) -> (r: Option<usize>)
    ensures
        match r {
            Some(j) => first_holding(pairs@, page, j as int),
            None => forall|i: int| 0 <= i < pairs.len() ==> !(#[trigger] pairs@[i]).holds(page),
        },
{
    let mut i: usize = 0;
    while i < pairs.len()
        invariant
            i <= pairs.len(),
            forall|j: int| 0 <= j < i ==> !(#[trigger] pairs@[j]).holds(page),
        decreases pairs.len() - i,
    {
        let k = pairs[i];
        let right_is = match k.right {
            Some(r) => r == page,
            None => false,
        };
        if k.left == page || right_is {
            return Some(i);
        }
        i += 1;
    }
    None
}

/// The place that turning one spread forward or back from `at` leads to:
/// the neighbouring spread, or `at` itself at either end.
pub open spec fn turned(len: int, at: int, forward: bool) -> int {
    if forward {
        if at + 1 < len {
            at + 1
        } else {
            at
        }
    } else {
        if at > 0 {
            at - 1
        } else {
            at
        }
    }
}

/// Whether turning one spread forward or back from the spread that shows
/// `page` leads to page `to`: the first page of the neighbouring spread.
/// Where no spread shows `page`, or there is no neighbour, `page` stays.
pub open spec fn turns_to(pairs: Seq<DualKey>, page: usize, forward: bool, to: usize) -> bool {
    &&& (forall|i: int| 0 <= i < pairs.len() ==> !(#[trigger] pairs[i]).holds(page)) ==> to
        == page
    &&& forall|j: int|
        first_holding(pairs, page, j) ==> to == if turned(pairs.len() as int, j, forward) == j {
            page
        } else {
            pairs[turned(pairs.len() as int, j, forward)].left
        }
}

/// The page to show after turning one spread forward or back from the
/// spread that shows `page`: the first page of the neighbouring spread.
/// Where no spread shows `page`, or there is no neighbour, `page` stays.
pub fn turn_page(pairs: &Vec<DualKey>, page: usize, forward: bool) -> (p: usize)
    ensures
        turns_to(pairs@, page, forward, p),
{
    match find_holding(pairs, page) {
        Some(j) => {
            assert(first_holding(pairs@, page, j as int));
            assert(j < pairs.len());
            assert forall|o: int| first_holding(pairs@, page, o) implies o == j by {
                if o < j {
                    assert(!pairs@[o].holds(page));
                } else if j < o {
                    assert(!pairs@[j as int].holds(page));
                }
            }
            if forward {
                if j + 1 < pairs.len() {
                    pairs[j + 1].left
                } else {
                    page
                }
            } else {
                if j > 0 {
                    pairs[j - 1].left
                } else {
                    page
                }
            }
        },
        None => {
            assert forall|o: int| first_holding(pairs@, page, o) implies false by {
                assert(!pairs@[o].holds(page));
            }
            page
        },
    }
}

/// `page`, brought into an archive of `total` pages: a page beyond the
/// last counts as the last. An archive without pages has only page 0 to
/// name.
pub open spec fn clamped_page(page: usize, total: usize) -> usize {
    if total == 0 {
        0
    } else if page >= total {
        (total - 1) as usize
    } else {
        page
    }
}

/// `page`, brought into an archive of `total` pages.
pub fn clamp_page(page: usize, total: usize) -> (p: usize)
    ensures
        p == clamped_page(page, total),
        total > 0 ==> p < total,
{
    if total == 0 {
        0
    } else if page >= total {
        total - 1
    } else {
        page
    }
}

/// The page next to `page` in single layout: the one after it going
/// forward, the one before it going back, as far as a `usize` counts.
pub open spec fn neighbour(page: usize, forward: bool) -> usize {
    if forward {
        if page < usize::MAX {
            (page + 1) as usize
        } else {
            page
        }
    } else {
        if page > 0 {
            (page - 1) as usize
        } else {
            page
        }
    }
}

/// Whether a step forward or back from `page` leads to page `to`: to the
/// neighbouring page in single layout, to the first page of the
/// neighbouring spread in dual layout, and never out of the archive.
pub open spec fn steps_to(
    layout: Layout,
    pairs: Seq<DualKey>,
    page: usize,
    total: usize,
    forward: bool,
    to: usize,
) -> bool {
    match layout {
        Layout::Single => to == clamped_page(neighbour(page, forward), total),
        Layout::Dual => exists|t: usize| #[trigger]
            turns_to(pairs, page, forward, t) && to == clamped_page(t, total),
    }
}

/// The page to show after a step forward or back from `page` in an
/// archive of `total` pages with the spreads `pairs`.
pub fn step_page(layout: Layout, pairs: &Vec<DualKey>, page: usize, total: usize, forward: bool) -> (p:
    usize)
    ensures
        steps_to(layout, pairs@, page, total, forward, p),
        total > 0 ==> p < total,
{
    match layout {
        Layout::Single => {
            let next = if forward {
                if page < usize::MAX {
                    page + 1
                } else {
                    page
                }
            } else {
                if page > 0 {
                    page - 1
                } else {
                    page
                }
            };
            clamp_page(next, total)
        },
        Layout::Dual => {
            let t = turn_page(pairs, page, forward);
            clamp_page(t, total)
        },
    }
}

/// Every spread of an archive lies within it: it begins at or after the
/// page the spreads are made from, and its pages are below `total`.
pub proof fn lemma_pairs_within(total: usize, standalone: Seq<usize>, from: usize, j: int)
    requires
        0 <= j < pairs_from(total, standalone, from).len(),
    ensures
        from <= pairs_from(total, standalone, from)[j].left < total,
        pairs_from(total, standalone, from)[j].right matches Some(r) ==> r < total,
    decreases total - from,
{
    let s = pairs_from(total, standalone, from);
    assert(from < total);
    if j > 0 {
        let next = if stands_alone(total, standalone, from) {
            (from + 1) as usize
        } else {
            (from + 2) as usize
        };
        if next >= total {
            assert(pairs_from(total, standalone, next) =~= Seq::empty());
        }
        assert(s[j] == pairs_from(total, standalone, next)[j - 1]);
        lemma_pairs_within(total, standalone, next, j - 1);
    }
}

/// Among the first `n` spreads, where one shows `page`, one is the first
/// to do so.
proof fn lemma_first_holding(pairs: Seq<DualKey>, page: usize, n: int)
    requires
        0 <= n <= pairs.len(),
        exists|i: int| 0 <= i < n && (#[trigger] pairs[i]).holds(page),
    ensures
        exists|j: int| 0 <= j < n && first_holding(pairs, page, j),
    decreases n,
{
    if exists|i: int| 0 <= i < n - 1 && (#[trigger] pairs[i]).holds(page) {
        lemma_first_holding(pairs, page, n - 1);
    } else {
        assert(first_holding(pairs, page, n - 1));
    }
}

/// Turning the spreads of an archive never leads out of it.
pub proof fn lemma_turn_stays_within(
    total: usize,
    standalone: Seq<usize>,
    page: usize,
    forward: bool,
    to: usize,
)
    requires
        page < total,
        turns_to(pairs_from(total, standalone, 0), page, forward, to),
    ensures
        to < total,
{
    let pairs = pairs_from(total, standalone, 0);
    lemma_pairs_cover(total, standalone, 0, page);
    lemma_first_holding(pairs, page, pairs.len() as int);
    let j = choose|j: int| 0 <= j < pairs.len() && first_holding(pairs, page, j);
    let t = turned(pairs.len() as int, j, forward);
    if t != j {
        lemma_pairs_within(total, standalone, 0, t);
    }
}

/// The last page of an archive stands alone.
pub proof fn lemma_last_page_alone(total: usize, standalone: Seq<usize>)
    requires
        total >= 1,
    ensures
        pair_of(total, standalone, (total - 1) as usize) == (DualKey {
            left: (total - 1) as usize,
            right: None,
        }),
        required_of(Layout::Dual, total, standalone, (total - 1) as usize).right is None,
{
}

/// With nothing marked, the first page pairs with the second; marked, it
/// stands alone.
pub proof fn lemma_first_page(total: usize, standalone: Seq<usize>)
    requires
        total >= 2,
    ensures
        standalone.len() == 0 ==> pair_of(total, standalone, 0) == (DualKey {
            left: 0,
            right: Some(1),
        }),
        standalone.contains(0) ==> pair_of(total, standalone, 0) == (DualKey {
            left: 0,
            right: None,
        }),
{
}

/// With nothing marked, every spread begins at an even page and, but for
/// a last page left over, ends at the odd page after it.
pub proof fn lemma_even_odd(total: usize, from: usize, j: int)
    requires
        from % 2 == 0,
        0 <= j < pairs_from(total, Seq::empty(), from).len(),
    ensures
        pairs_from(total, Seq::empty(), from)[j].left == from + 2 * j,
        pairs_from(total, Seq::empty(), from)[j] == pair_of(
            total,
            Seq::empty(),
            (from + 2 * j) as usize,
        ),
    decreases j,
{
    let none = Seq::<usize>::empty();
    assert(from < total);
    if j > 0 {
        if from + 1 >= total {
            assert(pairs_from(total, none, (from + 1) as usize) =~= Seq::empty());
        }
        assert(!stands_alone(total, none, from));
        lemma_even_odd(total, (from + 2) as usize, j - 1);
    }
}

/// The spreads of an archive cover it: every page from `from` on is in
/// one of the spreads that begin at `from` or later, and every spread is
/// the one that begins with its first page.
pub proof fn lemma_pairs_cover(total: usize, standalone: Seq<usize>, from: usize, page: usize)
    requires
        from <= page < total,
    ensures
        exists|j: int|
            0 <= j < pairs_from(total, standalone, from).len() && (#[trigger] pairs_from(
                total,
                standalone,
                from,
            )[j]).holds(page),
    decreases total - from,
{
    let s = pairs_from(total, standalone, from);
    let first = pair_of(total, standalone, from);
    assert(s[0] == first);
    if first.holds(page) {
        assert(s[0].holds(page));
    } else {
        let next = if stands_alone(total, standalone, from) {
            (from + 1) as usize
        } else {
            (from + 2) as usize
        };
        lemma_pairs_cover(total, standalone, next, page);
        let t = pairs_from(total, standalone, next);
        let j = choose|j: int| 0 <= j < t.len() && (#[trigger] t[j]).holds(page);
        assert(s[j + 1] == t[j]);
    }
}

} // verus!
