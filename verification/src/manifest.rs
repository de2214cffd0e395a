//! What the pipeline reads of an archive's manifest: the pages that are
//! never paired and the reading direction. A field that is absent or
//! makes no sense falls back to its default.

use crate::layout::{stands_alone, ReadingDirection};
use vstd::prelude::*;

verus! {

/// Whether the text is `rtl`.
pub open spec fn is_rtl(text: Seq<u8>) -> bool {
    text.len() == 3 && text[0] == 0x72 && text[1] == 0x74 && text[2] == 0x6c
}

/// The reading direction that a manifest names: right to left for `rtl`,
/// left to right for `ltr` and for everything else.
pub fn reading_direction(text: &[u8]) -> (d: ReadingDirection)
    ensures
        d == if is_rtl(text@) {
            ReadingDirection::RightToLeft
        } else {
            ReadingDirection::LeftToRight
        },
{
    if text.len() == 3 && text[0] == 0x72 && text[1] == 0x74 && text[2] == 0x6c {
        ReadingDirection::RightToLeft
    } else {
        ReadingDirection::LeftToRight
    }
}

/// The page indices of a manifest that an archive of `total` pages can
/// use: those below `total`, each once, in the order of their first mention.
pub open spec fn usable(raw: Seq<usize>, total: usize) -> Seq<usize>
    decreases raw.len(),
{
    if raw.len() == 0 {
        raw
    } else {
        let rest = usable(raw.drop_last(), total);
        if raw.last() < total && !rest.contains(raw.last()) {
            rest.push(raw.last())
        } else {
            rest
        }
    }
}

/// The page indices of a manifest that an archive of `total` pages can use.
pub fn usable_standalone(raw: &Vec<usize>, total: usize) -> (v: Vec<usize>)
    ensures
        v@ == usable(raw@, total),
{
    let mut v: Vec<usize> = Vec::new();
    let mut i: usize = 0;
    assert(raw@.take(0) =~= Seq::empty());
    while i < raw.len()
        invariant
            i <= raw.len(),
            v@ == usable(raw@.take(i as int), total),
        decreases raw.len() - i,
    {
        assert(raw@.take(i + 1).drop_last() =~= raw@.take(i as int));
        assert(raw@.take(i + 1).last() == raw@[i as int]);
        let p = raw[i];
        if p < total && !crate::layout::contains_page(&v, p) {
            v.push(p);
        }
        i += 1;
    }
    assert(raw@.take(i as int) =~= raw@);
    v
}

/// What is kept are the indices below `total`, each once.
pub proof fn lemma_usable(raw: Seq<usize>, total: usize)
    ensures
        usable(raw, total).no_duplicates(),
        forall|p: usize| #[trigger]
            usable(raw, total).contains(p) <==> raw.contains(p) && p < total,
    decreases raw.len(),
{
    if raw.len() > 0 {
        let front = raw.drop_last();
        let last = raw[raw.len() - 1];
        lemma_usable(front, total);
        let rest = usable(front, total);
        let all = usable(raw, total);
        assert forall|p: usize| #[trigger] all.contains(p) <==> raw.contains(p) && p < total by {
            if all.contains(p) {
                let i = choose|i: int| 0 <= i < all.len() && all[i] == p;
                if i < rest.len() {
                    assert(rest[i] == p);
                    assert(rest.contains(p));
                    assert(rest.contains(p) <==> front.contains(p) && p < total);
                    let j = choose|j: int| 0 <= j < front.len() && front[j] == p;
                    assert(raw[j] == p);
                } else {
                    assert(raw[raw.len() - 1] == p);
                }
            }
            if raw.contains(p) && p < total {
                let j = choose|j: int| 0 <= j < raw.len() && raw[j] == p;
                if j < front.len() {
                    assert(front[j] == p);
                    assert(front.contains(p));
                    assert(rest.contains(p) <==> front.contains(p) && p < total);
                    let i = choose|i: int| 0 <= i < rest.len() && rest[i] == p;
                    assert(all[i] == p);
                } else if rest.contains(p) {
                    let i = choose|i: int| 0 <= i < rest.len() && rest[i] == p;
                    assert(all[i] == p);
                } else {
                    assert(all[all.len() - 1] == p);
                }
            }
        }
        assert forall|i: int, j: int| 0 <= i < j < all.len() implies all[i] != all[j] by {
            if j < rest.len() {
                assert(all[i] == rest[i] && all[j] == rest[j]);
            } else {
                assert(all[i] == rest[i]);
                assert(rest.contains(rest[i]));
            }
        }
    }
}

/// Indices that the archive cannot use make no difference to the pairing
/// of its pages.
pub proof fn lemma_usable_pairs_alike(raw: Seq<usize>, total: usize, page: usize)
    ensures
        stands_alone(total, usable(raw, total), page) == stands_alone(total, raw, page),
{
    lemma_usable(raw, total);
    if page + 1 < total {
        let next = (page + 1) as usize;
        assert(usable(raw, total).contains(page) <==> raw.contains(page));
        assert(usable(raw, total).contains(next) <==> raw.contains(next));
    }
}

} // verus!
