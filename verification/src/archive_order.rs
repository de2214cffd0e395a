//! The canonical order of an archive's pages: the entries that the
//! manifest lists come first, in the order of its list; the others follow
//! in the byte order of their names.

use vstd::prelude::*;

verus! {

/// Whether `a` comes before `b` in byte order: at the first byte in which
/// they differ `a` has the lower one, or `a` ends first.
pub open spec fn lex_lt(a: Seq<u8>, b: Seq<u8>) -> bool
    decreases a.len(),
{
    if b.len() == 0 {
        false
    } else if a.len() == 0 {
        true
    } else if a[0] != b[0] {
        a[0] < b[0]
    } else {
        lex_lt(a.drop_first(), b.drop_first())
    }
}

/// The names of a run of entries, as byte sequences.
pub open spec fn names_of(v: Seq<Vec<u8>>) -> Seq<Seq<u8>> {
    v.map_values(|n: Vec<u8>| n@)
}

/// Whether entry `a` comes before entry `b`: by name, and among entries
/// of one name by place in the archive.
pub open spec fn comes_before(names: Seq<Seq<u8>>, a: int, b: int) -> bool {
    lex_lt(names[a], names[b]) || (names[a] == names[b] && a < b)
}

/// The first entry from `from` on that has the name `name` and is not
/// among `taken`.
pub open spec fn first_free(names: Seq<Seq<u8>>, name: Seq<u8>, taken: Seq<usize>, from: int) -> Option<
    usize,
>
    decreases names.len() - from,
{
    if from < 0 || from >= names.len() {
        None
    } else if names[from] == name && !taken.contains(from as usize) {
        Some(from as usize)
    } else {
        first_free(names, name, taken, from + 1)
    }
}

/// The entries that the manifest lists, in the order of its list. A name
/// that no entry has is passed over; a name listed twice takes the next
/// entry of that name, if there is one.
pub open spec fn listed_first(names: Seq<Seq<u8>>, listed: Seq<Seq<u8>>) -> Seq<usize>
    decreases listed.len(),
{
    if listed.len() == 0 {
        Seq::empty()
    } else {
        let before = listed_first(names, listed.drop_last());
        match first_free(names, listed.last(), before, 0) {
            Some(i) => before.push(i),
            None => before,
        }
    }
}

/// Whether `order` is the canonical order of the entries: every entry
/// once, the listed ones first as listed, the others sorted.
pub open spec fn canonical(names: Seq<Seq<u8>>, listed: Seq<Seq<u8>>, order: Seq<usize>) -> bool {
    let head = listed_first(names, listed);
    &&& order.len() == names.len()
    &&& head.len() <= order.len()
    &&& order.take(head.len() as int) == head
    &&& order.no_duplicates()
    &&& forall|i: int| 0 <= i < order.len() ==> (#[trigger] order[i]) < names.len()
    &&& forall|i: int, j: int|
        head.len() <= i < j < order.len() ==> !comes_before(
            names,
            #[trigger] order[j] as int,
            #[trigger] order[i] as int,
        )
}

/// Byte order does not run in circles.
pub proof fn lemma_lex_transitive(a: Seq<u8>, b: Seq<u8>, c: Seq<u8>)
    requires
        lex_lt(a, b),
        lex_lt(b, c),
    ensures
        lex_lt(a, c),
    decreases a.len(),
{
    if a.len() > 0 && b.len() > 0 && c.len() > 0 {
        if a[0] == b[0] && b[0] == c[0] {
            lemma_lex_transitive(a.drop_first(), b.drop_first(), c.drop_first());
        }
    }
}

/// No name comes before itself.
pub proof fn lemma_lex_irreflexive(a: Seq<u8>)
    ensures
        !lex_lt(a, a),
    decreases a.len(),
{
    if a.len() > 0 {
        lemma_lex_irreflexive(a.drop_first());
    }
}

/// The order of entries does not run in circles.
pub proof fn lemma_before_transitive(names: Seq<Seq<u8>>, a: int, b: int, c: int)
    requires
        comes_before(names, a, b),
        comes_before(names, b, c),
    ensures
        comes_before(names, a, c),
{
    if lex_lt(names[a], names[b]) && lex_lt(names[b], names[c]) {
        lemma_lex_transitive(names[a], names[b], names[c]);
    }
}

/// Whether `a` comes before `b` in byte order.
pub fn lex_less(a: &[u8], b: &[u8]) -> (r: bool)
    ensures
        r == lex_lt(a@, b@),
{
    let mut i: usize = 0;
    assert(a@.skip(0) =~= a@ && b@.skip(0) =~= b@);
    loop
        invariant
            i <= a.len(),
            i <= b.len(),
            lex_lt(a@, b@) == lex_lt(a@.skip(i as int), b@.skip(i as int)),
        ensures
            i <= a.len(),
            i <= b.len(),
            lex_lt(a@, b@) == lex_lt(a@.skip(i as int), b@.skip(i as int)),
            i == b.len() || i == a.len() || a@[i as int] != b@[i as int],
        decreases a.len() - i,
    {
        if i >= b.len() || i >= a.len() || a[i] != b[i] {
            break ;
        }
        assert(a@.skip(i as int).drop_first() =~= a@.skip(i + 1));
        assert(b@.skip(i as int).drop_first() =~= b@.skip(i + 1));
        i += 1;
    }
    if i >= b.len() {
        false
    } else if i >= a.len() {
        true
    } else {
        a[i] < b[i]
    }
}

/// Whether two names are the same.
pub fn same_bytes(a: &[u8], b: &[u8]) -> (r: bool)
    ensures
        r == (a@ == b@),
{
    if a.len() != b.len() {
        return false;
    }
    let mut i: usize = 0;
    while i < a.len()
        invariant
            i <= a.len(),
            a.len() == b.len(),
            forall|j: int| 0 <= j < i ==> a@[j] == b@[j],
        decreases a.len() - i,
    {
        if a[i] != b[i] {
            return false;
        }
        i += 1;
    }
    assert(a@ =~= b@);
    true
}

/// The number of marks among the first `n` flags.
pub open spec fn marks(used: Seq<bool>, n: int) -> int
    decreases n,
{
    if n <= 0 {
        0
    } else {
        marks(used, n - 1) + if used[n - 1] {
            1int
        } else {
            0int
        }
    }
}

/// Setting a flag that was not set adds one mark.
proof fn lemma_marks_update(used: Seq<bool>, at: int, n: int)
    requires
        0 <= at < used.len(),
        0 <= n <= used.len(),
        !used[at],
    ensures
        marks(used.update(at, true), n) == marks(used, n) + if at < n {
            1int
        } else {
            0int
        },
    decreases n,
{
    if n > 0 {
        lemma_marks_update(used, at, n - 1);
    }
}

/// Where every flag is set, there are as many marks as flags; where one
/// is not, there are fewer; where none is, there is no mark.
proof fn lemma_marks_bound(used: Seq<bool>, n: int)
    requires
        0 <= n <= used.len(),
    ensures
        0 <= marks(used, n) <= n,
        (forall|i: int| 0 <= i < n ==> used[i]) ==> marks(used, n) == n,
        (forall|i: int| 0 <= i < n ==> !used[i]) ==> marks(used, n) == 0,
        (exists|i: int| 0 <= i < n && !used[i]) ==> marks(used, n) < n,
    decreases n,
{
    if n > 0 {
        lemma_marks_bound(used, n - 1);
        if exists|i: int| 0 <= i < n && !used[i] {
            let i = choose|i: int| 0 <= i < n && !used[i];
            if i < n - 1 {
                assert(exists|j: int| 0 <= j < n - 1 && !used[j]);
            }
        }
    }
}

/// The first entry that has the name `name` and is not marked.
fn find_free(names: &Vec<Vec<u8>>, name: &[u8], used: &Vec<bool>, Ghost(taken): Ghost<Seq<usize>>) -> (r:
    Option<usize>)
    requires
        used@.len() == names@.len(),
        forall|i: int| 0 <= i < used@.len() ==> used@[i] == taken.contains(i as usize),
    ensures
        r == first_free(names_of(names@), name@, taken, 0),
        r matches Some(i) ==> i < names@.len() && !used@[i as int],
{
    let ghost ns = names_of(names@);
    let mut i: usize = 0;
    while i < names.len()
        invariant
            i <= names.len(),
            ns == names_of(names@),
            used@.len() == names@.len(),
            forall|j: int| 0 <= j < used@.len() ==> used@[j] == taken.contains(j as usize),
            first_free(ns, name@, taken, 0) == first_free(ns, name@, taken, i as int),
        decreases names.len() - i,
    {
        assert(ns[i as int] == names@[i as int]@);
        if !used[i] && same_bytes(names[i].as_slice(), name) {
            return Some(i);
        }
        i += 1;
    }
    None
}

/// The entry that comes before every other unmarked entry, if any is unmarked.
fn find_least(names: &Vec<Vec<u8>>, used: &Vec<bool>) -> (r: Option<usize>)
    requires
        used@.len() == names@.len(),
    ensures
        match r {
            Some(m) => m < names@.len() && !used@[m as int] && forall|j: int|
                0 <= j < names@.len() && !used@[j] ==> !comes_before(
                    names_of(names@),
                    j,
                    m as int,
                ),
            None => forall|j: int| 0 <= j < names@.len() ==> used@[j],
        },
{
    let ghost ns = names_of(names@);
    let mut best: Option<usize> = None;
    let mut i: usize = 0;
    while i < names.len()
        invariant
            i <= names.len(),
            ns == names_of(names@),
            used@.len() == names@.len(),
            match best {
                Some(m) => m < i && !used@[m as int] && forall|j: int|
                    0 <= j < i && !used@[j] ==> !comes_before(ns, j, m as int),
                None => forall|j: int| 0 <= j < i ==> used@[j],
            },
        decreases names.len() - i,
    {
        assert(ns[i as int] == names@[i as int]@);
        if !used[i] {
            match best {
                Some(m) => {
                    assert(ns[m as int] == names@[m as int]@);
                    // a later entry comes first only by its name
                    if lex_less(names[i].as_slice(), names[m].as_slice()) {
                        proof {
                            lemma_lex_irreflexive(ns[i as int]);
                            assert forall|j: int| 0 <= j < i + 1 && !used@[j] implies !comes_before(
                                ns,
                                j,
                                i as int,
                            ) by {
                                if comes_before(ns, j, i as int) {
                                    lemma_before_transitive(ns, j, i as int, m as int);
                                }
                            }
                        }
                        best = Some(i);
                    }
                },
                None => {
                    proof {
                        lemma_lex_irreflexive(ns[i as int]);
                    }
                    best = Some(i);
                },
            }
        }
        i += 1;
    }
    best
}

/// The canonical order of the entries named `names` under a manifest that
/// lists `listed`: for each place, the entry that stands there.
pub fn canonical_order(names: &Vec<Vec<u8>>, listed: &Vec<Vec<u8>>) -> (order: Vec<usize>)
    ensures
        canonical(names_of(names@), names_of(listed@), order@),
{
    let ghost ns = names_of(names@);
    let ghost ls = names_of(listed@);
    let n = names.len();
    let mut used: Vec<bool> = Vec::new();
    let mut k: usize = 0;
    while k < n
        invariant
            k <= n,
            used@.len() == k,
            forall|i: int| 0 <= i < k ==> !used@[i],
        decreases n - k,
    {
        used.push(false);
        k += 1;
    }
    let mut order: Vec<usize> = Vec::new();
    proof {
        lemma_marks_bound(used@, n as int);
        assert(ls.take(0) =~= Seq::empty());
    }
    let mut l: usize = 0;
    while l < listed.len()
        invariant
            l <= listed.len(),
            n == names@.len(),
            ns == names_of(names@),
            ls == names_of(listed@),
            used@.len() == n,
            order@ == listed_first(ns, ls.take(l as int)),
            order@.no_duplicates(),
            order@.len() == marks(used@, n as int),
            forall|i: int| 0 <= i < order@.len() ==> (#[trigger] order@[i]) < n,
            forall|i: int| 0 <= i < n ==> used@[i] == order@.contains(i as usize),
        decreases listed.len() - l,
    {
        assert(ls.take(l + 1).drop_last() =~= ls.take(l as int));
        assert(ls.take(l + 1).last() == listed@[l as int]@);
        match find_free(names, listed[l].as_slice(), &used, Ghost(order@)) {
            Some(i) => {
                let ghost before = order@;
                proof {
                    lemma_marks_update(used@, i as int, n as int);
                }
                used.set(i, true);
                order.push(i);
                assert forall|j: int| 0 <= j < n implies used@[j] == order@.contains(
                    j as usize,
                ) by {
                    if j == i {
                        assert(order@[order@.len() - 1] == i);
                    } else if before.contains(j as usize) {
                        let w = choose|w: int| 0 <= w < before.len() && before[w] == j as usize;
                        assert(order@[w] == j as usize);
                    } else if order@.contains(j as usize) {
                        let w = choose|w: int| 0 <= w < order@.len() && order@[w] == j as usize;
                        assert(before[w] == j as usize);
                    }
                }
                assert forall|a: int, b: int| 0 <= a < b < order@.len() implies order@[a]
                    != order@[b] by {
                    if b == order@.len() - 1 {
                        assert(before[a] == order@[a]);
                        assert(before.contains(before[a]));
                    } else {
                        assert(before[a] == order@[a] && before[b] == order@[b]);
                    }
                }
            },
            None => {},
        }
        l += 1;
    }
    assert(ls.take(l as int) =~= ls);
    let ghost head = order@;
    loop
        invariant
            n == names@.len(),
            ns == names_of(names@),
            used@.len() == n,
            head == listed_first(ns, ls),
            head.len() <= order@.len(),
            order@.take(head.len() as int) == head,
            order@.no_duplicates(),
            order@.len() == marks(used@, n as int),
            forall|i: int| 0 <= i < order@.len() ==> (#[trigger] order@[i]) < n,
            forall|i: int| 0 <= i < n ==> used@[i] == order@.contains(i as usize),
            forall|i: int, j: int|
                head.len() <= i < j < order@.len() ==> !comes_before(
                    ns,
                    #[trigger] order@[j] as int,
                    #[trigger] order@[i] as int,
                ),
            forall|i: int, u: int|
                #![trigger order@[i], used@[u]]
                head.len() <= i < order@.len() && 0 <= u < n && !used@[u] ==> !comes_before(
                    ns,
                    u,
                    order@[i] as int,
                ),
        ensures
            canonical(ns, ls, order@),
        decreases n - order@.len(),
    {
        proof {
            lemma_marks_bound(used@, n as int);
        }
        match find_least(names, &used) {
            Some(m) => {
                let ghost before = order@;
                let ghost flags = used@;
                proof {
                    lemma_marks_update(used@, m as int, n as int);
                }
                used.set(m, true);
                order.push(m);
                assert(order@.take(head.len() as int) =~= before.take(head.len() as int));
                assert forall|j: int| 0 <= j < n implies used@[j] == order@.contains(
                    j as usize,
                ) by {
                    if j == m {
                        assert(order@[order@.len() - 1] == m);
                    } else if before.contains(j as usize) {
                        let w = choose|w: int| 0 <= w < before.len() && before[w] == j as usize;
                        assert(order@[w] == j as usize);
                    } else if order@.contains(j as usize) {
                        let w = choose|w: int| 0 <= w < order@.len() && order@[w] == j as usize;
                        assert(before[w] == j as usize);
                    }
                }
                assert forall|a: int, b: int| 0 <= a < b < order@.len() implies order@[a]
                    != order@[b] by {
                    if b == order@.len() - 1 {
                        assert(before[a] == order@[a]);
                        assert(before.contains(before[a]));
                    } else {
                        assert(before[a] == order@[a] && before[b] == order@[b]);
                    }
                }
                assert forall|i: int, j: int|
                    head.len() <= i < j < order@.len() implies !comes_before(
                    ns,
                    #[trigger] order@[j] as int,
                    #[trigger] order@[i] as int,
                ) by {
                    assert(order@[i] == before[i]);
                    if j < before.len() {
                        assert(order@[j] == before[j]);
                    } else {
                        assert(!flags[m as int]);
                    }
                }
                assert forall|i: int, u: int|
                    #![trigger order@[i], used@[u]]
                    head.len() <= i < order@.len() && 0 <= u < n
                        && !used@[u] implies !comes_before(ns, u, order@[i] as int) by {
                    assert(!flags[u]);
                    if i < before.len() {
                        assert(order@[i] == before[i]);
                    }
                }
            },
            None => {
                break ;
            },
        }
    }
    order
}

} // verus!
