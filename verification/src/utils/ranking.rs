//! Selection of the highest-ranked entries of a list of keys, ties going to
//! the entry that came first.

use vstd::prelude::*;

verus! {

/// True if entry `a` comes before entry `b` when the entries are ordered by
/// descending key and, among equal keys, by ascending position.
pub open spec fn ranks_before(keys: Seq<u64>, a: int, b: int) -> bool {
    keys[a] > keys[b] || (keys[a] == keys[b] && a < b)
}

/// True if `order` lists the positions of the `k` best entries of `keys` (all
/// of them if there are fewer), best first.
pub open spec fn is_top_selection(keys: Seq<u64>, k: nat, order: Seq<usize>) -> bool {
    &&& order.len() == if k <= keys.len() {
        k
    } else {
        keys.len()
    }
    &&& forall|p: int| 0 <= p < order.len() ==> (#[trigger] order[p]) < keys.len()
    &&& forall|p: int, q: int|
        0 <= p < q < order.len() ==> ranks_before(keys, #[trigger] order[p] as int, #[trigger] order[q] as int)
    &&& forall|p: int, j: usize|
        0 <= p < order.len() && j < keys.len() && !(#[trigger] order.contains(j)) ==> ranks_before(
            keys,
            #[trigger] order[p] as int,
            j as int,
        )
}

/// Returns the positions of the `k` largest keys, largest first; entries with
/// equal keys keep their relative order.
pub fn top_by_key(keys: &Vec<u64>, k: usize) -> (order: Vec<usize>)
    ensures
        is_top_selection(keys@, k as nat, order@),
        k >= keys@.len() ==> forall|j: usize| j < keys@.len() ==> #[trigger] order@.contains(j),
{
    let n = keys.len();
    let mut order: Vec<usize> = Vec::new();
    if k == 0 {
        return order;
    }
    let mut i: usize = 0;
    while i < n
        invariant
            n == keys@.len(),
            k > 0,
            i <= n,
            order@.len() == if k <= i {
                k
            } else {
                i
            },
            forall|p: int| 0 <= p < order@.len() ==> (#[trigger] order@[p]) < i,
            forall|p: int, q: int|
                0 <= p < q < order@.len() ==> ranks_before(
                    keys@,
                    #[trigger] order@[p] as int,
                    #[trigger] order@[q] as int,
                ),
            forall|p: int, j: usize|
                0 <= p < order@.len() && j < i && !(#[trigger] order@.contains(j)) ==> ranks_before(
                    keys@,
                    #[trigger] order@[p] as int,
                    j as int,
                ),
            i <= k ==> forall|j: usize| j < i ==> #[trigger] order@.contains(j),
        decreases n - i,
    {
        let key = keys[i];
        let len = order.len();
        // The first position whose entry the new one outranks.
        let mut pos: usize = 0;
        while pos < len && keys[order[pos]] >= key
            invariant
                len == order@.len(),
                pos <= len,
                i < n,
                n == keys@.len(),
                key == keys@[i as int],
                forall|p: int| 0 <= p < order@.len() ==> (#[trigger] order@[p]) < i,
                forall|p: int| 0 <= p < pos ==> keys@[(#[trigger] order@[p]) as int] >= key,
            decreases len - pos,
        {
            pos += 1;
        }
        let ghost before = order@;
        if pos < len || len < k {
            order.insert(pos, i);
            let ghost grown = order@;
            assert(grown == before.insert(pos as int, i));
            assert forall|p: int, q: int| 0 <= p < q < grown.len() implies ranks_before(
                keys@,
                #[trigger] grown[p] as int,
                #[trigger] grown[q] as int,
            ) by {
                if q < pos {
                    assert(grown[p] == before[p] && grown[q] == before[q]);
                } else if q == pos {
                    assert(grown[p] == before[p]);
                } else if p < pos {
                    assert(grown[p] == before[p] && grown[q] == before[q - 1]);
                } else if p == pos {
                    assert(grown[q] == before[q - 1]);
                    assert(ranks_before(keys@, before[pos as int] as int, before[q - 1] as int)
                        || q - 1 == pos);
                } else {
                    assert(grown[p] == before[p - 1] && grown[q] == before[q - 1]);
                }
            }
            assert forall|j: usize| #[trigger] before.contains(j) implies grown.contains(j) by {
                let w = choose|w: int| 0 <= w < before.len() && before[w] == j;
                if w < pos {
                    assert(grown[w] == j);
                } else {
                    assert(grown[w + 1] == j);
                }
            }
            assert(grown[pos as int] == i);
            if len == k {
                let last = order.pop();
                assert(order@ =~= grown.subrange(0, k as int));
                assert forall|p: int, j: usize|
                    0 <= p < order@.len() && j < i + 1 && !(#[trigger] order@.contains(
                        j,
                    )) implies ranks_before(keys@, #[trigger] order@[p] as int, j as int) by {
                    assert(order@[p] == grown[p]);
                    if j == grown[k as int] {
                        assert(ranks_before(keys@, grown[p] as int, grown[k as int] as int));
                    } else {
                        // `j` was outside the selection before the insertion.
                        assert(j != i) by {
                            assert(grown[pos as int] == i);
                            assert(order@[pos as int] == i);
                        }
                        if before.contains(j) {
                            let w = choose|w: int| 0 <= w < before.len() && before[w] == j;
                            if w < pos {
                                assert(order@[w] == j);
                            } else {
                                assert(grown[w + 1] == j);
                                assert(w + 1 < k);
                                assert(order@[w + 1] == j);
                            }
                            assert(false);
                        }
                        assert(ranks_before(keys@, before[k - 1] as int, j as int));
                        assert(ranks_before(keys@, grown[p] as int, grown[k as int] as int));
                        assert(grown[k as int] == before[k - 1]);
                    }
                }
            } else {
                assert forall|p: int, j: usize|
                    0 <= p < order@.len() && j < i + 1 && !(#[trigger] order@.contains(
                        j,
                    )) implies ranks_before(keys@, #[trigger] order@[p] as int, j as int) by {
                    assert(j != i);
                    assert(before.contains(j));
                }
                assert forall|j: usize| j < i + 1 implies #[trigger] order@.contains(j) by {
                    if j < i {
                        assert(before.contains(j));
                    }
                }
            }
        } else {
            // The selection is full and the new entry outranks none of it.
            assert forall|p: int, j: usize|
                0 <= p < order@.len() && j < i + 1 && !(#[trigger] order@.contains(
                    j,
                )) implies ranks_before(keys@, #[trigger] order@[p] as int, j as int) by {
                if j == i {
                    assert(keys@[order@[p] as int] >= key);
                }
            }
        }
        i += 1;
    }
    order
}

/// Two selections of the same keys agree on their first `p` positions.
proof fn lemma_top_selection_prefix(
    keys: Seq<u64>,
    k: nat,
    first: Seq<usize>,
    second: Seq<usize>,
    p: int,
)
    requires
        is_top_selection(keys, k, first),
        is_top_selection(keys, k, second),
        0 <= p <= first.len(),
    ensures
        forall|q: int| 0 <= q < p ==> first[q] == second[q],
    decreases p,
{
    if p > 0 {
        lemma_top_selection_prefix(keys, k, first, second, p - 1);
        let a = first[p - 1];
        let b = second[p - 1];
        if a != b {
            // One of the two outranks the other; say it is `x`, chosen by
            // `one`, while `other` chose `y` in its place.
            let (one, other, x, y) = if ranks_before(keys, a as int, b as int) {
                (first, second, a, b)
            } else {
                (second, first, b, a)
            };
            assert(ranks_before(keys, x as int, y as int));
            if other.contains(x) {
                let q = choose|q: int| 0 <= q < other.len() && other[q] == x;
                if q < p - 1 {
                    assert(one[q] == other[q]);
                    assert(ranks_before(keys, one[q] as int, one[p - 1] as int));
                } else {
                    assert(ranks_before(keys, other[p - 1] as int, other[q] as int));
                }
            } else {
                assert(ranks_before(keys, other[p - 1] as int, x as int));
            }
        }
    }
}

/// The keys and the count determine the selection: there is only one.
pub proof fn lemma_top_selection_unique(keys: Seq<u64>, k: nat, first: Seq<usize>, second: Seq<usize>)
    requires
        is_top_selection(keys, k, first),
        is_top_selection(keys, k, second),
    ensures
        first == second,
{
    lemma_top_selection_prefix(keys, k, first, second, first.len() as int);
    assert(first =~= second);
}

/// A selection of all the keys is ordered by key, largest first.
pub proof fn lemma_top_selection_descending(keys: Seq<u64>, k: nat, order: Seq<usize>, p: int, q: int)
    requires
        is_top_selection(keys, k, order),
        0 <= p <= q < order.len(),
    ensures
        keys[order[p] as int] >= keys[order[q] as int],
{
    if p < q {
        assert(ranks_before(keys, order[p] as int, order[q] as int));
    }
}

} // verus!
