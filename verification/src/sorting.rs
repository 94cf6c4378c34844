//! Sorting of items by an integer key.

use crate::grouping::picked;
use crate::hierarchy::all_indices;
use vstd::prelude::*;

verus! {

/// Lexicographic order of pairs.
pub open spec fn pair_le(a: (u128, usize), b: (u128, usize)) -> bool {
    a.0 < b.0 || (a.0 == b.0 && a.1 <= b.1)
}

/// No pair comes before a smaller one.
pub open spec fn pairs_sorted(s: Seq<(u128, usize)>) -> bool {
    forall|i: int, j: int| 0 <= i < j < s.len() ==> pair_le(#[trigger] s[i], #[trigger] s[j])
}

/// Calls `sort_unstable` of std's slices, which sorts ascending by the order of
/// the elements: afterwards the vector holds the same pairs, and none comes
/// before a smaller one.
#[verifier::external_body]
fn sort_pairs(v: &mut Vec<(u128, usize)>)
    ensures
        final(v)@.to_multiset() == old(v)@.to_multiset(),
        pairs_sorted(final(v)@),
{
    v.sort_unstable();
}

/// `order` holds each index below `n` exactly once.
pub open spec fn is_permutation(order: Seq<usize>, n: nat) -> bool {
    &&& order.len() == n
    &&& forall|i: int| 0 <= i < order.len() ==> #[trigger] order[i] < n
    &&& order.no_duplicates()
    &&& forall|v: usize| v < n ==> #[trigger] order.contains(v)
}

/// `order` holds the indices of `codes` by ascending code, equal codes by
/// ascending index.
pub open spec fn is_sort_order(order: Seq<usize>, codes: Seq<u128>) -> bool {
    &&& is_permutation(order, codes.len())
    &&& forall|i: int, j: int|
        0 <= i < j < order.len() ==> {
            ||| codes[#[trigger] order[i] as int] < codes[#[trigger] order[j] as int]
            ||| codes[order[i] as int] == codes[order[j] as int] && order[i] < order[j]
        }
}

/// There is only one sort order.
pub proof fn lemma_sort_order_unique(a: Seq<usize>, b: Seq<usize>, codes: Seq<u128>)
    requires
        is_sort_order(a, codes),
        is_sort_order(b, codes),
    ensures
        a == b,
{
    assert forall|i: int| 0 <= i < a.len() implies a[i] == b[i] by {
        lemma_sort_order_prefix(a, b, codes, i);
    }
    assert(a =~= b);
}

proof fn lemma_sort_order_prefix(a: Seq<usize>, b: Seq<usize>, codes: Seq<u128>, i: int)
    requires
        is_sort_order(a, codes),
        is_sort_order(b, codes),
        0 <= i < a.len(),
    ensures
        forall|j: int| 0 <= j <= i ==> a[j] == b[j],
    decreases i,
{
    if i > 0 {
        lemma_sort_order_prefix(a, b, codes, i - 1);
    }
    if a[i] != b[i] {
        assert(b.contains(a[i]));
        assert(a.contains(b[i]));
        let p = choose|p: int| 0 <= p < b.len() && b[p] == a[i];
        let q = choose|q: int| 0 <= q < a.len() && a[q] == b[i];
        assert(p > i) by {
            if p < i {
                assert(a[p] == b[p]);
            }
        }
        assert(q > i) by {
            if q < i {
                assert(a[q] == b[q]);
            }
        }
        assert(codes[a[i] as int] <= codes[a[q] as int]);
        assert(codes[b[i] as int] <= codes[b[p] as int]);
        assert(false);
    }
}

/// The indices of `codes` by ascending code, equal codes by ascending index.
pub open spec fn sort_order(codes: Seq<u128>) -> Seq<usize> {
    choose|order: Seq<usize>| is_sort_order(order, codes)
}

/// The indices of `codes` by ascending code, equal codes by ascending index.
pub fn sorted_order(codes: &[u128]) -> (order: Vec<usize>)
    ensures
        is_sort_order(order@, codes@),
        order@ == sort_order(codes@),
{
    let n: usize = codes.len();
    let mut pairs: Vec<(u128, usize)> = Vec::new();
    let mut i: usize = 0;
    while i < n
        invariant
            n == codes@.len(),
            i <= n,
            pairs@.len() == i,
            forall|k: int| 0 <= k < i ==> #[trigger] pairs@[k] == (codes@[k], k as usize),
        decreases n - i,
    {
        pairs.push((codes[i], i));
        i = i + 1;
    }
    let ghost unsorted = pairs@;
    sort_pairs(&mut pairs);
    let ghost sorted = pairs@;
    proof {
        broadcast use vstd::seq_lib::group_to_multiset_ensures;

        assert(unsorted.no_duplicates());
        unsorted.lemma_multiset_has_no_duplicates();
        sorted.lemma_multiset_has_no_duplicates_conv();
        vstd::seq_lib::to_multiset_len(unsorted);
        vstd::seq_lib::to_multiset_len(sorted);
        assert(sorted.len() == n);
        assert forall|k: int| 0 <= k < n implies (#[trigger] sorted[k]).1 < n && sorted[k].0
            == codes@[sorted[k].1 as int] by {
            assert(sorted.contains(sorted[k]));
            assert(unsorted.to_multiset().count(sorted[k]) > 0);
            assert(unsorted.contains(sorted[k]));
        }
        assert forall|v: usize| v < n implies sorted.contains(#[trigger] unsorted[v as int]) by {
            assert(unsorted.contains(unsorted[v as int]));
            assert(sorted.to_multiset().count(unsorted[v as int]) > 0);
            assert(sorted.contains(unsorted[v as int]));
        }
    }
    let mut order: Vec<usize> = Vec::new();
    let mut i: usize = 0;
    while i < n
        invariant
            n == sorted.len(),
            pairs@ == sorted,
            i <= n,
            order@.len() == i,
            forall|k: int| 0 <= k < i ==> #[trigger] order@[k] == sorted[k].1,
        decreases n - i,
    {
        order.push(pairs[i].1);
        i = i + 1;
    }
    proof {
        assert forall|a: int, b: int| 0 <= a < order@.len() && 0 <= b < order@.len() && a
            != b implies order@[a] != order@[b] by {
            assert(sorted[a] != sorted[b]);
        }
        assert forall|v: usize| v < n implies #[trigger] order@.contains(v) by {
            assert(unsorted[v as int] == (codes@[v as int], v));
            let k = choose|k: int| 0 <= k < sorted.len() && sorted[k] == unsorted[v as int];
            assert(order@[k] == v);
        }
        assert forall|i: int, j: int| 0 <= i < j < order@.len() implies {
            ||| codes@[#[trigger] order@[i] as int] < codes@[#[trigger] order@[j] as int]
            ||| codes@[order@[i] as int] == codes@[order@[j] as int] && order@[i] < order@[j]
        } by {
            assert(pair_le(sorted[i], sorted[j]));
        }
        assert(is_sort_order(order@, codes@));
        lemma_sort_order_unique(order@, sort_order(codes@), codes@);
    }
    order
}

/// `order` with `i` in the place that sorting gives it.
spec fn insert_sorted(order: Seq<usize>, codes: Seq<u128>, i: usize) -> Seq<usize>
    decreases order.len(),
{
    if order.len() == 0 || codes[order.last() as int] <= codes[i as int] {
        order.push(i)
    } else {
        insert_sorted(order.drop_last(), codes, i).push(order.last())
    }
}

proof fn lemma_insert_sorted(order: Seq<usize>, codes: Seq<u128>, i: usize, n: nat)
    requires
        n < codes.len(),
        i == n,
        forall|k: int| 0 <= k < order.len() ==> #[trigger] order[k] < n,
        forall|a: int, b: int|
            0 <= a < b < order.len() ==> {
                ||| codes[#[trigger] order[a] as int] < codes[#[trigger] order[b] as int]
                ||| codes[order[a] as int] == codes[order[b] as int] && order[a] < order[b]
            },
    ensures
        insert_sorted(order, codes, i).len() == order.len() + 1,
        forall|v: usize|
            #![trigger order.contains(v)]
            #![trigger insert_sorted(order, codes, i).contains(v)]
            insert_sorted(order, codes, i).contains(v) <==> (order.contains(v) || v == i),
        forall|a: int, b: int|
            0 <= a < b < insert_sorted(order, codes, i).len() ==> {
                ||| codes[#[trigger] insert_sorted(order, codes, i)[a] as int]
                    < codes[#[trigger] insert_sorted(order, codes, i)[b] as int]
                ||| codes[insert_sorted(order, codes, i)[a] as int] == codes[insert_sorted(
                    order,
                    codes,
                    i,
                )[b] as int] && insert_sorted(order, codes, i)[a] < insert_sorted(
                    order,
                    codes,
                    i,
                )[b]
            },
    decreases order.len(),
{
    let r = insert_sorted(order, codes, i);
    if order.len() == 0 || codes[order.last() as int] <= codes[i as int] {
        assert(r[order.len() as int] == i);
        assert forall|v: usize|
            #![trigger order.contains(v)]
            #![trigger r.contains(v)]
            r.contains(v) <==> (order.contains(v) || v == i) by {
            if order.contains(v) {
                let k = choose|k: int| 0 <= k < order.len() && order[k] == v;
                assert(r[k] == v);
            }
            if r.contains(v) {
                let k = choose|k: int| 0 <= k < r.len() && r[k] == v;
                if k < order.len() {
                    assert(order[k] == v);
                }
            }
        }
        assert forall|a: int, b: int| 0 <= a < b < r.len() implies {
            ||| codes[#[trigger] r[a] as int] < codes[#[trigger] r[b] as int]
            ||| codes[r[a] as int] == codes[r[b] as int] && r[a] < r[b]
        } by {
            if b < order.len() {
                assert(r[a] == order[a] && r[b] == order[b]);
            } else if a < order.len() - 1 {
                assert(r[a] == order[a]);
                assert(order[order.len() - 1] == order.last());
            }
        }
    } else {
        let init = order.drop_last();
        let last = order.last();
        lemma_insert_sorted(init, codes, i, n);
        let q = insert_sorted(init, codes, i);
        assert(order[order.len() - 1] == last);
        assert(r[q.len() as int] == last);
        assert forall|v: usize|
            #![trigger order.contains(v)]
            #![trigger r.contains(v)]
            r.contains(v) <==> (order.contains(v) || v == i) by {
            if order.contains(v) {
                let k = choose|k: int| 0 <= k < order.len() && order[k] == v;
                if k < init.len() {
                    assert(init[k] == v);
                    assert(init.contains(v));
                    assert(q.contains(v));
                    let l = choose|l: int| 0 <= l < q.len() && q[l] == v;
                    assert(r[l] == v);
                }
            }
            if v == i {
                assert(q.contains(v));
                let l = choose|l: int| 0 <= l < q.len() && q[l] == v;
                assert(r[l] == v);
            }
            if r.contains(v) {
                let k = choose|k: int| 0 <= k < r.len() && r[k] == v;
                if k < q.len() {
                    assert(q[k] == v);
                    assert(q.contains(v));
                    if v != i {
                        assert(init.contains(v));
                        let l = choose|l: int| 0 <= l < init.len() && init[l] == v;
                        assert(order[l] == v);
                    }
                }
            }
        }
        assert forall|a: int, b: int| 0 <= a < b < r.len() implies {
            ||| codes[#[trigger] r[a] as int] < codes[#[trigger] r[b] as int]
            ||| codes[r[a] as int] == codes[r[b] as int] && r[a] < r[b]
        } by {
            if b < q.len() {
                assert(r[a] == q[a] && r[b] == q[b]);
            } else {
                assert(r[a] == q[a]);
                assert(q.contains(q[a]));
                if q[a] != i {
                    assert(init.contains(q[a]));
                    let l = choose|l: int| 0 <= l < init.len() && init[l] == q[a];
                    assert(order[l] == q[a]);
                }
            }
        }
    }
}

/// What insertion makes of the first `n` codes.
spec fn insertion_order(codes: Seq<u128>, n: nat) -> Seq<usize>
    decreases n,
{
    if n == 0 {
        Seq::empty()
    } else {
        insert_sorted(insertion_order(codes, (n - 1) as nat), codes, (n - 1) as usize)
    }
}

proof fn lemma_insertion_order(codes: Seq<u128>, n: nat)
    requires
        n <= codes.len() <= usize::MAX,
    ensures
        insertion_order(codes, n).len() == n,
        forall|v: usize| #[trigger] insertion_order(codes, n).contains(v) <==> v < n,
        forall|a: int, b: int|
            0 <= a < b < insertion_order(codes, n).len() ==> {
                ||| codes[#[trigger] insertion_order(codes, n)[a] as int]
                    < codes[#[trigger] insertion_order(codes, n)[b] as int]
                ||| codes[insertion_order(codes, n)[a] as int] == codes[insertion_order(
                    codes,
                    n,
                )[b] as int] && insertion_order(codes, n)[a] < insertion_order(codes, n)[b]
            },
    decreases n,
{
    if n > 0 {
        let m = (n - 1) as nat;
        lemma_insertion_order(codes, m);
        let o = insertion_order(codes, m);
        assert forall|k: int| 0 <= k < o.len() implies #[trigger] o[k] < m by {
            assert(o.contains(o[k]));
        }
        lemma_insert_sorted(o, codes, m as usize, m);
        let r = insertion_order(codes, n);
        assert forall|v: usize| #[trigger] r.contains(v) <==> v < n by {
            assert(o.contains(v) <==> v < m);
        }
    }
}

/// Every sequence of codes has a sort order.
pub proof fn lemma_sort_order_exists(codes: Seq<u128>)
    requires
        codes.len() <= usize::MAX,
    ensures
        is_sort_order(sort_order(codes), codes),
{
    let o = insertion_order(codes, codes.len());
    lemma_insertion_order(codes, codes.len());
    assert forall|k: int| 0 <= k < o.len() implies #[trigger] o[k] < codes.len() by {
        assert(o.contains(o[k]));
    }
    assert(o.no_duplicates()) by {
        assert forall|a: int, b: int| 0 <= a < o.len() && 0 <= b < o.len() && a
            != b implies o[a] != o[b] by {
            if a < b {
                assert(o[a] != o[b]);
            } else {
                assert(o[b] != o[a]);
            }
        }
    }
    assert(is_sort_order(o, codes));
}

/// The values picked, with the item at `j` taken out and put back.
pub proof fn lemma_picked_remove<T>(value: spec_fn(usize) -> T, sel: Seq<usize>, j: int)
    requires
        0 <= j < sel.len(),
    ensures
        picked(value, sel) == picked(value, sel.remove(j)).insert(value(sel[j])),
    decreases sel.len(),
{
    if j == sel.len() - 1 {
        assert(sel.remove(j) =~= sel.drop_last());
    } else {
        lemma_picked_remove(value, sel.drop_last(), j);
        let rest = sel.remove(j);
        assert(rest.drop_last() =~= sel.drop_last().remove(j));
        assert(rest.last() == sel.last());
        assert(picked(value, sel) =~= picked(value, rest).insert(value(sel[j])));
    }
}

/// A permutation picks every value once.
pub proof fn lemma_picked_permutation<T>(value: spec_fn(usize) -> T, order: Seq<usize>, n: nat)
    requires
        is_permutation(order, n),
        n <= usize::MAX,
    ensures
        picked(value, order) == picked(value, all_indices(n)),
    decreases n,
{
    if n == 0 {
        assert(order =~= all_indices(n));
    } else {
        let top = (n - 1) as usize;
        assert(order.contains(top));
        let j = choose|j: int| 0 <= j < order.len() && order[j] == top;
        let rest = order.remove(j);
        assert forall|i: int| 0 <= i < rest.len() implies #[trigger] rest[i] < n - 1 by {
            if i < j {
                assert(rest[i] == order[i]);
            } else {
                assert(rest[i] == order[i + 1]);
            }
        }
        assert(rest.no_duplicates()) by {
            assert forall|a: int, b: int| 0 <= a < rest.len() && 0 <= b < rest.len() && a
                != b implies rest[a] != rest[b] by {
                let a2 = if a < j {
                    a
                } else {
                    a + 1
                };
                let b2 = if b < j {
                    b
                } else {
                    b + 1
                };
                assert(rest[a] == order[a2] && rest[b] == order[b2]);
            }
        }
        assert forall|v: usize| v < n - 1 implies #[trigger] rest.contains(v) by {
            assert(order.contains(v));
            let k = choose|k: int| 0 <= k < order.len() && order[k] == v;
            if k < j {
                assert(rest[k] == v);
            } else {
                assert(rest[k - 1] == v);
            }
        }
        lemma_picked_permutation(value, rest, (n - 1) as nat);
        lemma_picked_remove(value, order, j);
        assert(all_indices(n).drop_last() =~= all_indices((n - 1) as nat));
    }
}

} // verus!
