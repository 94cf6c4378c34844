//! Splitting work into batches that fit a memory budget.

use crate::sorting::{
    is_sort_order, lemma_sort_order_exists, sort_order, sorted_order,
};
use vstd::prelude::*;

verus! {

/// No single item is larger than this.
pub const LARGEST_ITEM: u128 = 0x10_0000_0000_0000_0000_0000_0000;

/// No item is larger than `LARGEST_ITEM`.
pub open spec fn sizes_ok(sizes: Seq<u128>) -> bool {
    forall|i: int| 0 <= i < sizes.len() ==> #[trigger] sizes[i] <= LARGEST_ITEM
}

/// The sizes of the items from `a` to `b` together.
pub open spec fn total_size(sizes: Seq<u128>, order: Seq<usize>, a: int, b: int) -> int
    decreases b - a,
{
    if b <= a {
        0
    } else {
        total_size(sizes, order, a, b - 1) + sizes[order[b - 1] as int]
    }
}

/// Where a batch that starts at `start` and reaches to `end` at least stops:
/// where the next item would exceed the budget, or behind the last item.
pub open spec fn batch_end(
    sizes: Seq<u128>,
    order: Seq<usize>,
    start: int,
    end: int,
    budget: u64,
) -> int
    decreases order.len() - end,
{
    if end >= order.len() || total_size(sizes, order, start, end + 1) > budget {
        end
    } else {
        batch_end(sizes, order, start, end + 1, budget)
    }
}

/// The batches of the items from `start` on. A batch always has at least one
/// item, even if that one exceeds the budget on its own.
pub open spec fn batches_from(
    sizes: Seq<u128>,
    order: Seq<usize>,
    start: int,
    budget: u64,
) -> Seq<Seq<usize>>
    decreases order.len() - start,
{
    let end = batch_end(sizes, order, start, start + 1, budget);
    if start >= order.len() || end <= start || end > order.len() {
        Seq::empty()
    } else {
        seq![order.subrange(start, end)] + batches_from(sizes, order, end, budget)
    }
}

/// Numbers by which larger items come first.
pub open spec fn largest_first(sizes: Seq<u128>) -> Seq<u128> {
    Seq::new(sizes.len(), |i: int| (u128::MAX - sizes[i]) as u128)
}

/// The batches of all items, the largest items first, items of the same size in
/// their original order.
pub open spec fn batches(sizes: Seq<u128>, budget: u64) -> Seq<Seq<usize>> {
    batches_from(sizes, sort_order(largest_first(sizes)), 0, budget)
}

/// The views of several batches.
pub open spec fn batch_views(b: Seq<Vec<usize>>) -> Seq<Seq<usize>> {
    b.map_values(|v: Vec<usize>| v@)
}

/// Splits items into batches whose sizes together fit the budget, taking the
/// largest items first so that the batches stay balanced.
pub fn split_batches(sizes: &Vec<u128>, budget: u64) -> (out: Vec<Vec<usize>>)
    requires
        sizes_ok(sizes@),
    ensures
        batch_views(out@) == batches(sizes@, budget),
{
    let mut codes: Vec<u128> = Vec::new();
    let mut i: usize = 0;
    while i < sizes.len()
        invariant
            i <= sizes@.len(),
            codes@ =~= largest_first(sizes@).take(i as int),
        decreases sizes@.len() - i,
    {
        codes.push(u128::MAX - sizes[i]);
        i = i + 1;
    }
    assert(codes@ =~= largest_first(sizes@));
    let order = sorted_order(codes.as_slice());
    split_in_order(sizes, &order, budget)
}

/// Splits the items `order`, in that order, into batches whose sizes together
/// fit the budget. A batch has at least one item.
pub fn split_in_order(sizes: &Vec<u128>, order: &Vec<usize>, budget: u64) -> (out: Vec<Vec<usize>>)
    requires
        sizes_ok(sizes@),
        forall|k: int| 0 <= k < order@.len() ==> #[trigger] order@[k] < sizes@.len(),
    ensures
        batch_views(out@) == batches_from(sizes@, order@, 0, budget),
{
    let ghost all = batches_from(sizes@, order@, 0, budget);
    let n: usize = order.len();
    let mut out: Vec<Vec<usize>> = Vec::new();
    let mut start: usize = 0;
    assert(batch_views(out@) + batches_from(sizes@, order@, 0, budget) =~= all);
    while start < n
        invariant
            n == order@.len(),
            start <= n,
            sizes_ok(sizes@),
            forall|k: int| 0 <= k < n ==> #[trigger] order@[k] < sizes@.len(),
            batch_views(out@) + batches_from(sizes@, order@, start as int, budget) == all,
        decreases n - start,
    {
        let mut end: usize = start + 1;
        let mut batch: Vec<usize> = Vec::new();
        batch.push(order[start]);
        let mut mem: u128 = sizes[order[start]];
        let ghost stop = batch_end(sizes@, order@, start as int, start + 1, budget);
        assert(batch@ =~= order@.subrange(start as int, end as int));
        assert(mem == total_size(sizes@, order@, start as int, end as int)) by {
            reveal_with_fuel(total_size, 2);
        }
        while end < n && mem + sizes[order[end]] <= budget as u128
            invariant
                n == order@.len(),
                start < end <= n,
                sizes_ok(sizes@),
                forall|k: int| 0 <= k < n ==> #[trigger] order@[k] < sizes@.len(),
                mem == total_size(sizes@, order@, start as int, end as int),
                mem <= LARGEST_ITEM || mem <= budget,
                batch@ == order@.subrange(start as int, end as int),
                stop == batch_end(sizes@, order@, start as int, end as int, budget),
            decreases n - end,
        {
            mem = mem + sizes[order[end]];
            batch.push(order[end]);
            end = end + 1;
            assert(batch@ =~= order@.subrange(start as int, end as int));
        }
        proof {
            assert(end == stop);
            let rest = batches_from(sizes@, order@, start as int, budget);
            assert(batch_views(out@.push(batch)) =~= batch_views(out@).push(batch@));
            assert(batch_views(out@) + rest =~= batch_views(out@.push(batch)) + batches_from(
                sizes@,
                order@,
                end as int,
                budget,
            ));
        }
        out.push(batch);
        start = end;
    }
    assert(batch_views(out@) + Seq::<Seq<usize>>::empty() =~= batch_views(out@));
    out
}

proof fn lemma_batch_end(
    sizes: Seq<u128>,
    order: Seq<usize>,
    start: int,
    end: int,
    budget: u64,
)
    requires
        start < end <= order.len(),
        end == start + 1 || total_size(sizes, order, start, end) <= budget,
    ensures
        end <= batch_end(sizes, order, start, end, budget) <= order.len(),
        ({
            let stop = batch_end(sizes, order, start, end, budget);
            &&& stop == start + 1 || total_size(sizes, order, start, stop) <= budget
            &&& stop == order.len() || total_size(sizes, order, start, stop + 1) > budget
        }),
    decreases order.len() - end,
{
    if end < order.len() && total_size(sizes, order, start, end + 1) <= budget {
        lemma_batch_end(sizes, order, start, end + 1, budget);
    }
}

/// All batches, one behind another.
pub open spec fn joined(b: Seq<Seq<usize>>) -> Seq<usize>
    decreases b.len(),
{
    if b.len() == 0 {
        Seq::empty()
    } else {
        b[0] + joined(b.drop_first())
    }
}

/// The sizes of a batch's items together.
pub open spec fn batch_size(sizes: Seq<u128>, batch: Seq<usize>) -> int {
    total_size(sizes, batch, 0, batch.len() as int)
}

proof fn lemma_total_size_part(
    sizes: Seq<u128>,
    order: Seq<usize>,
    start: int,
    end: int,
    n: int,
)
    requires
        0 <= start <= end <= order.len(),
        0 <= n <= end - start,
    ensures
        total_size(sizes, order.subrange(start, end), 0, n) == total_size(
            sizes,
            order,
            start,
            start + n,
        ),
    decreases n,
{
    if n > 0 {
        lemma_total_size_part(sizes, order, start, end, n - 1);
    }
}

pub proof fn lemma_batches_from(sizes: Seq<u128>, order: Seq<usize>, start: int, budget: u64)
    requires
        0 <= start <= order.len(),
    ensures
        joined(batches_from(sizes, order, start, budget)) == order.subrange(
            start,
            order.len() as int,
        ),
        forall|i: int|
            0 <= i < batches_from(sizes, order, start, budget).len() ==> {
                let b = #[trigger] batches_from(sizes, order, start, budget)[i];
                b.len() == 1 || (b.len() > 1 && batch_size(sizes, b) <= budget)
            },
    decreases order.len() - start,
{
    let all = batches_from(sizes, order, start, budget);
    if start < order.len() {
        lemma_batch_end(sizes, order, start, start + 1, budget);
        let end = batch_end(sizes, order, start, start + 1, budget);
        lemma_batches_from(sizes, order, end, budget);
        let rest = batches_from(sizes, order, end, budget);
        let b = order.subrange(start, end);
        assert(all.drop_first() =~= rest);
        assert(joined(all) =~= order.subrange(start, order.len() as int));
        lemma_total_size_part(sizes, order, start, end, end - start);
        assert forall|i: int| 0 <= i < all.len() implies {
            let b = #[trigger] all[i];
            b.len() == 1 || (b.len() > 1 && batch_size(sizes, b) <= budget)
        } by {
            if i > 0 {
                assert(all[i] == rest[i - 1]);
            }
        }
    } else {
        assert(joined(all) =~= order.subrange(start, order.len() as int));
    }
}

/// Every item is in exactly one batch, and a batch of more than one item fits
/// the budget.
pub proof fn law_batches(sizes: Seq<u128>, budget: u64)
    requires
        sizes.len() <= usize::MAX,
    ensures
        joined(batches(sizes, budget)) == sort_order(largest_first(sizes)),
        is_sort_order(joined(batches(sizes, budget)), largest_first(sizes)),
        forall|i: int|
            0 <= i < batches(sizes, budget).len() ==> {
                let b = #[trigger] batches(sizes, budget)[i];
                b.len() == 1 || (b.len() > 1 && batch_size(sizes, b) <= budget)
            },
{
    let order = sort_order(largest_first(sizes));
    lemma_sort_order_exists(largest_first(sizes));
    lemma_batches_from(sizes, order, 0, budget);
    assert(order.subrange(0, order.len() as int) =~= order);
}

/// A batch is as large as it can be: the item that starts the next batch would
/// not have fitted the budget.
pub proof fn law_batches_are_full(
    sizes: Seq<u128>,
    order: Seq<usize>,
    start: int,
    budget: u64,
    i: int,
)
    requires
        0 <= start <= order.len(),
        0 <= i,
        i + 1 < batches_from(sizes, order, start, budget).len(),
    ensures
        batches_from(sizes, order, start, budget)[i + 1].len() > 0,
        batch_size(sizes, batches_from(sizes, order, start, budget)[i]) + sizes[batches_from(
            sizes,
            order,
            start,
            budget,
        )[i + 1][0] as int] > budget,
    decreases order.len() - start,
{
    let all = batches_from(sizes, order, start, budget);
    lemma_batch_end(sizes, order, start, start + 1, budget);
    let end = batch_end(sizes, order, start, start + 1, budget);
    let rest = batches_from(sizes, order, end, budget);
    assert(all[i + 1] == rest[i]);
    lemma_batch_end(sizes, order, end, end + 1, budget);
    if i == 0 {
        lemma_total_size_part(sizes, order, start, end, end - start);
        assert(all[0] == order.subrange(start, end));
        assert(all[1] == rest[0]);
        assert(rest[0][0] == order[end]);
    } else {
        assert(all[i] == rest[i - 1]);
        law_batches_are_full(sizes, order, end, budget, i - 1);
    }
}

/// Larger items come in earlier batches, and items of the same size keep their
/// order.
pub proof fn law_largest_first(sizes: Seq<u128>, budget: u64, i: int, j: int)
    requires
        sizes.len() <= usize::MAX,
        0 <= i < j < joined(batches(sizes, budget)).len(),
    ensures
        ({
            let (a, b) = (joined(batches(sizes, budget))[i], joined(batches(sizes, budget))[j]);
            &&& a < sizes.len() && b < sizes.len() && a != b
            &&& sizes[a as int] >= sizes[b as int]
            &&& sizes[a as int] == sizes[b as int] ==> a < b
        }),
{
    law_batches(sizes, budget);
    let all = joined(batches(sizes, budget));
    let codes = largest_first(sizes);
    let (a, b) = (all[i], all[j]);
    assert(codes[a as int] == u128::MAX - sizes[a as int]);
    assert(codes[b as int] == u128::MAX - sizes[b as int]);
}

} // verus!
