//! Statistics of a chunk plan.

use crate::chunking::{ChunkPlan, PlannedChunk};
use crate::sorting::{sort_order, sorted_order};
use vstd::prelude::*;

verus! {

/// The chunks of one level: how many there are, and how many points they hold.
#[derive(Debug, Clone, Copy, PartialEq, Eq, Structural)]
pub struct LevelStats {
    pub level: u32,
    pub chunks: u64,
    pub points: u64,
}

/// What a report says of a chunk plan that has chunks.
#[derive(Debug)]
pub struct ChunkStats {
    /// The chunks' sizes in ascending order.
    pub sizes: Vec<u64>,
    /// The points of all chunks.
    pub total: u64,
    /// The mean size, rounded down.
    pub mean: u64,
    /// Chunks above the target size.
    pub above_target: u64,
    /// Chunks above twice the target size.
    pub above_2x: u64,
    /// Chunks below a tenth of the target size.
    pub below_10pct: u64,
    /// Chunks without points.
    pub zero: u64,
    /// The levels that have chunks, in ascending order.
    pub levels: Vec<LevelStats>,
}

/// The chunks' sizes.
pub open spec fn chunk_sizes(chunks: Seq<PlannedChunk>) -> Seq<u64> {
    chunks.map_values(|c: PlannedChunk| c.point_count)
}

/// The sum of the sizes.
pub open spec fn sum_of_sizes(s: Seq<u64>) -> nat
    decreases s.len(),
{
    if s.len() == 0 {
        0
    } else {
        sum_of_sizes(s.drop_last()) + s.last() as nat
    }
}

/// How many numbers satisfy a condition.
pub open spec fn count_where(s: Seq<u64>, keep: spec_fn(u64) -> bool) -> nat
    decreases s.len(),
{
    if s.len() == 0 {
        0
    } else {
        count_where(s.drop_last(), keep) + if keep(s.last()) {
            1nat
        } else {
            0nat
        }
    }
}

/// Numbers by which sizes are ordered.
pub open spec fn size_codes(s: Seq<u64>) -> Seq<u128> {
    s.map_values(|v: u64| v as u128)
}

/// The numbers in ascending order.
pub open spec fn ascending(s: Seq<u64>) -> Seq<u64> {
    sort_order(size_codes(s)).map_values(|i: usize| s[i as int])
}

/// How many chunks a level has.
pub open spec fn level_chunks(chunks: Seq<PlannedChunk>, level: u32) -> nat
    decreases chunks.len(),
{
    if chunks.len() == 0 {
        0
    } else {
        level_chunks(chunks.drop_last(), level) + if chunks.last().level == level {
            1nat
        } else {
            0nat
        }
    }
}

/// How many points the chunks of a level hold.
pub open spec fn level_points(chunks: Seq<PlannedChunk>, level: u32) -> nat
    decreases chunks.len(),
{
    if chunks.len() == 0 {
        0
    } else {
        level_points(chunks.drop_last(), level) + if chunks.last().level == level {
            chunks.last().point_count as nat
        } else {
            0nat
        }
    }
}

/// The levels are in ascending order, each with its numbers, and every level
/// that has chunks is there.
pub open spec fn describes_levels(levels: Seq<LevelStats>, chunks: Seq<PlannedChunk>) -> bool {
    &&& forall|i: int, j: int|
        0 <= i < j < levels.len() ==> (#[trigger] levels[i]).level < (#[trigger] levels[j]).level
    &&& forall|i: int|
        0 <= i < levels.len() ==> {
            &&& (#[trigger] levels[i]).chunks == level_chunks(chunks, levels[i].level)
            &&& levels[i].points == level_points(chunks, levels[i].level)
            &&& levels[i].chunks > 0
        }
    &&& forall|k: int|
        0 <= k < chunks.len() ==> has_level(levels, (#[trigger] chunks[k]).level)
}

/// Whether a level is among the levels.
pub open spec fn has_level(levels: Seq<LevelStats>, level: u32) -> bool {
    exists|i: int| 0 <= i < levels.len() && (#[trigger] levels[i]).level == level
}

/// `s` describes the plan.
pub open spec fn describes(s: ChunkStats, plan: ChunkPlan) -> bool {
    let sizes = chunk_sizes(plan.chunks@);
    let target = plan.chunk_target;
    &&& s.sizes@ == ascending(sizes)
    &&& s.total == sum_of_sizes(sizes)
    &&& s.mean == sum_of_sizes(sizes) / sizes.len()
    &&& s.above_target == count_where(sizes, |v: u64| v > target)
    &&& s.above_2x == count_where(sizes, |v: u64| v > 2 * target)
    &&& s.below_10pct == count_where(sizes, |v: u64| v < target as int / 10)
    &&& s.zero == count_where(sizes, |v: u64| v == 0)
    &&& describes_levels(s.levels@, plan.chunks@)
}

proof fn lemma_sum_prefix(s: Seq<u64>, n: int)
    requires
        0 <= n <= s.len(),
    ensures
        sum_of_sizes(s.take(n)) <= sum_of_sizes(s),
    decreases s.len() - n,
{
    if n < s.len() {
        lemma_sum_prefix(s, n + 1);
        assert(s.take(n + 1).drop_last() =~= s.take(n));
    } else {
        assert(s.take(n) =~= s);
    }
}

proof fn lemma_level_points(chunks: Seq<PlannedChunk>, level: u32)
    ensures
        level_points(chunks, level) <= sum_of_sizes(chunk_sizes(chunks)),
        level_chunks(chunks, level) <= chunks.len(),
    decreases chunks.len(),
{
    if chunks.len() > 0 {
        lemma_level_points(chunks.drop_last(), level);
        assert(chunk_sizes(chunks).drop_last() =~= chunk_sizes(chunks.drop_last()));
    }
}

/// Takes one more chunk into account.
fn add_chunk(levels: &mut Vec<LevelStats>, c: PlannedChunk, Ghost(before): Ghost<
    Seq<PlannedChunk>,
>)
    requires
        describes_levels(old(levels)@, before),
        before.len() < u64::MAX,
        sum_of_sizes(chunk_sizes(before.push(c))) <= u64::MAX,
    ensures
        describes_levels(final(levels)@, before.push(c)),
{
    let ghost after = before.push(c);
    let ghost old_levels = levels@;
    proof {
        assert(after.drop_last() =~= before);
        lemma_level_points(after, c.level);
        lemma_level_points(before, c.level);
    }
    let mut p: usize = 0;
    while p < levels.len() && levels[p].level < c.level
        invariant
            levels@ == old_levels,
            p <= levels@.len(),
            forall|j: int| 0 <= j < p ==> (#[trigger] old_levels[j]).level < c.level,
        decreases levels@.len() - p,
    {
        p = p + 1;
    }
    if p < levels.len() && levels[p].level == c.level {
        let s = levels[p];
        levels.set(
            p,
            LevelStats {
                level: s.level,
                chunks: s.chunks + 1,
                points: s.points + c.point_count,
            },
        );
        proof {
            let now = levels@;
            assert forall|k: int| 0 <= k < after.len() implies has_level(
                now,
                (#[trigger] after[k]).level,
            ) by {
                if k < before.len() {
                    assert(before[k] == after[k]);
                    assert(has_level(old_levels, before[k].level));
                    let i = choose|i: int|
                        0 <= i < old_levels.len() && (#[trigger] old_levels[i]).level
                            == before[k].level;
                    assert(now[i].level == before[k].level);
                } else {
                    assert(now[p as int].level == c.level);
                }
            }
            assert forall|i: int| 0 <= i < now.len() implies {
                &&& (#[trigger] now[i]).chunks == level_chunks(after, now[i].level)
                &&& now[i].points == level_points(after, now[i].level)
                &&& now[i].chunks > 0
            } by {
                assert(old_levels[i].level == now[i].level);
                if i < p {
                    assert(old_levels[i].level < c.level);
                } else if i > p {
                    assert(old_levels[p as int].level < old_levels[i].level);
                }
            }
            assert forall|i: int, j: int| 0 <= i < j < now.len() implies (#[trigger] now[i]).level
                < (#[trigger] now[j]).level by {
                assert(old_levels[i].level < old_levels[j].level);
            }
        }
    } else {
        proof {
            assert(level_chunks(before, c.level) == 0 && level_points(before, c.level) == 0) by {
                assert(!has_level(old_levels, c.level)) by {
                    if has_level(old_levels, c.level) {
                        let i = choose|i: int|
                            0 <= i < old_levels.len() && (#[trigger] old_levels[i]).level
                                == c.level;
                        if i > p {
                            assert(old_levels[p as int].level < old_levels[i].level);
                        }
                    }
                }
                lemma_no_level(before, old_levels, c.level);
            }
        }
        levels.insert(p, LevelStats { level: c.level, chunks: 1, points: c.point_count });
        proof {
            let now = levels@;
            assert(now =~= old_levels.insert(
                p as int,
                LevelStats { level: c.level, chunks: 1, points: c.point_count },
            ));
            assert forall|k: int| 0 <= k < after.len() implies has_level(
                now,
                (#[trigger] after[k]).level,
            ) by {
                if k < before.len() {
                    assert(before[k] == after[k]);
                    assert(has_level(old_levels, before[k].level));
                    let i = choose|i: int|
                        0 <= i < old_levels.len() && (#[trigger] old_levels[i]).level
                            == before[k].level;
                    if i < p {
                        assert(now[i].level == before[k].level);
                    } else {
                        assert(now[i + 1].level == before[k].level);
                    }
                } else {
                    assert(now[p as int].level == c.level);
                }
            }
            assert forall|i: int| 0 <= i < now.len() implies {
                &&& (#[trigger] now[i]).chunks == level_chunks(after, now[i].level)
                &&& now[i].points == level_points(after, now[i].level)
                &&& now[i].chunks > 0
            } by {
                if i < p {
                    assert(now[i] == old_levels[i]);
                    assert(old_levels[i].level < c.level);
                } else if i > p {
                    assert(now[i] == old_levels[i - 1]);
                    if i - 1 > p {
                        assert(old_levels[p as int].level < old_levels[i - 1].level);
                    }
                }
            }
            assert forall|i: int, j: int| 0 <= i < j < now.len() implies (#[trigger] now[i]).level
                < (#[trigger] now[j]).level by {
                let a = if i < p {
                    i
                } else {
                    i - 1
                };
                let b = if j < p {
                    j
                } else {
                    j - 1
                };
                if i != p && j != p {
                    assert(old_levels[a].level < old_levels[b].level);
                } else if i == p {
                    if j - 1 > p {
                        assert(old_levels[p as int].level < old_levels[j - 1].level);
                    }
                } else {
                    assert(old_levels[i].level < c.level);
                }
            }
        }
    }
}

proof fn lemma_no_level(chunks: Seq<PlannedChunk>, levels: Seq<LevelStats>, level: u32)
    requires
        !has_level(levels, level),
        forall|k: int|
            0 <= k < chunks.len() ==> has_level(levels, (#[trigger] chunks[k]).level),
    ensures
        level_chunks(chunks, level) == 0,
        level_points(chunks, level) == 0,
    decreases chunks.len(),
{
    if chunks.len() > 0 {
        let init = chunks.drop_last();
        assert(has_level(levels, chunks[chunks.len() - 1].level));
        assert forall|k: int| 0 <= k < init.len() implies has_level(
            levels,
            (#[trigger] init[k]).level,
        ) by {
            assert(init[k] == chunks[k]);
        }
        lemma_no_level(init, levels, level);
    }
}

proof fn lemma_count_bound(s: Seq<u64>, keep: spec_fn(u64) -> bool)
    ensures
        count_where(s, keep) <= s.len(),
    decreases s.len(),
{
    if s.len() > 0 {
        lemma_count_bound(s.drop_last(), keep);
    }
}

/// The statistics of a chunk plan; nothing for a plan without chunks.
pub fn chunk_stats(plan: &ChunkPlan) -> (r: Option<ChunkStats>)
    requires
        sum_of_sizes(chunk_sizes(plan.chunks@)) <= u64::MAX,
    ensures
        match r {
            Some(s) => plan.chunks@.len() > 0 && describes(s, *plan),
            None => plan.chunks@.len() == 0,
        },
{
    let n: usize = plan.chunks.len();
    if n == 0 {
        return None;
    }
    let ghost all = chunk_sizes(plan.chunks@);
    let target: u64 = plan.chunk_target;
    let ghost above = |v: u64| v > target;
    let ghost twice = |v: u64| v > 2 * target;
    let ghost below = |v: u64| v < target as int / 10;
    let ghost none = |v: u64| v == 0;
    let mut codes: Vec<u128> = Vec::new();
    let mut total: u64 = 0;
    let mut above_target: u64 = 0;
    let mut above_2x: u64 = 0;
    let mut below_10pct: u64 = 0;
    let mut zero: u64 = 0;
    let mut levels: Vec<LevelStats> = Vec::new();
    let mut i: usize = 0;
    assert(all.take(0) =~= Seq::<u64>::empty());
    assert(describes_levels(levels@, plan.chunks@.take(0)));
    while i < n
        invariant
            n == plan.chunks@.len() == all.len(),
            i <= n,
            all == chunk_sizes(plan.chunks@),
            sum_of_sizes(all) <= u64::MAX,
            target == plan.chunk_target,
            above == (|v: u64| v > target),
            twice == (|v: u64| v > 2 * target),
            below == (|v: u64| v < target as int / 10),
            none == (|v: u64| v == 0),
            codes@ =~= size_codes(all).take(i as int),
            total == sum_of_sizes(all.take(i as int)),
            above_target == count_where(all.take(i as int), above),
            above_2x == count_where(all.take(i as int), twice),
            below_10pct == count_where(all.take(i as int), below),
            zero == count_where(all.take(i as int), none),
            above_target <= i,
            above_2x <= i,
            below_10pct <= i,
            zero <= i,
            describes_levels(levels@, plan.chunks@.take(i as int)),
        decreases n - i,
    {
        let c = plan.chunks[i];
        let v: u64 = c.point_count;
        proof {
            let next = all.take(i + 1);
            assert(next.drop_last() =~= all.take(i as int));
            assert(next.last() == v);
            lemma_sum_prefix(all, i + 1);
            let before = plan.chunks@.take(i as int);
            assert(plan.chunks@.take(i + 1) =~= before.push(c));
            assert(chunk_sizes(before.push(c)) =~= next);
        }
        codes.push(v as u128);
        total = total + v;
        if v > target {
            above_target = above_target + 1;
        }
        if v as u128 > 2 * (target as u128) {
            above_2x = above_2x + 1;
        }
        if v < target / 10 {
            below_10pct = below_10pct + 1;
        }
        if v == 0 {
            zero = zero + 1;
        }
        add_chunk(&mut levels, c, Ghost(plan.chunks@.take(i as int)));
        i = i + 1;
    }
    assert(all.take(i as int) =~= all);
    assert(plan.chunks@.take(i as int) =~= plan.chunks@);
    assert(codes@ =~= size_codes(all));
    let order = sorted_order(codes.as_slice());
    let ghost value = |i: usize| all[i as int];
    let mut sizes: Vec<u64> = Vec::new();
    let mut i: usize = 0;
    while i < order.len()
        invariant
            i <= order@.len(),
            all == chunk_sizes(plan.chunks@),
            value == (|i: usize| all[i as int]),
            forall|k: int| 0 <= k < order@.len() ==> #[trigger] order@[k] < all.len(),
            sizes@ =~= order@.take(i as int).map_values(value),
        decreases order@.len() - i,
    {
        assert(order@.take(i + 1) =~= order@.take(i as int).push(order@[i as int]));
        sizes.push(plan.chunks[order[i]].point_count);
        i = i + 1;
    }
    assert(order@.take(i as int) =~= order@);
    let mean: u64 = total / n as u64;
    let s = ChunkStats {
        sizes,
        total,
        mean,
        above_target,
        above_2x,
        below_10pct,
        zero,
        levels,
    };
    Some(s)
}

} // verus!
