//! A whole build of the octree, step by step: what the store holds behind it, and
//! that the list of nodes counts every point that was read.

use crate::assembly::{
    after_levels, after_task, after_tasks, after_writes, held_at, lists_at, task_writes, Stored,
};
use crate::batches::{batches, joined, law_batches};
use crate::chunk_build::deep_keys;
use crate::chunk_files::{
    batch_points, built_from, distributed_by, file_points, law_conversion_keeps_every_point,
    plan_of, Batch,
};
use crate::chunking::{ChunkPlan, PlannedChunk};
use crate::config::TempCompression;
use crate::conservation::{
    build_keys, built_nodes, final_store, merge_parents, root_keys, store_counts, ChunkData,
};
use crate::hierarchy::all_indices;
use crate::key::VoxelKey;
use crate::merge::{
    keys_ascend, law_schedule_tasks, lemma_schedule_from, level_tasks, max_level, schedule,
    task_parents, TaskView,
};
use crate::node_map::{filled, node_list, with_ancestors};
use crate::node_store::law_node_read_back;
use crate::octree::{keys_of, NodeView};
use crate::point::{uniform_extras, PointView};
use crate::sampling::VoxelGrid;
use crate::sorting::is_permutation;
use crate::temp::{encoded_batch, holds_batch, temp_count, TempReadError};
use crate::tree_build::{
    after_chunks, after_counts, after_merge, begun, law_every_chunk_built_once,
    law_keys_are_tracked, law_listing_is_complete, reported, state_ok, work, BuildState, Phase,
};
use crate::writer::total_count;
use vstd::prelude::*;

verus! {

// The tasks of a level can be run in any order.
/// What a store has under a key, if anything was written.
pub open spec fn entry(s: Stored, k: VoxelKey) -> Option<Seq<PointView>> {
    if s.contains_key(k) {
        Some(s[k])
    } else {
        None
    }
}

/// Whether a task reads or writes a key.
pub open spec fn touches(task: TaskView, k: VoxelKey) -> bool {
    task.0 == k || task.1.contains(k)
}

/// No key is touched by two tasks.
pub open spec fn separate(tasks: Seq<TaskView>) -> bool {
    forall|a: int, b: int, k: VoxelKey|
        0 <= a < tasks.len() && 0 <= b < tasks.len() && #[trigger] touches(tasks[a], k)
            && #[trigger] touches(tasks[b], k) ==> a == b
}

/// The tasks with the given numbers.
pub open spec fn picked_tasks(tasks: Seq<TaskView>, sel: Seq<usize>) -> Seq<TaskView> {
    sel.map_values(|t: usize| tasks[t as int])
}

proof fn lemma_writes_entry(s: Stored, z: Stored, ws: Seq<NodeView>, k: VoxelKey)
    requires
        entry(s, k) == entry(z, k),
    ensures
        entry(after_writes(s, ws), k) == entry(after_writes(z, ws), k),
    decreases ws.len(),
{
    if ws.len() > 0 {
        lemma_writes_entry(s, z, ws.drop_last(), k);
    }
}

proof fn lemma_writes_elsewhere(s: Stored, ws: Seq<NodeView>, k: VoxelKey)
    requires
        forall|i: int| 0 <= i < ws.len() ==> (#[trigger] ws[i]).0 != k,
    ensures
        entry(after_writes(s, ws), k) == entry(s, k),
    decreases ws.len(),
{
    if ws.len() > 0 {
        let init = ws.drop_last();
        assert forall|i: int| 0 <= i < init.len() implies (#[trigger] init[i]).0 != k by {
            assert(ws[i] == init[i]);
        }
        lemma_writes_elsewhere(s, init, k);
        assert(ws[ws.len() - 1].0 != k);
    }
}

/// A task leaves every key alone that it does not touch.
proof fn lemma_task_elsewhere(
    grid_of: spec_fn(VoxelKey) -> VoxelGrid,
    s: Stored,
    task: TaskView,
    k: VoxelKey,
)
    requires
        !touches(task, k),
    ensures
        entry(after_task(grid_of, s, task), k) == entry(s, k),
{
    let ws = task_writes(grid_of(task.0), task, lists_at(s, task.1));
    assert forall|i: int| 0 <= i < ws.len() implies (#[trigger] ws[i]).0 != k by {
        if i < task.1.len() {
            assert(ws[i].0 == task.1[i]);
            assert(task.1.contains(task.1[i]));
        }
    }
    lemma_writes_elsewhere(s, ws, k);
}

/// What a task does depends on the keys that it touches alone.
proof fn lemma_task_local(
    grid_of: spec_fn(VoxelKey) -> VoxelGrid,
    s: Stored,
    z: Stored,
    task: TaskView,
    k: VoxelKey,
)
    requires
        touches(task, k),
        forall|x: VoxelKey| #[trigger] touches(task, x) ==> entry(s, x) == entry(z, x),
    ensures
        entry(after_task(grid_of, s, task), k) == entry(after_task(grid_of, z, task), k),
{
    assert(lists_at(s, task.1) =~= lists_at(z, task.1)) by {
        assert forall|i: int| 0 <= i < task.1.len() implies held_at(s, task.1[i]) == held_at(
            z,
            task.1[i],
        ) by {
            assert(touches(task, task.1[i]));
        }
    }
    lemma_writes_entry(s, z, task_writes(grid_of(task.0), task, lists_at(s, task.1)), k);
}

/// What the store has under a key once some of the tasks were run: what the task
/// that touches it makes of the store as it was, or what it had.
pub proof fn lemma_tasks_entry(
    grid_of: spec_fn(VoxelKey) -> VoxelGrid,
    s: Stored,
    tasks: Seq<TaskView>,
    sel: Seq<usize>,
    k: VoxelKey,
)
    requires
        separate(tasks),
        sel.no_duplicates(),
        forall|i: int| 0 <= i < sel.len() ==> #[trigger] sel[i] < tasks.len(),
    ensures
        forall|i: int|
            0 <= i < sel.len() && touches(tasks[#[trigger] sel[i] as int], k) ==> entry(
                after_tasks(grid_of, s, picked_tasks(tasks, sel)),
                k,
            ) == entry(after_task(grid_of, s, tasks[sel[i] as int]), k),
        (forall|i: int| 0 <= i < sel.len() ==> !touches(tasks[#[trigger] sel[i] as int], k))
            ==> entry(after_tasks(grid_of, s, picked_tasks(tasks, sel)), k) == entry(s, k),
    decreases sel.len(),
{
    if sel.len() > 0 {
        let init = sel.drop_last();
        let last = tasks[sel.last() as int];
        let before = after_tasks(grid_of, s, picked_tasks(tasks, init));
        assert(picked_tasks(tasks, sel).drop_last() =~= picked_tasks(tasks, init));
        assert(sel[sel.len() - 1] == sel.last());
        assert forall|i: int| 0 <= i < init.len() implies #[trigger] init[i] < tasks.len() by {
            assert(sel[i] == init[i]);
        }
        lemma_tasks_entry(grid_of, s, tasks, init, k);
        if touches(last, k) {
            assert forall|x: VoxelKey| #[trigger] touches(last, x) implies entry(before, x)
                == entry(s, x) by {
                lemma_tasks_entry(grid_of, s, tasks, init, x);
                assert forall|i: int| 0 <= i < init.len() implies !touches(
                    tasks[#[trigger] init[i] as int],
                    x,
                ) by {
                    assert(init[i] == sel[i] && sel[i] != sel[sel.len() - 1]);
                }
            }
            lemma_task_local(grid_of, before, s, last, k);
            assert forall|i: int|
                0 <= i < sel.len() && touches(tasks[#[trigger] sel[i] as int], k) implies sel[i]
                == sel.last() by {}
        } else {
            lemma_task_elsewhere(grid_of, before, last, k);
            assert forall|i: int|
                0 <= i < sel.len() && touches(tasks[#[trigger] sel[i] as int], k) implies entry(
                after_tasks(grid_of, s, picked_tasks(tasks, sel)),
                k,
            ) == entry(after_task(grid_of, s, tasks[sel[i] as int]), k) by {
                assert(init[i] == sel[i]);
            }
            if forall|i: int| 0 <= i < sel.len() ==> !touches(tasks[#[trigger] sel[i] as int], k) {
                assert forall|i: int| 0 <= i < init.len() implies !touches(
                    tasks[#[trigger] init[i] as int],
                    k,
                ) by {
                    assert(init[i] == sel[i]);
                }
            }
        }
    }
}

/// In whatever order the tasks of a level are run, the store holds the same.
pub proof fn law_tasks_in_any_order(
    grid_of: spec_fn(VoxelKey) -> VoxelGrid,
    s: Stored,
    tasks: Seq<TaskView>,
    order: Seq<usize>,
)
    requires
        separate(tasks),
        tasks.len() <= usize::MAX,
        is_permutation(order, tasks.len()),
    ensures
        after_tasks(grid_of, s, picked_tasks(tasks, order)) == after_tasks(grid_of, s, tasks),
{
    let all = all_indices(tasks.len());
    let a = after_tasks(grid_of, s, picked_tasks(tasks, order));
    let b = after_tasks(grid_of, s, tasks);
    assert(picked_tasks(tasks, all) =~= tasks);
    assert forall|k: VoxelKey| #[trigger] entry(a, k) == entry(b, k) by {
        lemma_tasks_entry(grid_of, s, tasks, order, k);
        lemma_tasks_entry(grid_of, s, tasks, all, k);
        if exists|t: int| 0 <= t < tasks.len() && touches(#[trigger] tasks[t], k) {
            let t = choose|t: int| 0 <= t < tasks.len() && touches(#[trigger] tasks[t], k);
            assert(order.contains(t as usize));
            let i = choose|i: int| 0 <= i < order.len() && order[i] == t as usize;
            assert(touches(tasks[order[i] as int], k));
            assert(touches(tasks[all[t] as int], k));
        } else {
            assert forall|i: int| 0 <= i < order.len() implies !touches(
                tasks[#[trigger] order[i] as int],
                k,
            ) by {}
            assert forall|i: int| 0 <= i < all.len() implies !touches(
                tasks[#[trigger] all[i] as int],
                k,
            ) by {}
        }
    }
    assert forall|k: VoxelKey| #[trigger] a.contains_key(k) == b.contains_key(k) && (
    a.contains_key(k) ==> a[k] == b[k]) by {
        assert(entry(a, k) == entry(b, k));
    }
    assert(a =~= b);
}

/// The tasks of a level of the merge are separate.
proof fn lemma_level_separate(roots: Seq<VoxelKey>, d: int)
    requires
        roots.len() <= usize::MAX,
        0 <= d,
        max_level(roots) < i32::MAX,
    ensures
        separate(level_tasks(roots, d)),
{
    let ts = level_tasks(roots, d);
    law_schedule_tasks(roots, d);
    assert forall|a: int, b: int, k: VoxelKey|
        0 <= a < ts.len() && 0 <= b < ts.len() && #[trigger] touches(ts[a], k)
            && #[trigger] touches(ts[b], k) implies a == b by {
        if ts[a].1.contains(k) {
            let i = choose|i: int| 0 <= i < ts[a].1.len() && ts[a].1[i] == k;
            assert(ts[a].1[i] == k);
        }
        if ts[b].1.contains(k) {
            let j = choose|j: int| 0 <= j < ts[b].1.len() && ts[b].1[j] == k;
            assert(ts[b].1[j] == k);
        }
        assert(ts[a].0.level == d && ts[b].0.level == d);
        assert(task_parents(ts)[a] == ts[a].0 && task_parents(ts)[b] == ts[b].0);
    }
}

// The steps of a build.
/// A build: how far it has come, what the store holds, and the chunks that are
/// built, in the order of building.
pub struct BuildRun {
    pub state: BuildState,
    pub store: Stored,
    pub data: Seq<ChunkData>,
}

/// The chunks of a batch are built, and their nodes written and reported.
pub open spec fn chunks_step(
    grid_of: spec_fn(VoxelKey) -> VoxelGrid,
    a: BuildRun,
    b: BuildRun,
    more: Seq<ChunkData>,
) -> bool {
    let batch = work(a.state)[a.state.built as int];
    &&& a.state.phase == Phase::Building
    &&& more.len() == batch.len()
    &&& forall|i: int|
        0 <= i < more.len() ==> (#[trigger] more[i]).0 == a.state.chunks[batch[i] as int]
    &&& b.data == a.data + more
    &&& b.state == after_chunks(a.state, reported(grid_of, more))
    &&& b.store == after_writes(a.store, built_nodes(grid_of, more))
}

/// The tasks of the level that is being built.
pub open spec fn current_tasks(s: BuildState) -> Seq<TaskView> {
    schedule(s.roots)[s.level as int]
}

/// The tasks of a level are split into batches by their sizes.
pub open spec fn counts_step(a: BuildRun, b: BuildRun, sizes: Seq<u128>) -> bool {
    &&& a.state.phase == Phase::Counting
    &&& sizes.len() == current_tasks(a.state).len() <= usize::MAX
    &&& b.data == a.data
    &&& b.state == after_counts(a.state, batches(sizes, a.state.memory_budget))
    &&& b.store == a.store
}

/// The tasks of a batch are run.
pub open spec fn merge_step(
    grid_of: spec_fn(VoxelKey) -> VoxelGrid,
    a: BuildRun,
    b: BuildRun,
) -> bool {
    &&& a.state.phase == Phase::Merging
    &&& b.data == a.data
    &&& b.state == after_merge(a.state)
    &&& b.store == after_tasks(
        grid_of,
        a.store,
        picked_tasks(current_tasks(a.state), a.state.merges[a.state.merged as int]),
    )
}

/// One step of a build.
pub open spec fn build_step(
    grid_of: spec_fn(VoxelKey) -> VoxelGrid,
    a: BuildRun,
    b: BuildRun,
) -> bool {
    ||| exists|more: Seq<ChunkData>| #[trigger] chunks_step(grid_of, a, b, more)
    ||| exists|sizes: Seq<u128>| #[trigger] counts_step(a, b, sizes)
    ||| merge_step(grid_of, a, b)
}

/// A build from its beginning with an empty store, step by step.
pub open spec fn build_leads(
    grid_of: spec_fn(VoxelKey) -> VoxelGrid,
    chunks: Seq<PlannedChunk>,
    memory_budget: u64,
    mem_per_point: u32,
    runs: Seq<BuildRun>,
) -> bool {
    &&& runs.len() > 0
    &&& runs[0].state == begun(chunks, memory_budget, mem_per_point)
    &&& runs[0].store == Map::<VoxelKey, Seq<PointView>>::empty()
    &&& runs[0].data.len() == 0
    &&& forall|i: int|
        0 <= i < runs.len() ==> state_ok((#[trigger] runs[i]).state) && runs[i].state.roots.len()
            <= usize::MAX
    &&& forall|i: int|
        0 < i < runs.len() ==> build_step(grid_of, runs[i - 1], #[trigger] runs[i])
}

/// What the store holds once the chunks are built.
pub open spec fn chunks_store(
    grid_of: spec_fn(VoxelKey) -> VoxelGrid,
    data: Seq<ChunkData>,
) -> Stored {
    after_writes(Map::empty(), built_nodes(grid_of, data))
}

/// What the store holds once the first levels above the chunks are built.
pub open spec fn levels_store(grid_of: spec_fn(VoxelKey) -> VoxelGrid, r: BuildRun) -> Stored {
    after_levels(
        grid_of,
        chunks_store(grid_of, r.data),
        schedule(r.state.roots).take(r.state.level as int),
    )
}

/// What holds at any time of a build.
spec fn run_ok(grid_of: spec_fn(VoxelKey) -> VoxelGrid, r: BuildRun) -> bool {
    let s = r.state;
    let order = joined(work(s).take(s.built as int));
    &&& r.data.len() == order.len()
    &&& forall|i: int|
        0 <= i < r.data.len() ==> (#[trigger] r.data[i]).0 == s.chunks[order[i] as int]
    &&& s.chunk_keys == keys_of(built_nodes(grid_of, r.data))
    &&& s.roots == root_keys(grid_of, r.data)
    &&& match s.phase {
        Phase::Building => r.store == chunks_store(grid_of, r.data),
        Phase::Counting => r.store == levels_store(grid_of, r),
        Phase::Listing => r.store == levels_store(grid_of, r),
        Phase::Merging => {
            &&& current_tasks(s).len() <= usize::MAX
            &&& is_permutation(joined(s.merges), current_tasks(s).len())
            &&& r.store == after_tasks(
                grid_of,
                levels_store(grid_of, r),
                picked_tasks(current_tasks(s), joined(s.merges.take(s.merged as int))),
            )
        },
    }
}

proof fn lemma_joined_concat(a: Seq<Seq<usize>>, b: Seq<Seq<usize>>)
    ensures
        joined(a + b) == joined(a) + joined(b),
    decreases a.len(),
{
    if a.len() == 0 {
        assert(a + b =~= b);
        assert(joined(a) + joined(b) =~= joined(b));
    } else {
        assert((a + b).drop_first() =~= a.drop_first() + b);
        lemma_joined_concat(a.drop_first(), b);
        assert(joined(a + b) =~= joined(a) + joined(b));
    }
}

proof fn lemma_joined_next(b: Seq<Seq<usize>>, n: int)
    requires
        0 <= n < b.len(),
    ensures
        joined(b.take(n + 1)) == joined(b.take(n)) + b[n],
{
    let one = seq![b[n]];
    assert(b.take(n + 1) =~= b.take(n) + one);
    lemma_joined_concat(b.take(n), one);
    assert(one.drop_first() =~= Seq::<Seq<usize>>::empty());
    assert(joined(one.drop_first()) =~= Seq::<usize>::empty());
    assert(joined(one) =~= b[n]);
}

proof fn lemma_writes_concat(s: Stored, a: Seq<NodeView>, b: Seq<NodeView>)
    ensures
        after_writes(s, a + b) == after_writes(after_writes(s, a), b),
    decreases b.len(),
{
    if b.len() == 0 {
        assert(a + b =~= a);
    } else {
        assert((a + b).drop_last() =~= a + b.drop_last());
        lemma_writes_concat(s, a, b.drop_last());
    }
}

proof fn lemma_tasks_concat(
    grid_of: spec_fn(VoxelKey) -> VoxelGrid,
    s: Stored,
    a: Seq<TaskView>,
    b: Seq<TaskView>,
)
    ensures
        after_tasks(grid_of, s, a + b) == after_tasks(grid_of, after_tasks(grid_of, s, a), b),
    decreases b.len(),
{
    if b.len() == 0 {
        assert(a + b =~= a);
    } else {
        assert((a + b).drop_last() =~= a + b.drop_last());
        lemma_tasks_concat(grid_of, s, a, b.drop_last());
    }
}

proof fn lemma_next_level(
    grid_of: spec_fn(VoxelKey) -> VoxelGrid,
    s: Stored,
    levels: Seq<Seq<TaskView>>,
    n: int,
)
    requires
        0 <= n < levels.len(),
    ensures
        after_levels(grid_of, s, levels.take(n + 1)) == after_tasks(
            grid_of,
            after_levels(grid_of, s, levels.take(n)),
            levels[n],
        ),
    decreases n,
{
    let all = levels.take(n + 1);
    let rest = levels.drop_first();
    assert(all[0] == levels[0]);
    if n == 0 {
        assert(all.drop_first() =~= Seq::<Seq<TaskView>>::empty());
        assert(levels.take(0) =~= Seq::<Seq<TaskView>>::empty());
        reveal_with_fuel(after_levels, 3);
    } else {
        assert(levels.take(n)[0] == levels[0]);
        assert(all.drop_first() =~= rest.take(n));
        assert(levels.take(n).drop_first() =~= rest.take(n - 1));
        lemma_next_level(grid_of, after_tasks(grid_of, s, levels[0]), rest, n - 1);
    }
}

proof fn lemma_built_concat(
    grid_of: spec_fn(VoxelKey) -> VoxelGrid,
    a: Seq<ChunkData>,
    b: Seq<ChunkData>,
)
    ensures
        built_nodes(grid_of, a + b) == built_nodes(grid_of, a) + built_nodes(grid_of, b),
    decreases b.len(),
{
    if b.len() == 0 {
        assert(a + b =~= a);
        assert(built_nodes(grid_of, a) + built_nodes(grid_of, b) =~= built_nodes(grid_of, a));
    } else {
        assert((a + b).drop_last() =~= a + b.drop_last());
        lemma_built_concat(grid_of, a, b.drop_last());
        assert(built_nodes(grid_of, a + b) =~= built_nodes(grid_of, a) + built_nodes(grid_of, b));
    }
}

proof fn lemma_levels_bounded(roots: Seq<VoxelKey>)
    requires
        forall|i: int| 0 <= i < roots.len() ==> (#[trigger] roots[i]).level < i32::MAX,
    ensures
        0 <= max_level(roots) < i32::MAX,
    decreases roots.len(),
{
    if roots.len() > 0 {
        let init = roots.drop_last();
        assert forall|i: int| 0 <= i < init.len() implies (#[trigger] init[i]).level < i32::MAX by {
            assert(roots[i] == init[i]);
        }
        lemma_levels_bounded(init);
        assert(roots[roots.len() - 1].level < i32::MAX);
    }
}

/// The tasks of the level that is being built are separate.
proof fn lemma_current_separate(s: BuildState)
    requires
        state_ok(s),
        s.roots.len() <= usize::MAX,
        s.level < schedule(s.roots).len(),
    ensures
        separate(current_tasks(s)),
{
    let max = max_level(s.roots);
    lemma_levels_bounded(s.roots);
    if max > 0 {
        lemma_schedule_from(s.roots, max - 1, max, 0);
        lemma_schedule_from(s.roots, max - 1, max, max - 1 - s.level);
        lemma_level_separate(s.roots, max - 1 - s.level);
    }
}

/// A level that is built in some order is built as in any other.
proof fn lemma_level_done(grid_of: spec_fn(VoxelKey) -> VoxelGrid, r: BuildRun, order: Seq<usize>)
    requires
        state_ok(r.state),
        r.state.roots.len() <= usize::MAX,
        r.state.level < schedule(r.state.roots).len(),
        current_tasks(r.state).len() <= usize::MAX,
        is_permutation(order, current_tasks(r.state).len()),
    ensures
        after_tasks(
            grid_of,
            levels_store(grid_of, r),
            picked_tasks(current_tasks(r.state), order),
        ) == after_levels(
            grid_of,
            chunks_store(grid_of, r.data),
            schedule(r.state.roots).take(r.state.level as int + 1),
        ),
{
    lemma_current_separate(r.state);
    law_tasks_in_any_order(
        grid_of,
        levels_store(grid_of, r),
        current_tasks(r.state),
        order,
    );
    lemma_next_level(
        grid_of,
        chunks_store(grid_of, r.data),
        schedule(r.state.roots),
        r.state.level as int,
    );
}

proof fn lemma_after_chunks(
    grid_of: spec_fn(VoxelKey) -> VoxelGrid,
    a: BuildRun,
    b: BuildRun,
    more: Seq<ChunkData>,
)
    requires
        run_ok(grid_of, a),
        state_ok(a.state),
        state_ok(b.state),
        chunks_step(grid_of, a, b, more),
    ensures
        run_ok(grid_of, b),
{
    let s = a.state;
    let before = joined(work(s).take(s.built as int));
    let batch = work(s)[s.built as int];
    let now = joined(work(b.state).take(b.state.built as int));
    lemma_joined_next(work(s), s.built as int);
    assert(now == before + batch);
    assert forall|i: int| 0 <= i < b.data.len() implies (#[trigger] b.data[i]).0
        == b.state.chunks[now[i] as int] by {
        if i < a.data.len() {
            assert(b.data[i] == a.data[i]);
        } else {
            assert(b.data[i] == more[i - a.data.len()]);
        }
    }
    law_keys_are_tracked(grid_of, s, a.data, more);
    lemma_built_concat(grid_of, a.data, more);
    lemma_writes_concat(
        Map::empty(),
        built_nodes(grid_of, a.data),
        built_nodes(grid_of, more),
    );
    assert(b.store == chunks_store(grid_of, b.data));
    assert(schedule(b.state.roots).take(0) =~= Seq::<Seq<TaskView>>::empty());
}

proof fn lemma_after_counts(
    grid_of: spec_fn(VoxelKey) -> VoxelGrid,
    a: BuildRun,
    b: BuildRun,
    sizes: Seq<u128>,
)
    requires
        run_ok(grid_of, a),
        state_ok(a.state),
        a.state.roots.len() <= usize::MAX,
        counts_step(a, b, sizes),
    ensures
        run_ok(grid_of, b),
{
    let merges = batches(sizes, a.state.memory_budget);
    let tasks = current_tasks(a.state);
    law_batches(sizes, a.state.memory_budget);
    assert(is_permutation(joined(merges), tasks.len()));
    assert(merges.take(0) =~= Seq::<Seq<usize>>::empty());
    assert(picked_tasks(tasks, joined(merges.take(0))) =~= Seq::<TaskView>::empty());
    if merges.len() == 0 {
        lemma_level_done(grid_of, a, joined(merges));
        assert(picked_tasks(tasks, joined(merges)) =~= Seq::<TaskView>::empty());
    }
}

proof fn lemma_after_merge(grid_of: spec_fn(VoxelKey) -> VoxelGrid, a: BuildRun, b: BuildRun)
    requires
        run_ok(grid_of, a),
        state_ok(a.state),
        a.state.roots.len() <= usize::MAX,
        merge_step(grid_of, a, b),
    ensures
        run_ok(grid_of, b),
{
    let s = a.state;
    let tasks = current_tasks(s);
    let done = joined(s.merges.take(s.merged as int));
    let batch = s.merges[s.merged as int];
    let now = joined(s.merges.take(s.merged as int + 1));
    lemma_joined_next(s.merges, s.merged as int);
    assert(picked_tasks(tasks, now) =~= picked_tasks(tasks, done) + picked_tasks(tasks, batch));
    lemma_tasks_concat(
        grid_of,
        levels_store(grid_of, a),
        picked_tasks(tasks, done),
        picked_tasks(tasks, batch),
    );
    if s.merged + 1 == s.merges.len() {
        assert(s.merges.take(s.merged as int + 1) =~= s.merges);
        lemma_level_done(grid_of, a, joined(s.merges));
    }
}

proof fn lemma_run_ok(
    grid_of: spec_fn(VoxelKey) -> VoxelGrid,
    chunks: Seq<PlannedChunk>,
    memory_budget: u64,
    mem_per_point: u32,
    runs: Seq<BuildRun>,
    i: int,
)
    requires
        build_leads(grid_of, chunks, memory_budget, mem_per_point, runs),
        0 <= i < runs.len(),
    ensures
        run_ok(grid_of, runs[i]),
        runs[i].state.chunks == chunks,
        runs[i].state.memory_budget == memory_budget,
    decreases i,
{
    let b = runs[i];
    assert(state_ok(b.state));
    if i == 0 {
        let nodes = built_nodes(grid_of, b.data);
        assert(work(b.state).take(0) =~= Seq::<Seq<usize>>::empty());
        assert(keys_of(nodes) =~= Seq::<VoxelKey>::empty());
        assert(b.state.chunk_keys =~= Seq::<VoxelKey>::empty());
        assert(root_keys(grid_of, b.data) =~= b.state.roots);
        assert(schedule(b.state.roots).take(0) =~= Seq::<Seq<TaskView>>::empty());
    } else {
        let a = runs[i - 1];
        lemma_run_ok(grid_of, chunks, memory_budget, mem_per_point, runs, i - 1);
        assert(state_ok(a.state));
        assert(build_step(grid_of, runs[i - 1], runs[i]));
        if exists|more: Seq<ChunkData>| #[trigger] chunks_step(grid_of, a, b, more) {
            let more = choose|more: Seq<ChunkData>| #[trigger] chunks_step(grid_of, a, b, more);
            lemma_after_chunks(grid_of, a, b, more);
        } else if exists|sizes: Seq<u128>| #[trigger] counts_step(a, b, sizes) {
            let sizes = choose|sizes: Seq<u128>| #[trigger] counts_step(a, b, sizes);
            lemma_after_counts(grid_of, a, b, sizes);
        } else {
            lemma_after_merge(grid_of, a, b);
        }
    }
}

/// When a build has come to the list of nodes, every chunk was built once, the
/// store holds what building and merging them makes, whatever the batches were,
/// and the keys that were kept are those of the nodes.
pub proof fn law_build_ends(
    grid_of: spec_fn(VoxelKey) -> VoxelGrid,
    chunks: Seq<PlannedChunk>,
    memory_budget: u64,
    mem_per_point: u32,
    runs: Seq<BuildRun>,
)
    requires
        chunks.len() <= usize::MAX,
        build_leads(grid_of, chunks, memory_budget, mem_per_point, runs),
        runs.last().state.phase == Phase::Listing,
    ensures
        ({
            let end = runs.last();
            let order = joined(work(begun(chunks, memory_budget, mem_per_point)));
            &&& is_permutation(order, chunks.len())
            &&& end.data.len() == order.len()
            &&& forall|i: int|
                0 <= i < end.data.len() ==> (#[trigger] end.data[i]).0 == chunks[order[i] as int]
            &&& end.store == final_store(grid_of, end.data)
            &&& end.state.chunk_keys == keys_of(built_nodes(grid_of, end.data))
            &&& end.state.parents == merge_parents(schedule(root_keys(grid_of, end.data)))
        }),
{
    let end = runs.last();
    assert(runs[runs.len() - 1] == end);
    lemma_run_ok(grid_of, chunks, memory_budget, mem_per_point, runs, runs.len() - 1);
    assert(state_ok(end.state));
    law_every_chunk_built_once(chunks, memory_budget);
    law_listing_is_complete(end.state);
    assert(work(end.state).take(end.state.built as int) =~= work(end.state));
    assert(schedule(end.state.roots).take(end.state.level as int) =~= schedule(end.state.roots));
}

/// The chunks hold the points of their files, which are located deep enough.
pub open spec fn reads_files(
    batches: Seq<Batch>,
    loc: spec_fn(PointView) -> VoxelKey,
    order: Seq<usize>,
    data: Seq<ChunkData>,
) -> bool {
    forall|i: int|
        0 <= i < data.len() ==> {
            &&& (#[trigger] data[i]).1 == file_points(batches, order[i] as u32)
            &&& data[i].2 == data[i].1.map_values(loc)
            &&& deep_keys(data[i].0, data[i].2)
        }
}

/// The list of nodes that a build ends with counts as many points as were read,
/// and every node of it has the count of what the store holds for it: for any
/// plan, any memory budget and any batches in which the points came. `keys` are
/// the keys that the build hands out to be counted.
pub proof fn law_build_counts_every_point(
    grid_of: spec_fn(VoxelKey) -> VoxelGrid,
    plan: ChunkPlan,
    cells: Seq<u64>,
    batches: Seq<Batch>,
    loc: spec_fn(PointView) -> VoxelKey,
    memory_budget: u64,
    mem_per_point: u32,
    runs: Seq<BuildRun>,
    keys: Seq<VoxelKey>,
    counts: Seq<u64>,
)
    requires
        plan_of(plan, cells),
        forall|b: int|
            0 <= b < batches.len() ==> distributed_by(plan, cells, loc, #[trigger] batches[b]),
        batch_points(batches).len() <= usize::MAX,
        build_leads(grid_of, plan.chunks@, memory_budget, mem_per_point, runs),
        reads_files(
            batches,
            loc,
            joined(work(begun(plan.chunks@, memory_budget, mem_per_point))),
            runs.last().data,
        ),
        runs.last().state.phase == Phase::Listing,
        keys_ascend(keys),
        forall|k: VoxelKey| #[trigger]
            keys.contains(k) <==> (runs.last().state.chunk_keys
                + runs.last().state.parents).contains(k),
        store_counts(runs.last().store, keys, counts),
        with_ancestors(filled(keys, counts)).len() <= usize::MAX,
    ensures
        total_count(node_list(keys, counts)) == batch_points(batches).len(),
        forall|j: int|
            0 <= j < node_list(keys, counts).len() ==> (#[trigger] node_list(keys, counts)[j]).1
                == held_at(runs.last().store, node_list(keys, counts)[j].0).len(),
{
    let chunks = plan.chunks@;
    let end = runs.last();
    let order = joined(work(begun(chunks, memory_budget, mem_per_point)));
    assert(plan.chunks.len() <= usize::MAX);
    law_build_ends(grid_of, chunks, memory_budget, mem_per_point, runs);
    assert(built_from(plan, batches, loc, order, end.data));
    assert(build_keys(grid_of, end.data, keys));
    law_conversion_keeps_every_point(
        grid_of,
        plan,
        cells,
        batches,
        loc,
        order,
        end.data,
        keys,
        counts,
    );
}

/// The file that a node has in a store of files: the batch of its points, or none
/// where it was never written.
pub open spec fn node_file(s: Stored, k: VoxelKey, codec: TempCompression) -> Option<Seq<u8>> {
    match entry(s, k) {
        Some(ps) => Some(encoded_batch(ps, codec)),
        None => None,
    }
}

/// Counting a node's file tells the number of points that the store holds for it,
/// with either codec.
pub proof fn law_node_file_counts(
    s: Stored,
    k: VoxelKey,
    num_extra_bytes: nat,
    codec: TempCompression,
)
    requires
        s.contains_key(k) ==> {
            &&& uniform_extras(s[k], num_extra_bytes)
            &&& s[k].len() <= u32::MAX
            &&& holds_batch(encoded_batch(s[k], codec), s[k], codec)
        },
    ensures
        temp_count(node_file(s, k, codec), num_extra_bytes, codec) == Ok::<nat, TempReadError>(
            held_at(s, k).len(),
        ),
{
    if s.contains_key(k) {
        law_node_read_back(encoded_batch(s[k], codec), s[k], num_extra_bytes, codec);
    }
}

} // verus!
