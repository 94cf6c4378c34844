//! From the points of the chunks to the nodes of the octree: every point ends up
//! in exactly one node, and lies in that node's voxel.

use crate::assembly::{
    after_levels, after_writes, has_ancestors, held, held_at, law_merge_conserves,
    law_merge_leaves_others, lemma_held_writes, lemma_level_ok, lemma_max_level_positive,
    lemma_unwritten, lemma_writes_inside, stored_inside, task_among, unbuilt_upto, written_by,
    Stored,
};
use crate::chunk_build::{chunk_nodes, deep_keys, law_chunk_nodes};
use crate::chunking::{chunk_root, PlannedChunk};
use crate::hierarchy::all_indices;
use crate::key::{ancestor, key_lt, law_ancestor_of_ancestor, VoxelKey};
use crate::merge::{
    at_level, keys_ascend, law_schedule_builds_ancestors, law_schedule_tasks, lemma_at_level,
    lemma_schedule_from, level_tasks, max_level, schedule, schedule_from, sum_counts, task_parents,
    TaskView,
};
use crate::node_map::{
    added, counted_keys, filled, law_node_list, level_codes, node_list, with_ancestors, Counted,
};
use crate::octree::{
    all_filled, keys_of, lemma_filled_len, lemma_inside_concat, lemma_total_concat, points_inside,
    total_points, NodeView,
};
use crate::planner::apart;
use crate::point::PointView;
use crate::sampling::{lemma_picked_is_multiset, VoxelGrid};
use crate::sorting::{lemma_picked_permutation, lemma_sort_order_exists, sort_order};
use crate::writer::total_count;
use vstd::multiset::Multiset;
use vstd::prelude::*;

verus! {

/// A chunk, the points that were distributed to it, and their keys.
pub type ChunkData = (PlannedChunk, Seq<PointView>, Seq<VoxelKey>);

/// The chunks themselves.
pub open spec fn chunks_of(data: Seq<ChunkData>) -> Seq<PlannedChunk> {
    data.map_values(|d: ChunkData| d.0)
}

/// All points of all chunks.
pub open spec fn chunk_points(data: Seq<ChunkData>) -> Multiset<PointView>
    decreases data.len(),
{
    if data.len() == 0 {
        Multiset::empty()
    } else {
        chunk_points(data.drop_last()).add(data.last().1.to_multiset())
    }
}

/// The nodes of one chunk.
pub open spec fn nodes_of(grid_of: spec_fn(VoxelKey) -> VoxelGrid, d: ChunkData) -> Seq<NodeView> {
    chunk_nodes(grid_of, d.0, d.1, d.2)
}

/// The nodes of all chunks.
pub open spec fn built_nodes(
    grid_of: spec_fn(VoxelKey) -> VoxelGrid,
    data: Seq<ChunkData>,
) -> Seq<NodeView>
    decreases data.len(),
{
    if data.len() == 0 {
        Seq::empty()
    } else {
        built_nodes(grid_of, data.drop_last()) + nodes_of(grid_of, data.last())
    }
}

/// The chunk roots: the nodes at the chunks' own levels.
pub open spec fn root_keys(
    grid_of: spec_fn(VoxelKey) -> VoxelGrid,
    data: Seq<ChunkData>,
) -> Seq<VoxelKey>
    decreases data.len(),
{
    if data.len() == 0 {
        Seq::empty()
    } else {
        root_keys(grid_of, data.drop_last()) + at_level(
            keys_of(nodes_of(grid_of, data.last())),
            data.last().0.level as int,
        )
    }
}

/// The keys locate the points of a chunk, all of them in the chunk's voxel.
pub open spec fn located(d: ChunkData, loc: spec_fn(PointView) -> VoxelKey) -> bool {
    &&& d.1.len() == d.2.len()
    &&& d.0.level < i32::MAX
    &&& deep_keys(d.0, d.2)
    &&& forall|i: int|
        0 <= i < d.2.len() ==> {
            &&& #[trigger] d.2[i] == loc(d.1[i])
            &&& ancestor(d.2[i], d.0.level as int) == chunk_root(d.0)
        }
}

/// What the store holds once all chunks are built and merged.
pub open spec fn final_store(
    grid_of: spec_fn(VoxelKey) -> VoxelGrid,
    data: Seq<ChunkData>,
) -> Stored {
    after_levels(
        grid_of,
        after_writes(Map::empty(), built_nodes(grid_of, data)),
        schedule(root_keys(grid_of, data)),
    )
}

/// A point of a node is a point of the whole.
proof fn lemma_total_has(nodes: Seq<NodeView>, i: int, p: PointView)
    requires
        0 <= i < nodes.len(),
        nodes[i].1.contains(p),
    ensures
        total_points(nodes).count(p) > 0,
    decreases nodes.len(),
{
    broadcast use vstd::seq_lib::group_to_multiset_ensures;

    if i < nodes.len() - 1 {
        assert(nodes.drop_last()[i] == nodes[i]);
        lemma_total_has(nodes.drop_last(), i, p);
    } else {
        assert(nodes.last().1.to_multiset().count(p) > 0);
    }
}

/// What holds of the nodes of one chunk.
proof fn lemma_nodes_of(
    grid_of: spec_fn(VoxelKey) -> VoxelGrid,
    d: ChunkData,
    loc: spec_fn(PointView) -> VoxelKey,
)
    requires
        located(d, loc),
        d.1.len() <= usize::MAX,
    ensures
        total_points(nodes_of(grid_of, d)) == d.1.to_multiset(),
        all_filled(nodes_of(grid_of, d)),
        keys_of(nodes_of(grid_of, d)).no_duplicates(),
        points_inside(nodes_of(grid_of, d), loc),
        forall|k: VoxelKey| #[trigger]
            keys_of(nodes_of(grid_of, d)).contains(k) ==> k.level >= d.0.level && ancestor(
                k,
                d.0.level as int,
            ) == chunk_root(d.0),
{
    broadcast use vstd::seq_lib::group_to_multiset_ensures;

    let nodes = nodes_of(grid_of, d);
    law_chunk_nodes(grid_of, d.0, d.1, d.2, loc);
    assert forall|k: VoxelKey| #[trigger] keys_of(nodes).contains(k) implies k.level >= d.0.level
        && ancestor(k, d.0.level as int) == chunk_root(d.0) by {
        let i = choose|i: int| 0 <= i < nodes.len() && keys_of(nodes)[i] == k;
        let p = nodes[i].1[0];
        assert(nodes[i].1.contains(p));
        lemma_total_has(nodes, i, p);
        assert(d.1.contains(p));
        let j = choose|j: int| 0 <= j < d.1.len() && d.1[j] == p;
        assert(d.2[j] == loc(p));
        law_ancestor_of_ancestor(loc(p), k.level as int, d.0.level as int);
    }
}

/// Every key of the nodes is a key of one chunk's nodes.
proof fn lemma_built_key(
    grid_of: spec_fn(VoxelKey) -> VoxelGrid,
    data: Seq<ChunkData>,
    k: VoxelKey,
) -> (c: int)
    requires
        keys_of(built_nodes(grid_of, data)).contains(k),
    ensures
        0 <= c < data.len(),
        keys_of(nodes_of(grid_of, data[c])).contains(k),
    decreases data.len(),
{
    let all = built_nodes(grid_of, data);
    let i = choose|i: int| 0 <= i < all.len() && keys_of(all)[i] == k;
    let init = built_nodes(grid_of, data.drop_last());
    if i < init.len() {
        assert(keys_of(init)[i] == k);
        lemma_built_key(grid_of, data.drop_last(), k)
    } else {
        assert(keys_of(nodes_of(grid_of, data.last()))[i - init.len()] == k);
        data.len() - 1
    }
}

/// Every chunk root is a key of one chunk's nodes, at the chunk's own level.
proof fn lemma_root_key(
    grid_of: spec_fn(VoxelKey) -> VoxelGrid,
    data: Seq<ChunkData>,
    i: int,
) -> (c: int)
    requires
        0 <= i < root_keys(grid_of, data).len(),
    ensures
        0 <= c < data.len(),
        keys_of(nodes_of(grid_of, data[c])).contains(root_keys(grid_of, data)[i]),
        root_keys(grid_of, data)[i].level == data[c].0.level,
    decreases data.len(),
{
    let k = root_keys(grid_of, data)[i];
    let init = root_keys(grid_of, data.drop_last());
    if i < init.len() {
        assert(init[i] == k);
        lemma_root_key(grid_of, data.drop_last(), i)
    } else {
        let keys = keys_of(nodes_of(grid_of, data.last()));
        let level = data.last().0.level as int;
        lemma_at_level(keys, level);
        assert(at_level(keys, level)[i - init.len()] == k);
        assert(at_level(keys, level).contains(k));
        data.len() - 1
    }
}

proof fn lemma_at_level_len(keys: Seq<VoxelKey>, level: int)
    ensures
        at_level(keys, level).len() <= keys.len(),
    decreases keys.len(),
{
    if keys.len() > 0 {
        lemma_at_level_len(keys.drop_last(), level);
    }
}

/// All chunks are located, and their points are few enough.
pub open spec fn all_located(data: Seq<ChunkData>, loc: spec_fn(PointView) -> VoxelKey) -> bool {
    &&& forall|c: int| 0 <= c < data.len() ==> located(#[trigger] data[c], loc)
    &&& chunk_points(data).len() <= usize::MAX
}

proof fn lemma_part_located(data: Seq<ChunkData>, loc: spec_fn(PointView) -> VoxelKey)
    requires
        data.len() > 0,
        all_located(data, loc),
    ensures
        all_located(data.drop_last(), loc),
        located(data.last(), loc),
        data.last().1.len() <= usize::MAX,
{
    vstd::seq_lib::to_multiset_len(data.last().1);
    assert(located(data[data.len() - 1], loc));
    assert forall|c: int| 0 <= c < data.drop_last().len() implies located(
        #[trigger] data.drop_last()[c],
        loc,
    ) by {
        assert(located(data[c], loc));
    }
}

proof fn lemma_points_few(data: Seq<ChunkData>, loc: spec_fn(PointView) -> VoxelKey, c: int)
    requires
        all_located(data, loc),
        0 <= c < data.len(),
    ensures
        data[c].1.len() <= usize::MAX,
    decreases data.len(),
{
    lemma_part_located(data, loc);
    if c < data.len() - 1 {
        lemma_points_few(data.drop_last(), loc, c);
    }
}

/// Two chunks that are apart have no key in common.
proof fn lemma_no_common_key(
    grid_of: spec_fn(VoxelKey) -> VoxelGrid,
    data: Seq<ChunkData>,
    loc: spec_fn(PointView) -> VoxelKey,
    a: int,
    b: int,
    k: VoxelKey,
)
    requires
        all_located(data, loc),
        apart(chunks_of(data)),
        0 <= a < data.len(),
        0 <= b < data.len(),
        keys_of(nodes_of(grid_of, data[a])).contains(k),
        keys_of(nodes_of(grid_of, data[b])).contains(k),
    ensures
        a == b,
{
    if a != b {
        lemma_points_few(data, loc, a);
        lemma_points_few(data, loc, b);
        lemma_nodes_of(grid_of, data[a], loc);
        lemma_nodes_of(grid_of, data[b], loc);
        let chunks = chunks_of(data);
        assert(chunks[a] == data[a].0 && chunks[b] == data[b].0);
        if chunks[a].level <= chunks[b].level {
            law_ancestor_of_ancestor(k, chunks[b].level as int, chunks[a].level as int);
            assert(ancestor(chunk_root(chunks[b]), chunks[a].level as int) == chunk_root(
                chunks[a],
            ));
        } else {
            law_ancestor_of_ancestor(k, chunks[a].level as int, chunks[b].level as int);
            assert(ancestor(chunk_root(chunks[a]), chunks[b].level as int) == chunk_root(
                chunks[b],
            ));
        }
    }
}

proof fn lemma_part_apart(data: Seq<ChunkData>)
    requires
        data.len() > 0,
        apart(chunks_of(data)),
    ensures
        apart(chunks_of(data.drop_last())),
{
    let part = chunks_of(data.drop_last());
    let all = chunks_of(data);
    assert forall|i: int, j: int|
        0 <= i < part.len() && 0 <= j < part.len() && i != j && part[i].level
            <= part[j].level implies ancestor(
        #[trigger] chunk_root(part[j]),
        part[i].level as int,
    ) != #[trigger] chunk_root(part[i]) by {
        assert(all[i] == part[i] && all[j] == part[j]);
    }
}

/// What holds of the nodes of all chunks.
proof fn lemma_built(
    grid_of: spec_fn(VoxelKey) -> VoxelGrid,
    data: Seq<ChunkData>,
    loc: spec_fn(PointView) -> VoxelKey,
)
    requires
        all_located(data, loc),
        apart(chunks_of(data)),
    ensures
        total_points(built_nodes(grid_of, data)) == chunk_points(data),
        all_filled(built_nodes(grid_of, data)),
        keys_of(built_nodes(grid_of, data)).no_duplicates(),
        points_inside(built_nodes(grid_of, data), loc),
        root_keys(grid_of, data).len() <= built_nodes(grid_of, data).len(),
    decreases data.len(),
{
    if data.len() > 0 {
        let init = data.drop_last();
        let last = data.last();
        let a = built_nodes(grid_of, init);
        let b = nodes_of(grid_of, last);
        let all = built_nodes(grid_of, data);
        lemma_part_located(data, loc);
        lemma_part_apart(data);
        lemma_built(grid_of, init, loc);
        lemma_nodes_of(grid_of, last, loc);
        lemma_total_concat(a, b);
        lemma_inside_concat(a, b, loc);
        assert forall|i: int| 0 <= i < all.len() implies (#[trigger] all[i]).1.len() > 0 by {
            if i < a.len() {
                assert(all[i] == a[i]);
            } else {
                assert(all[i] == b[i - a.len()]);
            }
        }
        let ks = keys_of(all);
        assert forall|i: int, j: int| 0 <= i < j < ks.len() implies ks[i] != ks[j] by {
            if j < a.len() {
                assert(keys_of(a)[i] != keys_of(a)[j]);
            } else if i >= a.len() {
                assert(keys_of(b)[i - a.len()] != keys_of(b)[j - a.len()]);
            } else if ks[i] == ks[j] {
                assert(keys_of(a)[i] == ks[i]);
                assert(keys_of(a).contains(ks[i]));
                let c = lemma_built_key(grid_of, init, ks[i]);
                assert(keys_of(b)[j - a.len()] == ks[j]);
                assert(keys_of(b).contains(ks[j]));
                assert(data[c] == init[c]);
                assert(data[data.len() - 1] == last);
                lemma_no_common_key(grid_of, data, loc, c, data.len() - 1, ks[i]);
            }
        }
        lemma_at_level_len(keys_of(b), last.0.level as int);
    }
}

/// A store that holds nothing.
proof fn lemma_held_nothing(keys: Seq<VoxelKey>)
    ensures
        held(Map::empty(), keys) == Multiset::<PointView>::empty(),
    decreases keys.len(),
{
    if keys.len() > 0 {
        lemma_held_nothing(keys.drop_last());
        vstd::seq_lib::to_multiset_len(held_at(Map::empty(), keys.last()));
        assert(held(Map::empty(), keys) =~= Multiset::<PointView>::empty());
    }
}

/// The levels of the chunk roots are those of the chunks.
proof fn lemma_root_levels(
    grid_of: spec_fn(VoxelKey) -> VoxelGrid,
    data: Seq<ChunkData>,
    loc: spec_fn(PointView) -> VoxelKey,
    n: nat,
)
    requires
        all_located(data, loc),
        n <= root_keys(grid_of, data).len(),
    ensures
        max_level(root_keys(grid_of, data).take(n as int)) < i32::MAX,
    decreases n,
{
    let roots = root_keys(grid_of, data);
    if n > 0 {
        lemma_root_levels(grid_of, data, loc, (n - 1) as nat);
        assert(roots.take(n as int).drop_last() =~= roots.take(n - 1));
        let c = lemma_root_key(grid_of, data, n - 1);
        assert(located(data[c], loc));
        assert(roots.take(n as int).last() == roots[n - 1]);
    }
}

/// No node that the merge builds was there before it.
proof fn lemma_unbuilt(
    grid_of: spec_fn(VoxelKey) -> VoxelGrid,
    data: Seq<ChunkData>,
    loc: spec_fn(PointView) -> VoxelKey,
)
    requires
        all_located(data, loc),
        apart(chunks_of(data)),
    ensures
        unbuilt_upto(
            after_writes(Map::empty(), built_nodes(grid_of, data)),
            root_keys(grid_of, data),
            max_level(root_keys(grid_of, data)),
        ),
{
    let nodes = built_nodes(grid_of, data);
    let roots = root_keys(grid_of, data);
    let s = after_writes(Map::empty(), nodes);
    assert forall|i: int, e: int|
        0 <= i < roots.len() && 0 <= e <= max_level(roots) && e < roots[i].level implies held_at(
        s,
        #[trigger] ancestor(roots[i], e),
    ) == Seq::<PointView>::empty() by {
        let k = ancestor(roots[i], e);
        let c = lemma_root_key(grid_of, data, i);
        lemma_points_few(data, loc, c);
        lemma_nodes_of(grid_of, data[c], loc);
        assert(located(data[c], loc));
        assert(roots[i] == chunk_root(data[c].0));
        assert forall|j: int| 0 <= j < nodes.len() implies (#[trigger] nodes[j]).0 != k by {
            if nodes[j].0 == k {
                assert(keys_of(nodes)[j] == k);
                assert(keys_of(nodes).contains(k));
                let d = lemma_built_key(grid_of, data, k);
                lemma_points_few(data, loc, d);
                lemma_nodes_of(grid_of, data[d], loc);
                crate::key::lemma_ancestor_level(roots[i], e);
                law_ancestor_of_ancestor(roots[i], e, data[d].0.level as int);
                let chunks = chunks_of(data);
                assert(chunks[c] == data[c].0 && chunks[d] == data[d].0);
                assert(ancestor(chunk_root(chunks[c]), chunks[d].level as int) == chunk_root(
                    chunks[d],
                ));
            }
        }
        lemma_unwritten(Map::empty(), nodes, k);
    }
}

/// Once all chunks are built and merged, the nodes hold every point of the
/// chunks exactly once, each in a voxel that it lies in. `keys` is any list of
/// distinct keys that has all nodes of the chunks, and the chunk roots'
/// ancestors.
pub proof fn law_build_keeps_every_point(
    grid_of: spec_fn(VoxelKey) -> VoxelGrid,
    data: Seq<ChunkData>,
    loc: spec_fn(PointView) -> VoxelKey,
    keys: Seq<VoxelKey>,
)
    requires
        all_located(data, loc),
        apart(chunks_of(data)),
        keys.no_duplicates(),
        has_ancestors(keys, root_keys(grid_of, data)),
        forall|i: int|
            0 <= i < built_nodes(grid_of, data).len() ==> keys.contains(
                (#[trigger] built_nodes(grid_of, data)[i]).0,
            ),
    ensures
        held(final_store(grid_of, data), keys) == chunk_points(data),
        stored_inside(final_store(grid_of, data), loc),
{
    let nodes = built_nodes(grid_of, data);
    let roots = root_keys(grid_of, data);
    let s = after_writes(Map::empty(), nodes);
    lemma_built(grid_of, data, loc);
    lemma_filled_len(nodes);
    lemma_held_writes(Map::empty(), keys, nodes);
    lemma_held_nothing(keys);
    lemma_held_nothing(keys_of(nodes));
    assert(held(s, keys).add(Multiset::empty()) =~= held(s, keys));
    assert(Multiset::empty().add(total_points(nodes)) =~= total_points(nodes));
    lemma_root_levels(grid_of, data, loc, roots.len());
    assert(roots.take(roots.len() as int) =~= roots);
    lemma_unbuilt(grid_of, data, loc);
    assert(stored_inside(Map::empty(), loc));
    lemma_writes_inside(Map::empty(), nodes, loc);
    law_merge_conserves(grid_of, s, roots, keys, loc);
}

// The number of points that the list of nodes tells.
proof fn lemma_total_remove(nodes: Seq<Counted>, i: int)
    requires
        0 <= i < nodes.len(),
    ensures
        total_count(nodes) == total_count(nodes.remove(i)) + nodes[i].1,
    decreases nodes.len(),
{
    let rest = nodes.remove(i);
    if i == nodes.len() - 1 {
        assert(rest =~= nodes.drop_last());
    } else {
        let init = nodes.drop_last();
        lemma_total_remove(init, i);
        assert(rest.drop_last() =~= init.remove(i));
        assert(rest.last() == nodes.last());
    }
}

/// Lists of the same nodes tell the same number of points.
proof fn lemma_total_same(a: Seq<Counted>, b: Seq<Counted>)
    requires
        a.to_multiset() == b.to_multiset(),
    ensures
        total_count(a) == total_count(b),
    decreases a.len(),
{
    broadcast use vstd::seq_lib::group_to_multiset_ensures;

    vstd::seq_lib::to_multiset_len(a);
    vstd::seq_lib::to_multiset_len(b);
    if a.len() > 0 {
        let last = a.last();
        assert(a.contains(last));
        assert(b.to_multiset().count(last) > 0);
        assert(b.contains(last));
        let i = choose|i: int| 0 <= i < b.len() && b[i] == last;
        assert(a.drop_last() =~= a.remove(a.len() - 1));
        assert(a.drop_last().to_multiset() =~= b.remove(i).to_multiset());
        lemma_total_same(a.drop_last(), b.remove(i));
        lemma_total_remove(b, i);
    }
}

proof fn lemma_total_zeros(nodes: Seq<Counted>, keys: Seq<VoxelKey>)
    ensures
        total_count(nodes + keys.map_values(|k: VoxelKey| (k, 0u64))) == total_count(nodes),
    decreases keys.len(),
{
    let zeros = keys.map_values(|k: VoxelKey| (k, 0u64));
    if keys.len() == 0 {
        assert(nodes + zeros =~= nodes);
    } else {
        let init = keys.drop_last();
        lemma_total_zeros(nodes, init);
        assert((nodes + zeros).drop_last() =~= nodes + init.map_values(|k: VoxelKey| (k, 0u64)));
        assert((nodes + zeros).last() == (keys.last(), 0u64));
    }
}

proof fn lemma_total_filled(keys: Seq<VoxelKey>, counts: Seq<u64>)
    requires
        keys.len() == counts.len(),
    ensures
        total_count(filled(keys, counts)) == sum_counts(counts),
    decreases keys.len(),
{
    if keys.len() > 0 {
        let rest = filled(keys.drop_last(), counts.drop_last());
        lemma_total_filled(keys.drop_last(), counts.drop_last());
        assert(rest.push((keys.last(), counts.last())).drop_last() =~= rest);
    }
}

/// The list of nodes tells as many points as were counted.
pub proof fn law_node_list_total(keys: Seq<VoxelKey>, counts: Seq<u64>)
    requires
        keys.len() == counts.len(),
        with_ancestors(filled(keys, counts)).len() <= usize::MAX,
    ensures
        total_count(node_list(keys, counts)) == sum_counts(counts),
{
    let list = with_ancestors(filled(keys, counts));
    let codes = level_codes(list);
    let order = sort_order(codes);
    let value = |i: usize| list[i as int];
    lemma_sort_order_exists(codes);
    lemma_picked_permutation(value, order, list.len());
    lemma_picked_is_multiset(value, order);
    lemma_picked_is_multiset(value, all_indices(list.len()));
    assert(all_indices(list.len()).map_values(value) =~= list);
    assert(order.map_values(value) =~= node_list(keys, counts));
    lemma_total_same(node_list(keys, counts), list);
    lemma_total_zeros(filled(keys, counts), added(filled(keys, counts), filled(keys, counts).len()));
    lemma_total_filled(keys, counts);
}

/// The parents that the merge builds, level by level.
pub open spec fn merge_parents(levels: Seq<Seq<TaskView>>) -> Seq<VoxelKey>
    decreases levels.len(),
{
    if levels.len() == 0 {
        Seq::empty()
    } else {
        merge_parents(levels.drop_last()) + task_parents(levels.last())
    }
}

proof fn lemma_merge_parent(levels: Seq<Seq<TaskView>>, l: int, k: VoxelKey)
    requires
        0 <= l < levels.len(),
        task_parents(levels[l]).contains(k),
    ensures
        merge_parents(levels).contains(k),
    decreases levels.len(),
{
    let all = merge_parents(levels);
    let init = merge_parents(levels.drop_last());
    if l < levels.len() - 1 {
        assert(levels.drop_last()[l] == levels[l]);
        lemma_merge_parent(levels.drop_last(), l, k);
        let i = choose|i: int| 0 <= i < init.len() && init[i] == k;
        assert(all[i] == k);
    } else {
        let last = task_parents(levels.last());
        let i = choose|i: int| 0 <= i < last.len() && last[i] == k;
        assert(all[init.len() + i] == k);
    }
}

proof fn lemma_held_len(s: Stored, keys: Seq<VoxelKey>, counts: Seq<u64>)
    requires
        keys.len() == counts.len(),
        forall|i: int|
            0 <= i < keys.len() ==> #[trigger] counts[i] == held_at(s, keys[i]).len(),
    ensures
        held(s, keys).len() == sum_counts(counts),
    decreases keys.len(),
{
    if keys.len() > 0 {
        let (k, c) = (keys.drop_last(), counts.drop_last());
        assert forall|i: int| 0 <= i < k.len() implies #[trigger] c[i] == held_at(
            s,
            k[i],
        ).len() by {
            assert(counts[i] == c[i]);
        }
        lemma_held_len(s, k, c);
        assert(counts[keys.len() - 1] == held_at(s, keys[keys.len() - 1]).len());
        vstd::seq_lib::to_multiset_len(held_at(s, keys.last()));
    }
}

/// `keys` are the keys of the chunks' nodes and of the merge's parents, each once
/// and in ascending order.
pub open spec fn build_keys(
    grid_of: spec_fn(VoxelKey) -> VoxelGrid,
    data: Seq<ChunkData>,
    keys: Seq<VoxelKey>,
) -> bool {
    &&& keys_ascend(keys)
    &&& forall|k: VoxelKey| #[trigger]
        keys.contains(k) <==> (keys_of(built_nodes(grid_of, data)) + merge_parents(
            schedule(root_keys(grid_of, data)),
        )).contains(k)
}

/// `counts` are the numbers of points that a store has under `keys`.
pub open spec fn store_counts(s: Stored, keys: Seq<VoxelKey>, counts: Seq<u64>) -> bool {
    &&& keys.len() == counts.len()
    &&& forall|i: int| 0 <= i < keys.len() ==> #[trigger] counts[i] == held_at(s, keys[i]).len()
}

/// The keys are distinct, and have all nodes of the chunks and the chunk roots'
/// ancestors.
proof fn lemma_build_keys(
    grid_of: spec_fn(VoxelKey) -> VoxelGrid,
    data: Seq<ChunkData>,
    loc: spec_fn(PointView) -> VoxelKey,
    keys: Seq<VoxelKey>,
)
    requires
        all_located(data, loc),
        apart(chunks_of(data)),
        build_keys(grid_of, data, keys),
    ensures
        keys.no_duplicates(),
        root_keys(grid_of, data).len() <= usize::MAX,
        max_level(root_keys(grid_of, data)) < i32::MAX,
        forall|i: int|
            0 <= i < built_nodes(grid_of, data).len() ==> keys.contains(
                (#[trigger] built_nodes(grid_of, data)[i]).0,
            ),
        has_ancestors(keys, root_keys(grid_of, data)),
{
    let nodes = built_nodes(grid_of, data);
    let roots = root_keys(grid_of, data);
    let levels = schedule(roots);
    let all = keys_of(nodes) + merge_parents(levels);
    assert(keys.no_duplicates()) by {
        assert forall|i: int, j: int| 0 <= i < j < keys.len() implies keys[i] != keys[j] by {
            assert(key_lt(keys[i], keys[j]));
        }
    }
    lemma_built(grid_of, data, loc);
    lemma_filled_len(nodes);
    lemma_root_levels(grid_of, data, loc, roots.len());
    assert(roots.take(roots.len() as int) =~= roots);
    assert forall|i: int| 0 <= i < nodes.len() implies keys.contains((#[trigger] nodes[i]).0) by {
        assert(all[i] == nodes[i].0);
        assert(all.contains(nodes[i].0));
    }
    assert forall|i: int, e: int| 0 <= i < roots.len() && 0 <= e <= roots[i].level implies keys.contains(
        #[trigger] ancestor(roots[i], e),
    ) by {
        let k = ancestor(roots[i], e);
        if e < roots[i].level {
            law_schedule_builds_ancestors(roots, i, e);
            lemma_schedule_from(roots, max_level(roots) - 1, max_level(roots), e);
            lemma_merge_parent(levels, max_level(roots) - 1 - e, k);
            let parents = merge_parents(levels);
            let j = choose|j: int| 0 <= j < parents.len() && parents[j] == k;
            assert(all[nodes.len() + j] == k);
        } else {
            lemma_root_is_node(grid_of, data, i);
            let j = choose|j: int| 0 <= j < nodes.len() && keys_of(nodes)[j] == k;
            assert(all[j] == k);
        }
        assert(all.contains(k));
    }
}

/// The list of nodes tells the number of points that were distributed, where it
/// is made of what the store holds.
pub proof fn law_node_list_counts_every_point(
    grid_of: spec_fn(VoxelKey) -> VoxelGrid,
    data: Seq<ChunkData>,
    loc: spec_fn(PointView) -> VoxelKey,
    keys: Seq<VoxelKey>,
    counts: Seq<u64>,
)
    requires
        all_located(data, loc),
        apart(chunks_of(data)),
        build_keys(grid_of, data, keys),
        store_counts(final_store(grid_of, data), keys, counts),
        with_ancestors(filled(keys, counts)).len() <= usize::MAX,
    ensures
        total_count(node_list(keys, counts)) == chunk_points(data).len(),
{
    lemma_build_keys(grid_of, data, loc, keys);
    law_build_keeps_every_point(grid_of, data, loc, keys);
    lemma_held_len(final_store(grid_of, data), keys, counts);
    law_node_list_total(keys, counts);
}

/// A parent of the merge is a parent of one of its levels.
proof fn lemma_parent_of_level(levels: Seq<Seq<TaskView>>, k: VoxelKey) -> (l: int)
    requires
        merge_parents(levels).contains(k),
    ensures
        0 <= l < levels.len(),
        task_parents(levels[l]).contains(k),
    decreases levels.len(),
{
    let all = merge_parents(levels);
    let init = merge_parents(levels.drop_last());
    let last = task_parents(levels.last());
    let i = choose|i: int| 0 <= i < all.len() && all[i] == k;
    if i < init.len() {
        assert(init[i] == k);
        lemma_parent_of_level(levels.drop_last(), k)
    } else {
        assert(last[i - init.len()] == k);
        levels.len() - 1
    }
}

/// No key lies above the root.
proof fn lemma_build_key_levels(
    grid_of: spec_fn(VoxelKey) -> VoxelGrid,
    data: Seq<ChunkData>,
    loc: spec_fn(PointView) -> VoxelKey,
    keys: Seq<VoxelKey>,
    i: int,
)
    requires
        all_located(data, loc),
        apart(chunks_of(data)),
        build_keys(grid_of, data, keys),
        0 <= i < keys.len(),
    ensures
        keys[i].level >= 0,
{
    let k = keys[i];
    let nodes = built_nodes(grid_of, data);
    let roots = root_keys(grid_of, data);
    let levels = schedule(roots);
    let all = keys_of(nodes) + merge_parents(levels);
    lemma_build_keys(grid_of, data, loc, keys);
    assert(keys.contains(k));
    let j = choose|j: int| 0 <= j < all.len() && all[j] == k;
    if j < nodes.len() {
        assert(keys_of(nodes)[j] == k);
        assert(keys_of(nodes).contains(k));
        let c = lemma_built_key(grid_of, data, k);
        lemma_points_few(data, loc, c);
        assert(located(data[c], loc));
        lemma_nodes_of(grid_of, data[c], loc);
    } else {
        let parents = merge_parents(levels);
        assert(parents[j - nodes.len()] == k);
        assert(parents.contains(k));
        let l = lemma_parent_of_level(levels, k);
        let max = max_level(roots);
        lemma_schedule_len(roots, max - 1, max);
        lemma_schedule_from(roots, max - 1, max, max - 1 - l);
        law_schedule_tasks(roots, max - 1 - l);
        let t = choose|t: int| 0 <= t < levels[l].len() && task_parents(levels[l])[t] == k;
        assert(level_tasks(roots, max - 1 - l)[t].0 == k);
    }
}

/// Nothing is stored under any other key.
proof fn lemma_nothing_elsewhere(
    grid_of: spec_fn(VoxelKey) -> VoxelGrid,
    data: Seq<ChunkData>,
    loc: spec_fn(PointView) -> VoxelKey,
    keys: Seq<VoxelKey>,
    k: VoxelKey,
)
    requires
        all_located(data, loc),
        apart(chunks_of(data)),
        build_keys(grid_of, data, keys),
        !keys.contains(k),
    ensures
        held_at(final_store(grid_of, data), k).len() == 0,
{
    let nodes = built_nodes(grid_of, data);
    let roots = root_keys(grid_of, data);
    let levels = schedule(roots);
    let max = max_level(roots);
    let s = after_writes(Map::empty(), nodes);
    lemma_build_keys(grid_of, data, loc, keys);
    lemma_unwritten(Map::empty(), nodes, k);
    lemma_max_level_positive(roots);
    lemma_schedule_len(roots, max - 1, max);
    assert forall|l: int| 0 <= l < levels.len() implies !written_by(#[trigger] levels[l], k) by {
        let d = max - 1 - l;
        lemma_schedule_from(roots, max - 1, max, d);
        lemma_level_ok(Map::empty(), roots, keys, d);
        if written_by(levels[l], k) {
            let t = choose|t: int|
                0 <= t < levels[l].len() && ((#[trigger] levels[l][t]).0 == k
                    || levels[l][t].1.contains(k));
            assert(task_among(keys, level_tasks(roots, d)[t]));
            if levels[l][t].0 != k {
                let j = choose|j: int| 0 <= j < levels[l][t].1.len() && levels[l][t].1[j] == k;
                assert(keys.contains(levels[l][t].1[j]));
            }
        }
    }
    law_merge_leaves_others(grid_of, s, levels, k);
}

/// Every node of the list, those without points included, has the count of what
/// the store holds for it.
pub proof fn law_node_list_matches_store(
    grid_of: spec_fn(VoxelKey) -> VoxelGrid,
    data: Seq<ChunkData>,
    loc: spec_fn(PointView) -> VoxelKey,
    keys: Seq<VoxelKey>,
    counts: Seq<u64>,
    j: int,
)
    requires
        all_located(data, loc),
        apart(chunks_of(data)),
        build_keys(grid_of, data, keys),
        store_counts(final_store(grid_of, data), keys, counts),
        with_ancestors(filled(keys, counts)).len() <= usize::MAX,
        0 <= j < node_list(keys, counts).len(),
    ensures
        node_list(keys, counts)[j].1 == held_at(
            final_store(grid_of, data),
            node_list(keys, counts)[j].0,
        ).len(),
{
    let list = node_list(keys, counts);
    let n = list[j];
    lemma_build_keys(grid_of, data, loc, keys);
    assert forall|i: int| 0 <= i < keys.len() implies (#[trigger] keys[i]).level >= 0 by {
        lemma_build_key_levels(grid_of, data, loc, keys, i);
    }
    law_node_list(keys, counts);
    assert(list.contains(n));
    if n.1 > 0 {
        let i = choose|i: int|
            0 <= i < keys.len() && #[trigger] keys[i] == n.0 && counts[i] == n.1;
        assert(counts[i] == held_at(final_store(grid_of, data), keys[i]).len());
    } else if keys.contains(n.0) {
        let i = choose|i: int| 0 <= i < keys.len() && keys[i] == n.0;
        assert(counts[i] == held_at(final_store(grid_of, data), keys[i]).len());
        if counts[i] > 0 {
            let m = (keys[i], counts[i]);
            assert(list.contains(m));
            let o = choose|o: int| 0 <= o < list.len() && list[o] == m;
            assert(counted_keys(list)[o] == counted_keys(list)[j]);
        }
    } else {
        lemma_nothing_elsewhere(grid_of, data, loc, keys, n.0);
    }
}

proof fn lemma_schedule_len(roots: Seq<VoxelKey>, d: int, max: int)
    requires
        d >= -1,
    ensures
        schedule_from(roots, d, max).len() == d + 1,
    decreases d + 1,
{
    if d >= 0 {
        lemma_schedule_len(roots, d - 1, max);
    }
}

/// Every chunk root is a node.
proof fn lemma_root_is_node(
    grid_of: spec_fn(VoxelKey) -> VoxelGrid,
    data: Seq<ChunkData>,
    i: int,
)
    requires
        0 <= i < root_keys(grid_of, data).len(),
    ensures
        keys_of(built_nodes(grid_of, data)).contains(root_keys(grid_of, data)[i]),
    decreases data.len(),
{
    let k = root_keys(grid_of, data)[i];
    let init = root_keys(grid_of, data.drop_last());
    let before = keys_of(built_nodes(grid_of, data.drop_last()));
    let all = keys_of(built_nodes(grid_of, data));
    let own = keys_of(nodes_of(grid_of, data.last()));
    assert(all =~= before + own);
    if i < init.len() {
        assert(init[i] == k);
        lemma_root_is_node(grid_of, data.drop_last(), i);
        let j = choose|j: int| 0 <= j < before.len() && before[j] == k;
        assert(all[j] == k);
    } else {
        let level = data.last().0.level as int;
        lemma_at_level(own, level);
        assert(at_level(own, level)[i - init.len()] == k);
        assert(at_level(own, level).contains(k));
        let j = choose|j: int| 0 <= j < own.len() && own[j] == k;
        assert(all[before.len() + j] == k);
    }
}

} // verus!
