//! What building the octree gives: every level is made, and every parent is a
//! sample of its children.

use crate::assembly::{
    after_levels, after_task, after_tasks, after_writes, held_at, lemma_some_points,
    lemma_unwritten, lists_at, task_writes, thinned_children, Stored,
};
use crate::build_run::{entry, lemma_tasks_entry, picked_tasks, separate, touches};
use crate::chunk_build::{
    chunk_nodes, deep_keys, deepest, leaf_depth_of, leaf_nodes, lemma_antichain, lemma_leaf_keys,
    lemma_leaf_nodes_total, point_of,
};
use crate::chunking::PlannedChunk;
use crate::grouping::{
    group_by, groups_match, lemma_group_by, lemma_group_in_items, picked, picked_groups, ungrouped,
};
use crate::hierarchy::all_indices;
use crate::input_laws::law_united_is_tight;
use crate::key::{half, parent_key, VoxelKey};
use crate::leaves::{chunk_leaves, law_leaves_sort};
use crate::merge::{at_level, lemma_at_level, sum_counts, TaskView};
use crate::octree::{
    families, family, keys_of, law_levels_conserve, law_levels_keys, lemma_filled_len,
    lemma_groups_disjoint, lemma_parts_distinct, level_step, levels, member_points, parent_at,
    thinned, NodeView,
};
use crate::pipeline::{all_bounds, all_count};
use crate::point::PointView;
use crate::sampling::{
    child_of_children, child_share, lemma_picked_is_multiset, parent_of_children, parent_share,
    tag_children, Cell, VoxelGrid,
};
use crate::sampling_laws::{
    law_thinning_is_complete, parent_has_cell, single_in_cell, single_keepers,
};
use crate::scan::{
    empty_bounds, holds, is_numeric, law_expanded_holds_point, law_united_holds_both, united,
    ScanResult,
};
use crate::tree_build::{all_keys, batch_roots};
use vstd::prelude::*;

verus! {

// One level.
/// One of the points lies in the cell.
pub open spec fn holds_cell(points: Seq<PointView>, grid: VoxelGrid, cell: Cell) -> bool {
    exists|j: int| 0 <= j < points.len() && grid.cell_of(#[trigger] points[j]) == cell
}

/// A node with key `k` has a point in the cell.
pub open spec fn node_has_cell(
    nodes: Seq<NodeView>,
    k: VoxelKey,
    grid: VoxelGrid,
    cell: Cell,
) -> bool {
    exists|i: int|
        0 <= i < nodes.len() && (#[trigger] nodes[i]).0 == k && holds_cell(nodes[i].1, grid, cell)
}

/// A child of `p` has exactly one point, which lies in the cell.
pub open spec fn lone_child_in_cell(
    nodes: Seq<NodeView>,
    p: VoxelKey,
    grid: VoxelGrid,
    cell: Cell,
) -> bool {
    exists|i: int|
        {
            &&& 0 <= i < nodes.len()
            &&& parent_key((#[trigger] nodes[i]).0) == p
            &&& nodes[i].1.len() == 1
            &&& grid.cell_of(nodes[i].1[0]) == cell
        }
}

/// The node with key `p` is full, but for one point that each of its eight
/// children may have taken back.
pub open spec fn node_is_full(nodes: Seq<NodeView>, p: VoxelKey) -> bool {
    exists|i: int|
        0 <= i < nodes.len() && (#[trigger] nodes[i]).0 == p && nodes[i].1.len() + 8 >= 2_097_152
}

proof fn lemma_in_thinned(
    grid: VoxelGrid,
    nodes: Seq<NodeView>,
    members: Seq<usize>,
    n: nat,
    x: NodeView,
)
    ensures
        thinned(grid, nodes, members, n).contains(x) <==> exists|c: int|
            {
                &&& 0 <= c < n
                &&& (#[trigger] child_of_children(grid, member_points(nodes, members), c)).len() > 0
                &&& x == (
                    nodes[members[c] as int].0,
                    child_of_children(grid, member_points(nodes, members), c),
                )
            },
    decreases n,
{
    let lists = member_points(nodes, members);
    let all = thinned(grid, nodes, members, n);
    if n > 0 {
        let m = (n - 1) as nat;
        lemma_in_thinned(grid, nodes, members, m, x);
        let rest = thinned(grid, nodes, members, m);
        let left = child_of_children(grid, lists, n - 1);
        let last = (nodes[members[n - 1] as int].0, left);
        if rest.contains(x) {
            let k = choose|k: int| 0 <= k < rest.len() && rest[k] == x;
            assert(all[k] == x);
        }
        if left.len() > 0 && x == last {
            assert(all[rest.len() as int] == x);
        }
        if all.contains(x) {
            let k = choose|k: int| 0 <= k < all.len() && all[k] == x;
            if k < rest.len() {
                assert(rest[k] == x);
            } else {
                assert(child_of_children(grid, lists, n - 1).len() > 0);
            }
        }
    }
}

proof fn lemma_in_families(
    grid_of: spec_fn(VoxelKey) -> VoxelGrid,
    nodes: Seq<NodeView>,
    gs: Seq<(VoxelKey, Seq<usize>)>,
    n: nat,
    x: NodeView,
)
    requires
        n <= gs.len(),
    ensures
        families(grid_of, nodes, gs, n).contains(x) <==> exists|g: int|
            0 <= g < n && family(grid_of((#[trigger] gs[g]).0), nodes, gs[g]).contains(x),
    decreases n,
{
    let all = families(grid_of, nodes, gs, n);
    if n > 0 {
        let m = (n - 1) as nat;
        lemma_in_families(grid_of, nodes, gs, m, x);
        let rest = families(grid_of, nodes, gs, m);
        let last = family(grid_of(gs[n - 1].0), nodes, gs[n - 1]);
        if rest.contains(x) {
            let k = choose|k: int| 0 <= k < rest.len() && rest[k] == x;
            assert(all[k] == x);
        }
        if last.contains(x) {
            let k = choose|k: int| 0 <= k < last.len() && last[k] == x;
            assert(all[rest.len() + k] == x);
        }
        if all.contains(x) {
            let k = choose|k: int| 0 <= k < all.len() && all[k] == x;
            if k < rest.len() {
                assert(rest[k] == x);
            } else {
                assert(last[k - rest.len()] == x);
                assert(last.contains(x));
                assert(gs[n - 1] == gs[n - 1]);
            }
        }
    }
}

proof fn lemma_single_bound(grid: VoxelGrid, pts: Seq<(usize, PointView)>, n: nat)
    ensures
        single_keepers(grid, pts, n) <= n,
    decreases n,
{
    if n > 0 {
        lemma_single_bound(grid, pts, (n - 1) as nat);
    }
}

proof fn lemma_ungrouped_none(
    sel: Seq<usize>,
    root: spec_fn(usize) -> Option<VoxelKey>,
    j: int,
)
    requires
        0 <= j < ungrouped(sel, root).len(),
    ensures
        root(ungrouped(sel, root)[j]) is None,
    decreases sel.len(),
{
    if j < ungrouped(sel.drop_last(), root).len() {
        lemma_ungrouped_none(sel.drop_last(), root, j);
    }
}

/// The place of a key among the children of its parent.
spec fn place(k: VoxelKey) -> int {
    (k.x - 2 * half(k.x)) + 2 * (k.y - 2 * half(k.y)) + 4 * (k.z - 2 * half(k.z))
}

/// A parent has at most eight children.
pub proof fn law_eight_children(keys: Seq<VoxelKey>, p: VoxelKey)
    requires
        keys.no_duplicates(),
        forall|i: int|
            0 <= i < keys.len() ==> parent_key(#[trigger] keys[i]) == p && keys[i].level == p.level
                + 1,
    ensures
        keys.len() <= 8,
{
    let places = keys.map_values(|k: VoxelKey| place(k));
    assert forall|i: int, j: int|
        0 <= i < places.len() && 0 <= j < places.len() && i != j implies places[i]
        != places[j] by {
        assert(keys[i] != keys[j]);
        assert(half(keys[i].x) == p.x && half(keys[j].x) == p.x);
        assert(half(keys[i].y) == p.y && half(keys[j].y) == p.y);
        assert(half(keys[i].z) == p.z && half(keys[j].z) == p.z);
    }
    places.unique_seq_to_set();
    assert forall|v: int| #[trigger] places.to_set().contains(v) implies vstd::set_lib::set_int_range(
        0,
        8,
    ).contains(v) by {
        let i = choose|i: int| 0 <= i < places.len() && places[i] == v;
        assert(place(keys[i]) == v);
    }
    vstd::set_lib::lemma_int_range(0, 8);
    vstd::set_lib::lemma_len_subset(places.to_set(), vstd::set_lib::set_int_range(0, 8));
}

/// The members of a group are at most eight.
proof fn lemma_group_of_eight(nodes: Seq<NodeView>, d: int, g: int)
    requires
        nodes.len() <= usize::MAX,
        i32::MIN <= d,
        keys_of(nodes).no_duplicates(),
        0 <= g < group_by(all_indices(nodes.len()), parent_at(nodes, d)).len(),
    ensures
        group_by(all_indices(nodes.len()), parent_at(nodes, d))[g].1.len() <= 8,
{
    broadcast use vstd::seq_lib::group_to_multiset_ensures;

    let all = all_indices(nodes.len());
    let root = parent_at(nodes, d);
    let gs = group_by(all, root);
    let (p, members) = gs[g];
    let keys = members.map_values(|i: usize| nodes[i as int].0);
    lemma_group_by(all, root);
    lemma_parts_distinct(nodes.len(), root);
    lemma_groups_disjoint(gs, ungrouped(all, root));
    assert(gs[g].1.no_duplicates());
    assert forall|m: int| 0 <= m < members.len() implies (#[trigger] members[m]) < nodes.len() by {
        lemma_group_in_items(gs, g, m);
        assert(all.to_multiset().contains(members[m]));
        assert(all.contains(members[m]));
    }
    assert forall|i: int, j: int|
        0 <= i < keys.len() && 0 <= j < keys.len() && i != j implies keys[i] != keys[j] by {
        assert(members[i] != members[j]);
        assert(keys_of(nodes)[members[i] as int] == keys[i]);
        assert(keys_of(nodes)[members[j] as int] == keys[j]);
    }
    assert forall|i: int| 0 <= i < keys.len() implies parent_key(#[trigger] keys[i]) == p
        && keys[i].level == p.level + 1 by {
        assert(root(gs[g].1[i]) == Some(p));
    }
    law_eight_children(keys, p);
}

/// Making the parents of one level is complete: of the cell of each point that a
/// node below keeps, its parent has a point too, or it is the cell of the only
/// point of a child, or the parent is full.
#[verifier::rlimit(40)]
pub proof fn law_level_is_complete(
    grid_of: spec_fn(VoxelKey) -> VoxelGrid,
    nodes: Seq<NodeView>,
    d: int,
    i: int,
    j: int,
)
    requires
        nodes.len() <= usize::MAX,
        keys_of(nodes).no_duplicates(),
        0 <= i < level_step(grid_of, nodes, d).len(),
        level_step(grid_of, nodes, d)[i].0.level == d + 1,
        0 <= j < level_step(grid_of, nodes, d)[i].1.len(),
        i32::MIN <= d,
    ensures
        ({
            let out = level_step(grid_of, nodes, d);
            let p = parent_key(out[i].0);
            let cell = grid_of(p).cell_of(out[i].1[j]);
            ||| node_has_cell(out, p, grid_of(p), cell)
            ||| lone_child_in_cell(out, p, grid_of(p), cell)
            ||| node_is_full(out, p)
        }),
{
    let all = all_indices(nodes.len());
    let root = parent_at(nodes, d);
    let gs = group_by(all, root);
    let un = ungrouped(all, root);
    let first = un.map_values(|i: usize| nodes[i as int]);
    let fams = families(grid_of, nodes, gs, gs.len());
    let out = level_step(grid_of, nodes, d);
    let x = out[i];
    lemma_group_by(all, root);
    if i < first.len() {
        lemma_ungrouped_none(all, root, i);
        assert(nodes[un[i] as int] == x);
        assert(false);
    }
    assert(fams[i - first.len()] == x);
    assert(fams.contains(x));
    lemma_in_families(grid_of, nodes, gs, gs.len(), x);
    let g = choose|g: int|
        0 <= g < gs.len() && family(grid_of((#[trigger] gs[g]).0), nodes, gs[g]).contains(x);
    let (p, members) = gs[g];
    let grid = grid_of(p);
    let lists = member_points(nodes, members);
    let pts = tag_children(lists);
    let n = members.len();
    let own = parent_of_children(grid, lists);
    let children = thinned(grid, nodes, members, n);
    let fam = family(grid, nodes, gs[g]);
    assert(groups_match(gs, root));
    assert(members.len() > 0);
    assert(root(members[0]) == Some(p));
    assert(p.level == d);
    let k = choose|k: int| 0 <= k < fam.len() && fam[k] == x;
    assert(k < children.len()) by {
        if k >= children.len() {
            assert(fam[k] == (p, own));
        }
    }
    assert(children[k] == x);
    assert(children.contains(x));
    lemma_in_thinned(grid, nodes, members, n, x);
    let c = choose|c: int|
        {
            &&& 0 <= c < n
            &&& (#[trigger] child_of_children(grid, lists, c)).len() > 0
            &&& x == (nodes[members[c] as int].0, child_of_children(grid, lists, c))
        };
    assert(root(members[c]) == Some(p));
    assert(parent_key(x.0) == p);
    let cell = grid.cell_of(x.1[j]);
    law_thinning_is_complete(grid, pts, n, c, j);
    lemma_single_bound(grid, pts, n);
    lemma_group_of_eight(nodes, d, g);
    assert(lists.len() == n);
    let parent = (p, own);
    if own.len() > 0 {
        assert(fam[children.len() as int] == parent);
        assert(fam.contains(parent));
        lemma_in_families(grid_of, nodes, gs, gs.len(), parent);
        assert(fams.contains(parent));
        let a = choose|a: int| 0 <= a < fams.len() && fams[a] == parent;
        assert(out[first.len() + a] == parent);
    }
    if parent_has_cell(grid, pts, n, cell) {
        let m = choose|m: int|
            0 <= m < parent_share(grid, pts, n).len() && grid.cell_of(
                #[trigger] parent_share(grid, pts, n)[m],
            ) == cell;
        assert(grid.cell_of(own[m]) == cell);
        assert(holds_cell(own, grid, cell));
    } else if single_in_cell(grid, pts, n, cell, -1) {
        let e = choose|e: int|
            {
                &&& 0 <= e < n
                &&& e != -1
                &&& (#[trigger] child_share(grid, pts, e)).len() == 1
                &&& grid.cell_of(child_share(grid, pts, e)[0]) == cell
            };
        let y = (nodes[members[e] as int].0, child_of_children(grid, lists, e));
        assert(child_of_children(grid, lists, e).len() > 0);
        lemma_in_thinned(grid, nodes, members, n, y);
        let b = choose|b: int| 0 <= b < children.len() && children[b] == y;
        assert(fam[b] == y);
        assert(fam.contains(y));
        lemma_in_families(grid_of, nodes, gs, gs.len(), y);
        assert(fams.contains(y));
        let a = choose|a: int| 0 <= a < fams.len() && fams[a] == y;
        assert(out[first.len() + a] == y);
        assert(root(members[e]) == Some(p));
    }
}

// All levels.
/// Going up in two stages gives what going up in one gives, so that no level on
/// the way is left out.
pub proof fn law_levels_in_stages(
    grid_of: spec_fn(VoxelKey) -> VoxelGrid,
    nodes: Seq<NodeView>,
    max: int,
    mid: int,
    min: int,
)
    requires
        min <= mid <= max,
    ensures
        levels(grid_of, levels(grid_of, nodes, max, mid), mid, min) == levels(
            grid_of,
            nodes,
            max,
            min,
        ),
    decreases max - mid,
{
    if max > mid {
        law_levels_in_stages(grid_of, level_step(grid_of, nodes, max - 1), max - 1, mid, min);
    }
}

/// Whatever level the parents are made up to, the parents of that level are a
/// complete sample of their children.
pub proof fn law_levels_are_complete(
    grid_of: spec_fn(VoxelKey) -> VoxelGrid,
    nodes: Seq<NodeView>,
    max: int,
    min: int,
    i: int,
    j: int,
)
    requires
        i32::MIN <= min < max,
        levels(grid_of, nodes, max, min + 1).len() <= usize::MAX,
        keys_of(levels(grid_of, nodes, max, min + 1)).no_duplicates(),
        0 <= i < levels(grid_of, nodes, max, min).len(),
        levels(grid_of, nodes, max, min)[i].0.level == min + 1,
        0 <= j < levels(grid_of, nodes, max, min)[i].1.len(),
    ensures
        ({
            let out = levels(grid_of, nodes, max, min);
            let p = parent_key(out[i].0);
            let cell = grid_of(p).cell_of(out[i].1[j]);
            ||| node_has_cell(out, p, grid_of(p), cell)
            ||| lone_child_in_cell(out, p, grid_of(p), cell)
            ||| node_is_full(out, p)
        }),
{
    let before = levels(grid_of, nodes, max, min + 1);
    law_levels_in_stages(grid_of, nodes, max, min + 1, min);
    assert(levels(grid_of, level_step(grid_of, before, min), min, min) == level_step(
        grid_of,
        before,
        min,
    ));
    law_level_is_complete(grid_of, before, min, i, j);
}

/// The parents of a chunk are made from its deepest leaf on: no leaf lies deeper
/// than where they start.
pub proof fn law_deepest_leaf(leaves: Seq<(VoxelKey, Seq<usize>)>, leaf_depth: int)
    ensures
        deepest(leaves, leaf_depth) >= leaf_depth,
        forall|i: int|
            0 <= i < leaves.len() ==> (#[trigger] leaves[i]).0.level <= deepest(
                leaves,
                leaf_depth,
            ),
        deepest(leaves, leaf_depth) == leaf_depth || exists|i: int|
            0 <= i < leaves.len() && (#[trigger] leaves[i]).0.level == deepest(leaves, leaf_depth),
    decreases leaves.len(),
{
    if leaves.len() > 0 {
        let init = leaves.drop_last();
        law_deepest_leaf(init, leaf_depth);
        assert forall|i: int| 0 <= i < leaves.len() implies (#[trigger] leaves[i]).0.level
            <= deepest(leaves, leaf_depth) by {
            if i < init.len() {
                assert(init[i].0.level <= deepest(init, leaf_depth));
            }
        }
        if deepest(init, leaf_depth) != leaf_depth {
            let i = choose|i: int|
                0 <= i < init.len() && (#[trigger] init[i]).0.level == deepest(init, leaf_depth);
            assert(leaves[i] == init[i]);
        }
        assert(leaves[leaves.len() - 1] == leaves.last());
    }
}

/// The topmost nodes of a chunk are a complete sample of the nodes below them:
/// the parents of a chunk reach up to the chunk's own level.
#[verifier::rlimit(40)]
pub proof fn law_chunk_is_complete(
    grid_of: spec_fn(VoxelKey) -> VoxelGrid,
    chunk: PlannedChunk,
    points: Seq<PointView>,
    keys: Seq<VoxelKey>,
    i: int,
    j: int,
)
    requires
        points.len() == keys.len() <= usize::MAX,
        deep_keys(chunk, keys),
        0 <= i < chunk_nodes(grid_of, chunk, points, keys).len(),
        chunk_nodes(grid_of, chunk, points, keys)[i].0.level == chunk.level + 1,
        0 <= j < chunk_nodes(grid_of, chunk, points, keys)[i].1.len(),
    ensures
        ({
            let out = chunk_nodes(grid_of, chunk, points, keys);
            let p = parent_key(out[i].0);
            let cell = grid_of(p).cell_of(out[i].1[j]);
            ||| node_has_cell(out, p, grid_of(p), cell)
            ||| lone_child_in_cell(out, p, grid_of(p), cell)
            ||| node_is_full(out, p)
        }),
{
    let depth = leaf_depth_of(chunk);
    let gs = chunk_leaves(keys, depth);
    let all = all_indices(keys.len());
    let nodes = leaf_nodes(points, gs);
    let value = point_of(points);
    let max = deepest(gs, depth);
    let min = chunk.level as int;
    law_leaves_sort(keys, depth);
    lemma_leaf_keys(keys, depth);
    lemma_leaf_nodes_total(points, gs);
    assert(picked_groups(value, gs) == picked(value, all));
    lemma_picked_is_multiset(value, all);
    assert(all.map_values(value) =~= points);
    vstd::seq_lib::to_multiset_len(points);
    assert(keys_of(nodes) =~= gs.map_values(|l: (VoxelKey, Seq<usize>)| l.0));
    lemma_antichain(keys_of(nodes), max - 1);
    assert forall|a: int| 0 <= a < nodes.len() implies (#[trigger] nodes[a]).1.len() > 0 by {
        assert(gs[a].1.len() > 0);
    }
    law_deepest_leaf(gs, depth);
    if max <= min {
        assert(levels(grid_of, nodes, max, min) == nodes);
        assert(nodes[i].0 == gs[i].0);
    }
    law_levels_conserve(grid_of, nodes, max, min + 1);
    law_levels_keys(grid_of, nodes, max, min + 1);
    lemma_filled_len(levels(grid_of, nodes, max, min + 1));
    law_levels_are_complete(grid_of, nodes, max, min, i, j);
}

// Merging chunks.
/// A merge task writes each child once, with what is left to it, and its parent
/// where that has points; of the cell of each point that a child keeps, the
/// parent is written with a point too, or it is the cell of the one point of a
/// child, or the parent is full. Where no child has points nothing is written.
pub proof fn law_merge_is_complete(
    grid: VoxelGrid,
    task: TaskView,
    lists: Seq<Seq<PointView>>,
    c: int,
    j: int,
)
    requires
        lists.len() == task.1.len(),
        0 <= c < lists.len(),
        0 <= j < child_of_children(grid, lists, c).len(),
        tag_children(lists).len() > 0,
    ensures
        ({
            let ws = task_writes(grid, task, lists);
            let q = child_of_children(grid, lists, c)[j];
            let own = parent_of_children(grid, lists);
            &&& ws.len() >= lists.len()
            &&& ws[c] == (task.1[c], child_of_children(grid, lists, c))
            &&& own.len() > 0 <==> ws.len() == lists.len() + 1
            &&& own.len() > 0 ==> ws[lists.len() as int] == (task.0, own)
            &&& {
                ||| own.len() > 0 && holds_cell(own, grid, grid.cell_of(q))
                ||| exists|e: int|
                    {
                        &&& 0 <= e < lists.len()
                        &&& (#[trigger] ws[e]).1.len() == 1
                        &&& grid.cell_of(ws[e].1[0]) == grid.cell_of(q)
                    }
                ||| own.len() + lists.len() >= 2_097_152
            }
        }),
        forall|none: Seq<Seq<PointView>>|
            tag_children(none).len() == 0 ==> (#[trigger] task_writes(grid, task, none)).len() == 0,
{
    let pts = tag_children(lists);
    let n = lists.len();
    let own = parent_of_children(grid, lists);
    let ws = task_writes(grid, task, lists);
    let children = thinned_children(grid, task.1, lists);
    let cell = grid.cell_of(child_of_children(grid, lists, c)[j]);
    law_thinning_is_complete(grid, pts, n, c, j);
    lemma_single_bound(grid, pts, n);
    assert forall|e: int| 0 <= e < n implies #[trigger] ws[e] == (
        task.1[e],
        child_of_children(grid, lists, e),
    ) by {
        assert(children[e] == (task.1[e], child_of_children(grid, lists, e)));
    }
    if parent_has_cell(grid, pts, n, cell) {
        let m = choose|m: int|
            0 <= m < parent_share(grid, pts, n).len() && grid.cell_of(
                #[trigger] parent_share(grid, pts, n)[m],
            ) == cell;
        assert(grid.cell_of(own[m]) == cell);
    } else if single_in_cell(grid, pts, n, cell, -1) {
        let e = choose|e: int|
            {
                &&& 0 <= e < n
                &&& e != -1
                &&& (#[trigger] child_share(grid, pts, e)).len() == 1
                &&& grid.cell_of(child_share(grid, pts, e)[0]) == cell
            };
        assert(ws[e].1 == child_of_children(grid, lists, e));
    }
}

/// What was written under different keys is there.
proof fn lemma_written(s: Stored, ws: Seq<NodeView>, i: int)
    requires
        0 <= i < ws.len(),
        forall|a: int, b: int| 0 <= a < b < ws.len() ==> (#[trigger] ws[a]).0 != (#[trigger] ws[b]).0,
    ensures
        held_at(after_writes(s, ws), ws[i].0) == ws[i].1,
    decreases ws.len(),
{
    let init = ws.drop_last();
    if i < ws.len() - 1 {
        assert forall|a: int, b: int| 0 <= a < b < init.len() implies (#[trigger] init[a]).0 != (
        #[trigger] init[b]).0 by {
            assert(ws[a].0 != ws[b].0);
        }
        lemma_written(s, init, i);
        assert(ws[i].0 != ws[ws.len() - 1].0);
        assert(init[i] == ws[i]);
    }
}

/// Once the tasks of a level were run, the store holds for the parent of each a
/// complete sample of its children: of the cell of each point that is left to a
/// child the parent has a point too, or it is the cell of the only point of a
/// child, or the parent is full but for the points that children took back.
#[verifier::rlimit(40)]
pub proof fn law_merged_level_is_complete(
    grid_of: spec_fn(VoxelKey) -> VoxelGrid,
    s: Stored,
    tasks: Seq<TaskView>,
    t: int,
    c: int,
    j: int,
)
    requires
        separate(tasks),
        tasks.len() <= usize::MAX,
        0 <= t < tasks.len(),
        tasks[t].1.no_duplicates(),
        !tasks[t].1.contains(tasks[t].0),
        held_at(s, tasks[t].0) == Seq::<PointView>::empty(),
        0 <= c < tasks[t].1.len(),
        0 <= j < held_at(after_tasks(grid_of, s, tasks), tasks[t].1[c]).len(),
    ensures
        ({
            let after = after_tasks(grid_of, s, tasks);
            let (p, children) = tasks[t];
            let grid = grid_of(p);
            let cell = grid.cell_of(held_at(after, children[c])[j]);
            ||| holds_cell(held_at(after, p), grid, cell)
            ||| exists|e: int|
                {
                    &&& 0 <= e < children.len()
                    &&& held_at(after, #[trigger] children[e]).len() == 1
                    &&& grid.cell_of(held_at(after, children[e])[0]) == cell
                }
            ||| held_at(after, p).len() + children.len() >= 2_097_152
        }),
{
    let all = all_indices(tasks.len());
    let (p, children) = tasks[t];
    let grid = grid_of(p);
    let lists = lists_at(s, children);
    let ws = task_writes(grid, tasks[t], lists);
    let own = parent_of_children(grid, lists);
    let after = after_tasks(grid_of, s, tasks);
    let once = after_task(grid_of, s, tasks[t]);
    assert(picked_tasks(tasks, all) =~= tasks);
    assert(all[t] == t);
    assert forall|k: VoxelKey| #[trigger] touches(tasks[t], k) implies held_at(after, k) == held_at(
        once,
        k,
    ) by {
        lemma_tasks_entry(grid_of, s, tasks, all, k);
        assert(entry(after, k) == entry(once, k));
    }
    assert forall|e: int| 0 <= e < children.len() implies touches(
        tasks[t],
        #[trigger] children[e],
    ) by {}
    assert(touches(tasks[t], p));
    assert(touches(tasks[t], children[c]));
    if tag_children(lists).len() == 0 {
        assert(once == s);
        assert(lists[c] == held_at(s, children[c]));
        lemma_some_points(lists, c);
    }
    let thin = thinned_children(grid, children, lists);
    assert forall|e: int| 0 <= e < children.len() implies ws[e] == (
        #[trigger] children[e],
        child_of_children(grid, lists, e),
    ) by {
        assert(thin[e] == (children[e], child_of_children(grid, lists, e)));
    }
    assert forall|a: int, b: int| 0 <= a < b < ws.len() implies (#[trigger] ws[a]).0 != (
    #[trigger] ws[b]).0 by {
        assert(ws[a].0 == children[a]);
        if b < children.len() {
            assert(ws[b].0 == children[b]);
        } else {
            assert(children.contains(children[a]));
        }
    }
    assert forall|e: int| 0 <= e < children.len() implies held_at(after, #[trigger] children[e])
        == child_of_children(grid, lists, e) by {
        assert(touches(tasks[t], children[e]));
        lemma_written(s, ws, e);
    }
    assert(held_at(after, p) == own) by {
        if own.len() > 0 {
            lemma_written(s, ws, children.len() as int);
        } else {
            assert forall|a: int| 0 <= a < ws.len() implies (#[trigger] ws[a]).0 != p by {
                assert(ws[a].0 == children[a]);
                assert(children.contains(children[a]));
            }
            lemma_unwritten(s, ws, p);
            assert(own =~= Seq::<PointView>::empty());
        }
    }
    law_merge_is_complete(grid, tasks[t], lists, c, j);
    let cell = grid.cell_of(held_at(after, children[c])[j]);
    if exists|e: int|
        {
            &&& 0 <= e < lists.len()
            &&& (#[trigger] ws[e]).1.len() == 1
            &&& grid.cell_of(ws[e].1[0]) == cell
        } {
        let e = choose|e: int|
            {
                &&& 0 <= e < lists.len()
                &&& (#[trigger] ws[e]).1.len() == 1
                &&& grid.cell_of(ws[e].1[0]) == cell
            };
        assert(ws[e] == (children[e], child_of_children(grid, lists, e)));
        assert(held_at(after, children[e]).len() == 1);
    }
}

/// The levels of the merge are run one after another, all tasks of each.
pub proof fn law_levels_one_by_one(
    grid_of: spec_fn(VoxelKey) -> VoxelGrid,
    s: Stored,
    a: Seq<Seq<TaskView>>,
    tasks: Seq<TaskView>,
)
    ensures
        after_levels(grid_of, s, a.push(tasks)) == after_tasks(
            grid_of,
            after_levels(grid_of, s, a),
            tasks,
        ),
        after_levels(grid_of, s, Seq::empty()) == s,
    decreases a.len(),
{
    let all = a.push(tasks);
    if a.len() == 0 {
        assert(all.drop_first() =~= Seq::<Seq<TaskView>>::empty());
        assert(all[0] == tasks);
        reveal_with_fuel(after_levels, 3);
    } else {
        assert(all[0] == a[0]);
        assert(all.drop_first() =~= a.drop_first().push(tasks));
        law_levels_one_by_one(grid_of, after_tasks(grid_of, s, a[0]), a.drop_first(), tasks);
    }
}

/// The points of two lists of children are those of both together.
pub proof fn law_counts_by_parts(a: Seq<u64>, b: Seq<u64>, n: u64)
    ensures
        sum_counts(a + b) == sum_counts(a) + sum_counts(b),
        sum_counts(seq![n]) == n,
        sum_counts(Seq::<u64>::empty()) == 0,
    decreases b.len(),
{
    assert(seq![n].drop_last() =~= Seq::<u64>::empty());
    assert(sum_counts(seq![n]) == sum_counts(Seq::<u64>::empty()) + seq![n].last());
    if b.len() == 0 {
        assert(a + b =~= a);
    } else {
        law_counts_by_parts(a, b.drop_last(), n);
        assert((a + b).drop_last() =~= a + b.drop_last());
        assert((a + b).last() == b.last());
    }
}

/// The merge starts from every node at the level of its chunk, and from no other:
/// all that the chunks of a batch have there are among its roots.
pub proof fn law_batch_roots(
    chunks: Seq<PlannedChunk>,
    batch: Seq<usize>,
    nodes: Seq<Seq<VoxelKey>>,
    k: VoxelKey,
)
    ensures
        batch_roots(chunks, batch, nodes).contains(k) <==> exists|i: int|
            {
                &&& 0 <= i < nodes.len()
                &&& (#[trigger] nodes[i]).contains(k)
                &&& k.level == chunks[batch[i] as int].level
            },
    decreases nodes.len(),
{
    if nodes.len() > 0 {
        let init = nodes.drop_last();
        let n = nodes.len() - 1;
        let level = chunks[batch[n] as int].level as int;
        let (a, b) = (batch_roots(chunks, batch, init), at_level(nodes.last(), level));
        law_batch_roots(chunks, batch, init, k);
        lemma_at_level(nodes.last(), level);
        lemma_in_either(a, b, k);
        assert(nodes[n] == nodes.last());
        if a.contains(k) {
            let i = choose|i: int|
                {
                    &&& 0 <= i < init.len()
                    &&& (#[trigger] init[i]).contains(k)
                    &&& k.level == chunks[batch[i] as int].level
                };
            assert(nodes[i] == init[i]);
        }
        if exists|i: int|
            {
                &&& 0 <= i < nodes.len()
                &&& (#[trigger] nodes[i]).contains(k)
                &&& k.level == chunks[batch[i] as int].level
            } {
            let i = choose|i: int|
                {
                    &&& 0 <= i < nodes.len()
                    &&& (#[trigger] nodes[i]).contains(k)
                    &&& k.level == chunks[batch[i] as int].level
                };
            if i < n {
                assert(init[i] == nodes[i]);
            }
        }
    }
}

proof fn lemma_in_either(a: Seq<VoxelKey>, b: Seq<VoxelKey>, k: VoxelKey)
    ensures
        (a + b).contains(k) <==> a.contains(k) || b.contains(k),
{
    if a.contains(k) {
        let i = choose|i: int| 0 <= i < a.len() && a[i] == k;
        assert((a + b)[i] == k);
    }
    if b.contains(k) {
        let i = choose|i: int| 0 <= i < b.len() && b[i] == k;
        assert((a + b)[a.len() + i] == k);
    }
    if (a + b).contains(k) {
        let i = choose|i: int| 0 <= i < (a + b).len() && (a + b)[i] == k;
        if i >= a.len() {
            assert(b[i - a.len()] == k);
        }
    }
}

/// Every key that the chunks of a batch report is noted.
pub proof fn law_all_keys(nodes: Seq<Seq<VoxelKey>>, k: VoxelKey)
    ensures
        all_keys(nodes).contains(k) <==> exists|i: int|
            0 <= i < nodes.len() && (#[trigger] nodes[i]).contains(k),
    decreases nodes.len(),
{
    if nodes.len() > 0 {
        let init = nodes.drop_last();
        let n = nodes.len() - 1;
        law_all_keys(init, k);
        lemma_in_either(all_keys(init), nodes.last(), k);
        assert(nodes[n] == nodes.last());
        if all_keys(init).contains(k) {
            let i = choose|i: int| 0 <= i < init.len() && (#[trigger] init[i]).contains(k);
            assert(nodes[i] == init[i]);
        }
        if exists|i: int| 0 <= i < nodes.len() && (#[trigger] nodes[i]).contains(k) {
            let i = choose|i: int| 0 <= i < nodes.len() && (#[trigger] nodes[i]).contains(k);
            if i < n {
                assert(init[i] == nodes[i]);
            }
        }
    }
}

// All files.
/// The points of all files are those of both parts together, and the bounds of
/// all files are those of the first part united with those of the next file.
pub proof fn law_files_together(a: Seq<ScanResult>, b: Seq<ScanResult>, r: ScanResult)
    ensures
        all_count(a + b) == all_count(a) + all_count(b),
        all_count(seq![r]) == r.point_count,
        all_count(Seq::<ScanResult>::empty()) == 0,
        all_bounds(a.push(r)) == united(all_bounds(a), r.bounds),
        all_bounds(Seq::<ScanResult>::empty()) == empty_bounds(),
    decreases b.len(),
{
    assert(seq![r].drop_last() =~= Seq::<ScanResult>::empty());
    assert(all_count(seq![r]) == all_count(Seq::<ScanResult>::empty()) + seq![r].last().point_count);
    assert(a.push(r).drop_last() =~= a);
    assert(a.push(r).last() == r);
    if b.len() == 0 {
        assert(a + b =~= a);
    } else {
        law_files_together(a, b.drop_last(), r);
        assert((a + b).drop_last() =~= a + b.drop_last());
        assert((a + b).last() == b.last());
    }
}

/// The bounds of all files hold the point of each file, wherever its bounds hold
/// one.
pub proof fn law_bounds_of_all(results: Seq<ScanResult>, i: int, x: u64, y: u64, z: u64)
    requires
        forall|k: int| 0 <= k < results.len() ==> is_numeric((#[trigger] results[k]).bounds),
        0 <= i < results.len(),
        holds(results[i].bounds, x, y, z),
    ensures
        is_numeric(all_bounds(results)),
        holds(all_bounds(results), x, y, z),
    decreases results.len(),
{
    let init = results.drop_last();
    assert forall|k: int| 0 <= k < init.len() implies is_numeric((#[trigger] init[k]).bounds) by {
        assert(init[k] == results[k]);
    }
    lemma_all_numeric(init);
    assert(is_numeric(results[results.len() - 1].bounds));
    if i < init.len() {
        law_bounds_of_all(init, i, x, y, z);
    }
    law_united_holds_both(all_bounds(init), results.last().bounds, x, y, z);
    law_united_is_tight(all_bounds(init), results.last().bounds);
}

proof fn lemma_all_numeric(results: Seq<ScanResult>)
    requires
        forall|k: int| 0 <= k < results.len() ==> is_numeric((#[trigger] results[k]).bounds),
    ensures
        is_numeric(all_bounds(results)),
    decreases results.len(),
{
    if results.len() == 0 {
        law_expanded_holds_point(empty_bounds(), 0, 0, 0);
    } else {
        let init = results.drop_last();
        assert forall|k: int| 0 <= k < init.len() implies is_numeric(
            (#[trigger] init[k]).bounds,
        ) by {
            assert(init[k] == results[k]);
        }
        lemma_all_numeric(init);
        assert(is_numeric(results[results.len() - 1].bounds));
        law_united_is_tight(all_bounds(init), results.last().bounds);
    }
}

} // verus!
