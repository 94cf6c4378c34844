//! From the batches of points that are read to the points of the chunks, and on
//! to the list of nodes: no point is lost or doubled on the way.

use crate::assembly::held_at;
use crate::chunk_build::deep_keys;
use crate::chunking::{
    cell_number, flat_index, law_distributed_point_in_chunk, owner, ChunkPlan,
};
use crate::config::TempCompression;
use crate::conservation::{
    all_located, build_keys, chunk_points, chunks_of, final_store,
    law_node_list_counts_every_point, law_node_list_matches_store, located, store_counts,
    ChunkData,
};
use crate::distribute::{chunk_ids, lemma_parts, parts_of, points_of};
use crate::grouping::gathered;
use crate::key::{ancestor, lemma_ancestor_level, pow2, valid_key, VoxelKey};
use crate::node_map::{filled, node_list, with_ancestors};
use crate::planner::{
    apart, in_level, law_counted_cell_has_chunk, law_plan_apart, voxel_chunks, voxel_count,
};
use crate::point::PointView;
use crate::sampling::{sum_of, VoxelGrid};
use crate::sorting::is_permutation;
use crate::temp::{
    all_points, encoded_batches, law_batches_round_trip, law_joined_files_hold_both, temp_points,
    written_batches, TempReadError,
};
use crate::writer::total_count;
use vstd::multiset::Multiset;
use vstd::prelude::*;

verus! {

/// A batch of points with the chunk of each.
pub type Batch = (Seq<u32>, Seq<PointView>);

/// All points of all batches.
pub open spec fn batch_points(batches: Seq<Batch>) -> Multiset<PointView>
    decreases batches.len(),
{
    if batches.len() == 0 {
        Multiset::empty()
    } else {
        batch_points(batches.drop_last()).add(batches.last().1.to_multiset())
    }
}

/// What is appended to the file of chunk `c`, batch by batch: the points of the
/// chunk, where a batch has any.
pub open spec fn file_batches(batches: Seq<Batch>, c: u32) -> Seq<Seq<PointView>>
    decreases batches.len(),
{
    if batches.len() == 0 {
        Seq::empty()
    } else {
        let rest = file_batches(batches.drop_last(), c);
        let own = points_of(batches.last().0, batches.last().1, c);
        if own.len() > 0 {
            rest.push(own)
        } else {
            rest
        }
    }
}

/// The points that the file of chunk `c` holds.
pub open spec fn file_points(batches: Seq<Batch>, c: u32) -> Seq<PointView> {
    all_points(file_batches(batches, c))
}

/// The file of a chunk is read back as the points that were appended to it, with
/// either codec.
pub proof fn law_chunk_file_reads_back(
    batches: Seq<Batch>,
    c: u32,
    num_extra_bytes: nat,
    codec: TempCompression,
)
    requires
        written_batches(file_batches(batches, c), num_extra_bytes, codec),
    ensures
        temp_points(encoded_batches(file_batches(batches, c), codec), num_extra_bytes, codec) == Ok::<
            Seq<PointView>,
            TempReadError,
        >(file_points(batches, c)),
{
    law_batches_round_trip(file_batches(batches, c), num_extra_bytes, codec);
}

/// Putting the files of two workers behind one another makes the file that one
/// worker would have made of the batches of both.
pub proof fn law_shards_make_the_file(a: Seq<Batch>, b: Seq<Batch>, c: u32, codec: TempCompression)
    ensures
        encoded_batches(file_batches(a + b, c), codec) == encoded_batches(
            file_batches(a, c),
            codec,
        ) + encoded_batches(file_batches(b, c), codec),
{
    lemma_file_concat(a, b, c);
    law_joined_files_hold_both(file_batches(a, c), file_batches(b, c), codec);
}

proof fn lemma_file_concat(a: Seq<Batch>, b: Seq<Batch>, c: u32)
    ensures
        file_batches(a + b, c) == file_batches(a, c) + file_batches(b, c),
    decreases b.len(),
{
    if b.len() == 0 {
        assert(a + b =~= a);
        assert(file_batches(a, c) + file_batches(b, c) =~= file_batches(a, c));
    } else {
        lemma_file_concat(a, b.drop_last(), c);
        assert((a + b).drop_last() =~= a + b.drop_last());
        assert(file_batches(a + b, c) =~= file_batches(a, c) + file_batches(b, c));
    }
}

proof fn lemma_one_batch(own: Seq<PointView>)
    ensures
        all_points(seq![own]) == own,
{
    let none = Seq::<Seq<PointView>>::empty();
    assert(seq![own].drop_first() =~= none);
    assert(all_points(none) =~= Seq::<PointView>::empty());
    assert(all_points(seq![own]) =~= own + all_points(none));
    assert(own + all_points(none) =~= own);
}

/// The chunks, by number.
pub open spec fn numbers(n: nat) -> Seq<u32> {
    Seq::new(n, |i: int| i as u32)
}

/// What the files hold, by number.
pub open spec fn files_hold(batches: Seq<Batch>) -> spec_fn(int) -> Multiset<PointView> {
    |c: int| file_points(batches, c as u32).to_multiset()
}

/// Every point has a chunk among the first `n`.
pub open spec fn chunks_below(batches: Seq<Batch>, n: nat) -> bool {
    forall|b: int|
        0 <= b < batches.len() ==> {
            &&& (#[trigger] batches[b]).0.len() == batches[b].1.len()
            &&& forall|i: int| 0 <= i < batches[b].0.len() ==> #[trigger] batches[b].0[i] < n
        }
}

proof fn lemma_sum_add<T>(
    f: spec_fn(int) -> Multiset<T>,
    g: spec_fn(int) -> Multiset<T>,
    h: spec_fn(int) -> Multiset<T>,
    n: nat,
)
    requires
        forall|i: int| 0 <= i < n ==> #[trigger] h(i) == f(i).add(g(i)),
    ensures
        sum_of(h, n) == sum_of(f, n).add(sum_of(g, n)),
    decreases n,
{
    if n > 0 {
        let m = (n - 1) as nat;
        lemma_sum_add(f, g, h, m);
        assert(h(n - 1) == f(n - 1).add(g(n - 1)));
        let l = sum_of(h, n);
        let r = sum_of(f, n).add(sum_of(g, n));
        assert forall|v: T| #[trigger] l.count(v) == r.count(v) by {
            assert(l.count(v) == sum_of(h, m).count(v) + h(n - 1).count(v));
            assert(h(n - 1).count(v) == f(n - 1).count(v) + g(n - 1).count(v));
            assert(sum_of(h, m).count(v) == sum_of(f, m).count(v) + sum_of(g, m).count(v));
            assert(sum_of(f, n).count(v) == sum_of(f, m).count(v) + f(n - 1).count(v));
            assert(sum_of(g, n).count(v) == sum_of(g, m).count(v) + g(n - 1).count(v));
        }
        assert(l =~= r);
    } else {
        assert(sum_of(h, n) =~= sum_of(f, n).add(sum_of(g, n)));
    }
}

/// The files of the chunks together hold every point of every batch exactly
/// once.
pub proof fn law_distribution_keeps_every_point(batches: Seq<Batch>, n: nat)
    requires
        n <= u32::MAX,
        chunks_below(batches, n),
    ensures
        sum_of(files_hold(batches), n) == batch_points(batches),
    decreases batches.len(),
{
    broadcast use vstd::seq_lib::group_to_multiset_ensures;

    if batches.len() == 0 {
        assert forall|c: int| 0 <= c < n implies #[trigger] files_hold(batches)(c) == Multiset::<
            PointView,
        >::empty() by {
            vstd::seq_lib::to_multiset_len(file_points(batches, c as u32));
            assert(files_hold(batches)(c) =~= Multiset::<PointView>::empty());
        }
        crate::sampling::lemma_sum_empty(files_hold(batches), n);
    } else {
        let init = batches.drop_last();
        let last = batches.last();
        assert(batches[batches.len() - 1] == last);
        assert forall|b: int| 0 <= b < init.len() implies {
            &&& (#[trigger] init[b]).0.len() == init[b].1.len()
            &&& forall|i: int| 0 <= i < init[b].0.len() ==> #[trigger] init[b].0[i] < n
        } by {
            assert(batches[b] == init[b]);
        }
        law_distribution_keeps_every_point(init, n);
        let cs = numbers(n);
        assert forall|j: int| 0 <= j < last.0.len() implies cs.contains(#[trigger] last.0[j]) by {
            assert(batches[batches.len() - 1].0[j] < n);
            assert(cs[last.0[j] as int] == last.0[j]);
        }
        lemma_parts(last.0, last.1, cs);
        let parts = parts_of(last.0, last.1, cs);
        assert forall|c: int| 0 <= c < n implies #[trigger] files_hold(batches)(c) == files_hold(
            init,
        )(c).add(parts(c)) by {
            let own = points_of(last.0, last.1, c as u32);
            let rest = file_batches(init, c as u32);
            assert(cs[c] == c as u32);
            if own.len() > 0 {
                let one = seq![own];
                assert(rest.push(own) =~= rest + one);
                law_joined_files_hold_both(rest, one, TempCompression::Uncompressed);
                lemma_one_batch(own);
                vstd::seq_lib::lemma_multiset_commutative(all_points(rest), own);
            } else {
                vstd::seq_lib::to_multiset_len(own);
                assert(own.to_multiset() =~= Multiset::<PointView>::empty());
                assert(files_hold(init)(c).add(parts(c)) =~= files_hold(init)(c));
            }
        }
        lemma_sum_add(files_hold(init), parts, files_hold(batches), n);
    }
}

// From the chunk files to the nodes.
proof fn lemma_gathered_remove<T>(f: spec_fn(usize) -> Multiset<T>, sel: Seq<usize>, j: int)
    requires
        0 <= j < sel.len(),
    ensures
        gathered(f, sel) == gathered(f, sel.remove(j)).add(f(sel[j])),
    decreases sel.len(),
{
    let rest = sel.remove(j);
    if j == sel.len() - 1 {
        assert(rest =~= sel.drop_last());
    } else {
        let init = sel.drop_last();
        lemma_gathered_remove(f, init, j);
        assert(rest.drop_last() =~= init.remove(j));
        assert(rest.last() == sel.last());
        let l = gathered(f, sel);
        let r = gathered(f, rest).add(f(sel[j]));
        assert forall|v: T| #[trigger] l.count(v) == r.count(v) by {
            assert(l.count(v) == gathered(f, init).count(v) + f(sel.last()).count(v));
            assert(gathered(f, init).count(v) == gathered(f, init.remove(j)).count(v) + f(
                init[j],
            ).count(v));
            assert(gathered(f, rest).count(v) == gathered(f, init.remove(j)).count(v) + f(
                sel.last(),
            ).count(v));
        }
        assert(l =~= r);
    }
}

/// In whatever order all numbers are taken, the same is gathered.
proof fn lemma_gathered_permutation<T>(
    f: spec_fn(usize) -> Multiset<T>,
    g: spec_fn(int) -> Multiset<T>,
    order: Seq<usize>,
    n: nat,
)
    requires
        is_permutation(order, n),
        n <= usize::MAX,
        forall|i: int| 0 <= i < n ==> #[trigger] g(i) == f(i as usize),
    ensures
        gathered(f, order) == sum_of(g, n),
    decreases n,
{
    if n > 0 {
        let top = (n - 1) as usize;
        assert(order.contains(top));
        let j = choose|j: int| 0 <= j < order.len() && order[j] == top;
        let rest = order.remove(j);
        assert forall|i: int| 0 <= i < rest.len() implies #[trigger] rest[i] < n - 1 by {
            if i < j {
                assert(rest[i] == order[i]);
            } else {
                assert(rest[i] == order[i + 1]);
            }
        }
        assert(rest.no_duplicates()) by {
            assert forall|a: int, b: int| 0 <= a < rest.len() && 0 <= b < rest.len() && a
                != b implies rest[a] != rest[b] by {
                let a2 = if a < j {
                    a
                } else {
                    a + 1
                };
                let b2 = if b < j {
                    b
                } else {
                    b + 1
                };
                assert(rest[a] == order[a2] && rest[b] == order[b2]);
            }
        }
        assert forall|v: usize| v < n - 1 implies #[trigger] rest.contains(v) by {
            assert(order.contains(v));
            let k = choose|k: int| 0 <= k < order.len() && order[k] == v;
            if k < j {
                assert(rest[k] == v);
            } else {
                assert(rest[k - 1] == v);
            }
        }
        lemma_gathered_permutation(f, g, rest, (n - 1) as nat);
        lemma_gathered_remove(f, order, j);
        assert(g(n - 1) == f(top));
    }
}

/// The chunks in the order in which they are built, each with the points of its
/// file and their keys.
pub open spec fn built_from(
    plan: ChunkPlan,
    batches: Seq<Batch>,
    loc: spec_fn(PointView) -> VoxelKey,
    order: Seq<usize>,
    data: Seq<ChunkData>,
) -> bool {
    &&& is_permutation(order, plan.chunks@.len())
    &&& data.len() == order.len()
    &&& forall|i: int|
        0 <= i < data.len() ==> {
            &&& (#[trigger] data[i]).0 == plan.chunks@[order[i] as int]
            &&& data[i].1 == file_points(batches, order[i] as u32)
            &&& data[i].2 == data[i].1.map_values(loc)
            &&& deep_keys(data[i].0, data[i].2)
        }
}

/// The cell of the grid that a point lies in.
pub open spec fn cell_of(
    plan: ChunkPlan,
    loc: spec_fn(PointView) -> VoxelKey,
    p: PointView,
) -> VoxelKey {
    ancestor(loc(p), plan.grid_depth as int)
}

/// Every point has the chunk that covers its cell, and was counted there.
pub open spec fn distributed_by(
    plan: ChunkPlan,
    counts: Seq<u64>,
    loc: spec_fn(PointView) -> VoxelKey,
    batch: Batch,
) -> bool {
    &&& batch.0.len() == batch.1.len()
    &&& forall|i: int|
        0 <= i < batch.1.len() ==> {
            let p = #[trigger] batch.1[i];
            let cell = cell_of(plan, loc, p);
            &&& valid_key(loc(p))
            &&& plan.grid_depth <= loc(p).level
            &&& batch.0[i] == owner(
                plan,
                plan.chunks@.len(),
                cell.x as int,
                cell.y as int,
                cell.z as int,
            )
            &&& counts[flat_index(
                cell.x as int,
                cell.y as int,
                cell.z as int,
                pow2(plan.grid_depth as nat) as int,
            )] > 0
        }
}

/// The plan is the one that was made from the counts.
pub open spec fn plan_of(plan: ChunkPlan, counts: Seq<u64>) -> bool {
    &&& plan.wf()
    &&& plan.grid_depth <= 20
    &&& plan.chunks@ == voxel_chunks(
        counts,
        plan.grid_depth as nat,
        plan.chunk_target,
        0,
        0,
        0,
        0,
    )
    &&& voxel_count(counts, plan.grid_depth as nat, 0, 0, 0, 0) <= u64::MAX
}

/// A point with the number of chunk `c` lies in its voxel.
proof fn lemma_in_chunk(
    plan: ChunkPlan,
    counts: Seq<u64>,
    loc: spec_fn(PointView) -> VoxelKey,
    batch: Batch,
    i: int,
)
    requires
        plan_of(plan, counts),
        distributed_by(plan, counts, loc, batch),
        0 <= i < batch.1.len(),
    ensures
        batch.0[i] < plan.chunks@.len(),
        ancestor(
            loc(batch.1[i]),
            plan.chunks@[batch.0[i] as int].level as int,
        ) == crate::chunking::chunk_root(plan.chunks@[batch.0[i] as int]),
{
    let p = batch.1[i];
    let cell = cell_of(plan, loc, p);
    lemma_ancestor_level(loc(p), plan.grid_depth as int);
    assert(in_level(plan.grid_depth as nat, cell.x as int, cell.y as int, cell.z as int));
    law_counted_cell_has_chunk(
        counts,
        plan.chunk_target,
        plan,
        cell.x as int,
        cell.y as int,
        cell.z as int,
    );
    law_distributed_point_in_chunk(plan, loc(p));
}

proof fn lemma_points_of_sound(ids: Seq<u32>, points: Seq<PointView>, c: u32, p: PointView) -> (i:
    int)
    requires
        ids.len() == points.len(),
        points_of(ids, points, c).contains(p),
    ensures
        0 <= i < ids.len(),
        ids[i] == c,
        points[i] == p,
    decreases ids.len(),
{
    let all = points_of(ids, points, c);
    let j = choose|j: int| 0 <= j < all.len() && all[j] == p;
    let init = points_of(ids.drop_last(), points.drop_last(), c);
    if j < init.len() {
        assert(init[j] == p);
        assert(init.contains(p));
        lemma_points_of_sound(ids.drop_last(), points.drop_last(), c, p)
    } else {
        ids.len() - 1
    }
}

/// Every point of a chunk file was in a batch, under the chunk's number.
proof fn lemma_file_points_sound(batches: Seq<Batch>, c: u32, p: PointView) -> (r: (int, int))
    requires
        forall|b: int| 0 <= b < batches.len() ==> (#[trigger] batches[b]).0.len()
            == batches[b].1.len(),
        file_points(batches, c).contains(p),
    ensures
        0 <= r.0 < batches.len(),
        0 <= r.1 < batches[r.0].1.len(),
        batches[r.0].0[r.1] == c,
        batches[r.0].1[r.1] == p,
    decreases batches.len(),
{
    if batches.len() == 0 {
        assert(file_points(batches, c) =~= Seq::<PointView>::empty());
        (0, 0)
    } else {
        let init = batches.drop_last();
        let last = batches.last();
        assert(batches[batches.len() - 1] == last);
        assert forall|b: int| 0 <= b < init.len() implies (#[trigger] init[b]).0.len()
            == init[b].1.len() by {
            assert(init[b] == batches[b]);
        }
        let own = points_of(last.0, last.1, c);
        let rest = file_batches(init, c);
        if own.len() > 0 {
            let one = seq![own];
            assert(rest.push(own) =~= rest + one);
            law_joined_files_hold_both(rest, one, TempCompression::Uncompressed);
            lemma_one_batch(own);
            let all = file_points(batches, c);
            let j = choose|j: int| 0 <= j < all.len() && all[j] == p;
            if j < all_points(rest).len() {
                assert(all_points(rest)[j] == p);
                assert(file_points(init, c).contains(p));
                let r = lemma_file_points_sound(init, c, p);
                assert(init[r.0] == batches[r.0]);
                r
            } else {
                assert(own[j - all_points(rest).len()] == p);
                assert(own.contains(p));
                let i = lemma_points_of_sound(last.0, last.1, c, p);
                (batches.len() - 1, i)
            }
        } else {
            let r = lemma_file_points_sound(init, c, p);
            assert(init[r.0] == batches[r.0]);
            r
        }
    }
}

/// The points of the chunks, in the order of building, are those of the files.
proof fn lemma_built_points(
    batches: Seq<Batch>,
    order: Seq<usize>,
    data: Seq<ChunkData>,
    n: nat,
)
    requires
        n <= data.len() == order.len(),
        forall|i: int|
            0 <= i < data.len() ==> (#[trigger] data[i]).1 == file_points(
                batches,
                order[i] as u32,
            ),
    ensures
        chunk_points(data.take(n as int)) == gathered(
            |c: usize| file_points(batches, c as u32).to_multiset(),
            order.take(n as int),
        ),
    decreases n,
{
    if n > 0 {
        lemma_built_points(batches, order, data, (n - 1) as nat);
        assert(data.take(n as int).drop_last() =~= data.take(n - 1));
        assert(order.take(n as int).drop_last() =~= order.take(n - 1));
        assert(data[n - 1].1 == file_points(batches, order[n - 1] as u32));
    }
}

/// The numbers that a batch gets from the table are those of the chunks that
/// cover the points' cells.
pub proof fn law_ids_are_owners(plan: ChunkPlan, lut: Seq<u32>, keys: Seq<VoxelKey>, i: int)
    requires
        0 <= i < keys.len(),
        valid_key(keys[i]),
        keys[i].level == plan.grid_depth,
        plan.grid_size == pow2(plan.grid_depth as nat),
        forall|x: int, y: int, z: int|
            0 <= x < plan.grid_size && 0 <= y < plan.grid_size && 0 <= z < plan.grid_size
                ==> lut[#[trigger] flat_index(x, y, z, plan.grid_size as int)] == owner(
                plan,
                plan.chunks@.len(),
                x,
                y,
                z,
            ),
    ensures
        chunk_ids(lut, plan.grid_size, keys)[i] == owner(
            plan,
            plan.chunks@.len(),
            keys[i].x as int,
            keys[i].y as int,
            keys[i].z as int,
        ),
{
    let k = keys[i];
    assert(cell_number(k, plan.grid_size) == flat_index(
        k.x as int,
        k.y as int,
        k.z as int,
        plan.grid_size as int,
    ));
}

/// From the batches that are read to the list of nodes every point is kept: the
/// nodes of the list together count as many points as the batches hold, for any
/// plan and any order in which the chunks are built, and each node has the count
/// of what the store holds for it.
pub proof fn law_conversion_keeps_every_point(
    grid_of: spec_fn(VoxelKey) -> VoxelGrid,
    plan: ChunkPlan,
    cells: Seq<u64>,
    batches: Seq<Batch>,
    loc: spec_fn(PointView) -> VoxelKey,
    order: Seq<usize>,
    data: Seq<ChunkData>,
    keys: Seq<VoxelKey>,
    counts: Seq<u64>,
)
    requires
        plan_of(plan, cells),
        forall|b: int|
            0 <= b < batches.len() ==> distributed_by(plan, cells, loc, #[trigger] batches[b]),
        batch_points(batches).len() <= usize::MAX,
        built_from(plan, batches, loc, order, data),
        build_keys(grid_of, data, keys),
        store_counts(final_store(grid_of, data), keys, counts),
        with_ancestors(filled(keys, counts)).len() <= usize::MAX,
    ensures
        chunk_points(data) == batch_points(batches),
        total_count(node_list(keys, counts)) == batch_points(batches).len(),
        forall|j: int|
            0 <= j < node_list(keys, counts).len() ==> (#[trigger] node_list(keys, counts)[j]).1
                == held_at(final_store(grid_of, data), node_list(keys, counts)[j].0).len(),
{
    let n = plan.chunks@.len();
    assert(chunks_below(batches, n)) by {
        assert forall|b: int| 0 <= b < batches.len() implies {
            &&& (#[trigger] batches[b]).0.len() == batches[b].1.len()
            &&& forall|i: int| 0 <= i < batches[b].0.len() ==> #[trigger] batches[b].0[i] < n
        } by {
            assert(distributed_by(plan, cells, loc, batches[b]));
            assert forall|i: int| 0 <= i < batches[b].0.len() implies #[trigger] batches[b].0[i]
                < n by {
                lemma_in_chunk(plan, cells, loc, batches[b], i);
            }
        }
    }
    law_distribution_keeps_every_point(batches, n);
    let f = |c: usize| file_points(batches, c as u32).to_multiset();
    lemma_built_points(batches, order, data, data.len());
    assert(data.take(data.len() as int) =~= data);
    assert(order.take(order.len() as int) =~= order);
    lemma_gathered_permutation(f, files_hold(batches), order, n);
    assert(chunk_points(data) == batch_points(batches));
    assert forall|d: int| 0 <= d < data.len() implies located(#[trigger] data[d], loc) by {
        let c = order[d] as u32;
        let chunk = data[d].0;
        assert(chunk == plan.chunks@[c as int]);
        assert(crate::chunking::chunk_fits(plan.chunks@[c as int], plan.grid_depth));
        assert forall|i: int| 0 <= i < data[d].2.len() implies {
            &&& #[trigger] data[d].2[i] == loc(data[d].1[i])
            &&& ancestor(data[d].2[i], chunk.level as int) == crate::chunking::chunk_root(chunk)
        } by {
            let p = data[d].1[i];
            assert(file_points(batches, c).contains(p));
            assert forall|b: int| 0 <= b < batches.len() implies (#[trigger] batches[b]).0.len()
                == batches[b].1.len() by {
                assert(distributed_by(plan, cells, loc, batches[b]));
            }
            let r = lemma_file_points_sound(batches, c, p);
            assert(distributed_by(plan, cells, loc, batches[r.0]));
            lemma_in_chunk(plan, cells, loc, batches[r.0], r.1);
        }
    }
    assert(all_located(data, loc));
    law_plan_apart(cells, plan.grid_depth, plan.chunk_target);
    lemma_apart_in_order(plan, order, data);
    law_node_list_counts_every_point(grid_of, data, loc, keys, counts);
    assert forall|j: int| 0 <= j < node_list(keys, counts).len() implies (#[trigger] node_list(
        keys,
        counts,
    )[j]).1 == held_at(final_store(grid_of, data), node_list(keys, counts)[j].0).len() by {
        law_node_list_matches_store(grid_of, data, loc, keys, counts, j);
    }
}

/// Chunks are apart in whatever order they come.
proof fn lemma_apart_in_order(plan: ChunkPlan, order: Seq<usize>, data: Seq<ChunkData>)
    requires
        apart(plan.chunks@),
        is_permutation(order, plan.chunks@.len()),
        data.len() == order.len(),
        forall|i: int|
            0 <= i < data.len() ==> (#[trigger] data[i]).0 == plan.chunks@[order[i] as int],
    ensures
        apart(chunks_of(data)),
{
    let cs = chunks_of(data);
    assert forall|i: int, j: int|
        0 <= i < cs.len() && 0 <= j < cs.len() && i != j && cs[i].level
            <= cs[j].level implies ancestor(
        #[trigger] crate::chunking::chunk_root(cs[j]),
        cs[i].level as int,
    ) != #[trigger] crate::chunking::chunk_root(cs[i]) by {
        assert(order[i] != order[j]);
        assert(data[i].0 == plan.chunks@[order[i] as int]);
        assert(data[j].0 == plan.chunks@[order[j] as int]);
        assert(cs[i] == plan.chunks@[order[i] as int] && cs[j] == plan.chunks@[order[j] as int]);
    }
}

} // verus!
