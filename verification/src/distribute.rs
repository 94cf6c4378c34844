//! Distributing the input points to chunk files: how the work is divided, which
//! chunk each point goes to, and which chunk files are kept open.

use crate::chunking::{cell_number, chunk_of_key};
use crate::key::VoxelKey;
use crate::node_store::{path_in, push_separator};
use crate::point::{point_views, PointView, RawPoint};
use crate::sampling::{lemma_sum_empty, lemma_sum_insert, lemma_sum_same, sum_of};
use crate::text::{decimal, lemma_decimal_injective, push_decimal, push_text};
use std::collections::{HashMap, VecDeque};
use vstd::multiset::Multiset;
use vstd::prelude::*;

verus! {

/// Maximum number of chunk files kept open simultaneously across all workers.
/// Divided evenly between workers.
pub const CHUNKED_OPEN_FILES_CAP: usize = 512;

/// Minimum number of chunk files that each worker may keep open.
pub const MIN_PER_WORKER_CHUNK_FILES: usize = 32;

/// Memory that one point takes while it is read, without its extra bytes.
pub const BASE_BYTES_PER_POINT_TRANSIENT: u64 = 120;

/// `rayon::current_num_threads`: the number of threads in the current pool. It
/// depends on the machine and the environment, so nothing is said of it.
pub assume_specification[ rayon::current_num_threads ]() -> usize
;

/// Two thirds of `cores`, rounded down, but at least two.
pub open spec fn target_workers(cores: int) -> int {
    if cores * 2 / 3 > 2 {
        cores * 2 / 3
    } else {
        2
    }
}

/// The number of workers for `cores` cores and `files` input files.
pub open spec fn worker_count(cores: int, files: int) -> int {
    let t = target_workers(cores);
    if files < 1 {
        1
    } else if t < files {
        t
    } else {
        files
    }
}

/// About two thirds of the cores, which leaves headroom for the decoder. Capped
/// by the number of input files, and never zero.
pub fn workers_for(cores: usize, input_file_count: usize) -> (n: usize)
    ensures
        n == worker_count(cores as int, input_file_count as int),
        1 <= n,
        input_file_count >= 1 ==> n <= input_file_count,
{
    let two_thirds: usize = cores / 3 * 2 + (cores % 3) * 2 / 3;
    let target: usize = if two_thirds > 2 {
        two_thirds
    } else {
        2
    };
    if input_file_count < 1 {
        1
    } else if target < input_file_count {
        target
    } else {
        input_file_count
    }
}

/// The number of workers for the current thread pool.
pub fn chunked_distribute_worker_count(input_file_count: usize) -> (n: usize)
    ensures
        exists|cores: usize| n == #[trigger] worker_count(cores as int, input_file_count as int),
        1 <= n,
        input_file_count >= 1 ==> n <= input_file_count,
{
    let cores: usize = rayon::current_num_threads();
    workers_for(cores, input_file_count)
}

/// How many chunk files one of `num_workers` workers may keep open.
pub fn per_worker_open_files(num_workers: usize) -> (cap: usize)
    requires
        num_workers > 0,
    ensures
        cap == (if CHUNKED_OPEN_FILES_CAP as int / num_workers as int
            > MIN_PER_WORKER_CHUNK_FILES {
            CHUNKED_OPEN_FILES_CAP as int / num_workers as int
        } else {
            MIN_PER_WORKER_CHUNK_FILES as int
        }),
        cap >= 32,
        cap > 32 ==> cap * num_workers <= 512,
        512 < (cap + 1) * num_workers,
{
    let share: usize = CHUNKED_OPEN_FILES_CAP / num_workers;
    proof {
        let m = if share > 32 {
            share as int
        } else {
            32int
        };
        vstd::arithmetic::div_mod::lemma_fundamental_div_mod(512, num_workers as int);
        assert(share * num_workers <= 512 && 512 < (m + 1) * num_workers) by (nonlinear_arith)
            requires
                512 == num_workers * share + 512int % (num_workers as int),
                0 <= 512int % (num_workers as int) < num_workers,
                m >= share,
        ;
    }
    if share > MIN_PER_WORKER_CHUNK_FILES {
        share
    } else {
        MIN_PER_WORKER_CHUNK_FILES
    }
}

/// `v` moved into the range from `lo` to `hi`.
pub open spec fn clamp_between(v: int, lo: int, hi: int) -> int {
    if v < lo {
        lo
    } else if v > hi {
        hi
    } else {
        v
    }
}

/// How many points a worker reads at a time: what fits an eighth of its share of
/// the memory budget, but at least 50,000 and at most 2,000,000.
pub fn read_chunk_size(memory_budget: u64, num_workers: usize, num_extra_bytes: u16) -> (n: usize)
    requires
        num_workers > 0,
    ensures
        n == clamp_between(
            memory_budget as int / num_workers as int / 8 / (BASE_BYTES_PER_POINT_TRANSIENT
                + num_extra_bytes),
            50_000,
            2_000_000,
        ),
        50_000 <= n <= 2_000_000,
        n > 50_000 ==> n * (120 + num_extra_bytes) * 8 * num_workers <= memory_budget,
        n < 2_000_000 ==> memory_budget < (n + 1) * (120 + num_extra_bytes) * 8 * num_workers,
{
    let per_point: u64 = BASE_BYTES_PER_POINT_TRANSIENT + num_extra_bytes as u64;
    let share: u64 = memory_budget / num_workers as u64;
    let n: u64 = share / 8 / per_point;
    proof {
        let eighth = share as int / 8;
        let per = 120 + num_extra_bytes;
        vstd::arithmetic::div_mod::lemma_fundamental_div_mod(
            memory_budget as int,
            num_workers as int,
        );
        vstd::arithmetic::div_mod::lemma_fundamental_div_mod(eighth, per);
        lemma_share(
            memory_budget as int,
            num_workers as int,
            share as int,
            memory_budget as int % (num_workers as int),
            eighth,
            per,
            n as int,
            eighth % per,
        );
        if n < 50_000 {
            assert((n + 1) * per * 8 * num_workers <= (50_000 + 1) * per * 8 * num_workers)
                by (nonlinear_arith)
                requires
                    0 <= n < 50_000,
                    per > 0,
                    num_workers > 0,
            ;
        }
        if n > 2_000_000 {
            assert(2_000_000 * per * 8 * num_workers <= n * per * 8 * num_workers)
                by (nonlinear_arith)
                requires
                    n > 2_000_000,
                    per > 0,
                    num_workers > 0,
            ;
        }
    }
    if n < 50_000 {
        50_000
    } else if n > 2_000_000 {
        2_000_000
    } else {
        n as usize
    }
}

/// What an eighth of a share of the budget holds.
proof fn lemma_share(
    budget: int,
    workers: int,
    share: int,
    rest: int,
    eighth: int,
    per: int,
    n: int,
    left: int,
)
    requires
        workers > 0,
        per > 0,
        n >= 0,
        budget == workers * share + rest,
        0 <= rest < workers,
        8 * eighth <= share < 8 * eighth + 8,
        eighth == per * n + left,
        0 <= left < per,
    ensures
        n * per * 8 * workers <= budget < (n + 1) * per * 8 * workers,
{
    let whole = n * per;
    let more = (n + 1) * per;
    assert(whole == per * n && more == per * n + per) by (nonlinear_arith)
        requires
            whole == n * per,
            more == (n + 1) * per,
    ;
    assert(whole * 8 <= share && share + 1 <= more * 8);
    assert(whole * 8 * workers <= share * workers) by (nonlinear_arith)
        requires
            whole * 8 <= share,
            workers > 0,
    ;
    assert((share + 1) * workers <= more * 8 * workers) by (nonlinear_arith)
        requires
            share + 1 <= more * 8,
            workers > 0,
    ;
    assert((share + 1) * workers == workers * share + workers) by (nonlinear_arith);
    assert(share * workers == workers * share) by (nonlinear_arith);
}

/// The number of files that each worker reads.
pub open spec fn files_per_worker(files: int, workers: int) -> int {
    if files % workers == 0 {
        files / workers
    } else {
        files / workers + 1
    }
}

/// The first file of a worker, and the first one behind its files.
pub open spec fn file_range(files: int, workers: int, w: int) -> (int, int) {
    let per = files_per_worker(files, workers);
    let start = if w * per < files {
        w * per
    } else {
        files
    };
    let end = if w * per + per < files {
        w * per + per
    } else {
        files
    };
    (start, end)
}

/// The files that worker `w` reads: from the first number up to the second one.
pub fn worker_files(input_files: usize, num_workers: usize, w: usize) -> (r: (usize, usize))
    requires
        w < num_workers,
        input_files + num_workers <= usize::MAX,
    ensures
        (r.0 as int, r.1 as int) == file_range(
            input_files as int,
            num_workers as int,
            w as int,
        ),
        r.0 <= r.1 <= input_files,
{
    let q: usize = input_files / num_workers;
    let per: usize = if input_files % num_workers == 0 {
        q
    } else {
        q + 1
    };
    proof {
        let n = num_workers as int;
        vstd::arithmetic::div_mod::lemma_fundamental_div_mod(input_files as int, n);
        assert((w + 1) * per <= input_files + n && w * per >= 0 && w * per + per == (w + 1) * per)
            by (nonlinear_arith)
            requires
                0 <= w < n,
                0 <= per,
                input_files == n * q + input_files as int % n,
                0 <= input_files as int % n < n,
                per == q || (per == q + 1 && input_files as int % n > 0),
        ;
    }
    let from: usize = w * per;
    let to: usize = from + per;
    let start: usize = if from < input_files {
        from
    } else {
        input_files
    };
    let end: usize = if to < input_files {
        to
    } else {
        input_files
    };
    (start, end)
}

/// Every file is read by exactly one worker.
pub proof fn law_each_file_read_once(files: int, workers: int, f: int)
    requires
        workers > 0,
        0 <= f < files,
    ensures
        exists|w: int|
            0 <= w < workers && (#[trigger] file_range(files, workers, w)).0 <= f < file_range(
                files,
                workers,
                w,
            ).1,
        forall|v: int, w: int|
            0 <= v < workers && 0 <= w < workers && (#[trigger] file_range(files, workers, v)).0
                <= f < file_range(files, workers, v).1 && (#[trigger] file_range(
                files,
                workers,
                w,
            )).0 <= f < file_range(files, workers, w).1 ==> v == w,
{
    let per = files_per_worker(files, workers);
    let q = files / workers;
    vstd::arithmetic::div_mod::lemma_fundamental_div_mod(files, workers);
    assert(per > 0 && workers * per >= files) by (nonlinear_arith)
        requires
            files == workers * q + files % workers,
            0 <= files % workers < workers,
            files > 0,
            per == q && files % workers == 0 || per == q + 1,
            workers > 0,
    ;
    let w = f / per;
    vstd::arithmetic::div_mod::lemma_fundamental_div_mod(f, per);
    assert(w * per <= f < w * per + per && 0 <= w < workers) by (nonlinear_arith)
        requires
            f == per * w + f % per,
            0 <= f % per < per,
            0 <= f < files,
            workers * per >= files,
            per > 0,
    ;
    assert(file_range(files, workers, w).0 <= f < file_range(files, workers, w).1);
    assert forall|v: int, w: int|
        0 <= v < workers && 0 <= w < workers && (#[trigger] file_range(files, workers, v)).0 <= f
            < file_range(files, workers, v).1 && (#[trigger] file_range(files, workers, w)).0 <= f
            < file_range(files, workers, w).1 implies v == w by {
        assert(v == w) by (nonlinear_arith)
            requires
                v * per <= f < v * per + per,
                w * per <= f < w * per + per,
                per > 0,
        ;
    }
}

// The chunk files.
/// The name of a chunk's file.
pub open spec fn chunk_name(chunk_idx: u32) -> Seq<char> {
    "chunk_"@ + decimal(chunk_idx as nat)
}

fn chunk_path(dir: &String, chunk_idx: u32) -> (p: String)
    ensures
        p@ == path_in(dir@, chunk_name(chunk_idx)),
{
    let mut p = dir.clone();
    push_separator(&mut p);
    push_text(&mut p, "chunk_");
    push_decimal(&mut p, chunk_idx as u64);
    assert(p@ =~= path_in(dir@, chunk_name(chunk_idx)));
    p
}

/// The path of a worker's own file for a chunk.
pub fn chunk_shard_path(shard_dir: &String, chunk_idx: u32) -> (p: String)
    ensures
        p@ == path_in(shard_dir@, chunk_name(chunk_idx)),
{
    chunk_path(shard_dir, chunk_idx)
}

/// The path of a chunk's merged file.
pub fn chunk_canonical_path(chunks_dir: &String, chunk_idx: u32) -> (p: String)
    ensures
        p@ == path_in(chunks_dir@, chunk_name(chunk_idx)),
{
    chunk_path(chunks_dir, chunk_idx)
}

/// Different chunks have different files.
pub proof fn law_chunk_names_distinct(a: u32, b: u32)
    requires
        chunk_name(a) == chunk_name(b),
    ensures
        a == b,
{
    let n = "chunk_"@.len() as int;
    assert(chunk_name(a).skip(n) =~= decimal(a as nat));
    assert(chunk_name(b).skip(n) =~= decimal(b as nat));
    lemma_decimal_injective(a as nat, b as nat);
}

// Sorting a batch of points by chunk.
/// The chunks that occur, in the order of their first occurrences.
pub open spec fn touched(ids: Seq<u32>) -> Seq<u32>
    decreases ids.len(),
{
    if ids.len() == 0 {
        Seq::empty()
    } else {
        let t = touched(ids.drop_last());
        if t.contains(ids.last()) {
            t
        } else {
            t.push(ids.last())
        }
    }
}

/// The points of a batch that go to chunk `c`, in their original order.
pub open spec fn points_of(ids: Seq<u32>, points: Seq<PointView>, c: u32) -> Seq<PointView>
    decreases ids.len(),
{
    if ids.len() == 0 {
        Seq::empty()
    } else {
        let rest = points_of(ids.drop_last(), points.drop_last(), c);
        if ids.last() == c {
            rest.push(points.last())
        } else {
            rest
        }
    }
}

/// The batch, sorted by chunk.
pub open spec fn by_chunk(ids: Seq<u32>, points: Seq<PointView>) -> Seq<(u32, Seq<PointView>)> {
    touched(ids).map_values(|c: u32| (c, points_of(ids, points, c)))
}

/// The points of one chunk.
#[derive(Debug)]
pub struct ChunkPoints {
    pub chunk: u32,
    pub points: Vec<RawPoint>,
}

/// The views of the points of several chunks.
pub open spec fn chunk_views(g: Seq<ChunkPoints>) -> Seq<(u32, Seq<PointView>)> {
    g.map_values(|c: ChunkPoints| (c.chunk, point_views(c.points@)))
}

/// `index` says where each chunk's points are.
spec fn locates(index: Map<u32, usize>, t: Seq<u32>) -> bool {
    &&& forall|p: int|
        0 <= p < t.len() ==> index.contains_key(#[trigger] t[p]) && index[t[p]] == p
    &&& forall|c: u32| #[trigger]
        index.contains_key(c) ==> 0 <= index[c] < t.len() && t[index[c] as int] == c
}

/// Sorts a batch of points by the chunks that they go to, so that each chunk
/// file is written once per batch. `ids` holds the chunk of each point.
pub fn partition_batch(ids: &Vec<u32>, points: &Vec<RawPoint>) -> (groups: Vec<ChunkPoints>)
    requires
        ids@.len() == points@.len(),
    ensures
        chunk_views(groups@) == by_chunk(ids@, point_views(points@)),
{
    broadcast use vstd::std_specs::hash::group_hash_axioms;

    let ghost pv = point_views(points@);
    let mut groups: Vec<ChunkPoints> = Vec::new();
    let mut index: HashMap<u32, usize> = HashMap::new();
    let mut i: usize = 0;
    assert(ids@.take(0) =~= Seq::<u32>::empty());
    assert(pv.take(0) =~= Seq::<PointView>::empty());
    assert(chunk_views(groups@) =~= by_chunk(ids@.take(0), pv.take(0)));
    while i < ids.len()
        invariant
            i <= ids@.len(),
            pv == point_views(points@),
            ids@.len() == points@.len(),
            chunk_views(groups@) == by_chunk(ids@.take(i as int), pv.take(i as int)),
            locates(index@, touched(ids@.take(i as int))),
        decreases ids@.len() - i,
    {
        broadcast use vstd::std_specs::hash::group_hash_axioms;

        let ghost a = ids@.take(i as int);
        let ghost b = ids@.take(i + 1);
        let ghost t = touched(a);
        let ghost pa = pv.take(i as int);
        let ghost pb = pv.take(i + 1);
        let ghost before = chunk_views(groups@);
        let c: u32 = ids[i];
        let p = points[i].clone();
        proof {
            assert(groups@.len() == before.len());
            assert(before.len() == by_chunk(a, pa).len());
            assert(before.len() == t.len());
            assert(b.drop_last() =~= a);
            assert(b.last() == c);
            assert(pb.drop_last() =~= pa);
            assert(pb.last() == p@);
        }
        let mut found: Option<usize> = None;
        match index.get(&c) {
            Some(at) => {
                found = Some(*at);
            },
            None => {},
        }
        match found {
            Some(at) => {
                proof {
                    assert(t[at as int] == c);
                    assert(touched(b) == t);
                    assert(before[at as int] == (c, points_of(a, pa, c)));
                }
                let ghost old_points = groups@[at as int].points@;
                groups[at].points.push(p);
                proof {
                    let now = chunk_views(groups@);
                    assert(point_views(groups@[at as int].points@) =~= point_views(
                        old_points,
                    ).push(p@));
                    assert forall|q: int| 0 <= q < now.len() implies #[trigger] now[q] == by_chunk(
                        b,
                        pb,
                    )[q] by {
                        assert(before[q] == by_chunk(a, pa)[q]);
                        if q != at {
                            assert(t[q] != c) by {
                                if t[q] == c {
                                    assert(index@[t[q]] == q);
                                }
                            }
                        }
                    }
                    assert(now =~= by_chunk(b, pb));
                }
            },
            None => {
                proof {
                    assert(!t.contains(c)) by {
                        if t.contains(c) {
                            let q = choose|q: int| 0 <= q < t.len() && t[q] == c;
                            assert(index@.contains_key(t[q]));
                        }
                    }
                    assert(touched(b) == t.push(c));
                    lemma_untouched(a, pa, c);
                }
                let ghost old_index = index@;
                index.insert(c, groups.len());
                let mut own: Vec<RawPoint> = Vec::new();
                own.push(p);
                let group = ChunkPoints { chunk: c, points: own };
                proof {
                    assert(point_views(own@) =~= seq![p@]);
                    assert(points_of(b, pb, c) =~= seq![p@]);
                    assert(chunk_views(groups@.push(group)) =~= before.push((c, seq![p@])));
                }
                groups.push(group);
                proof {
                    let now = chunk_views(groups@);
                    assert forall|q: int| 0 <= q < now.len() implies #[trigger] now[q] == by_chunk(
                        b,
                        pb,
                    )[q] by {
                        if q < before.len() {
                            assert(before[q] == by_chunk(a, pa)[q]);
                            assert(t[q] != c);
                        }
                    }
                    assert(now =~= by_chunk(b, pb));
                    assert(before.len() == t.len());
                    let tb = touched(b);
                    assert forall|q: int| 0 <= q < tb.len() implies index@.contains_key(
                        #[trigger] tb[q],
                    ) && index@[tb[q]] == q by {
                        if q < t.len() {
                            assert(tb[q] == t[q]);
                            assert(old_index.contains_key(t[q]));
                        }
                    }
                }
            },
        }
        i = i + 1;
    }
    assert(ids@.take(i as int) =~= ids@);
    assert(pv.take(i as int) =~= pv);
    groups
}

/// A chunk that does not occur gets no points.
proof fn lemma_untouched(ids: Seq<u32>, points: Seq<PointView>, c: u32)
    requires
        !touched(ids).contains(c),
        ids.len() == points.len(),
    ensures
        points_of(ids, points, c) == Seq::<PointView>::empty(),
    decreases ids.len(),
{
    if ids.len() > 0 {
        let t = touched(ids.drop_last());
        let now = touched(ids);
        assert(!t.contains(c)) by {
            if t.contains(c) {
                let q = choose|q: int| 0 <= q < t.len() && t[q] == c;
                assert(now[q] == c);
            }
        }
        assert(ids.last() != c) by {
            if ids.last() == c {
                assert(now[t.len() as int] == c);
            }
        }
        lemma_untouched(ids.drop_last(), points.drop_last(), c);
    }
}

/// What each of the chunks `cs` gets of a batch.
pub open spec fn parts_of(ids: Seq<u32>, points: Seq<PointView>, cs: Seq<u32>) -> spec_fn(
    int,
) -> Multiset<PointView> {
    |i: int| points_of(ids, points, cs[i]).to_multiset()
}

/// Every point of a batch goes to exactly one chunk: the one that its number
/// says. What the chunks get is together what the batch holds.
pub proof fn law_partition_conserves(ids: Seq<u32>, points: Seq<PointView>)
    requires
        ids.len() == points.len(),
    ensures
        touched(ids).no_duplicates(),
        forall|c: u32| #[trigger] touched(ids).contains(c) <==> ids.contains(c),
        sum_of(
            |i: int| by_chunk(ids, points)[i].1.to_multiset(),
            by_chunk(ids, points).len(),
        ) == points.to_multiset(),
{
    let cs = touched(ids);
    lemma_touched(ids);
    assert forall|j: int| 0 <= j < ids.len() implies cs.contains(#[trigger] ids[j]) by {
        assert(ids.contains(ids[j]));
    }
    lemma_parts(ids, points, cs);
    lemma_sum_same(
        parts_of(ids, points, cs),
        |i: int| by_chunk(ids, points)[i].1.to_multiset(),
        cs.len(),
    );
}

/// Chunks that are all there are get all points together.
pub proof fn lemma_parts(ids: Seq<u32>, points: Seq<PointView>, cs: Seq<u32>)
    requires
        ids.len() == points.len(),
        cs.no_duplicates(),
        forall|j: int| 0 <= j < ids.len() ==> cs.contains(#[trigger] ids[j]),
    ensures
        sum_of(parts_of(ids, points, cs), cs.len()) == points.to_multiset(),
    decreases ids.len(),
{
    broadcast use vstd::seq_lib::group_to_multiset_ensures;

    let parts = parts_of(ids, points, cs);
    if ids.len() == 0 {
        assert forall|i: int| 0 <= i < cs.len() implies #[trigger] parts(i) == Multiset::<
            PointView,
        >::empty() by {
            vstd::seq_lib::to_multiset_len(points_of(ids, points, cs[i]));
            assert(parts(i) =~= Multiset::<PointView>::empty());
        }
        lemma_sum_empty(parts, cs.len());
        vstd::seq_lib::to_multiset_len(points);
        assert(points.to_multiset() =~= Multiset::<PointView>::empty());
    } else {
        let init = ids.drop_last();
        let before = points.drop_last();
        assert forall|j: int| 0 <= j < init.len() implies cs.contains(#[trigger] init[j]) by {
            assert(init[j] == ids[j]);
        }
        lemma_parts(init, before, cs);
        assert(cs.contains(ids[ids.len() - 1]));
        let at = choose|at: int| 0 <= at < cs.len() && cs[at] == ids.last();
        let p = points.last();
        assert forall|i: int| 0 <= i < cs.len() && i != at implies #[trigger] parts(i) == parts_of(
            init,
            before,
            cs,
        )(i) by {
            assert(cs[i] != cs[at]);
        }
        assert(points_of(ids, points, cs[at]) == points_of(init, before, cs[at]).push(p));
        assert(parts(at) == parts_of(init, before, cs)(at).insert(p));
        lemma_sum_insert(parts_of(init, before, cs), parts, at, p, cs.len());
        assert(points =~= before.push(p));
    }
}

proof fn lemma_touched(ids: Seq<u32>)
    ensures
        touched(ids).no_duplicates(),
        forall|c: u32| #[trigger] touched(ids).contains(c) <==> ids.contains(c),
    decreases ids.len(),
{
    if ids.len() > 0 {
        let init = ids.drop_last();
        let last = ids.last();
        lemma_touched(init);
        let t = touched(init);
        let now = touched(ids);
        assert(ids[ids.len() - 1] == last);
        assert forall|c: u32| #[trigger] now.contains(c) <==> ids.contains(c) by {
            if ids.contains(c) {
                let j = choose|j: int| 0 <= j < ids.len() && ids[j] == c;
                if j < init.len() {
                    assert(init[j] == c);
                    assert(t.contains(c));
                    let m = choose|m: int| 0 <= m < t.len() && t[m] == c;
                    assert(now[m] == c);
                } else if !t.contains(last) {
                    assert(now[t.len() as int] == c);
                }
            }
            if now.contains(c) {
                let m = choose|m: int| 0 <= m < now.len() && now[m] == c;
                if m < t.len() {
                    assert(t[m] == c);
                    assert(t.contains(c));
                    let j = choose|j: int| 0 <= j < init.len() && init[j] == c;
                    assert(ids[j] == c);
                }
            }
        }
    }
}

/// The chunk of every point of a batch.
pub open spec fn chunk_ids(lut: Seq<u32>, grid_size: u32, keys: Seq<VoxelKey>) -> Seq<u32> {
    keys.map_values(|k: VoxelKey| lut[cell_number(k, grid_size)])
}

/// Sorts a batch of points by the chunks that they go to, where `keys` are the
/// points' keys at the depth of the grid.
pub fn distribute_batch(
    lut: &Vec<u32>,
    grid_size: u32,
    keys: &Vec<VoxelKey>,
    points: &Vec<RawPoint>,
) -> (groups: Vec<ChunkPoints>)
    requires
        grid_size > 0,
        lut@.len() == grid_size * grid_size * grid_size,
        keys@.len() == points@.len(),
        forall|i: int|
            0 <= i < keys@.len() ==> {
                &&& (#[trigger] keys@[i]).x >= 0
                &&& keys@[i].y >= 0
                &&& keys@[i].z >= 0
            },
    ensures
        chunk_views(groups@) == by_chunk(
            chunk_ids(lut@, grid_size, keys@),
            point_views(points@),
        ),
{
    let mut ids: Vec<u32> = Vec::new();
    let mut i: usize = 0;
    while i < keys.len()
        invariant
            i <= keys@.len(),
            grid_size > 0,
            lut@.len() == grid_size * grid_size * grid_size,
            forall|j: int|
                0 <= j < keys@.len() ==> {
                    &&& (#[trigger] keys@[j]).x >= 0
                    &&& keys@[j].y >= 0
                    &&& keys@[j].z >= 0
                },
            ids@ =~= chunk_ids(lut@, grid_size, keys@).take(i as int),
        decreases keys@.len() - i,
    {
        ids.push(chunk_of_key(lut, grid_size, &keys[i]));
        i = i + 1;
    }
    assert(ids@ =~= chunk_ids(lut@, grid_size, keys@));
    partition_batch(&ids, points)
}

// The chunk files that are kept open.
/// What has to be done before points can be appended to a chunk file.
#[derive(Debug)]
pub enum CacheAction {
    /// There is nothing to append.
    Nothing,
    /// The file is open.
    Append,
    /// The files `evicted` have to be closed, in this order, and the chunk's own
    /// file has to be opened.
    Open { evicted: Vec<u32> },
}

/// The chunk files that are open, at most a given number of them. On eviction
/// the least recently used one is closed; it is opened again in append mode
/// when points for it arrive later.
#[derive(Debug)]
pub struct ChunkWriterCache {
    /// Order of use. Front = least recently used.
    order: VecDeque<u32>,
    capacity: usize,
}

/// How many of `open` files have to be closed before another one is opened.
pub open spec fn evictions(open: nat, capacity: nat) -> nat {
    if open < capacity {
        0
    } else if capacity == 0 {
        open
    } else {
        (open - capacity + 1) as nat
    }
}

impl ChunkWriterCache {
    /// The open files, the least recently used one first.
    pub closed spec fn order(self) -> Seq<u32> {
        self.order@
    }

    pub closed spec fn capacity(self) -> nat {
        self.capacity as nat
    }

    /// No file is open twice.
    pub open spec fn wf(self) -> bool {
        self.order().no_duplicates()
    }

    pub fn new(capacity: usize) -> (c: ChunkWriterCache)
        ensures
            c.wf(),
            c.order() == Seq::<u32>::empty(),
            c.capacity() == capacity,
    {
        ChunkWriterCache { order: VecDeque::new(), capacity }
    }

    /// Marks the file of `chunk_idx` as the most recently used one, evicting
    /// others if it is not open and there is no room. Does nothing where there
    /// are no points to append.
    pub fn append(&mut self, chunk_idx: u32, point_count: usize) -> (a: CacheAction)
        requires
            old(self).wf(),
        ensures
            final(self).wf(),
            final(self).capacity() == old(self).capacity(),
            match a {
                CacheAction::Nothing => {
                    &&& point_count == 0
                    &&& final(self).order() == old(self).order()
                },
                CacheAction::Append => {
                    &&& point_count > 0
                    &&& old(self).order().contains(chunk_idx)
                    &&& final(self).order() == old(self).order().remove_value(chunk_idx).push(
                        chunk_idx,
                    )
                },
                CacheAction::Open { evicted } => {
                    let n = evictions(old(self).order().len(), old(self).capacity()) as int;
                    &&& point_count > 0
                    &&& !old(self).order().contains(chunk_idx)
                    &&& evicted@ == old(self).order().take(n)
                    &&& final(self).order() == old(self).order().skip(n).push(chunk_idx)
                    &&& (final(self).order().len() <= old(self).capacity()
                        || final(self).order().len() == 1)
                },
            },
    {
        if point_count == 0 {
            return CacheAction::Nothing;
        }
        let ghost before = self.order@;
        let mut i: usize = 0;
        while i < self.order.len()
            invariant
                i <= self.order@.len(),
                self.order@ == before,
                self.capacity == old(self).capacity,
                before.no_duplicates(),
                forall|j: int| 0 <= j < i ==> #[trigger] before[j] != chunk_idx,
                point_count > 0,
                before == old(self).order(),
            decreases self.order@.len() - i,
        {
            if self.order[i] == chunk_idx {
                let removed = self.order.remove(i);
                self.order.push_back(chunk_idx);
                proof {
                    assert(before.contains(chunk_idx));
                    lemma_remove_value(before, i as int);
                    let now = before.remove(i as int);
                    assert(self.order@ =~= now.push(chunk_idx));
                    assert forall|a: int, b: int|
                        0 <= a < self.order@.len() && 0 <= b < self.order@.len() && a
                            != b implies self.order@[a] != self.order@[b] by {
                        lemma_removed_distinct(before, i as int, a, b);
                    }
                }
                return CacheAction::Append;
            }
            i = i + 1;
        }
        assert(!before.contains(chunk_idx));
        let mut evicted: Vec<u32> = Vec::new();
        assert(before.take(0) =~= evicted@);
        assert(before.skip(0) =~= before);
        while self.order.len() >= self.capacity && self.order.len() > 0
            invariant
                self.capacity == old(self).capacity,
                evicted@.len() <= before.len(),
                evicted@ == before.take(evicted@.len() as int),
                self.order@ == before.skip(evicted@.len() as int),
                evicted@.len() <= evictions(before.len(), self.capacity as nat),
            decreases self.order@.len(),
        {
            let ghost n = evicted@.len() as int;
            match self.order.pop_front() {
                Some(victim) => {
                    evicted.push(victim);
                    assert(evicted@ =~= before.take(n + 1));
                    assert(self.order@ =~= before.skip(n + 1));
                },
                None => {},
            }
        }
        self.order.push_back(chunk_idx);
        proof {
            let n = evicted@.len() as int;
            assert(self.order@ =~= before.skip(n).push(chunk_idx));
            assert forall|a: int, b: int|
                0 <= a < self.order@.len() && 0 <= b < self.order@.len() && a
                    != b implies self.order@[a] != self.order@[b] by {
                if a < before.len() - n && b < before.len() - n {
                    assert(before[n + a] != before[n + b]);
                } else if a < before.len() - n {
                    assert(before.contains(before[n + a]));
                } else {
                    assert(before.contains(before[n + b]));
                }
            }
        }
        CacheAction::Open { evicted }
    }

    /// Forgets all open files; they have to be flushed and closed.
    pub fn flush_all(&mut self)
        requires
            old(self).wf(),
        ensures
            final(self).wf(),
            final(self).order() == Seq::<u32>::empty(),
            final(self).capacity() == old(self).capacity(),
    {
        self.order.clear();
    }
}

/// In a sequence without repetitions, removing a value removes it where it is.
proof fn lemma_remove_value(s: Seq<u32>, i: int)
    requires
        0 <= i < s.len(),
        s.no_duplicates(),
    ensures
        s.remove_value(s[i]) == s.remove(i),
{
    s.index_of_first_ensures(s[i]);
}

proof fn lemma_removed_distinct(s: Seq<u32>, i: int, a: int, b: int)
    requires
        0 <= i < s.len(),
        s.no_duplicates(),
        0 <= a < s.len(),
        0 <= b < s.len(),
        a != b,
    ensures
        s.remove(i).push(s[i])[a] != s.remove(i).push(s[i])[b],
{
    let r = s.remove(i).push(s[i]);
    let a2 = if a == s.len() - 1 {
        i
    } else if a < i {
        a
    } else {
        a + 1
    };
    let b2 = if b == s.len() - 1 {
        i
    } else if b < i {
        b
    } else {
        b + 1
    };
    assert(r[a] == s[a2]);
    assert(r[b] == s[b2]);
}

} // verus!
