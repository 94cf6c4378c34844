//! What planning gives: how fine the counting grid is, how large chunks and
//! leaves become, how work is shared out, and how much memory is assumed.

use crate::chunking::PlannedChunk;
use crate::distribute::{
    evictions, points_of, touched, worker_count,
};
use crate::leaves::{
    extra_levels, chunk_leaves, goes_on, leaves_in_range, lemma_first_leaves, lemma_round_range,
    oversized_below, pow8, subdivided,
};
use crate::key::VoxelKey;
use crate::memory::{
    available_memory, digits_value, group_limit, line_end, line_total, number_in, old_group_limit,
    total_kilobytes, without_unit,
};
use crate::planner::{
    build_sizes, child_x, child_y, child_z, children_chunks, children_count, grid_depth_for,
    voxel_chunks, voxel_count,
};
use crate::point::PointView;
use crate::text::{decimal, digit};
use crate::text_laws::{all_white, law_decimal, law_trimmed};
use crate::units::is_white;
use vstd::arithmetic::power::{lemma_pow0, pow};
use vstd::prelude::*;

verus! {

// The counting grid.
/// A grid finer than 128 cells per axis is taken only for many points, and only
/// where its counts, eight bytes per cell, fit a quarter of the memory budget.
/// With that much memory it has 256 cells per axis from a hundred million points
/// on, and 512 from five hundred million on.
pub proof fn law_grid_depth(total_points: u64, memory_budget: u64)
    ensures
        7 <= grid_depth_for(total_points, memory_budget) <= 9,
        grid_depth_for(total_points, memory_budget) >= 8 ==> total_points >= 100_000_000
            && memory_budget >= 4 * (256 * 256 * 256 * 8),
        grid_depth_for(total_points, memory_budget) == 9 ==> total_points >= 500_000_000
            && memory_budget >= 4 * (512 * 512 * 512 * 8),
        total_points >= 500_000_000 && memory_budget >= 4 * (512 * 512 * 512 * 8)
            ==> grid_depth_for(total_points, memory_budget) == 9,
        total_points >= 100_000_000 && memory_budget >= 4 * (256 * 256 * 256 * 8)
            ==> grid_depth_for(total_points, memory_budget) >= 8,
{
}

/// A voxel holds what its eight children hold together; a cell of the grid holds
/// what was counted for it, where x varies fastest and z slowest.
pub proof fn law_voxel_count(
    counts: Seq<u64>,
    depth: nat,
    level: nat,
    x: int,
    y: int,
    z: int,
)
    ensures
        level < depth ==> voxel_count(counts, depth, level, x, y, z) == voxel_count(
            counts,
            depth,
            level + 1,
            2 * x,
            2 * y,
            2 * z,
        ) + voxel_count(counts, depth, level + 1, 2 * x + 1, 2 * y, 2 * z) + voxel_count(
            counts,
            depth,
            level + 1,
            2 * x,
            2 * y + 1,
            2 * z,
        ) + voxel_count(counts, depth, level + 1, 2 * x + 1, 2 * y + 1, 2 * z) + voxel_count(
            counts,
            depth,
            level + 1,
            2 * x,
            2 * y,
            2 * z + 1,
        ) + voxel_count(counts, depth, level + 1, 2 * x + 1, 2 * y, 2 * z + 1) + voxel_count(
            counts,
            depth,
            level + 1,
            2 * x,
            2 * y + 1,
            2 * z + 1,
        ) + voxel_count(counts, depth, level + 1, 2 * x + 1, 2 * y + 1, 2 * z + 1),
        voxel_count(counts, depth, depth, x, y, z) == counts[x + y * crate::key::pow2(depth) + z
            * crate::key::pow2(depth) * crate::key::pow2(depth)],
{
    if level < depth {
        let c0 = children_count(counts, depth, level, x, y, z, 0);
        assert(c0 == 0);
        lemma_add_child(counts, depth, level, x, y, z, 1, 2 * x, 2 * y, 2 * z);
        lemma_add_child(counts, depth, level, x, y, z, 2, 2 * x + 1, 2 * y, 2 * z);
        lemma_add_child(counts, depth, level, x, y, z, 3, 2 * x, 2 * y + 1, 2 * z);
        lemma_add_child(counts, depth, level, x, y, z, 4, 2 * x + 1, 2 * y + 1, 2 * z);
        lemma_add_child(counts, depth, level, x, y, z, 5, 2 * x, 2 * y, 2 * z + 1);
        lemma_add_child(counts, depth, level, x, y, z, 6, 2 * x + 1, 2 * y, 2 * z + 1);
        lemma_add_child(counts, depth, level, x, y, z, 7, 2 * x, 2 * y + 1, 2 * z + 1);
        lemma_add_child(counts, depth, level, x, y, z, 8, 2 * x + 1, 2 * y + 1, 2 * z + 1);
    }
}

proof fn lemma_add_child(
    counts: Seq<u64>,
    depth: nat,
    level: nat,
    x: int,
    y: int,
    z: int,
    n: nat,
    cx: int,
    cy: int,
    cz: int,
)
    requires
        level < depth,
        0 < n <= 8,
        cx == 2 * x + child_x(n - 1),
        cy == 2 * y + child_y(n - 1),
        cz == 2 * z + child_z(n - 1),
    ensures
        children_count(counts, depth, level, x, y, z, n) == children_count(
            counts,
            depth,
            level,
            x,
            y,
            z,
            (n - 1) as nat,
        ) + voxel_count(counts, depth, level + 1, cx, cy, cz),
{
}

/// Chunks are not split further than needed: the voxel above a chunk holds more
/// points than the target.
pub proof fn law_chunks_are_maximal(counts: Seq<u64>, depth: u32, target: u64, i: int)
    requires
        depth <= 20,
        0 <= i < voxel_chunks(counts, depth as nat, target, 0, 0, 0, 0).len(),
    ensures
        ({
            let c = voxel_chunks(counts, depth as nat, target, 0, 0, 0, 0)[i];
            c.level > 0 ==> voxel_count(
                counts,
                depth as nat,
                (c.level - 1) as nat,
                c.gx as int / 2,
                c.gy as int / 2,
                c.gz as int / 2,
            ) > target
        }),
{
    assert(crate::key::pow2(0) == 1);
    lemma_maximal(counts, depth, target, 0, 0, 0, 0, i);
}

proof fn lemma_maximal(
    counts: Seq<u64>,
    depth: u32,
    target: u64,
    level: nat,
    x: int,
    y: int,
    z: int,
    i: int,
)
    requires
        level <= depth <= 20,
        0 <= i < voxel_chunks(counts, depth as nat, target, level, x, y, z).len(),
        0 <= x < crate::key::pow2(level),
        0 <= y < crate::key::pow2(level),
        0 <= z < crate::key::pow2(level),
    ensures
        ({
            let c = voxel_chunks(counts, depth as nat, target, level, x, y, z)[i];
            ||| c.level == level && c.gx == x && c.gy == y && c.gz == z
            ||| c.level > level && voxel_count(
                counts,
                depth as nat,
                (c.level - 1) as nat,
                c.gx as int / 2,
                c.gy as int / 2,
                c.gz as int / 2,
            ) > target
        }),
    decreases depth - level, 9nat,
{
    let n = voxel_count(counts, depth as nat, level, x, y, z);
    if n <= target || level >= depth {
        crate::key::lemma_pow2_monotonic(level, 30);
        crate::key::lemma_pow2_values();
    } else {
        lemma_maximal_children(counts, depth, target, level, x, y, z, 8, i);
    }
}

proof fn lemma_maximal_children(
    counts: Seq<u64>,
    depth: u32,
    target: u64,
    level: nat,
    x: int,
    y: int,
    z: int,
    n: nat,
    i: int,
)
    requires
        level < depth <= 20,
        n <= 8,
        voxel_count(counts, depth as nat, level, x, y, z) > target,
        0 <= i < children_chunks(counts, depth as nat, target, level, x, y, z, n).len(),
        0 <= x < crate::key::pow2(level),
        0 <= y < crate::key::pow2(level),
        0 <= z < crate::key::pow2(level),
    ensures
        ({
            let c = children_chunks(counts, depth as nat, target, level, x, y, z, n)[i];
            &&& c.level > level
            &&& voxel_count(
                counts,
                depth as nat,
                (c.level - 1) as nat,
                c.gx as int / 2,
                c.gy as int / 2,
                c.gz as int / 2,
            ) > target
        }),
    decreases depth - level, n,
{
    let c = n - 1;
    let before = children_chunks(counts, depth as nat, target, level, x, y, z, (n - 1) as nat);
    if i < before.len() {
        lemma_maximal_children(counts, depth, target, level, x, y, z, (n - 1) as nat, i);
    } else {
        assert(crate::key::pow2(level + 1) == 2 * crate::key::pow2(level));
        lemma_maximal(
            counts,
            depth,
            target,
            level + 1,
            2 * x + child_x(c),
            2 * y + child_y(c),
            2 * z + child_z(c),
            i - before.len(),
        );
    }
}

/// Building a chunk takes 600 bytes per point.
pub proof fn law_build_memory(chunks: Seq<PlannedChunk>, i: int)
    requires
        0 <= i < chunks.len(),
    ensures
        build_sizes(chunks).len() == chunks.len(),
        build_sizes(chunks)[i] == 600 * chunks[i].point_count,
{
}

// Leaves.
/// A chunk gets as many levels of its own as bring it down to a hundred thousand
/// points per leaf on average, and no more; thirteen at most.
pub proof fn law_extra_levels(point_count: u64)
    ensures
        extra_levels(point_count, 0) <= 13,
        extra_levels(point_count, 0) < 13 ==> point_count <= 100_000 * pow(
            8,
            extra_levels(point_count, 0),
        ),
        extra_levels(point_count, 0) > 0 ==> point_count > 100_000 * pow(
            8,
            (extra_levels(point_count, 0) - 1) as nat,
        ),
{
    lemma_extra_levels(point_count, 0);
}

proof fn lemma_pow8(n: nat)
    ensures
        pow8(n) == pow(8, n),
    decreases n,
{
    lemma_pow0(8);
    if n > 0 {
        lemma_pow8((n - 1) as nat);
        reveal_with_fuel(pow, 2);
    }
}

proof fn lemma_extra_levels(point_count: u64, d: nat)
    requires
        d <= 13,
        d > 0 ==> point_count > 100_000 * pow(8, (d - 1) as nat),
    ensures
        extra_levels(point_count, d) <= 13,
        extra_levels(point_count, d) < 13 ==> point_count <= 100_000 * pow(
            8,
            extra_levels(point_count, d),
        ),
        extra_levels(point_count, d) > 0 ==> point_count > 100_000 * pow(
            8,
            (extra_levels(point_count, d) - 1) as nat,
        ),
    decreases 13 - d,
{
    lemma_pow8(d);
    if d < 13 && point_count > 100_000 * pow8(d) {
        lemma_extra_levels(point_count, d + 1);
    }
}

/// No leaf of a chunk holds more than a hundred thousand points, unless one that
/// does lies at level 20 or deeper, where subdivision stops.
pub proof fn law_leaf_sizes(keys: Seq<VoxelKey>, leaf_depth: int)
    requires
        leaf_depth >= 0,
        keys.len() <= usize::MAX,
        forall|i: int|
            0 <= i < keys.len() ==> {
                &&& (#[trigger] keys[i]).level >= 20
                &&& keys[i].level >= leaf_depth
            },
    ensures
        ({
            let leaves = chunk_leaves(keys, leaf_depth);
            ||| forall|i: int| 0 <= i < leaves.len() ==> (#[trigger] leaves[i]).1.len() <= 100_000
            ||| exists|i: int|
                0 <= i < leaves.len() && (#[trigger] leaves[i]).1.len() > 100_000
                    && leaves[i].0.level >= 20
        }),
{
    let first = crate::leaves::classified(
        keys,
        crate::hierarchy::all_indices(keys.len()),
        leaf_depth,
    );
    lemma_first_leaves(keys, leaf_depth);
    assert(leaves_in_range(first, keys.len(), 0));
    lemma_settles(keys, first, 0, 20);
    let leaves = chunk_leaves(keys, leaf_depth);
    assert(!goes_on(leaves));
    if !(forall|i: int| 0 <= i < leaves.len() ==> (#[trigger] leaves[i]).1.len() <= 100_000) {
        let i = choose|i: int| 0 <= i < leaves.len() && (#[trigger] leaves[i]).1.len() > 100_000;
        assert(crate::leaves::oversized(leaves[i]));
    }
}

proof fn lemma_settles(
    keys: Seq<VoxelKey>,
    leaves: Seq<(VoxelKey, Seq<usize>)>,
    floor: int,
    rounds: nat,
)
    requires
        0 <= floor,
        floor + rounds >= 20,
        leaves_in_range(leaves, keys.len(), 0),
        oversized_below(leaves, floor),
        forall|i: int| 0 <= i < keys.len() ==> (#[trigger] keys[i]).level >= 20,
    ensures
        !goes_on(subdivided(keys, leaves, rounds)),
    decreases rounds,
{
    if goes_on(leaves) {
        let i = choose|i: int|
            0 <= i < leaves.len() && crate::leaves::oversized(#[trigger] leaves[i]);
        assert(leaves[i].0.level >= floor);
        lemma_round_range(keys, leaves, 0, floor);
        lemma_settles(
            keys,
            crate::leaves::split_round(keys, leaves),
            floor + 1,
            (rounds - 1) as nat,
        );
    }
}

// Sharing out work.
/// There is at least one worker, no more workers than files, and no more than two
/// thirds of the cores, but for two of them; and as many as that allows.
pub proof fn law_worker_count(cores: int, files: int)
    requires
        cores >= 0,
        files >= 0,
    ensures
        ({
            let n = worker_count(cores, files);
            &&& n >= 1
            &&& files >= 1 ==> n <= files
            &&& n > 2 ==> 3 * n <= 2 * cores
            &&& n < files ==> n >= 2 && 3 * (n + 1) > 2 * cores
        }),
{
}

/// The points of a batch that go to a chunk keep their order; every chunk that
/// occurs is listed once, and no other.
pub proof fn law_batch_by_chunk(ids: Seq<u32>, points: Seq<PointView>, c: u32)
    requires
        ids.len() == points.len(),
    ensures
        points_of(ids, points, c) == Seq::new(ids.len(), |i: int| i).filter(
            |i: int| ids[i] == c,
        ).map_values(|i: int| points[i]),
        touched(ids).contains(c) <==> ids.contains(c),
        touched(ids).no_duplicates(),
{
    lemma_points_of(ids, points, c, ids.len());
    assert(ids.take(ids.len() as int) =~= ids);
    assert(points.take(ids.len() as int) =~= points);
    lemma_touched(ids, c);
}

proof fn lemma_points_of(ids: Seq<u32>, points: Seq<PointView>, c: u32, n: nat)
    requires
        n <= ids.len() == points.len(),
    ensures
        points_of(ids.take(n as int), points.take(n as int), c) == Seq::new(n, |i: int| i).filter(
            |i: int| ids[i] == c,
        ).map_values(|i: int| points[i]),
    decreases n,
{
    reveal(Seq::filter);
    let pred = |i: int| ids[i] == c;
    let value = |i: int| points[i];
    let all = Seq::new(n, |i: int| i);
    if n == 0 {
        assert(points_of(ids.take(0), points.take(0), c) =~= all.filter(pred).map_values(value));
    } else {
        let m = (n - 1) as nat;
        lemma_points_of(ids, points, c, m);
        assert(ids.take(n as int).drop_last() =~= ids.take(m as int));
        assert(points.take(n as int).drop_last() =~= points.take(m as int));
        assert(all.drop_last() =~= Seq::new(m, |i: int| i));
        let before = Seq::new(m, |i: int| i).filter(pred);
        if ids[n - 1] == c {
            assert(all.filter(pred) =~= before.push(n - 1));
            assert(before.push(n - 1).map_values(value) =~= before.map_values(value).push(
                points[n - 1],
            ));
        } else {
            assert(all.filter(pred) =~= before);
        }
    }
}

proof fn lemma_touched(ids: Seq<u32>, c: u32)
    ensures
        touched(ids).contains(c) <==> ids.contains(c),
        touched(ids).no_duplicates(),
    decreases ids.len(),
{
    if ids.len() > 0 {
        let init = ids.drop_last();
        let t = touched(init);
        lemma_touched(init, c);
        if ids.contains(c) {
            let i = choose|i: int| 0 <= i < ids.len() && ids[i] == c;
            if i < init.len() {
                assert(init[i] == c);
                let k = choose|k: int| 0 <= k < t.len() && t[k] == c;
                assert(touched(ids)[k] == c);
            } else if !t.contains(c) {
                assert(touched(ids)[t.len() as int] == c);
            }
        }
        if touched(ids).contains(c) {
            let k = choose|k: int| 0 <= k < touched(ids).len() && touched(ids)[k] == c;
            if k < t.len() {
                assert(t[k] == c);
                assert(t.contains(c));
                let i = choose|i: int| 0 <= i < init.len() && init[i] == c;
                assert(ids[i] == c);
            } else {
                assert(ids[ids.len() - 1] == c);
            }
        }
    }
}

/// Before a chunk file is opened as many are closed as make room for it, and no
/// more: afterwards the files that are open fit the limit, or it is the only one.
pub proof fn law_evictions(open: nat, capacity: nat)
    ensures
        evictions(open, capacity) <= open,
        open - evictions(open, capacity) + 1 <= capacity || evictions(open, capacity) == open,
        evictions(open, capacity) > 0 && capacity > 0 ==> open - evictions(open, capacity) + 1
            == capacity,
        open < capacity ==> evictions(open, capacity) == 0,
{
}

// Memory.
proof fn lemma_digits(n: nat)
    ensures
        digits_value(decimal(n)) == Some(n),
    decreases n,
{
    let s = decimal(n);
    if n >= 10 {
        lemma_digits(n / 10);
        assert(s.drop_last() =~= decimal(n / 10));
        assert(s.last() == digit(n % 10));
    } else {
        assert(s.drop_last() =~= Seq::<char>::empty());
        assert(digits_value(Seq::<char>::empty()) == Some(0nat));
        assert(s.last() == digit(n));
    }
}

/// A number is read as it was written, with or without a plus sign, where it
/// fits 64 bits, and refused where it does not.
pub proof fn law_number_read_back(n: nat)
    ensures
        number_in(decimal(n)) == (if n <= u64::MAX {
            Some(n as u64)
        } else {
            None::<u64>
        }),
        number_in(seq!['+'] + decimal(n)) == number_in(decimal(n)),
        number_in(Seq::<char>::empty()) is None,
        number_in(seq!['+']) is None,
{
    law_decimal(n);
    lemma_digits(n);
    let s = seq!['+'] + decimal(n);
    assert(s.drop_first() =~= decimal(n));
    assert(decimal(n)[0] != '+');
    assert(seq!['+'].drop_first() =~= Seq::<char>::empty());
}

/// The limit of a control group is its number, whatever white space stands around
/// it; the word max means none, and so does, in the older groups, a number of
/// 9223372036854771712 or more.
pub proof fn law_group_limits(before: Seq<char>, n: u64, after: Seq<char>)
    requires
        all_white(before),
        all_white(after),
    ensures
        group_limit(before + decimal(n as nat) + after) == Some(n),
        group_limit(before + "max"@ + after) is None,
        old_group_limit(before + decimal(n as nat) + after) == (if n < 9_223_372_036_854_771_712 {
            Some(n)
        } else {
            None::<u64>
        }),
{
    let d = decimal(n as nat);
    law_decimal(n as nat);
    law_number_read_back(n as nat);
    assert(!is_white(d[0]) && !is_white(d.last()));
    law_trimmed(before, d, after);
    reveal_strlit("max");
    law_trimmed(before, "max"@, after);
    assert("max"@[0] != d[0]);
}

/// A line of memory information gives the number of kilobytes behind the word
/// MemTotal and its colon; a line that starts otherwise gives none.
pub proof fn law_total_line(blanks: Seq<char>, n: u64, other: Seq<char>)
    requires
        all_white(blanks),
        blanks.len() > 0,
        other.len() < 9 || other.take(9) != "MemTotal:"@,
    ensures
        line_total("MemTotal:"@ + blanks + decimal(n as nat) + " kB"@) == Some(n),
        line_total(other) is None,
{
    reveal_strlit("MemTotal:");
    reveal_strlit(" kB");
    let word = "MemTotal:"@;
    let unit = " kB"@;
    let d = decimal(n as nat);
    let none = Seq::<char>::empty();
    law_decimal(n as nat);
    law_number_read_back(n as nat);
    let line = word + blanks + d + unit;
    assert(word =~= seq!['M', 'e', 'm', 'T', 'o', 't', 'a', 'l', ':']);
    assert(line.take(9) =~= word);
    let rest = line.skip(9);
    let bare = d + unit;
    assert(rest =~= blanks + bare + none);
    assert(bare[0] == d[0] && bare.last() == 'B');
    law_trimmed(blanks, bare, none);
    assert(bare.take(bare.len() - 3) =~= d);
    assert(d.last() != 'B');
    assert(without_unit(d) == d);
    assert(bare[bare.len() - 3] == ' ' && bare[bare.len() - 2] == 'k' && bare[bare.len() - 1]
        == 'B');
    assert(without_unit(bare) == d);
    assert(none + d + none =~= d);
    assert(!is_white(d[0]) && !is_white(d.last()));
    law_trimmed(none, d, none);
}

proof fn lemma_line_end(line: Seq<char>, rest: Seq<char>, from: int)
    requires
        0 <= from <= line.len(),
        forall|i: int| 0 <= i < line.len() ==> #[trigger] line[i] != '\n',
        rest.len() > 0 ==> rest[0] == '\n',
    ensures
        line_end(line + rest, from) == line.len(),
    decreases line.len() - from,
{
    if from < line.len() {
        assert((line + rest)[from] == line[from]);
        lemma_line_end(line, rest, from + 1);
    }
}

proof fn lemma_line_end_shift(head: Seq<char>, s: Seq<char>, from: int)
    requires
        0 <= from <= s.len(),
    ensures
        line_end(head + s, head.len() + from) == head.len() + line_end(s, from),
    decreases s.len() - from,
{
    if from < s.len() && s[from] != '\n' {
        assert((head + s)[head.len() + from] == s[from]);
        lemma_line_end_shift(head, s, from + 1);
    } else if from < s.len() {
        assert((head + s)[head.len() + from] == s[from]);
    }
}

proof fn lemma_total_shift(head: Seq<char>, s: Seq<char>, from: int)
    requires
        0 <= from <= s.len(),
    ensures
        total_kilobytes(head + s, head.len() + from) == total_kilobytes(s, from),
    decreases s.len() - from,
{
    if from < s.len() {
        lemma_line_end_shift(head, s, from);
        lemma_line_end_in(s, from);
        let end = line_end(s, from);
        assert((head + s).subrange(head.len() + from, head.len() + end) =~= s.subrange(from, end));
        if end < s.len() {
            lemma_total_shift(head, s, end + 1);
        }
    }
}

proof fn lemma_line_end_in(s: Seq<char>, from: int)
    requires
        0 <= from <= s.len(),
    ensures
        from <= line_end(s, from) <= s.len(),
    decreases s.len() - from,
{
    if from < s.len() && s[from] != '\n' {
        lemma_line_end_in(s, from + 1);
    }
}

/// Memory information is read line by line: the first line that gives a total
/// decides, and lines that give none are passed over.
pub proof fn law_meminfo_lines(line: Seq<char>, rest: Seq<char>)
    requires
        line.len() > 0,
        forall|i: int| 0 <= i < line.len() ==> #[trigger] line[i] != '\n',
    ensures
        total_kilobytes(line, 0) == line_total(line),
        total_kilobytes(line + seq!['\n'] + rest, 0) == (match line_total(line) {
            Some(kb) => Some(kb),
            None => total_kilobytes(rest, 0),
        }),
{
    let none = Seq::<char>::empty();
    lemma_line_end(line, none, 0);
    assert(line + none =~= line);
    assert(line.subrange(0, line.len() as int) =~= line);
    let s = line + seq!['\n'] + rest;
    let tail = seq!['\n'] + rest;
    assert(s =~= line + tail);
    lemma_line_end(line, tail, 0);
    assert(s.subrange(0, line.len() as int) =~= line);
    let head = line + seq!['\n'];
    lemma_total_shift(head, rest, 0);
    assert(head + rest =~= s);
    assert(head.len() == line.len() + 1);
}

/// The memory that is assumed: the limit of the newer control groups where there
/// is one; else that of the older ones; else the total that the machine's memory
/// information gives in kilobytes of 1024 bytes; else what the system says; and
/// 16 gigabytes where nothing is known.
pub proof fn law_available_memory(
    group: Option<Seq<char>>,
    old_group: Option<Seq<char>>,
    meminfo: Option<Seq<char>>,
    system: Option<u64>,
)
    ensures
        ({
            let m = available_memory(group, old_group, meminfo, system);
            let first = group is Some && group_limit(group->0) is Some;
            let second = old_group is Some && old_group_limit(old_group->0) is Some;
            let third = meminfo is Some && total_kilobytes(meminfo->0, 0) is Some;
            &&& first ==> m == group_limit(group->0)->0
            &&& !first && second ==> m == old_group_limit(old_group->0)->0
            &&& !first && !second && third ==> m == total_kilobytes(meminfo->0, 0)->0 * 1024
            &&& !first && !second && !third && system is Some ==> m == system->0
            &&& !first && !second && !third && system is None ==> m == 17_179_869_184
        }),
{
}

} // verus!
