//! Grid sampling: how a parent node takes a thinned share of its children's
//! points.
//!
//! The parent voxel is divided into a uniform grid. Points are visited in
//! Morton order; the first point in each free cell goes to the parent, all
//! others stay with the child they came from, so every point lands in exactly
//! one node.

use crate::grouping::picked;
use crate::hierarchy::all_indices;
use crate::morton::{morton3, morton_code};
use crate::point::{point_views, PointView, RawPoint};
use crate::sorting::{
    lemma_picked_permutation, lemma_picked_remove, lemma_sort_order_exists, sort_order,
    sorted_order,
};
use std::collections::HashSet;
use vstd::multiset::Multiset;
use vstd::prelude::*;

verus! {

/// Grid cells per axis for thinning. Higher values keep more points at coarse
/// levels of detail.
pub const GRID_CELLS_PER_AXIS: i64 = 128;

/// The most points that a parent takes: one per cell.
pub const MAX_ACCEPTED: usize = 2_097_152;

/// A cell of the grid.
pub type Cell = (i32, i32, i32);

/// The grid of one voxel, in the scaled integer coordinates of the points.
#[derive(Debug, Clone, Copy, PartialEq, Eq, Structural)]
pub struct VoxelGrid {
    pub origin_x: i64,
    pub origin_y: i64,
    pub origin_z: i64,
    pub cell: i64,
}

/// The distance of every coordinate from the origin is a number of 64 bits.
pub open spec fn origin_in_range(v: i64) -> bool {
    -0x7FFF_FFFF_0000_0000 <= v <= 0x7FFF_FFFF_0000_0000
}

/// `a / b` rounded towards zero, for positive `b`.
pub open spec fn trunc_div(a: int, b: int) -> int {
    if a >= 0 {
        a / b
    } else {
        -((-a) / b)
    }
}

/// A coordinate's distance from the origin, not below zero, of which the low 32
/// bits count.
pub open spec fn grid_offset(v: i32, origin: i64) -> u32 {
    (if v - origin > 0 {
        v - origin
    } else {
        0
    }) as i64 as u32
}

impl VoxelGrid {
    pub open spec fn wf(self) -> bool {
        &&& origin_in_range(self.origin_x)
        &&& origin_in_range(self.origin_y)
        &&& origin_in_range(self.origin_z)
        &&& self.cell >= 1
    }

    /// The cell that a point falls into.
    pub open spec fn cell_of(self, p: PointView) -> Cell {
        (
            trunc_div(p.x - self.origin_x, self.cell as int) as i64 as i32,
            trunc_div(p.y - self.origin_y, self.cell as int) as i64 as i32,
            trunc_div(p.z - self.origin_z, self.cell as int) as i64 as i32,
        )
    }

    /// The code by which points are visited.
    pub open spec fn code_of(self, p: PointView) -> nat {
        morton_code(
            grid_offset(p.x, self.origin_x),
            grid_offset(p.y, self.origin_y),
            grid_offset(p.z, self.origin_z),
        )
    }

    /// The grid of a voxel with the given corner and edge length: a fixed number
    /// of cells per axis, and none smaller than one unit.
    pub fn new(origin_x: i64, origin_y: i64, origin_z: i64, int_size: i64) -> (g: VoxelGrid)
        ensures
            g.origin_x == origin_x,
            g.origin_y == origin_y,
            g.origin_z == origin_z,
            g.cell == (if int_size < 2 * GRID_CELLS_PER_AXIS {
                1int
            } else {
                int_size as int / GRID_CELLS_PER_AXIS as int
            }),
            g.cell >= 1,
            int_size < 256 ==> g.cell == 1,
            int_size >= 256 ==> g.cell * 128 <= int_size < (g.cell + 1) * 128,
    {
        let cell: i64 = if int_size < 2 * GRID_CELLS_PER_AXIS {
            1
        } else {
            int_size / GRID_CELLS_PER_AXIS
        };
        VoxelGrid { origin_x, origin_y, origin_z, cell }
    }

    /// The cell that a point falls into.
    pub fn grid_key(&self, p: &RawPoint) -> (c: Cell)
        requires
            self.wf(),
        ensures
            c == self.cell_of(p@),
    {
        (
            #[verifier::truncate]
            (div_towards_zero(p.x as i64 - self.origin_x, self.cell) as i32),
            #[verifier::truncate]
            (div_towards_zero(p.y as i64 - self.origin_y, self.cell) as i32),
            #[verifier::truncate]
            (div_towards_zero(p.z as i64 - self.origin_z, self.cell) as i32),
        )
    }

    /// The code by which points are visited.
    pub fn morton(&self, p: &RawPoint) -> (m: u64)
        requires
            self.wf(),
        ensures
            m == self.code_of(p@),
    {
        morton3(
            offset_from(p.x, self.origin_x),
            offset_from(p.y, self.origin_y),
            offset_from(p.z, self.origin_z),
        )
    }
}

fn div_towards_zero(a: i64, b: i64) -> (q: i64)
    requires
        b >= 1,
        a > i64::MIN,
    ensures
        q == trunc_div(a as int, b as int),
{
    if a >= 0 {
        a / b
    } else {
        let m: i64 = -a;
        proof {
            vstd::arithmetic::div_mod::lemma_div_is_ordered_by_denominator(m as int, 1, b as int);
            vstd::arithmetic::div_mod::lemma_div_basics(m as int);
            vstd::arithmetic::div_mod::lemma_div_pos_is_pos(m as int, b as int);
        }
        -(m / b)
    }
}

fn offset_from(v: i32, origin: i64) -> (d: u32)
    requires
        origin_in_range(origin),
    ensures
        d == grid_offset(v, origin),
{
    let d: i64 = v as i64 - origin;
    if d > 0 {
        #[verifier::truncate]
        (d as u32)
    } else {
        0
    }
}

/// The integer that stands for a cell in a set.
fn cell_id(c: Cell) -> (id: u128)
    ensures
        id == cell_code(c),
{
    let x: u128 = (c.0 as u32) as u128;
    let y: u128 = (c.1 as u32) as u128;
    let z: u128 = (c.2 as u32) as u128;
    x * 0x1_0000_0000_0000_0000 + y * 0x1_0000_0000 + z
}

spec fn cell_code(c: Cell) -> int {
    (c.0 as u32) * 0x1_0000_0000_0000_0000 + (c.1 as u32) * 0x1_0000_0000 + (c.2 as u32)
}

proof fn lemma_cell_code_injective(a: Cell, b: Cell)
    requires
        cell_code(a) == cell_code(b),
    ensures
        a == b,
{
    crate::le::lemma_i32_bits_injective(a.0, b.0);
    crate::le::lemma_i32_bits_injective(a.1, b.1);
    crate::le::lemma_i32_bits_injective(a.2, b.2);
}

// The sample, in terms of indices.
/// Whether a cell is free of the points taken so far.
pub open spec fn is_free(taken: Seq<usize>, cell: spec_fn(usize) -> Cell, i: usize) -> bool {
    forall|j: int| 0 <= j < taken.len() ==> cell(#[trigger] taken[j]) != cell(i)
}

/// The points that the parent takes when it visits `order`: each point whose
/// cell is free, until it has `max` of them.
pub open spec fn accepted(order: Seq<usize>, cell: spec_fn(usize) -> Cell, max: nat) -> Seq<usize>
    decreases order.len(),
{
    if order.len() == 0 {
        Seq::empty()
    } else {
        let taken = accepted(order.drop_last(), cell, max);
        if taken.len() < max && is_free(taken, cell, order.last()) {
            taken.push(order.last())
        } else {
            taken
        }
    }
}

/// The points of child `c` that the parent does not take.
pub open spec fn rejected(
    order: Seq<usize>,
    cell: spec_fn(usize) -> Cell,
    max: nat,
    child: spec_fn(usize) -> usize,
    c: int,
) -> Seq<usize>
    decreases order.len(),
{
    if order.len() == 0 {
        Seq::empty()
    } else {
        let left = rejected(order.drop_last(), cell, max, child, c);
        let taken = accepted(order.drop_last(), cell, max);
        if taken.len() < max && is_free(taken, cell, order.last()) {
            left
        } else if child(order.last()) == c {
            left.push(order.last())
        } else {
            left
        }
    }
}

/// Where the last point of child `c` stands in `taken`; -1 if there is none.
pub open spec fn last_of(taken: Seq<usize>, child: spec_fn(usize) -> usize, c: int) -> int
    decreases taken.len(),
{
    if taken.len() == 0 {
        -1
    } else if child(taken.last()) == c {
        taken.len() - 1
    } else {
        last_of(taken.drop_last(), child, c)
    }
}

/// What the parent keeps after the first `n` children without a point of their
/// own have each taken back their last one.
pub open spec fn settled(
    order: Seq<usize>,
    cell: spec_fn(usize) -> Cell,
    max: nat,
    child: spec_fn(usize) -> usize,
    n: nat,
) -> Seq<usize>
    decreases n,
{
    if n == 0 {
        accepted(order, cell, max)
    } else {
        let c = n - 1;
        let taken = settled(order, cell, max, child, c as nat);
        let pos = last_of(taken, child, c);
        if rejected(order, cell, max, child, c).len() == 0 && pos >= 0 {
            taken.remove(pos)
        } else {
            taken
        }
    }
}

/// What child `c` keeps.
pub open spec fn kept(
    order: Seq<usize>,
    cell: spec_fn(usize) -> Cell,
    max: nat,
    child: spec_fn(usize) -> usize,
    c: int,
) -> Seq<usize> {
    let taken = settled(order, cell, max, child, c as nat);
    let pos = last_of(taken, child, c);
    let left = rejected(order, cell, max, child, c);
    if left.len() == 0 && pos >= 0 {
        seq![taken[pos]]
    } else {
        left
    }
}

pub proof fn lemma_last_of(taken: Seq<usize>, child: spec_fn(usize) -> usize, c: int)
    ensures
        -1 <= last_of(taken, child, c) < taken.len(),
        last_of(taken, child, c) >= 0 ==> child(taken[last_of(taken, child, c)]) == c,
        forall|j: int|
            last_of(taken, child, c) < j < taken.len() ==> child(#[trigger] taken[j]) != c,
    decreases taken.len(),
{
    if taken.len() > 0 && child(taken.last()) != c {
        lemma_last_of(taken.drop_last(), child, c);
        assert forall|j: int| last_of(taken, child, c) < j < taken.len() implies child(
            #[trigger] taken[j],
        ) != c by {
            if j < taken.len() - 1 {
                assert(taken.drop_last()[j] == taken[j]);
            }
        }
        if last_of(taken, child, c) >= 0 {
            assert(taken.drop_last()[last_of(taken, child, c)] == taken[last_of(
                taken,
                child,
                c,
            )]);
        }
    }
}

/// The sum of the first `n` multisets.
pub open spec fn sum_of<T>(part: spec_fn(int) -> Multiset<T>, n: nat) -> Multiset<T>
    decreases n,
{
    if n == 0 {
        Multiset::empty()
    } else {
        sum_of(part, (n - 1) as nat).add(part(n - 1))
    }
}

/// Sums of parts that agree but for one more value in part `c`.
pub proof fn lemma_sum_insert<T>(
    part: spec_fn(int) -> Multiset<T>,
    more: spec_fn(int) -> Multiset<T>,
    c: int,
    v: T,
    n: nat,
)
    requires
        0 <= c < n,
        forall|i: int| 0 <= i < n && i != c ==> #[trigger] more(i) == part(i),
        more(c) == part(c).insert(v),
    ensures
        sum_of(more, n) == sum_of(part, n).insert(v),
    decreases n,
{
    if c == n - 1 {
        lemma_sum_same(part, more, (n - 1) as nat);
    } else {
        lemma_sum_insert(part, more, c, v, (n - 1) as nat);
    }
    assert(sum_of(more, n) =~= sum_of(part, n).insert(v));
}

pub proof fn lemma_sum_same<T>(
    part: spec_fn(int) -> Multiset<T>,
    more: spec_fn(int) -> Multiset<T>,
    n: nat,
)
    requires
        forall|i: int| 0 <= i < n ==> #[trigger] more(i) == part(i),
    ensures
        sum_of(more, n) == sum_of(part, n),
    decreases n,
{
    if n > 0 {
        lemma_sum_same(part, more, (n - 1) as nat);
        assert(more(n - 1) == part(n - 1));
    }
}

/// The values of the points of child `c` that the parent does not take.
spec fn rejected_part<T>(
    value: spec_fn(usize) -> T,
    order: Seq<usize>,
    cell: spec_fn(usize) -> Cell,
    max: nat,
    child: spec_fn(usize) -> usize,
) -> spec_fn(int) -> Multiset<T> {
    |c: int| picked(value, rejected(order, cell, max, child, c))
}

/// Every point is taken by the parent or left with its child.
proof fn lemma_pass_conserves<T>(
    value: spec_fn(usize) -> T,
    order: Seq<usize>,
    cell: spec_fn(usize) -> Cell,
    max: nat,
    child: spec_fn(usize) -> usize,
    n: nat,
)
    requires
        forall|i: int| 0 <= i < order.len() ==> child(#[trigger] order[i]) < n,
    ensures
        picked(value, order) == picked(value, accepted(order, cell, max)).add(
            sum_of(rejected_part(value, order, cell, max, child), n),
        ),
    decreases order.len(),
{
    let part = rejected_part(value, order, cell, max, child);
    if order.len() == 0 {
        lemma_sum_empty(part, n);
        assert(picked(value, order) =~= picked(value, accepted(order, cell, max)).add(
            sum_of(part, n),
        ));
    } else {
        let init = order.drop_last();
        let i = order.last();
        let before = rejected_part(value, init, cell, max, child);
        assert forall|j: int| 0 <= j < init.len() implies child(#[trigger] init[j]) < n by {
            assert(init[j] == order[j]);
        }
        lemma_pass_conserves(value, init, cell, max, child, n);
        let taken = accepted(init, cell, max);
        if taken.len() < max && is_free(taken, cell, i) {
            assert(taken.push(i).drop_last() =~= taken);
            lemma_sum_same(before, part, n);
        } else {
            let c = child(i) as int;
            assert(order[order.len() - 1] == i);
            assert forall|k: int| 0 <= k < n && k != c implies #[trigger] part(k) == before(k) by {
            }
            assert(rejected(init, cell, max, child, c).push(i).drop_last() =~= rejected(
                init,
                cell,
                max,
                child,
                c,
            ));
            lemma_sum_insert(before, part, c, value(i), n);
        }
        assert(picked(value, order) =~= picked(value, accepted(order, cell, max)).add(
            sum_of(part, n),
        ));
    }
}

pub proof fn lemma_sum_empty<T>(part: spec_fn(int) -> Multiset<T>, n: nat)
    requires
        forall|i: int| 0 <= i < n ==> #[trigger] part(i) == Multiset::<T>::empty(),
    ensures
        sum_of(part, n) == Multiset::<T>::empty(),
    decreases n,
{
    if n > 0 {
        lemma_sum_empty(part, (n - 1) as nat);
        assert(part(n - 1) == Multiset::<T>::empty());
        assert(sum_of(part, n) =~= Multiset::<T>::empty());
    }
}

/// What each child has after the first `k` children took a point back.
spec fn mixed_part<T>(
    value: spec_fn(usize) -> T,
    order: Seq<usize>,
    cell: spec_fn(usize) -> Cell,
    max: nat,
    child: spec_fn(usize) -> usize,
    k: int,
) -> spec_fn(int) -> Multiset<T> {
    |c: int|
        if c < k {
            picked(value, kept(order, cell, max, child, c))
        } else {
            picked(value, rejected(order, cell, max, child, c))
        }
}

/// The values that each child keeps.
pub open spec fn kept_part<T>(
    value: spec_fn(usize) -> T,
    order: Seq<usize>,
    cell: spec_fn(usize) -> Cell,
    max: nat,
    child: spec_fn(usize) -> usize,
) -> spec_fn(int) -> Multiset<T> {
    |c: int| picked(value, kept(order, cell, max, child, c))
}

proof fn lemma_settle_conserves<T>(
    value: spec_fn(usize) -> T,
    order: Seq<usize>,
    cell: spec_fn(usize) -> Cell,
    max: nat,
    child: spec_fn(usize) -> usize,
    n: nat,
    k: nat,
)
    requires
        k <= n,
        forall|i: int| 0 <= i < order.len() ==> child(#[trigger] order[i]) < n,
    ensures
        picked(value, order) == picked(value, settled(order, cell, max, child, k)).add(
            sum_of(mixed_part(value, order, cell, max, child, k as int), n),
        ),
    decreases k,
{
    let now = mixed_part(value, order, cell, max, child, k as int);
    if k == 0 {
        lemma_pass_conserves(value, order, cell, max, child, n);
        lemma_sum_same(rejected_part(value, order, cell, max, child), now, n);
    } else {
        let c = k - 1;
        lemma_settle_conserves(value, order, cell, max, child, n, c as nat);
        let before = mixed_part(value, order, cell, max, child, c);
        let taken = settled(order, cell, max, child, c as nat);
        let pos = last_of(taken, child, c);
        lemma_last_of(taken, child, c);
        assert forall|i: int| 0 <= i < n && i != c implies #[trigger] now(i) == before(i) by {}
        if rejected(order, cell, max, child, c).len() == 0 && pos >= 0 {
            lemma_picked_remove(value, taken, pos);
            let one = seq![taken[pos]];
            assert(one.drop_last() =~= Seq::<usize>::empty());
            assert(picked(value, one.drop_last()) =~= Multiset::<T>::empty());
            assert(before(c) =~= Multiset::<T>::empty());
            assert(now(c) == before(c).insert(value(taken[pos])));
            lemma_sum_insert(before, now, c, value(taken[pos]), n);
        } else {
            assert(now(c) == before(c));
            lemma_sum_same(before, now, n);
        }
        assert(picked(value, order) =~= picked(value, settled(order, cell, max, child, k)).add(
            sum_of(now, n),
        ));
    }
}

/// Every point of `order` is kept by the parent or by its child, exactly once.
pub proof fn lemma_sample_conserves<T>(
    value: spec_fn(usize) -> T,
    order: Seq<usize>,
    cell: spec_fn(usize) -> Cell,
    max: nat,
    child: spec_fn(usize) -> usize,
    n: nat,
)
    requires
        forall|i: int| 0 <= i < order.len() ==> child(#[trigger] order[i]) < n,
    ensures
        picked(value, order) == picked(value, settled(order, cell, max, child, n)).add(
            sum_of(kept_part(value, order, cell, max, child), n),
        ),
{
    lemma_settle_conserves(value, order, cell, max, child, n, n);
    lemma_sum_same(
        mixed_part(value, order, cell, max, child, n as int),
        kept_part(value, order, cell, max, child),
        n,
    );
}

/// What the parent has taken are points of `order`, from distinct cells, and no
/// more than the grid has.
pub proof fn lemma_accepted_facts(order: Seq<usize>, cell: spec_fn(usize) -> Cell, max: nat)
    ensures
        accepted(order, cell, max).len() <= max,
        forall|i: int|
            0 <= i < accepted(order, cell, max).len() ==> order.contains(
                #[trigger] accepted(order, cell, max)[i],
            ),
        forall|i: int, j: int|
            0 <= i < j < accepted(order, cell, max).len() ==> cell(
                #[trigger] accepted(order, cell, max)[i],
            ) != cell(#[trigger] accepted(order, cell, max)[j]),
    decreases order.len(),
{
    if order.len() > 0 {
        let init = order.drop_last();
        lemma_accepted_facts(init, cell, max);
        let a = accepted(order, cell, max);
        let b = accepted(init, cell, max);
        assert(order[order.len() - 1] == order.last());
        assert forall|i: int| 0 <= i < a.len() implies order.contains(#[trigger] a[i]) by {
            if i < b.len() {
                assert(init.contains(b[i]));
                let k = choose|k: int| 0 <= k < init.len() && init[k] == b[i];
                assert(order[k] == b[i]);
            }
        }
        assert forall|i: int, j: int| 0 <= i < j < a.len() implies cell(#[trigger] a[i]) != cell(
            #[trigger] a[j],
        ) by {
            if j < b.len() {
                assert(a[i] == b[i] && a[j] == b[j]);
            }
        }
    }
}

/// What the parent keeps in the end are points of `order`, from distinct cells,
/// and no more than the grid has.
pub proof fn lemma_settled_facts(
    order: Seq<usize>,
    cell: spec_fn(usize) -> Cell,
    max: nat,
    child: spec_fn(usize) -> usize,
    n: nat,
)
    ensures
        settled(order, cell, max, child, n).len() <= max,
        forall|i: int|
            0 <= i < settled(order, cell, max, child, n).len() ==> order.contains(
                #[trigger] settled(order, cell, max, child, n)[i],
            ),
        forall|i: int, j: int|
            0 <= i < j < settled(order, cell, max, child, n).len() ==> cell(
                #[trigger] settled(order, cell, max, child, n)[i],
            ) != cell(#[trigger] settled(order, cell, max, child, n)[j]),
    decreases n,
{
    if n == 0 {
        lemma_accepted_facts(order, cell, max);
    } else {
        let c = n - 1;
        lemma_settled_facts(order, cell, max, child, c as nat);
        let a = settled(order, cell, max, child, c as nat);
        let pos = last_of(a, child, c);
        lemma_last_of(a, child, c);
        let b = settled(order, cell, max, child, n);
        if b != a {
            assert(b == a.remove(pos));
            assert forall|i: int| 0 <= i < b.len() implies order.contains(#[trigger] b[i]) by {
                let k = if i < pos {
                    i
                } else {
                    i + 1
                };
                assert(b[i] == a[k]);
            }
            assert forall|i: int, j: int| 0 <= i < j < b.len() implies cell(#[trigger] b[i])
                != cell(#[trigger] b[j]) by {
                let k = if i < pos {
                    i
                } else {
                    i + 1
                };
                let l = if j < pos {
                    j
                } else {
                    j + 1
                };
                assert(b[i] == a[k] && b[j] == a[l]);
            }
        }
    }
}

/// Until child `c` takes a point back, all of its points that it does not have
/// are among those that the parent holds.
pub proof fn lemma_child_points(
    order: Seq<usize>,
    cell: spec_fn(usize) -> Cell,
    max: nat,
    child: spec_fn(usize) -> usize,
    c: int,
    i: int,
)
    requires
        0 <= i < order.len(),
        child(order[i]) == c,
        rejected(order, cell, max, child, c).len() == 0,
    ensures
        accepted(order, cell, max).contains(order[i]),
    decreases order.len(),
{
    let init = order.drop_last();
    let a = accepted(order, cell, max);
    let b = accepted(init, cell, max);
    if i < init.len() {
        assert(init[i] == order[i]);
        lemma_child_points(init, cell, max, child, c, i);
        let k = choose|k: int| 0 <= k < b.len() && b[k] == order[i];
        assert(a[k] == order[i]);
    } else {
        assert(a[b.len() as int] == order[i]);
    }
}

pub proof fn lemma_settled_keeps(
    order: Seq<usize>,
    cell: spec_fn(usize) -> Cell,
    max: nat,
    child: spec_fn(usize) -> usize,
    n: nat,
    v: usize,
)
    requires
        accepted(order, cell, max).contains(v),
        child(v) >= n,
    ensures
        settled(order, cell, max, child, n).contains(v),
    decreases n,
{
    if n > 0 {
        let c = n - 1;
        lemma_settled_keeps(order, cell, max, child, c as nat, v);
        let a = settled(order, cell, max, child, c as nat);
        let pos = last_of(a, child, c);
        lemma_last_of(a, child, c);
        let k = choose|k: int| 0 <= k < a.len() && a[k] == v;
        let b = settled(order, cell, max, child, n);
        if b == a.remove(pos) && pos >= 0 {
            assert(k != pos);
            if k < pos {
                assert(b[k] == v);
            } else {
                assert(b[k - 1] == v);
            }
        }
    }
}

/// A child that brought points keeps at least one of them, and keeps nothing
/// but its own.
pub proof fn lemma_child_keeps_one(
    order: Seq<usize>,
    cell: spec_fn(usize) -> Cell,
    max: nat,
    child: spec_fn(usize) -> usize,
    c: int,
)
    requires
        c >= 0,
    ensures
        (exists|i: int| 0 <= i < order.len() && child(#[trigger] order[i]) == c) ==> kept(
            order,
            cell,
            max,
            child,
            c,
        ).len() > 0,
        forall|j: int|
            0 <= j < kept(order, cell, max, child, c).len() ==> {
                &&& child(#[trigger] kept(order, cell, max, child, c)[j]) == c
                &&& order.contains(kept(order, cell, max, child, c)[j])
            },
{
    let taken = settled(order, cell, max, child, c as nat);
    lemma_last_of(taken, child, c);
    lemma_settled_facts(order, cell, max, child, c as nat);
    lemma_rejected_own(order, cell, max, child, c);
    if exists|i: int| 0 <= i < order.len() && child(#[trigger] order[i]) == c {
        let i = choose|i: int| 0 <= i < order.len() && child(#[trigger] order[i]) == c;
        if rejected(order, cell, max, child, c).len() == 0 {
            lemma_child_points(order, cell, max, child, c, i);
            lemma_settled_keeps(order, cell, max, child, c as nat, order[i]);
            let k = choose|k: int| 0 <= k < taken.len() && taken[k] == order[i];
            assert(child(taken[k]) == c);
        }
    }
}

proof fn lemma_rejected_own(
    order: Seq<usize>,
    cell: spec_fn(usize) -> Cell,
    max: nat,
    child: spec_fn(usize) -> usize,
    c: int,
)
    ensures
        forall|j: int|
            0 <= j < rejected(order, cell, max, child, c).len() ==> {
                &&& child(#[trigger] rejected(order, cell, max, child, c)[j]) == c
                &&& order.contains(rejected(order, cell, max, child, c)[j])
            },
    decreases order.len(),
{
    if order.len() > 0 {
        let init = order.drop_last();
        lemma_rejected_own(init, cell, max, child, c);
        let a = rejected(order, cell, max, child, c);
        let b = rejected(init, cell, max, child, c);
        assert(order[order.len() - 1] == order.last());
        assert forall|j: int| 0 <= j < a.len() implies {
            &&& child(#[trigger] a[j]) == c
            &&& order.contains(a[j])
        } by {
            if j < b.len() {
                assert(a[j] == b[j]);
                let k = choose|k: int| 0 <= k < init.len() && init[k] == b[j];
                assert(order[k] == b[j]);
            }
        }
    }
}

// The sample, in terms of points.
/// The child that a tagged point came from.
pub open spec fn child_of(pts: Seq<(usize, PointView)>) -> spec_fn(usize) -> usize {
    |i: usize| pts[i as int].0
}

/// The cell of a tagged point.
pub open spec fn cell_at(grid: VoxelGrid, pts: Seq<(usize, PointView)>) -> spec_fn(usize) -> Cell {
    |i: usize| grid.cell_of(pts[i as int].1)
}

/// A tagged point without its tag.
pub open spec fn point_at(pts: Seq<(usize, PointView)>) -> spec_fn(usize) -> PointView {
    |i: usize| pts[i as int].1
}

/// The codes of the tagged points.
pub open spec fn codes_of(grid: VoxelGrid, pts: Seq<(usize, PointView)>) -> Seq<u128> {
    Seq::new(pts.len(), |i: int| grid.code_of(pts[i].1) as u128)
}

/// The points that the parent keeps.
pub open spec fn parent_share(
    grid: VoxelGrid,
    pts: Seq<(usize, PointView)>,
    n_children: nat,
) -> Seq<PointView> {
    settled(
        sort_order(codes_of(grid, pts)),
        cell_at(grid, pts),
        MAX_ACCEPTED as nat,
        child_of(pts),
        n_children,
    ).map_values(point_at(pts))
}

/// The points that child `c` keeps.
pub open spec fn child_share(grid: VoxelGrid, pts: Seq<(usize, PointView)>, c: int) -> Seq<
    PointView,
> {
    kept(
        sort_order(codes_of(grid, pts)),
        cell_at(grid, pts),
        MAX_ACCEPTED as nat,
        child_of(pts),
        c,
    ).map_values(point_at(pts))
}

/// All tagged points, without their tags.
pub open spec fn untagged(pts: Seq<(usize, PointView)>) -> Seq<PointView> {
    pts.map_values(|t: (usize, PointView)| t.1)
}

/// The views of tagged points.
pub open spec fn tagged_views(pts: Seq<(usize, RawPoint)>) -> Seq<(usize, PointView)> {
    pts.map_values(|t: (usize, RawPoint)| (t.0, t.1@))
}

/// The points of several nodes.
pub open spec fn node_points(nodes: Seq<Vec<RawPoint>>) -> spec_fn(int) -> Multiset<PointView> {
    |c: int| point_views(nodes[c]@).to_multiset()
}

/// The values picked are the values of the items.
pub proof fn lemma_picked_is_multiset<T>(value: spec_fn(usize) -> T, sel: Seq<usize>)
    ensures
        picked(value, sel) == sel.map_values(value).to_multiset(),
    decreases sel.len(),
{
    broadcast use vstd::seq_lib::group_to_multiset_ensures;

    let m = sel.map_values(value);
    if sel.len() == 0 {
        assert(picked(value, sel) =~= m.to_multiset());
    } else {
        lemma_picked_is_multiset(value, sel.drop_last());
        assert(m =~= sel.drop_last().map_values(value).push(value(sel.last())));
    }
}

/// Where the last point of child `c` stands.
fn find_last(taken: &Vec<usize>, tags: &Vec<usize>, c: usize, Ghost(child): Ghost<
    spec_fn(usize) -> usize,
>) -> (r: Option<usize>)
    requires
        forall|j: int| 0 <= j < taken@.len() ==> #[trigger] taken@[j] < tags@.len(),
        forall|i: usize| i < tags@.len() ==> #[trigger] child(i) == tags@[i as int],
    ensures
        match r {
            Some(p) => p == last_of(taken@, child, c as int) && p < taken@.len(),
            None => last_of(taken@, child, c as int) == -1,
        },
{
    proof {
        lemma_last_of(taken@, child, c as int);
    }
    let mut p: usize = taken.len();
    while p > 0
        invariant
            p <= taken@.len(),
            forall|j: int| 0 <= j < taken@.len() ==> #[trigger] taken@[j] < tags@.len(),
            forall|i: usize| i < tags@.len() ==> #[trigger] child(i) == tags@[i as int],
            last_of(taken@, child, c as int) < p,
            last_of(taken@, child, c as int) >= 0 ==> child(
                taken@[last_of(taken@, child, c as int)],
            ) == c,
            forall|j: int|
                last_of(taken@, child, c as int) < j < taken@.len() ==> child(#[trigger] taken@[j])
                    != c,
            last_of(taken@, child, c as int) >= -1,
        decreases p,
    {
        p = p - 1;
        let i: usize = taken[p];
        assert(child(i) == tags@[i as int]);
        if tags[i] == c {
            return Some(p);
        }
    }
    None
}

/// Thins the points of one parent's children. `pts` holds the points, each with
/// the number of the child it came from. Returns the points that the parent
/// takes and those that each child keeps.
///
/// No point is lost or doubled, the parent takes at most one point per cell,
/// and every child that brought points keeps at least one, so that no node in
/// the middle of the tree is left empty.
pub fn grid_sample(
    grid: &VoxelGrid,
    pts: &Vec<(usize, RawPoint)>,
    n_children: usize,
) -> (r: (Vec<RawPoint>, Vec<Vec<RawPoint>>))
    requires
        grid.wf(),
        forall|i: int| 0 <= i < pts@.len() ==> (#[trigger] pts@[i]).0 < n_children,
    ensures
        point_views(r.0@) == parent_share(*grid, tagged_views(pts@), n_children as nat),
        r.1@.len() == n_children,
        forall|c: int|
            0 <= c < n_children ==> point_views((#[trigger] r.1@[c])@) == child_share(
                *grid,
                tagged_views(pts@),
                c,
            ),
        untagged(tagged_views(pts@)).to_multiset() == point_views(r.0@).to_multiset().add(
            sum_of(node_points(r.1@), n_children as nat),
        ),
        r.0@.len() <= MAX_ACCEPTED,
        forall|i: int, j: int|
            0 <= i < j < r.0@.len() ==> grid.cell_of((#[trigger] r.0@[i])@) != grid.cell_of(
                (#[trigger] r.0@[j])@,
            ),
        forall|i: int|
            0 <= i < pts@.len() ==> r.1@[(#[trigger] pts@[i]).0 as int]@.len() > 0,
{
    broadcast use vstd::std_specs::hash::group_hash_axioms;

    let ghost views = tagged_views(pts@);
    let ghost child = child_of(views);
    let ghost cell = cell_at(*grid, views);
    let ghost max = MAX_ACCEPTED as nat;
    let n: usize = pts.len();
    let mut codes: Vec<u128> = Vec::new();
    let mut ids: Vec<u128> = Vec::new();
    let mut tags: Vec<usize> = Vec::new();
    let mut i: usize = 0;
    while i < n
        invariant
            n == pts@.len(),
            i <= n,
            grid.wf(),
            views == tagged_views(pts@),
            cell == cell_at(*grid, views),
            codes@ =~= codes_of(*grid, views).take(i as int),
            ids@.len() == i,
            tags@.len() == i,
            forall|k: int| 0 <= k < i ==> #[trigger] ids@[k] == cell_code(cell(k as usize)),
            forall|k: int| 0 <= k < i ==> #[trigger] tags@[k] == pts@[k].0,
        decreases n - i,
    {
        codes.push(grid.morton(&pts[i].1) as u128);
        ids.push(cell_id(grid.grid_key(&pts[i].1)));
        tags.push(pts[i].0);
        i = i + 1;
    }
    assert(codes@ =~= codes_of(*grid, views));
    let order = sorted_order(codes.as_slice());
    let ghost ord = order@;
    let mut left: Vec<Vec<usize>> = Vec::new();
    let mut c: usize = 0;
    while c < n_children
        invariant
            c <= n_children,
            left@.len() == c,
            forall|k: int| 0 <= k < c ==> (#[trigger] left@[k])@.len() == 0,
        decreases n_children - c,
    {
        left.push(Vec::new());
        c = c + 1;
    }
    let mut taken: Vec<usize> = Vec::new();
    let mut occupied: HashSet<u128> = HashSet::new();
    let mut i: usize = 0;
    assert(ord.take(0) =~= Seq::<usize>::empty());
    assert forall|k: int| 0 <= k < n_children implies (#[trigger] left@[k])@ == rejected(
        ord.take(0),
        cell,
        max,
        child,
        k,
    ) by {
        assert(left@[k]@ =~= Seq::<usize>::empty());
    }
    while i < n
        invariant
            n == pts@.len(),
            n == ord.len(),
            ord == order@,
            i <= n,
            max == MAX_ACCEPTED,
            views == tagged_views(pts@),
            cell == cell_at(*grid, views),
            child == child_of(views),
            ids@.len() == n,
            tags@.len() == n,
            left@.len() == n_children,
            forall|k: int| 0 <= k < n ==> #[trigger] ord[k] < n,
            forall|k: int| 0 <= k < n ==> #[trigger] ids@[k] == cell_code(cell(k as usize)),
            forall|k: int| 0 <= k < n ==> #[trigger] tags@[k] == pts@[k].0,
            forall|k: int| 0 <= k < n ==> (#[trigger] pts@[k]).0 < n_children,
            taken@ == accepted(ord.take(i as int), cell, max),
            forall|k: int|
                0 <= k < n_children ==> (#[trigger] left@[k])@ == rejected(
                    ord.take(i as int),
                    cell,
                    max,
                    child,
                    k,
                ),
            forall|j: int|
                0 <= j < taken@.len() ==> occupied@.contains(
                    cell_code(cell(#[trigger] taken@[j])) as u128,
                ),
            forall|id: u128| #[trigger]
                occupied@.contains(id) ==> exists|j: int|
                    0 <= j < taken@.len() && id == cell_code(cell(#[trigger] taken@[j])),
        decreases n - i,
    {
        broadcast use vstd::std_specs::hash::group_hash_axioms;

        let v: usize = order[i];
        let ghost before = ord.take(i as int);
        let ghost after = ord.take(i + 1);
        proof {
            assert(after.drop_last() =~= before);
            assert(after.last() == v);
            assert(ids@[v as int] == cell_code(cell(v)));
            assert(tags@[v as int] == pts@[v as int].0);
            if is_free(taken@, cell, v) {
                assert(!occupied@.contains(ids@[v as int])) by {
                    if occupied@.contains(ids@[v as int]) {
                        let j = choose|j: int|
                            0 <= j < taken@.len() && ids@[v as int] == cell_code(
                                cell(#[trigger] taken@[j]),
                            );
                        lemma_cell_code_injective(cell(taken@[j]), cell(v));
                    }
                }
            } else {
                let j = choose|j: int|
                    0 <= j < taken@.len() && cell(#[trigger] taken@[j]) == cell(v);
                assert(occupied@.contains(cell_code(cell(taken@[j])) as u128));
            }
        }
        let ghost old_left = left@;
        let ghost old_taken = taken@;
        let ghost old_occupied = occupied@;
        if taken.len() < MAX_ACCEPTED && occupied.insert(ids[v]) {
            taken.push(v);
            assert(taken@[old_taken.len() as int] == v);
            assert forall|id: u128| #[trigger] occupied@.contains(id) implies exists|j: int|
                0 <= j < taken@.len() && id == cell_code(cell(#[trigger] taken@[j])) by {
                if old_occupied.contains(id) {
                    let j = choose|j: int|
                        0 <= j < old_taken.len() && id == cell_code(cell(#[trigger] old_taken[j]));
                    assert(taken@[j] == old_taken[j]);
                }
            }
            assert forall|j: int| 0 <= j < taken@.len() implies occupied@.contains(
                cell_code(cell(#[trigger] taken@[j])) as u128,
            ) by {
                if j < old_taken.len() {
                    assert(taken@[j] == old_taken[j]);
                }
            }
        } else {
            let t: usize = tags[v];
            left[t].push(v);
            assert forall|k: int| 0 <= k < n_children implies (#[trigger] left@[k])@ == rejected(
                after,
                cell,
                max,
                child,
                k,
            ) by {
                assert(old_left[k]@ == rejected(before, cell, max, child, k));
            }
            assert forall|j: int| 0 <= j < taken@.len() implies occupied@.contains(
                cell_code(cell(#[trigger] taken@[j])) as u128,
            ) by {
                assert(old_occupied.contains(cell_code(cell(old_taken[j])) as u128));
            }
        }
        i = i + 1;
    }
    assert(ord.take(i as int) =~= ord);
    let mut c: usize = 0;
    while c < n_children
        invariant
            n == pts@.len(),
            c <= n_children,
            views == tagged_views(pts@),
            child == child_of(views),
            tags@.len() == n,
            left@.len() == n_children,
            forall|k: int| 0 <= k < n ==> #[trigger] tags@[k] == pts@[k].0,
            forall|k: int| 0 <= k < ord.len() ==> #[trigger] ord[k] < n,
            taken@ == settled(ord, cell, max, child, c as nat),
            forall|k: int|
                0 <= k < c ==> (#[trigger] left@[k])@ == kept(ord, cell, max, child, k),
            forall|k: int|
                c <= k < n_children ==> (#[trigger] left@[k])@ == rejected(
                    ord,
                    cell,
                    max,
                    child,
                    k,
                ),
        decreases n_children - c,
    {
        proof {
            lemma_settled_facts(ord, cell, max, child, c as nat);
            assert forall|j: int| 0 <= j < taken@.len() implies #[trigger] taken@[j] < n by {
                assert(ord.contains(taken@[j]));
            }
            assert forall|i: usize| i < tags@.len() implies #[trigger] child(i)
                == tags@[i as int] by {}
        }
        let ghost old_left = left@;
        if left[c].len() == 0 {
            match find_last(&taken, &tags, c, Ghost(child)) {
                Some(pos) => {
                    let v: usize = taken.remove(pos);
                    left[c].push(v);
                    assert(left@[c as int]@ =~= kept(ord, cell, max, child, c as int));
                },
                None => {},
            }
        }
        assert forall|k: int| 0 <= k < c + 1 implies (#[trigger] left@[k])@ == kept(
            ord,
            cell,
            max,
            child,
            k,
        ) by {
            if k < c {
                assert(left@[k] == old_left[k]);
            }
        }
        c = c + 1;
    }
    proof {
        lemma_settled_facts(ord, cell, max, child, n_children as nat);
    }
    let ghost settled_idx = taken@;
    assert forall|j: int| 0 <= j < taken@.len() implies #[trigger] taken@[j] < n by {
        assert(ord.contains(taken@[j]));
    }
    let parent = select_points(pts, &taken);
    assert(point_views(parent@) == settled_idx.map_values(point_at(views)));
    assert(parent@.len() == point_views(parent@).len());
    let mut remaining: Vec<Vec<RawPoint>> = Vec::new();
    let mut c: usize = 0;
    while c < n_children
        invariant
            n == pts@.len(),
            c <= n_children,
            views == tagged_views(pts@),
            left@.len() == n_children,
            remaining@.len() == c,
            forall|k: int| 0 <= k < ord.len() ==> #[trigger] ord[k] < n,
            forall|k: int|
                0 <= k < n_children ==> (#[trigger] left@[k])@ == kept(ord, cell, max, child, k),
            forall|k: int|
                0 <= k < c ==> point_views((#[trigger] remaining@[k])@) == kept(
                    ord,
                    cell,
                    max,
                    child,
                    k,
                ).map_values(point_at(views)),
        decreases n_children - c,
    {
        proof {
            lemma_child_keeps_one(ord, cell, max, child, c as int);
            assert forall|j: int| 0 <= j < left@[c as int]@.len() implies #[trigger] left@[c as int]@[j]
                < n by {
                assert(ord.contains(left@[c as int]@[j]));
            }
        }
        remaining.push(select_points(pts, &left[c]));
        c = c + 1;
    }
    proof {
        let value = point_at(views);
        let nc = n_children as nat;
        assert forall|i: int| 0 <= i < ord.len() implies child(#[trigger] ord[i]) < nc by {
            assert(pts@[ord[i] as int].0 < n_children);
        }
        lemma_sample_conserves(value, ord, cell, max, child, nc);
        lemma_picked_permutation(value, ord, n as nat);
        lemma_picked_is_multiset(value, all_indices(n as nat));
        assert(all_indices(n as nat).map_values(value) =~= untagged(views));
        lemma_picked_is_multiset(value, settled_idx);
        let part = kept_part(value, ord, cell, max, child);
        assert forall|k: int| 0 <= k < nc implies #[trigger] node_points(remaining@)(k) == part(
            k,
        ) by {
            lemma_picked_is_multiset(value, kept(ord, cell, max, child, k));
            assert(point_views(remaining@[k]@) == kept(ord, cell, max, child, k).map_values(
                value,
            ));
        }
        lemma_sum_same(part, node_points(remaining@), nc);
        assert forall|i: int| 0 <= i < pts@.len() implies remaining@[(#[trigger] pts@[i]).0 as int]@.len()
            > 0 by {
            let k = pts@[i].0 as int;
            lemma_child_keeps_one(ord, cell, max, child, k);
            assert(ord.contains(i as usize));
            let at = choose|at: int| 0 <= at < ord.len() && ord[at] == i as usize;
            assert(child(ord[at]) == k);
            assert(point_views(remaining@[k]@).len() == remaining@[k]@.len());
            assert(point_views(remaining@[k]@) == kept(ord, cell, max, child, k).map_values(
                value,
            ));
        }
        assert forall|i: int, j: int| 0 <= i < j < parent@.len() implies grid.cell_of(
            (#[trigger] parent@[i])@,
        ) != grid.cell_of((#[trigger] parent@[j])@) by {
            assert(point_views(parent@)[i] == settled_idx.map_values(value)[i]);
            assert(point_views(parent@)[j] == settled_idx.map_values(value)[j]);
            assert(parent@[i]@ == value(settled_idx[i]));
            assert(parent@[j]@ == value(settled_idx[j]));
            assert(cell(settled_idx[i]) != cell(settled_idx[j]));
        }
    }
    (parent, remaining)
}

/// The points with the given indices.
fn select_points(pts: &Vec<(usize, RawPoint)>, sel: &Vec<usize>) -> (r: Vec<RawPoint>)
    requires
        forall|j: int| 0 <= j < sel@.len() ==> #[trigger] sel@[j] < pts@.len(),
    ensures
        point_views(r@) == sel@.map_values(point_at(tagged_views(pts@))),
{
    let mut r: Vec<RawPoint> = Vec::new();
    let mut j: usize = 0;
    while j < sel.len()
        invariant
            j <= sel@.len(),
            forall|j: int| 0 <= j < sel@.len() ==> #[trigger] sel@[j] < pts@.len(),
            point_views(r@) =~= sel@.take(j as int).map_values(point_at(tagged_views(pts@))),
        decreases sel@.len() - j,
    {
        let i: usize = sel[j];
        let p = pts[i].1.clone();
        proof {
            assert(p@ == point_at(tagged_views(pts@))(i));
            assert(sel@.take(j + 1) =~= sel@.take(j as int).push(i));
            assert(point_views(r@.push(p)) =~= point_views(r@).push(p@));
        }
        r.push(p);
        j = j + 1;
    }
    assert(sel@.take(j as int) =~= sel@);
    r
}

// The sample, in terms of the children's nodes.
/// The points of the children, each with the number of its child.
pub open spec fn tag_children(children: Seq<Seq<PointView>>) -> Seq<(usize, PointView)>
    decreases children.len(),
{
    if children.len() == 0 {
        Seq::empty()
    } else {
        tag_children(children.drop_last()) + children.last().map_values(
            |p: PointView| ((children.len() - 1) as usize, p),
        )
    }
}

/// The views of the points of several nodes.
pub open spec fn lists_views(lists: Seq<Vec<RawPoint>>) -> Seq<Seq<PointView>> {
    lists.map_values(|v: Vec<RawPoint>| point_views(v@))
}

/// The points of several nodes.
pub open spec fn list_points(lists: Seq<Seq<PointView>>) -> spec_fn(int) -> Multiset<PointView> {
    |c: int| lists[c].to_multiset()
}

/// What the parent takes from its children.
pub open spec fn parent_of_children(grid: VoxelGrid, children: Seq<Seq<PointView>>) -> Seq<
    PointView,
> {
    parent_share(grid, tag_children(children), children.len())
}

/// What is left with child `c`.
pub open spec fn child_of_children(
    grid: VoxelGrid,
    children: Seq<Seq<PointView>>,
    c: int,
) -> Seq<PointView> {
    child_share(grid, tag_children(children), c)
}

pub proof fn lemma_tags(children: Seq<Seq<PointView>>)
    requires
        children.len() <= usize::MAX,
    ensures
        forall|i: int|
            0 <= i < tag_children(children).len() ==> {
                &&& (#[trigger] tag_children(children)[i]).0 < children.len()
                &&& children[tag_children(children)[i].0 as int].contains(
                    tag_children(children)[i].1,
                )
            },
        untagged(tag_children(children)).to_multiset() == sum_of(
            list_points(children),
            children.len(),
        ),
    decreases children.len(),
{
    let t = tag_children(children);
    if children.len() == 0 {
        assert(untagged(t).to_multiset() =~= Multiset::<PointView>::empty()) by {
            broadcast use vstd::seq_lib::group_to_multiset_ensures;

            vstd::seq_lib::to_multiset_len(untagged(t));
        }
    } else {
        let init = children.drop_last();
        let last = children.last();
        lemma_tags(init);
        let u = tag_children(init);
        assert forall|i: int| 0 <= i < t.len() implies {
            &&& (#[trigger] t[i]).0 < children.len()
            &&& children[t[i].0 as int].contains(t[i].1)
        } by {
            if i < u.len() {
                assert(t[i] == u[i]);
                assert(init[u[i].0 as int].contains(u[i].1));
            } else {
                assert(t[i].1 == last[i - u.len()]);
            }
        }
        assert(untagged(t) =~= untagged(u) + last);
        vstd::seq_lib::lemma_multiset_commutative(untagged(u), last);
        lemma_sum_same(list_points(init), list_points(children), init.len());
    }
}

/// The points of all children, each with the number of its child.
fn tag_points(children: &Vec<Vec<RawPoint>>) -> (tagged: Vec<(usize, RawPoint)>)
    ensures
        tagged_views(tagged@) == tag_children(lists_views(children@)),
{
    let ghost lists = lists_views(children@);
    let mut tagged: Vec<(usize, RawPoint)> = Vec::new();
    let mut c: usize = 0;
    assert(lists.take(0) =~= Seq::<Seq<PointView>>::empty());
    assert(tagged_views(tagged@) =~= tag_children(lists.take(0)));
    while c < children.len()
        invariant
            c <= children@.len(),
            lists == lists_views(children@),
            tagged_views(tagged@) == tag_children(lists.take(c as int)),
        decreases children@.len() - c,
    {
        let ghost before = tagged_views(tagged@);
        let ghost own = point_views(children@[c as int]@);
        let ghost tag = |p: PointView| (c, p);
        let mut i: usize = 0;
        assert(own.take(0) =~= Seq::<PointView>::empty());
        assert(before + own.take(0).map_values(tag) =~= before);
        while i < children[c].len()
            invariant
                c < children@.len(),
                i <= children@[c as int]@.len(),
                own == point_views(children@[c as int]@),
                tag == (|p: PointView| (c, p)),
                tagged_views(tagged@) == before + own.take(i as int).map_values(tag),
            decreases children@[c as int]@.len() - i,
        {
            let p = children[c][i].clone();
            proof {
                assert(p@ == own[i as int]);
                assert(own.take(i + 1) =~= own.take(i as int).push(own[i as int]));
                assert(tagged_views(tagged@.push((c, p))) =~= tagged_views(tagged@).push((c, p@)));
                assert(tagged_views(tagged@).push((c, p@)) =~= before + own.take(
                    i + 1,
                ).map_values(tag));
            }
            tagged.push((c, p));
            i = i + 1;
        }
        proof {
            assert(own.take(i as int) =~= own);
            let more = lists.take(c + 1);
            assert(more.drop_last() =~= lists.take(c as int));
            assert(more.last() == own);
            assert(own.map_values(tag) =~= own.map_values(
                |p: PointView| ((more.len() - 1) as usize, p),
            ));
        }
        c = c + 1;
    }
    assert(lists.take(c as int) =~= lists);
    tagged
}

/// Thins the points of a parent's children: returns what the parent takes and
/// what is left with each child. No point is lost or doubled.
pub fn sample_children(grid: &VoxelGrid, children: &Vec<Vec<RawPoint>>) -> (r: (
    Vec<RawPoint>,
    Vec<Vec<RawPoint>>,
))
    requires
        grid.wf(),
    ensures
        point_views(r.0@) == parent_of_children(*grid, lists_views(children@)),
        r.1@.len() == children@.len(),
        forall|c: int|
            0 <= c < children@.len() ==> point_views((#[trigger] r.1@[c])@) == child_of_children(
                *grid,
                lists_views(children@),
                c,
            ),
{
    let pts = tag_points(children);
    proof {
        assert(children.len() <= usize::MAX);
        lemma_tags(lists_views(children@));
        assert forall|i: int| 0 <= i < pts@.len() implies (#[trigger] pts@[i]).0
            < children@.len() by {
            assert(tagged_views(pts@)[i] == (pts@[i].0, pts@[i].1@));
        }
    }
    grid_sample(grid, &pts, children.len())
}

/// What a parent and its children share is what the children had: no point is
/// lost or doubled.
pub proof fn law_sample_conserves(grid: VoxelGrid, children: Seq<Seq<PointView>>)
    requires
        children.len() <= usize::MAX,
        tag_children(children).len() <= usize::MAX,
    ensures
        sum_of(list_points(children), children.len()) == parent_of_children(
            grid,
            children,
        ).to_multiset().add(
            sum_of(
                |c: int| child_of_children(grid, children, c).to_multiset(),
                children.len(),
            ),
        ),
{
    let pts = tag_children(children);
    let n = pts.len();
    let value = point_at(pts);
    let codes = codes_of(grid, pts);
    let ord = sort_order(codes);
    let cell = cell_at(grid, pts);
    let child = child_of(pts);
    let max = MAX_ACCEPTED as nat;
    lemma_tags(children);
    lemma_sort_order_exists(codes);
    assert forall|i: int| 0 <= i < ord.len() implies child(#[trigger] ord[i]) < children.len() by {
        assert(pts[ord[i] as int].0 < children.len());
    }
    lemma_sample_conserves(value, ord, cell, max, child, children.len());
    lemma_picked_permutation(value, ord, n);
    lemma_picked_is_multiset(value, all_indices(n));
    assert(all_indices(n).map_values(value) =~= untagged(pts));
    lemma_picked_is_multiset(value, settled(ord, cell, max, child, children.len()));
    let part = kept_part(value, ord, cell, max, child);
    let shares = |c: int| child_of_children(grid, children, c).to_multiset();
    assert forall|k: int| 0 <= k < children.len() implies #[trigger] shares(k) == part(k) by {
        lemma_picked_is_multiset(value, kept(ord, cell, max, child, k));
    }
    lemma_sum_same(part, shares, children.len());
}

/// A child keeps only points that were its own; the parent takes only points of
/// its children; a child that had points keeps at least one.
pub proof fn law_sample_sources(grid: VoxelGrid, children: Seq<Seq<PointView>>, c: int)
    requires
        0 <= c < children.len() <= usize::MAX,
        tag_children(children).len() <= usize::MAX,
    ensures
        forall|j: int|
            0 <= j < child_of_children(grid, children, c).len() ==> children[c].contains(
                #[trigger] child_of_children(grid, children, c)[j],
            ),
        children[c].len() > 0 ==> child_of_children(grid, children, c).len() > 0,
        forall|j: int|
            0 <= j < parent_of_children(grid, children).len() ==> exists|k: int|
                0 <= k < children.len() && (#[trigger] children[k]).contains(
                    #[trigger] parent_of_children(grid, children)[j],
                ),
        parent_of_children(grid, children).len() <= MAX_ACCEPTED,
{
    let pts = tag_children(children);
    let codes = codes_of(grid, pts);
    let ord = sort_order(codes);
    let cell = cell_at(grid, pts);
    let child = child_of(pts);
    let max = MAX_ACCEPTED as nat;
    lemma_tags(children);
    lemma_sort_order_exists(codes);
    lemma_child_keeps_one(ord, cell, max, child, c);
    let own = kept(ord, cell, max, child, c);
    assert forall|j: int| 0 <= j < child_of_children(grid, children, c).len() implies children[c].contains(
        #[trigger] child_of_children(grid, children, c)[j],
    ) by {
        assert(child(own[j]) == c);
        assert(ord.contains(own[j]));
        assert(pts[own[j] as int].0 == c);
    }
    if children[c].len() > 0 {
        lemma_tag_of(children, c, 0);
        let i = choose|i: int| 0 <= i < pts.len() && (#[trigger] pts[i]).0 == c;
        assert(ord.contains(i as usize));
        let at = choose|at: int| 0 <= at < ord.len() && ord[at] == i as usize;
        assert(child(ord[at]) == c);
    }
    let top = settled(ord, cell, max, child, children.len());
    lemma_settled_facts(ord, cell, max, child, children.len());
    assert forall|j: int| 0 <= j < parent_of_children(grid, children).len() implies exists|k: int|
        0 <= k < children.len() && (#[trigger] children[k]).contains(
            #[trigger] parent_of_children(grid, children)[j],
        ) by {
        assert(ord.contains(top[j]));
        let i = top[j] as int;
        assert(children[pts[i].0 as int].contains(pts[i].1));
    }
}

/// Every point of a child is tagged with the child's number.
proof fn lemma_tag_of(children: Seq<Seq<PointView>>, c: int, j: int)
    requires
        0 <= c < children.len() <= usize::MAX,
        0 <= j < children[c].len(),
    ensures
        exists|i: int|
            0 <= i < tag_children(children).len() && (#[trigger] tag_children(children)[i]).0 == c,
    decreases children.len(),
{
    let init = children.drop_last();
    let t = tag_children(children);
    let u = tag_children(init);
    if c < init.len() {
        lemma_tag_of(init, c, j);
        let i = choose|i: int| 0 <= i < u.len() && (#[trigger] u[i]).0 == c;
        assert(t[i].0 == c);
    } else {
        assert(t[u.len() + j].0 == c);
    }
}

} // verus!
