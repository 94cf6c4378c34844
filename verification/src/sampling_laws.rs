//! What thinning gives: which points a parent takes and which stay with its
//! children, in terms of the points and the cells of the grid.

use crate::point::PointView;
use crate::sampling::{
    accepted, cell_at, child_of, child_share, codes_of, grid_offset, is_free, kept, last_of,
    lemma_accepted_facts, lemma_child_points, lemma_last_of, lemma_settled_facts,
    lemma_settled_keeps, parent_share, point_at, rejected, settled, trunc_div, Cell, VoxelGrid,
};
use crate::sorting::{lemma_sort_order_exists, sort_order};
use vstd::arithmetic::power::pow;
use vstd::prelude::*;

verus! {

// In terms of indices.
/// A point that was not taken has a point of its cell among those that were, or
/// there was no room.
proof fn lemma_pass_complete(
    order: Seq<usize>,
    cell: spec_fn(usize) -> Cell,
    max: nat,
    child: spec_fn(usize) -> usize,
    c: int,
    j: int,
)
    requires
        0 <= j < rejected(order, cell, max, child, c).len(),
    ensures
        accepted(order, cell, max).len() >= max || exists|k: int|
            0 <= k < accepted(order, cell, max).len() && cell(
                #[trigger] accepted(order, cell, max)[k],
            ) == cell(rejected(order, cell, max, child, c)[j]),
    decreases order.len(),
{
    let init = order.drop_last();
    let a = accepted(order, cell, max);
    let b = accepted(init, cell, max);
    let r = rejected(init, cell, max, child, c);
    let v = rejected(order, cell, max, child, c)[j];
    if j < r.len() {
        lemma_pass_complete(init, cell, max, child, c, j);
        if b.len() < max {
            let k = choose|k: int| 0 <= k < b.len() && cell(#[trigger] b[k]) == cell(r[j]);
            assert(a[k] == b[k]);
        }
    } else {
        assert(v == order.last());
        if b.len() < max {
            assert(!is_free(b, cell, v));
            let k = choose|k: int| 0 <= k < b.len() && cell(#[trigger] b[k]) == cell(v);
            assert(a[k] == b[k]);
        }
    }
}

/// A point that was taken stays with the parent, or is the one point of a child.
proof fn lemma_settled_or_back(
    order: Seq<usize>,
    cell: spec_fn(usize) -> Cell,
    max: nat,
    child: spec_fn(usize) -> usize,
    n: nat,
    v: usize,
)
    requires
        accepted(order, cell, max).contains(v),
    ensures
        settled(order, cell, max, child, n).contains(v) || exists|d: int|
            0 <= d < n && #[trigger] kept(order, cell, max, child, d) == seq![v] && rejected(
                order,
                cell,
                max,
                child,
                d,
            ).len() == 0,
    decreases n,
{
    if n > 0 {
        let c = n - 1;
        lemma_settled_or_back(order, cell, max, child, c as nat, v);
        let a = settled(order, cell, max, child, c as nat);
        let b = settled(order, cell, max, child, n);
        let pos = last_of(a, child, c);
        lemma_last_of(a, child, c);
        if a.contains(v) {
            let k = choose|k: int| 0 <= k < a.len() && a[k] == v;
            if rejected(order, cell, max, child, c).len() == 0 && pos >= 0 {
                if k == pos {
                    assert(kept(order, cell, max, child, c) =~= seq![v]);
                } else if k < pos {
                    assert(b[k] == v);
                } else {
                    assert(b[k - 1] == v);
                }
            }
        } else {
            let d = choose|d: int|
                0 <= d < c && #[trigger] kept(order, cell, max, child, d) == seq![v] && rejected(
                    order,
                    cell,
                    max,
                    child,
                    d,
                ).len() == 0;
            assert(0 <= d < n && kept(order, cell, max, child, d) == seq![v]);
        }
    }
}

/// How many of the first `n` children keep exactly one point.
spec fn single_indices(
    order: Seq<usize>,
    cell: spec_fn(usize) -> Cell,
    max: nat,
    child: spec_fn(usize) -> usize,
    n: nat,
) -> nat
    decreases n,
{
    if n == 0 {
        0
    } else {
        single_indices(order, cell, max, child, (n - 1) as nat) + (if kept(
            order,
            cell,
            max,
            child,
            n - 1,
        ).len() == 1 {
            1nat
        } else {
            0nat
        })
    }
}

/// What is taken back is the one point of a child.
proof fn lemma_taken_back(
    order: Seq<usize>,
    cell: spec_fn(usize) -> Cell,
    max: nat,
    child: spec_fn(usize) -> usize,
    n: nat,
)
    ensures
        accepted(order, cell, max).len() <= settled(order, cell, max, child, n).len()
            + single_indices(order, cell, max, child, n),
    decreases n,
{
    if n > 0 {
        let c = n - 1;
        lemma_taken_back(order, cell, max, child, c as nat);
        lemma_last_of(settled(order, cell, max, child, c as nat), child, c);
    }
}

/// The codes of what the parent holds ascend.
proof fn lemma_settled_ascends(
    order: Seq<usize>,
    cell: spec_fn(usize) -> Cell,
    max: nat,
    child: spec_fn(usize) -> usize,
    n: nat,
    code: spec_fn(usize) -> int,
)
    requires
        forall|i: int, j: int|
            0 <= i < j < order.len() ==> code(#[trigger] order[i]) <= code(#[trigger] order[j]),
    ensures
        forall|i: int, j: int|
            0 <= i < j < settled(order, cell, max, child, n).len() ==> code(
                #[trigger] settled(order, cell, max, child, n)[i],
            ) <= code(#[trigger] settled(order, cell, max, child, n)[j]),
    decreases n,
{
    if n == 0 {
        lemma_accepted_ascends(order, cell, max, code);
    } else {
        let c = n - 1;
        lemma_settled_ascends(order, cell, max, child, c as nat, code);
        let a = settled(order, cell, max, child, c as nat);
        let b = settled(order, cell, max, child, n);
        let pos = last_of(a, child, c);
        lemma_last_of(a, child, c);
        if b != a {
            assert(b == a.remove(pos));
            assert forall|i: int, j: int| 0 <= i < j < b.len() implies code(#[trigger] b[i])
                <= code(#[trigger] b[j]) by {
                let k = if i < pos {
                    i
                } else {
                    i + 1
                };
                let l = if j < pos {
                    j
                } else {
                    j + 1
                };
                assert(b[i] == a[k] && b[j] == a[l]);
            }
        }
    }
}

proof fn lemma_accepted_ascends(
    order: Seq<usize>,
    cell: spec_fn(usize) -> Cell,
    max: nat,
    code: spec_fn(usize) -> int,
)
    requires
        forall|i: int, j: int|
            0 <= i < j < order.len() ==> code(#[trigger] order[i]) <= code(#[trigger] order[j]),
    ensures
        forall|i: int, j: int|
            0 <= i < j < accepted(order, cell, max).len() ==> code(
                #[trigger] accepted(order, cell, max)[i],
            ) <= code(#[trigger] accepted(order, cell, max)[j]),
    decreases order.len(),
{
    if order.len() > 0 {
        let init = order.drop_last();
        assert forall|i: int, j: int| 0 <= i < j < init.len() implies code(#[trigger] init[i])
            <= code(#[trigger] init[j]) by {
            assert(init[i] == order[i] && init[j] == order[j]);
        }
        lemma_accepted_ascends(init, cell, max, code);
        lemma_accepted_facts(init, cell, max);
        let a = accepted(order, cell, max);
        let b = accepted(init, cell, max);
        assert forall|i: int, j: int| 0 <= i < j < a.len() implies code(#[trigger] a[i]) <= code(
            #[trigger] a[j],
        ) by {
            assert(a[i] == b[i]);
            if j < b.len() {
                assert(a[j] == b[j]);
            } else {
                assert(init.contains(b[i]));
                let k = choose|k: int| 0 <= k < init.len() && init[k] == b[i];
                assert(order[k] == a[i] && order[order.len() - 1] == a[j]);
            }
        }
    }
}

/// No point that is visited before one that is taken lies in the same cell.
proof fn lemma_first_of_cell(
    order: Seq<usize>,
    cell: spec_fn(usize) -> Cell,
    max: nat,
    k: int,
    i: int,
)
    requires
        0 <= k < accepted(order, cell, max).len(),
        0 <= i < order.len(),
        cell(order[i]) == cell(accepted(order, cell, max)[k]),
    ensures
        exists|at: int|
            0 <= at <= i && #[trigger] order[at] == accepted(order, cell, max)[k],
    decreases order.len(),
{
    let init = order.drop_last();
    let a = accepted(order, cell, max);
    let b = accepted(init, cell, max);
    if k < b.len() {
        assert(a[k] == b[k]);
        if i < init.len() {
            assert(init[i] == order[i]);
            lemma_first_of_cell(init, cell, max, k, i);
            let at = choose|at: int| 0 <= at <= i && #[trigger] init[at] == b[k];
            assert(order[at] == a[k]);
        } else {
            lemma_accepted_facts(init, cell, max);
            assert(init.contains(b[k]));
            let at = choose|at: int| 0 <= at < init.len() && init[at] == b[k];
            assert(order[at] == a[k]);
        }
    } else {
        assert(a[k] == order.last());
        if i < init.len() {
            lemma_cell_met(init, cell, max, i);
            let m = choose|m: int| 0 <= m < b.len() && cell(#[trigger] b[m]) == cell(init[i]);
            assert(cell(b[m]) == cell(order.last()));
            assert(false);
        } else {
            assert(order[i] == a[k]);
        }
    }
}

/// Where there is room, every cell that was visited has a point that was taken.
proof fn lemma_cell_met(order: Seq<usize>, cell: spec_fn(usize) -> Cell, max: nat, i: int)
    requires
        0 <= i < order.len(),
        accepted(order, cell, max).len() < max,
    ensures
        exists|m: int|
            0 <= m < accepted(order, cell, max).len() && cell(
                #[trigger] accepted(order, cell, max)[m],
            ) == cell(order[i]),
    decreases order.len(),
{
    let init = order.drop_last();
    let a = accepted(order, cell, max);
    let b = accepted(init, cell, max);
    if i < init.len() {
        lemma_cell_met(init, cell, max, i);
        let m = choose|m: int| 0 <= m < b.len() && cell(#[trigger] b[m]) == cell(init[i]);
        assert(a[m] == b[m]);
    } else if is_free(b, cell, order.last()) {
        assert(a[b.len() as int] == order.last());
    } else {
        let m = choose|m: int| 0 <= m < b.len() && cell(#[trigger] b[m]) == cell(order.last());
        assert(a[m] == b[m]);
    }
}

// In terms of points.
/// How many of the first `n` children keep exactly one point.
pub open spec fn single_keepers(grid: VoxelGrid, pts: Seq<(usize, PointView)>, n: nat) -> nat
    decreases n,
{
    if n == 0 {
        0
    } else {
        single_keepers(grid, pts, (n - 1) as nat) + (if child_share(grid, pts, n - 1).len() == 1 {
            1nat
        } else {
            0nat
        })
    }
}

/// The parent holds a point of the cell.
pub open spec fn parent_has_cell(
    grid: VoxelGrid,
    pts: Seq<(usize, PointView)>,
    n: nat,
    cell: Cell,
) -> bool {
    exists|i: int|
        0 <= i < parent_share(grid, pts, n).len() && grid.cell_of(
            #[trigger] parent_share(grid, pts, n)[i],
        ) == cell
}

/// Some child other than `except` keeps exactly one point, and it lies in the
/// cell.
pub open spec fn single_in_cell(
    grid: VoxelGrid,
    pts: Seq<(usize, PointView)>,
    n: nat,
    cell: Cell,
    except: int,
) -> bool {
    exists|d: int|
        {
            &&& 0 <= d < n
            &&& d != except
            &&& (#[trigger] child_share(grid, pts, d)).len() == 1
            &&& grid.cell_of(child_share(grid, pts, d)[0]) == cell
        }
}

proof fn lemma_singles(grid: VoxelGrid, pts: Seq<(usize, PointView)>, n: nat)
    ensures
        single_keepers(grid, pts, n) == single_indices(
            sort_order(codes_of(grid, pts)),
            cell_at(grid, pts),
            2_097_152,
            child_of(pts),
            n,
        ),
    decreases n,
{
    if n > 0 {
        lemma_singles(grid, pts, (n - 1) as nat);
    }
}

/// Thinning is complete: of the cell of each point that a child keeps, the parent
/// holds a point too, or it is the cell of the one point that some child took
/// back, or the parent was full. It is full with 2097152 points, one for each
/// cell of the grid, counting those that were taken back.
#[verifier::rlimit(40)]
pub proof fn law_thinning_is_complete(
    grid: VoxelGrid,
    pts: Seq<(usize, PointView)>,
    n: nat,
    c: int,
    j: int,
)
    requires
        0 <= c < n,
        0 <= j < child_share(grid, pts, c).len(),
    ensures
        ({
            let cell = grid.cell_of(child_share(grid, pts, c)[j]);
            ||| parent_has_cell(grid, pts, n, cell)
            ||| single_in_cell(grid, pts, n, cell, -1)
            ||| parent_share(grid, pts, n).len() + single_keepers(grid, pts, n) >= 2_097_152
        }),
{
    let order = sort_order(codes_of(grid, pts));
    let cell = cell_at(grid, pts);
    let child = child_of(pts);
    let max = 2_097_152nat;
    let value = point_at(pts);
    let left = rejected(order, cell, max, child, c);
    let mine = kept(order, cell, max, child, c);
    let taken = accepted(order, cell, max);
    let top = settled(order, cell, max, child, n);
    lemma_singles(grid, pts, n);
    lemma_taken_back(order, cell, max, child, n);
    assert(child_share(grid, pts, c)[j] == value(mine[j]));
    if left.len() > 0 {
        lemma_pass_complete(order, cell, max, child, c, j);
        if taken.len() < max {
            let k = choose|k: int| 0 <= k < taken.len() && cell(#[trigger] taken[k]) == cell(
                left[j],
            );
            lemma_held_or_single(grid, pts, n, taken[k]);
        }
    } else {
        assert(mine.len() == 1);
        assert(child_share(grid, pts, c).len() == 1);
    }
}

/// A point that was taken is held by the parent, or is the one point of a child
/// that had no other.
proof fn lemma_held_or_single(grid: VoxelGrid, pts: Seq<(usize, PointView)>, n: nat, v: usize)
    requires
        accepted(sort_order(codes_of(grid, pts)), cell_at(grid, pts), 2_097_152).contains(v),
    ensures
        ({
            let cell = grid.cell_of(pts[v as int].1);
            let order = sort_order(codes_of(grid, pts));
            ||| parent_has_cell(grid, pts, n, cell)
            ||| exists|d: int|
                {
                    &&& 0 <= d < n
                    &&& (#[trigger] child_share(grid, pts, d)).len() == 1
                    &&& grid.cell_of(child_share(grid, pts, d)[0]) == cell
                    &&& rejected(order, cell_at(grid, pts), 2_097_152, child_of(pts), d).len() == 0
                }
        }),
{
    let order = sort_order(codes_of(grid, pts));
    let cell = cell_at(grid, pts);
    let child = child_of(pts);
    let max = 2_097_152nat;
    let top = settled(order, cell, max, child, n);
    lemma_settled_or_back(order, cell, max, child, n, v);
    if top.contains(v) {
        let i = choose|i: int| 0 <= i < top.len() && top[i] == v;
        assert(parent_share(grid, pts, n)[i] == pts[v as int].1);
    } else {
        let d = choose|d: int|
            0 <= d < n && #[trigger] kept(order, cell, max, child, d) == seq![v] && rejected(
                order,
                cell,
                max,
                child,
                d,
            ).len() == 0;
        assert(child_share(grid, pts, d).len() == 1);
        assert(child_share(grid, pts, d)[0] == pts[v as int].1);
    }
}

/// The parent holds at most one point of each cell, and no more points than a
/// grid of 128 cells per axis has cells.
pub proof fn law_one_point_per_cell(grid: VoxelGrid, pts: Seq<(usize, PointView)>, n: nat)
    ensures
        parent_share(grid, pts, n).len() <= 128 * 128 * 128,
        forall|i: int, j: int|
            0 <= i < j < parent_share(grid, pts, n).len() ==> grid.cell_of(
                #[trigger] parent_share(grid, pts, n)[i],
            ) != grid.cell_of(#[trigger] parent_share(grid, pts, n)[j]),
{
    let order = sort_order(codes_of(grid, pts));
    let cell = cell_at(grid, pts);
    let child = child_of(pts);
    lemma_settled_facts(order, cell, 2_097_152, child, n);
    let top = settled(order, cell, 2_097_152, child, n);
    assert forall|i: int, j: int| 0 <= i < j < parent_share(grid, pts, n).len() implies grid.cell_of(
        #[trigger] parent_share(grid, pts, n)[i],
    ) != grid.cell_of(#[trigger] parent_share(grid, pts, n)[j]) by {
        assert(cell(top[i]) != cell(top[j]));
    }
}

/// The codes of the points ascend in the order in which they are visited.
proof fn lemma_visits_ascend(grid: VoxelGrid, pts: Seq<(usize, PointView)>)
    requires
        pts.len() <= usize::MAX,
        forall|i: int| 0 <= i < pts.len() ==> grid.code_of((#[trigger] pts[i]).1) <= u64::MAX,
    ensures
        ({
            let order = sort_order(codes_of(grid, pts));
            &&& forall|i: int, j: int|
                0 <= i < j < order.len() ==> grid.code_of(pts[#[trigger] order[i] as int].1)
                    <= grid.code_of(pts[#[trigger] order[j] as int].1)
            &&& forall|i: int| 0 <= i < order.len() ==> #[trigger] order[i] < pts.len()
            &&& forall|v: usize| v < pts.len() ==> #[trigger] order.contains(v)
        }),
{
    let codes = codes_of(grid, pts);
    lemma_sort_order_exists(codes);
    let order = sort_order(codes);
    assert forall|i: int, j: int| 0 <= i < j < order.len() implies grid.code_of(
        pts[#[trigger] order[i] as int].1,
    ) <= grid.code_of(pts[#[trigger] order[j] as int].1) by {
        let (a, b) = (order[i] as int, order[j] as int);
        assert(codes[a] <= codes[b]);
        assert(grid.code_of(pts[a].1) <= u64::MAX && grid.code_of(pts[b].1) <= u64::MAX);
    }
}

/// Of each cell the parent takes the point that is visited first: no point of the
/// same cell that a child brought has a smaller code.
pub proof fn law_first_of_cell_is_taken(
    grid: VoxelGrid,
    pts: Seq<(usize, PointView)>,
    n: nat,
    i: int,
    q: int,
)
    requires
        pts.len() <= usize::MAX,
        0 <= i < parent_share(grid, pts, n).len(),
        0 <= q < pts.len(),
        grid.cell_of(pts[q].1) == grid.cell_of(parent_share(grid, pts, n)[i]),
    ensures
        grid.code_of(parent_share(grid, pts, n)[i]) <= grid.code_of(pts[q].1),
{
    let order = sort_order(codes_of(grid, pts));
    let cell = cell_at(grid, pts);
    let child = child_of(pts);
    let max = 2_097_152nat;
    let top = settled(order, cell, max, child, n);
    let taken = accepted(order, cell, max);
    lemma_codes_fit(grid, pts);
    lemma_visits_ascend(grid, pts);
    lemma_settled_from_accepted(order, cell, max, child, n, i);
    let k = choose|k: int| 0 <= k < taken.len() && taken[k] == top[i];
    assert(order.contains(q as usize));
    let at = choose|at: int| 0 <= at < order.len() && order[at] == q as usize;
    lemma_first_of_cell(order, cell, max, k, at);
    let first = choose|first: int| 0 <= first <= at && #[trigger] order[first] == taken[k];
    assert(parent_share(grid, pts, n)[i] == pts[order[first] as int].1);
    assert(pts[q].1 == pts[order[at] as int].1);
}

/// What the parent holds in the end it has taken before.
proof fn lemma_settled_from_accepted(
    order: Seq<usize>,
    cell: spec_fn(usize) -> Cell,
    max: nat,
    child: spec_fn(usize) -> usize,
    n: nat,
    i: int,
)
    requires
        0 <= i < settled(order, cell, max, child, n).len(),
    ensures
        accepted(order, cell, max).contains(settled(order, cell, max, child, n)[i]),
    decreases n,
{
    if n > 0 {
        let c = n - 1;
        let a = settled(order, cell, max, child, c as nat);
        let b = settled(order, cell, max, child, n);
        let pos = last_of(a, child, c);
        lemma_last_of(a, child, c);
        let k = if b == a || i < pos {
            i
        } else {
            i + 1
        };
        assert(b[i] == a[k]);
        lemma_settled_from_accepted(order, cell, max, child, c as nat, k);
    }
}

/// Every code is a number of 63 bits.
proof fn lemma_codes_fit(grid: VoxelGrid, pts: Seq<(usize, PointView)>)
    ensures
        forall|i: int| 0 <= i < pts.len() ==> grid.code_of((#[trigger] pts[i]).1) <= u64::MAX,
{
    assert forall|i: int| 0 <= i < pts.len() implies grid.code_of((#[trigger] pts[i]).1)
        <= u64::MAX by {
        let p = pts[i].1;
        crate::morton::lemma_code_bound(
            grid_offset(p.x, grid.origin_x),
            grid_offset(p.y, grid.origin_y),
            grid_offset(p.z, grid.origin_z),
        );
    }
}

/// Why a child keeps exactly one point: the cell of that point is taken by the
/// parent or by the one point of another child, or the parent was full, or it is
/// the point of the child that is visited last, which the child took back since
/// it had no other.
pub proof fn law_last_point_is_taken_back(
    grid: VoxelGrid,
    pts: Seq<(usize, PointView)>,
    n: nat,
    c: int,
    q: int,
)
    requires
        pts.len() <= usize::MAX,
        0 <= c < n,
        child_share(grid, pts, c).len() == 1,
        0 <= q < pts.len(),
        pts[q].0 == c,
    ensures
        ({
            let p = child_share(grid, pts, c)[0];
            ||| parent_has_cell(grid, pts, n, grid.cell_of(p))
            ||| single_in_cell(grid, pts, n, grid.cell_of(p), c)
            ||| parent_share(grid, pts, n).len() + single_keepers(grid, pts, n) >= 2_097_152
            ||| grid.code_of(pts[q].1) <= grid.code_of(p)
        }),
{
    let order = sort_order(codes_of(grid, pts));
    let cell = cell_at(grid, pts);
    let child = child_of(pts);
    let max = 2_097_152nat;
    let taken = accepted(order, cell, max);
    let left = rejected(order, cell, max, child, c);
    let mine = kept(order, cell, max, child, c);
    lemma_singles(grid, pts, n);
    lemma_taken_back(order, cell, max, child, n);
    if left.len() > 0 {
        assert(mine == left);
        lemma_pass_complete(order, cell, max, child, c, 0);
        if taken.len() < max {
            let k = choose|k: int| 0 <= k < taken.len() && cell(#[trigger] taken[k]) == cell(
                left[0],
            );
            lemma_held_or_single(grid, pts, n, taken[k]);
            let p = child_share(grid, pts, c)[0];
            if !parent_has_cell(grid, pts, n, grid.cell_of(p)) {
                let d = choose|d: int|
                    {
                        &&& 0 <= d < n
                        &&& (#[trigger] child_share(grid, pts, d)).len() == 1
                        &&& grid.cell_of(child_share(grid, pts, d)[0]) == grid.cell_of(
                            pts[taken[k] as int].1,
                        )
                        &&& rejected(order, cell, max, child, d).len() == 0
                    };
                assert(d != c);
            }
        }
    } else {
        let held = settled(order, cell, max, child, c as nat);
        let pos = last_of(held, child, c);
        let code = |i: usize| grid.code_of(pts[i as int].1) as int;
        lemma_codes_fit(grid, pts);
        lemma_visits_ascend(grid, pts);
        lemma_last_of(held, child, c);
        lemma_settled_ascends(order, cell, max, child, c as nat, code);
        assert(order.contains(q as usize));
        let at = choose|at: int| 0 <= at < order.len() && order[at] == q as usize;
        lemma_child_points(order, cell, max, child, c, at);
        lemma_settled_keeps(order, cell, max, child, c as nat, q as usize);
        let k = choose|k: int| 0 <= k < held.len() && held[k] == q as usize;
        assert(child(held[k]) == c);
        assert(k <= pos);
        assert(child_share(grid, pts, c)[0] == pts[held[pos] as int].1);
        if k < pos {
            assert(code(held[k]) <= code(held[pos]));
        }
    }
}

// The cells.
/// On each axis the cell numbered `k` holds the coordinates that lie from `k` to
/// before `k + 1` cells behind the origin; in front of the origin cells are
/// counted downwards in the same way, and cell 0 reaches to both sides.
pub proof fn law_cells(grid: VoxelGrid, p: PointView)
    requires
        grid.cell >= 1,
        -0x7FFF_FFFF * grid.cell <= p.x - grid.origin_x <= 0x7FFF_FFFF * grid.cell,
        -0x7FFF_FFFF * grid.cell <= p.y - grid.origin_y <= 0x7FFF_FFFF * grid.cell,
        -0x7FFF_FFFF * grid.cell <= p.z - grid.origin_z <= 0x7FFF_FFFF * grid.cell,
    ensures
        in_cell(p.x - grid.origin_x, grid.cell as int, grid.cell_of(p).0 as int),
        in_cell(p.y - grid.origin_y, grid.cell as int, grid.cell_of(p).1 as int),
        in_cell(p.z - grid.origin_z, grid.cell as int, grid.cell_of(p).2 as int),
{
    lemma_cell_of(p.x - grid.origin_x, grid.cell as int);
    lemma_cell_of(p.y - grid.origin_y, grid.cell as int);
    lemma_cell_of(p.z - grid.origin_z, grid.cell as int);
}

/// The distance `d` from the origin lies in cell `k`.
pub open spec fn in_cell(d: int, cell: int, k: int) -> bool {
    &&& d >= 0 ==> k * cell <= d < (k + 1) * cell
    &&& d <= 0 ==> (k - 1) * cell < d <= k * cell
}

proof fn lemma_cell_of(d: int, cell: int)
    requires
        cell >= 1,
        -0x7FFF_FFFF * cell <= d <= 0x7FFF_FFFF * cell,
    ensures
        in_cell(d, cell, trunc_div(d, cell)),
        -0x7FFF_FFFF <= trunc_div(d, cell) <= 0x7FFF_FFFF,
{
    let m = if d >= 0 {
        d
    } else {
        -d
    };
    let q = m / cell;
    vstd::arithmetic::div_mod::lemma_fundamental_div_mod(m, cell);
    vstd::arithmetic::div_mod::lemma_mod_bound(m, cell);
    assert(0 <= q <= 0x7FFF_FFFF) by (nonlinear_arith)
        requires
            m == cell * q + m % cell,
            0 <= m % cell < cell,
            0 <= m <= 0x7FFF_FFFF * cell,
            cell >= 1,
    ;
    assert(q * cell <= m < (q + 1) * cell) by (nonlinear_arith)
        requires
            m == cell * q + m % cell,
            0 <= m % cell < cell,
    ;
    assert((-q) * cell == -(q * cell)) by (nonlinear_arith);
    assert((-q - 1) * cell == -((q + 1) * cell)) by (nonlinear_arith);
    if d == 0 {
        assert(q == 0) by (nonlinear_arith)
            requires
                q * cell <= 0,
                cell >= 1,
                q >= 0,
        ;
        assert((0 - 1) * cell == -cell) by (nonlinear_arith);
    }
}

/// The distance that counts for the order of visits: none in front of the origin.
pub open spec fn distance(v: i32, origin: i64) -> nat {
    if v > origin {
        (v - origin) as nat
    } else {
        0
    }
}

/// Points are visited by their Morton codes: the three bits of group `i` of a
/// point's code are the bits `i` of its distances from the origin along x, y and
/// z, the lowest that of x.
pub proof fn law_visit_code(grid: VoxelGrid, p: PointView, i: nat)
    requires
        i < 21,
        p.x - grid.origin_x <= u32::MAX,
        p.y - grid.origin_y <= u32::MAX,
        p.z - grid.origin_z <= u32::MAX,
    ensures
        (grid.code_of(p) / (pow(8, i) as nat)) % 8 == (distance(p.x, grid.origin_x) / (pow(
            2,
            i,
        ) as nat)) % 2 + 2 * ((distance(p.y, grid.origin_y) / (pow(2, i) as nat)) % 2) + 4 * ((
        distance(p.z, grid.origin_z) / (pow(2, i) as nat)) % 2),
{
    let (x, y, z) = (
        grid_offset(p.x, grid.origin_x),
        grid_offset(p.y, grid.origin_y),
        grid_offset(p.z, grid.origin_z),
    );
    crate::morton::law_morton_bits(x, y, z, i);
    assert(x == distance(p.x, grid.origin_x));
    assert(y == distance(p.y, grid.origin_y));
    assert(z == distance(p.z, grid.origin_z));
}

} // verus!
