//! Octree voxel keys.

use vstd::arithmetic::power::{lemma_pow0, lemma_pow_positive, pow};
use vstd::prelude::*;

verus! {

/// A node of the octree: its level and its cell along each axis, where level
/// `l` has `2^l` cells per axis.
#[derive(Debug, Clone, Copy, PartialEq, Eq, PartialOrd, Ord, Hash, Structural)]
pub struct VoxelKey {
    pub level: i32,
    pub x: i32,
    pub y: i32,
    pub z: i32,
}

/// The largest integer not above `v / 2`.
pub open spec fn half(v: i32) -> i32 {
    (v as int / 2) as i32
}

/// The key one level up: the level less one, the cell coordinates halved.
pub open spec fn parent_key(k: VoxelKey) -> VoxelKey {
    VoxelKey { level: (k.level - 1) as i32, x: half(k.x), y: half(k.y), z: half(k.z) }
}

/// The key that contains `k` at `level`; `k` itself if it is not below it.
pub open spec fn ancestor(k: VoxelKey, level: int) -> VoxelKey
    decreases k.level - level,
{
    if k.level <= level || k.level <= i32::MIN {
        k
    } else {
        ancestor(parent_key(k), level)
    }
}

/// Lexicographic order by level, x, y, z.
pub open spec fn key_lt(a: VoxelKey, b: VoxelKey) -> bool {
    ||| a.level < b.level
    ||| a.level == b.level && a.x < b.x
    ||| a.level == b.level && a.x == b.x && a.y < b.y
    ||| a.level == b.level && a.x == b.x && a.y == b.y && a.z < b.z
}

/// The largest integer not above `v / 2`.
fn half_of(v: i32) -> (h: i32)
    ensures
        h == half(v),
{
    assert(2 * (v >> 1i32) + (v & 1i32) == v && 0 <= (v & 1i32) <= 1) by (bit_vector);
    v >> 1
}

/// Two to the power `n`.
pub open spec fn pow2(n: nat) -> nat
    decreases n,
{
    if n == 0 {
        1
    } else {
        2 * pow2((n - 1) as nat)
    }
}

/// The key names a cell that exists: its coordinates lie inside its level.
pub open spec fn valid_key(k: VoxelKey) -> bool {
    &&& 0 <= k.level
    &&& 0 <= k.x < pow2(k.level as nat)
    &&& 0 <= k.y < pow2(k.level as nat)
    &&& 0 <= k.z < pow2(k.level as nat)
}

/// `pow2` grows with its argument.
pub proof fn lemma_pow2_monotonic(a: nat, b: nat)
    requires
        a <= b,
    ensures
        0 < pow2(a) <= pow2(b),
    decreases b,
{
    if b > 0 {
        if a < b {
            lemma_pow2_monotonic(a, (b - 1) as nat);
        } else {
            lemma_pow2_monotonic((a - 1) as nat, (b - 1) as nat);
        }
    }
}

/// The largest powers of two that matter for coordinates.
pub proof fn lemma_pow2_values()
    ensures
        pow2(30) == 0x4000_0000,
        pow2(31) == 0x8000_0000,
{
    reveal_with_fuel(pow2, 32);
}

/// The root of the octree.
pub open spec fn root_key() -> VoxelKey {
    VoxelKey { level: 0, x: 0, y: 0, z: 0 }
}

/// The parent of a key that exists is a key that exists.
pub proof fn lemma_parent_valid(k: VoxelKey)
    requires
        valid_key(k),
        k.level > 0,
    ensures
        valid_key(parent_key(k)),
        parent_key(k).level == k.level - 1,
{
}

/// An ancestor lies on the level asked for, and exists if its descendant does.
pub proof fn lemma_ancestor_level(k: VoxelKey, level: int)
    requires
        0 <= level <= k.level,
    ensures
        ancestor(k, level).level == level,
        valid_key(k) ==> valid_key(ancestor(k, level)),
    decreases k.level - level,
{
    if k.level > level {
        if valid_key(k) {
            lemma_parent_valid(k);
        }
        lemma_ancestor_level(parent_key(k), level);
    }
}

/// Going up in two steps arrives where one step does.
pub proof fn law_ancestor_of_ancestor(k: VoxelKey, a: int, b: int)
    requires
        0 <= b <= a,
    ensures
        ancestor(ancestor(k, a), b) == ancestor(k, b),
    decreases k.level - a,
{
    if k.level > a {
        law_ancestor_of_ancestor(parent_key(k), a, b);
    }
}

/// The order of keys is strict and total.
pub proof fn lemma_key_lt_total(a: VoxelKey, b: VoxelKey)
    ensures
        key_lt(a, b) || key_lt(b, a) || a == b,
        !(key_lt(a, b) && key_lt(b, a)),
        !key_lt(a, a),
{
}

/// The order of keys is transitive.
pub proof fn lemma_key_lt_trans(a: VoxelKey, b: VoxelKey, c: VoxelKey)
    requires
        key_lt(a, b),
        key_lt(b, c),
    ensures
        key_lt(a, c),
{
}

impl VoxelKey {
    /// The root of the octree.
    pub fn root() -> (k: VoxelKey)
        ensures
            k == root_key(),
    {
        VoxelKey { level: 0, x: 0, y: 0, z: 0 }
    }

    /// The key that contains this one, one level up; the root level has none.
    pub fn parent(&self) -> (p: Option<VoxelKey>)
        ensures
            p == (if self.level <= 0 {
                None
            } else {
                Some(parent_key(*self))
            }),
    {
        if self.level <= 0 {
            None
        } else {
            Some(
                VoxelKey {
                    level: self.level - 1,
                    x: half_of(self.x),
                    y: half_of(self.y),
                    z: half_of(self.z),
                },
            )
        }
    }

    /// Whether this key comes before `other` in lexicographic order.
    pub fn precedes(&self, other: &VoxelKey) -> (b: bool)
        ensures
            b == key_lt(*self, *other),
    {
        if self.level != other.level {
            self.level < other.level
        } else if self.x != other.x {
            self.x < other.x
        } else if self.y != other.y {
            self.y < other.y
        } else {
            self.z < other.z
        }
    }
}

/// The ancestor of `key` at the given level, or `key` itself if it does not lie
/// below that level.
pub fn ancestor_at_level(key: VoxelKey, level: i32) -> (k: VoxelKey)
    requires
        level >= 0,
    ensures
        k == ancestor(key, level as int),
{
    let mut k = key;
    while k.level > level
        invariant
            level >= 0,
            ancestor(k, level as int) == ancestor(key, level as int),
        ensures
            k.level <= level,
        decreases k.level,
    {
        match k.parent() {
            Some(p) => {
                k = p;
            },
            None => {
                break;
            },
        }
    }
    k
}

/// Which half of a cell a point lies in along each axis; `true` is the upper
/// half, which holds the middle.
#[derive(Debug, Clone, Copy, PartialEq, Eq, Structural)]
pub struct Octant {
    pub x: bool,
    pub y: bool,
    pub z: bool,
}

/// `2 v`, or `2 v + 1` for the upper half.
pub open spec fn child_coord(v: i32, upper: bool) -> i32 {
    (2 * v + if upper {
        1int
    } else {
        0int
    }) as i32
}

/// The child of `k` in octant `o`.
pub open spec fn child_key(k: VoxelKey, o: Octant) -> VoxelKey {
    VoxelKey {
        level: (k.level + 1) as i32,
        x: child_coord(k.x, o.x),
        y: child_coord(k.y, o.y),
        z: child_coord(k.z, o.z),
    }
}

/// The cell that a descent from the root through `path` ends in.
pub open spec fn path_key(path: Seq<Octant>) -> VoxelKey
    decreases path.len(),
{
    if path.len() == 0 {
        root_key()
    } else {
        child_key(path_key(path.drop_last()), path.last())
    }
}

/// A descent of at most 31 steps ends in a cell that exists.
pub proof fn lemma_path_key_valid(path: Seq<Octant>)
    requires
        path.len() <= 31,
    ensures
        valid_key(path_key(path)),
        path_key(path).level == path.len(),
    decreases path.len(),
{
    if path.len() > 0 {
        lemma_path_key_valid(path.drop_last());
        lemma_pow2_monotonic(path.len(), 31);
        lemma_pow2_values();
    }
}

/// A cell's parent is the cell that it was entered from.
pub proof fn lemma_parent_of_child(k: VoxelKey, o: Octant)
    requires
        valid_key(k),
        k.level <= 30,
    ensures
        parent_key(child_key(k, o)) == k,
{
    lemma_pow2_monotonic(k.level as nat, 30);
    lemma_pow2_values();
}

/// The cell that a point lies in at depth `d` is the ancestor of the cell it
/// lies in at any greater depth.
pub proof fn law_shallow_key_is_ancestor(path: Seq<Octant>, d: nat)
    requires
        d <= path.len() <= 31,
    ensures
        ancestor(path_key(path), d as int) == path_key(path.take(d as int)),
    decreases path.len(),
{
    lemma_path_key_valid(path);
    if d == path.len() {
        assert(path.take(d as int) =~= path);
    } else {
        let up = path.drop_last();
        lemma_path_key_valid(up);
        lemma_parent_of_child(path_key(up), path.last());
        law_shallow_key_is_ancestor(up, d);
        assert(up.take(d as int) =~= path.take(d as int));
    }
}

/// The voxel that a point lies in, found by descending from the root: `path`
/// holds the half it lies in along each axis, level by level.
pub fn point_to_key(path: &[Octant]) -> (k: VoxelKey)
    requires
        path@.len() <= 31,
    ensures
        k == path_key(path@),
        valid_key(k),
        k.level == path@.len(),
{
    let mut vx: i32 = 0;
    let mut vy: i32 = 0;
    let mut vz: i32 = 0;
    let mut i: usize = 0;
    assert(path@.take(0) =~= Seq::<Octant>::empty());
    while i < path.len()
        invariant
            path@.len() <= 31,
            i <= path@.len(),
            path_key(path@.take(i as int)) == (VoxelKey { level: i as i32, x: vx, y: vy, z: vz }),
        decreases path@.len() - i,
    {
        proof {
            let cur = path@.take(i as int);
            let next = path@.take(i + 1);
            lemma_path_key_valid(cur);
            lemma_pow2_monotonic(i as nat, 30);
            lemma_pow2_values();
            assert(next.drop_last() =~= cur);
            assert(next.last() == path@[i as int]);
        }
        let o = path[i];
        vx = if o.x {
            vx * 2 + 1
        } else {
            vx * 2
        };
        vy = if o.y {
            vy * 2 + 1
        } else {
            vy * 2
        };
        vz = if o.z {
            vz * 2 + 1
        } else {
            vz * 2
        };
        i = i + 1;
    }
    assert(path@.take(i as int) =~= path@);
    proof {
        lemma_path_key_valid(path@);
    }
    VoxelKey { level: i as i32, x: vx, y: vy, z: vz }
}

/// A number that is not negative, in the same order.
pub open spec fn biased(v: i32) -> int {
    v + 0x8000_0000
}

/// The integer that stands for a key in maps and sorts.
pub open spec fn key_code(k: VoxelKey) -> int {
    with_digit(with_digit(with_digit(biased(k.level), biased(k.x)), biased(k.y)), biased(k.z))
}

/// `high` followed by a digit of 32 bits.
pub open spec fn with_digit(high: int, low: int) -> int {
    high * 0x1_0000_0000 + low
}

proof fn lemma_with_digit(h1: int, l1: int, h2: int, l2: int)
    requires
        0 <= l1 < 0x1_0000_0000,
        0 <= l2 < 0x1_0000_0000,
    ensures
        with_digit(h1, l1) < with_digit(h2, l2) <==> h1 < h2 || (h1 == h2 && l1 < l2),
        with_digit(h1, l1) == with_digit(h2, l2) <==> h1 == h2 && l1 == l2,
{
}

/// The integers of keys are ordered as the keys are; different keys have
/// different ones.
pub proof fn lemma_key_code_order(a: VoxelKey, b: VoxelKey)
    ensures
        key_lt(a, b) <==> key_code(a) < key_code(b),
        a == b <==> key_code(a) == key_code(b),
{
    let a1 = with_digit(biased(a.level), biased(a.x));
    let b1 = with_digit(biased(b.level), biased(b.x));
    lemma_with_digit(biased(a.level), biased(a.x), biased(b.level), biased(b.x));
    let a2 = with_digit(a1, biased(a.y));
    let b2 = with_digit(b1, biased(b.y));
    lemma_with_digit(a1, biased(a.y), b1, biased(b.y));
    lemma_with_digit(a2, biased(a.z), b2, biased(b.z));
}

/// The integer that stands for a key in maps and sorts.
pub fn key_id(k: VoxelKey) -> (id: u128)
    ensures
        id == key_code(k),
{
    let l: u128 = (k.level as i64 + 0x8000_0000) as u128;
    let x: u128 = (k.x as i64 + 0x8000_0000) as u128;
    let y: u128 = (k.y as i64 + 0x8000_0000) as u128;
    let z: u128 = (k.z as i64 + 0x8000_0000) as u128;
    ((l * 0x1_0000_0000 + x) * 0x1_0000_0000 + y) * 0x1_0000_0000 + z
}

// Where cells lie.
/// Keys are ordered by level first, then by x, y and z, and so are the integers
/// that stand for them.
pub proof fn law_key_order(a: VoxelKey, b: VoxelKey)
    ensures
        a.level < b.level ==> key_lt(a, b) && key_code(a) < key_code(b),
        a.level == b.level && a.x < b.x ==> key_lt(a, b) && key_code(a) < key_code(b),
        a.level == b.level && a.x == b.x && a.y < b.y ==> key_lt(a, b) && key_code(a) < key_code(
            b,
        ),
        a.level == b.level && a.x == b.x && a.y == b.y && a.z < b.z ==> key_lt(a, b) && key_code(
            a,
        ) < key_code(b),
        key_code(a) == key_code(b) ==> a == b,
        0 <= key_code(a) <= u128::MAX,
{
    lemma_key_code_order(a, b);
}

/// An ancestor is the cell that contains the key: along each axis it spans as
/// many cells as there are between the levels, and the key's is one of them.
pub proof fn law_ancestor_contains(k: VoxelKey, level: int)
    requires
        0 <= level <= k.level,
    ensures
        ({
            let a = ancestor(k, level);
            let span = pow(2, (k.level - level) as nat);
            &&& a.level == level
            &&& a.x * span <= k.x < (a.x + 1) * span
            &&& a.y * span <= k.y < (a.y + 1) * span
            &&& a.z * span <= k.z < (a.z + 1) * span
        }),
    decreases k.level - level,
{
    let a = ancestor(k, level);
    let d = (k.level - level) as nat;
    if d == 0 {
        lemma_pow0(2);
        assert(a.x * 1 == a.x && (a.x + 1) * 1 == a.x + 1);
        assert(a.y * 1 == a.y && (a.y + 1) * 1 == a.y + 1);
        assert(a.z * 1 == a.z && (a.z + 1) * 1 == a.z + 1);
    } else {
        let p = parent_key(k);
        law_ancestor_contains(p, level);
        let half_span = pow(2, (d - 1) as nat);
        reveal_with_fuel(pow, 2);
        assert(pow(2, d) == 2 * half_span);
        lemma_twice(a.x as int, half_span, p.x as int, k.x as int);
        lemma_twice(a.y as int, half_span, p.y as int, k.y as int);
        lemma_twice(a.z as int, half_span, p.z as int, k.z as int);
    }
}

proof fn lemma_twice(a: int, s: int, p: int, v: int)
    requires
        a * s <= p < (a + 1) * s,
        2 * p <= v <= 2 * p + 1,
    ensures
        a * (2 * s) <= v < (a + 1) * (2 * s),
{
    assert(a * (2 * s) == 2 * (a * s)) by (nonlinear_arith);
    assert((a + 1) * (2 * s) == 2 * ((a + 1) * s)) by (nonlinear_arith);
}

/// The parent of a key is the one cell of the level above whose eight children
/// the key is one of; the root has none above it.
pub proof fn law_parent_and_children(k: VoxelKey, o: Octant)
    requires
        valid_key(k),
        k.level <= 30,
    ensures
        parent_key(child_key(k, o)) == k,
        child_key(k, o).level == k.level + 1,
        child_key(k, o).x == 2 * k.x + (if o.x {
            1int
        } else {
            0int
        }),
        child_key(k, o).y == 2 * k.y + (if o.y {
            1int
        } else {
            0int
        }),
        child_key(k, o).z == 2 * k.z + (if o.z {
            1int
        } else {
            0int
        }),
        k.level > 0 ==> parent_key(k).level == k.level - 1 && 2 * parent_key(k).x <= k.x <= 2
            * parent_key(k).x + 1 && 2 * parent_key(k).y <= k.y <= 2 * parent_key(k).y + 1 && 2
            * parent_key(k).z <= k.z <= 2 * parent_key(k).z + 1,
        root_key().level == 0 && root_key().x == 0 && root_key().y == 0 && root_key().z == 0,
{
    lemma_parent_of_child(k, o);
    lemma_pow2_monotonic(k.level as nat, 30);
    lemma_pow2_values();
}

/// Step `i` of a descent decides, for each axis, bit `i` from the top of the
/// coordinate: one for the upper half, zero for the lower.
pub proof fn law_descent_bits(path: Seq<Octant>, i: int)
    requires
        0 <= i < path.len() <= 31,
    ensures
        ({
            let k = path_key(path);
            let place = pow(2, (path.len() - 1 - i) as nat);
            &&& k.level == path.len()
            &&& (k.x as int / place) % 2 == (if path[i].x {
                1int
            } else {
                0int
            })
            &&& (k.y as int / place) % 2 == (if path[i].y {
                1int
            } else {
                0int
            })
            &&& (k.z as int / place) % 2 == (if path[i].z {
                1int
            } else {
                0int
            })
        }),
{
    let k = path_key(path);
    let up = path.take(i + 1);
    let a = ancestor(k, i + 1);
    let d = (path.len() - 1 - i) as nat;
    let place = pow(2, d);
    lemma_path_key_valid(path);
    law_shallow_key_is_ancestor(path, (i + 1) as nat);
    law_ancestor_contains(k, i + 1);
    lemma_pow_positive(2, d);
    lemma_quotient(k.x as int, a.x as int, place);
    lemma_quotient(k.y as int, a.y as int, place);
    lemma_quotient(k.z as int, a.z as int, place);
    let above = path_key(up.drop_last());
    lemma_path_key_valid(up.drop_last());
    assert(up.last() == path[i]);
    lemma_pow2_monotonic(above.level as nat, 30);
    lemma_pow2_values();
    assert(a == child_key(above, path[i]));
}

proof fn lemma_quotient(v: int, q: int, s: int)
    requires
        s > 0,
        q * s <= v < (q + 1) * s,
    ensures
        v / s == q,
{
    assert((q + 1) * s == q * s + s) by (nonlinear_arith);
    vstd::arithmetic::div_mod::lemma_fundamental_div_mod_converse(v, s, q, v - q * s);
}

} // verus!
