//! The COPC hierarchy: nested pages of octree entries.
//!
//! Entries strictly above a page boundary level stay in the page. The boundary
//! level and everything below it is grouped by the ancestor at that level, and
//! each group becomes a child page. The page points at a child page with an
//! entry whose point count is -1; the subtree root's own entry lives in the
//! child page. Pages lie one behind another, each before its child pages.

use crate::grouping::{
    add_member, group_by, group_views, lemma_group_bounds, lemma_group_by, lemma_picked_split,
    picked, picked_groups, ungrouped, Group,
};
use crate::key::{ancestor, ancestor_at_level, VoxelKey};
use crate::le::{
    le_bytes, le_value, lemma_le_bytes_len, lemma_le_value_of_bytes, lemma_part_of_part,
    lemma_pow256_values, push_bytes, push_i32, push_u64,
};
use vstd::multiset::Multiset;
use vstd::prelude::*;

verus! {

/// One hierarchy entry. For a node that holds points `offset` and `byte_size`
/// locate its chunk; a node without points has zero in all three fields; an
/// entry with `point_count == -1` locates the page that holds the node's entry.
#[derive(Debug, Clone, Copy, PartialEq, Eq, Structural)]
pub struct HierarchyEntry {
    pub key: VoxelKey,
    pub offset: u64,
    pub byte_size: i32,
    pub point_count: i32,
}

/// The four fields of a key.
pub open spec fn key_bytes(k: VoxelKey) -> Seq<u8> {
    le_bytes((k.level as u32) as nat, 4) + le_bytes((k.x as u32) as nat, 4) + le_bytes(
        (k.y as u32) as nat,
        4,
    ) + le_bytes((k.z as u32) as nat, 4)
}

/// An entry as it lies in a page: 32 bytes.
pub open spec fn entry_bytes(e: HierarchyEntry) -> Seq<u8> {
    key_bytes(e.key) + le_bytes(e.offset as nat, 8) + le_bytes((e.byte_size as u32) as nat, 4)
        + le_bytes((e.point_count as u32) as nat, 4)
}

/// The key that 16 bytes stand for.
pub open spec fn decode_key(s: Seq<u8>) -> VoxelKey {
    VoxelKey {
        level: (le_value(s.subrange(0, 4)) as u32) as i32,
        x: (le_value(s.subrange(4, 8)) as u32) as i32,
        y: (le_value(s.subrange(8, 12)) as u32) as i32,
        z: (le_value(s.subrange(12, 16)) as u32) as i32,
    }
}

/// The entry that 32 bytes stand for.
pub open spec fn decode_entry(s: Seq<u8>) -> HierarchyEntry {
    HierarchyEntry {
        key: decode_key(s.subrange(0, 16)),
        offset: le_value(s.subrange(16, 24)) as u64,
        byte_size: (le_value(s.subrange(24, 28)) as u32) as i32,
        point_count: (le_value(s.subrange(28, 32)) as u32) as i32,
    }
}

proof fn lemma_i32_round_trip(v: i32)
    ensures
        ((v as u32) as nat as u32) as i32 == v,
        (v as u32) as nat <= u32::MAX,
{
    assert((v as u32) as i32 == v) by (bit_vector);
}

/// Decoding a key yields the key it was written from.
pub proof fn lemma_decode_key(k: VoxelKey)
    ensures
        key_bytes(k).len() == 16,
        decode_key(key_bytes(k)) == k,
{
    broadcast use lemma_le_bytes_len;

    lemma_pow256_values();
    let s = key_bytes(k);
    assert(s.subrange(0, 4) =~= le_bytes((k.level as u32) as nat, 4));
    assert(s.subrange(4, 8) =~= le_bytes((k.x as u32) as nat, 4));
    assert(s.subrange(8, 12) =~= le_bytes((k.y as u32) as nat, 4));
    assert(s.subrange(12, 16) =~= le_bytes((k.z as u32) as nat, 4));
    lemma_le_value_of_bytes((k.level as u32) as nat, 4);
    lemma_le_value_of_bytes((k.x as u32) as nat, 4);
    lemma_le_value_of_bytes((k.y as u32) as nat, 4);
    lemma_le_value_of_bytes((k.z as u32) as nat, 4);
    lemma_i32_round_trip(k.level);
    lemma_i32_round_trip(k.x);
    lemma_i32_round_trip(k.y);
    lemma_i32_round_trip(k.z);
}

/// Decoding an entry yields the entry it was written from.
pub proof fn lemma_decode_entry(e: HierarchyEntry)
    ensures
        entry_bytes(e).len() == 32,
        decode_entry(entry_bytes(e)) == e,
{
    broadcast use lemma_le_bytes_len;

    lemma_pow256_values();
    lemma_decode_key(e.key);
    let s = entry_bytes(e);
    assert(s.subrange(0, 16) =~= key_bytes(e.key));
    assert(s.subrange(16, 24) =~= le_bytes(e.offset as nat, 8));
    assert(s.subrange(24, 28) =~= le_bytes((e.byte_size as u32) as nat, 4));
    assert(s.subrange(28, 32) =~= le_bytes((e.point_count as u32) as nat, 4));
    lemma_le_value_of_bytes(e.offset as nat, 8);
    lemma_le_value_of_bytes((e.byte_size as u32) as nat, 4);
    lemma_le_value_of_bytes((e.point_count as u32) as nat, 4);
    lemma_i32_round_trip(e.byte_size);
    lemma_i32_round_trip(e.point_count);
}

/// Appends a key.
pub fn write_key(key: &VoxelKey, out: &mut Vec<u8>)
    ensures
        final(out)@ == old(out)@ + key_bytes(*key),
{
    push_i32(out, key.level);
    push_i32(out, key.x);
    push_i32(out, key.y);
    push_i32(out, key.z);
    assert(out@ =~= old(out)@ + key_bytes(*key));
}

impl HierarchyEntry {
    /// Appends the entry's 32 bytes.
    pub fn write(&self, out: &mut Vec<u8>)
        ensures
            final(out)@ == old(out)@ + entry_bytes(*self),
    {
        write_key(&self.key, out);
        push_u64(out, self.offset);
        push_i32(out, self.byte_size);
        push_i32(out, self.point_count);
        assert(out@ =~= old(out)@ + entry_bytes(*self));
    }
}

/// The levels at which pages split: the multiples of three, from three on, that
/// lie below the deepest level.
pub open spec fn page_boundaries(max_level: i32) -> Seq<i32> {
    Seq::new(
        if max_level <= 3 {
            0
        } else {
            ((max_level - 1) / 3) as nat
        },
        |i: int| (3 * (i + 1)) as i32,
    )
}

/// Chooses the page boundary levels: every three levels of the octree, starting
/// at level 3. A tree of at most three levels below the root has none.
pub fn choose_page_boundaries(max_level: i32) -> (boundaries: Vec<i32>)
    ensures
        boundaries@ == page_boundaries(max_level),
{
    let mut boundaries: Vec<i32> = Vec::new();
    let mut l: i32 = 3;
    while l < max_level
        invariant_except_break
            l == 3 * (boundaries@.len() + 1),
        invariant
            boundaries@.len() <= page_boundaries(max_level).len(),
            boundaries@ =~= page_boundaries(max_level).take(boundaries@.len() as int),
        ensures
            boundaries@.len() == page_boundaries(max_level).len(),
            boundaries@ =~= page_boundaries(max_level).take(boundaries@.len() as int),
        decreases max_level - l + 3,
    {
        boundaries.push(l);
        if l > i32::MAX - 3 {
            break;
        }
        l = l + 3;
    }
    boundaries
}

/// Which child page an entry goes to: none above the boundary, else that of its
/// ancestor at the boundary.
pub open spec fn hier_root(es: Seq<HierarchyEntry>, boundary: i32) -> spec_fn(usize) -> Option<
    VoxelKey,
> {
    |i: usize|
        if es[i as int].key.level < boundary {
            None
        } else {
            Some(ancestor(es[i as int].key, boundary as int))
        }
}

/// Whether the entries `sel` are written into one page without child pages.
pub open spec fn is_flat(sel: Seq<usize>, bounds: Seq<i32>, idx: nat) -> bool {
    idx >= bounds.len() || sel.len() == 0
}

/// The bytes of the entries `sel`, in order.
pub open spec fn entries_bytes(es: Seq<HierarchyEntry>, sel: Seq<usize>) -> Seq<u8>
    decreases sel.len(),
{
    if sel.len() == 0 {
        Seq::empty()
    } else {
        entries_bytes(es, sel.drop_last()) + entry_bytes(es[sel.last() as int])
    }
}

/// Size of the page of `sel` itself.
pub open spec fn page_len(
    es: Seq<HierarchyEntry>,
    sel: Seq<usize>,
    bounds: Seq<i32>,
    idx: nat,
) -> nat {
    if is_flat(sel, bounds, idx) {
        32 * sel.len()
    } else {
        let root = hier_root(es, bounds[idx as int]);
        32 * (ungrouped(sel, root).len() + group_by(sel, root).len())
    }
}

/// Size of the page of `sel` and of all pages below it.
pub open spec fn tree_len(
    es: Seq<HierarchyEntry>,
    sel: Seq<usize>,
    bounds: Seq<i32>,
    idx: nat,
) -> nat
    decreases bounds.len() - idx, 0int,
{
    if is_flat(sel, bounds, idx) {
        page_len(es, sel, bounds, idx)
    } else {
        page_len(es, sel, bounds, idx) + trees_len(
            es,
            group_by(sel, hier_root(es, bounds[idx as int])),
            bounds,
            idx + 1,
        )
    }
}

/// Size of the pages of several groups.
pub open spec fn trees_len(
    es: Seq<HierarchyEntry>,
    gs: Seq<(VoxelKey, Seq<usize>)>,
    bounds: Seq<i32>,
    idx: nat,
) -> nat
    decreases bounds.len() - idx, gs.len() + 1,
{
    if gs.len() == 0 {
        0
    } else {
        trees_len(es, gs.drop_last(), bounds, idx) + tree_len(es, gs.last().1, bounds, idx)
    }
}

/// The entry that points at the page of group `g`, where the pages of the
/// groups start at `start`.
pub open spec fn pointer_entry(
    es: Seq<HierarchyEntry>,
    gs: Seq<(VoxelKey, Seq<usize>)>,
    bounds: Seq<i32>,
    idx: nat,
    start: nat,
    g: int,
) -> HierarchyEntry {
    HierarchyEntry {
        key: gs[g].0,
        offset: (start + trees_len(es, gs.take(g), bounds, idx)) as u64,
        byte_size: (page_len(es, gs[g].1, bounds, idx) as u32) as i32,
        point_count: -1i32,
    }
}

/// The pointers to the first `n` groups.
pub open spec fn pointers_bytes(
    es: Seq<HierarchyEntry>,
    gs: Seq<(VoxelKey, Seq<usize>)>,
    bounds: Seq<i32>,
    idx: nat,
    start: nat,
    n: nat,
) -> Seq<u8>
    decreases n,
{
    if n == 0 {
        Seq::empty()
    } else {
        pointers_bytes(es, gs, bounds, idx, start, (n - 1) as nat) + entry_bytes(
            pointer_entry(es, gs, bounds, idx, start, n - 1),
        )
    }
}

/// The page of `sel` and all pages below it, where the page lies at the file
/// offset `start`.
pub open spec fn tree_bytes(
    es: Seq<HierarchyEntry>,
    sel: Seq<usize>,
    bounds: Seq<i32>,
    idx: nat,
    start: nat,
) -> Seq<u8>
    decreases bounds.len() - idx, 0int,
{
    if is_flat(sel, bounds, idx) {
        entries_bytes(es, sel)
    } else {
        let root = hier_root(es, bounds[idx as int]);
        let gs = group_by(sel, root);
        let below = start + page_len(es, sel, bounds, idx);
        entries_bytes(es, ungrouped(sel, root)) + pointers_bytes(
            es,
            gs,
            bounds,
            idx + 1,
            below,
            gs.len(),
        ) + trees_bytes(es, gs, bounds, idx + 1, below)
    }
}

/// The pages of several groups, the first of which lies at `start`.
pub open spec fn trees_bytes(
    es: Seq<HierarchyEntry>,
    gs: Seq<(VoxelKey, Seq<usize>)>,
    bounds: Seq<i32>,
    idx: nat,
    start: nat,
) -> Seq<u8>
    decreases bounds.len() - idx, gs.len() + 1,
{
    if gs.len() == 0 {
        Seq::empty()
    } else {
        trees_bytes(es, gs.drop_last(), bounds, idx, start) + tree_bytes(
            es,
            gs.last().1,
            bounds,
            idx,
            start + trees_len(es, gs.drop_last(), bounds, idx),
        )
    }
}

/// The page of `sel` and each page below it has a size that a pointer can hold.
pub open spec fn pages_fit(
    es: Seq<HierarchyEntry>,
    sel: Seq<usize>,
    bounds: Seq<i32>,
    idx: nat,
) -> bool
    decreases bounds.len() - idx,
{
    &&& page_len(es, sel, bounds, idx) <= u32::MAX
    &&& !is_flat(sel, bounds, idx) ==> {
        let gs = group_by(sel, hier_root(es, bounds[idx as int]));
        forall|g: int| 0 <= g < gs.len() ==> pages_fit(es, (#[trigger] gs[g]).1, bounds, idx + 1)
    }
}

/// All indices of a sequence of `n` entries.
pub open spec fn all_indices(n: nat) -> Seq<usize> {
    Seq::new(n, |i: int| i as usize)
}

/// The deepest level among the entries.
pub open spec fn deepest_level(es: Seq<HierarchyEntry>) -> i32
    decreases es.len(),
{
    if es.len() == 0 {
        0
    } else if es.len() == 1 {
        es[0].key.level
    } else {
        let rest = deepest_level(es.drop_last());
        if es.last().key.level > rest {
            es.last().key.level
        } else {
            rest
        }
    }
}

/// The whole hierarchy, where it starts at the file offset `start`.
pub open spec fn hierarchy_bytes(es: Seq<HierarchyEntry>, start: nat) -> Seq<u8> {
    tree_bytes(es, all_indices(es.len()), page_boundaries(deepest_level(es)), 0, start)
}

/// Size of the whole hierarchy.
pub open spec fn hierarchy_len(es: Seq<HierarchyEntry>) -> nat {
    tree_len(es, all_indices(es.len()), page_boundaries(deepest_level(es)), 0)
}

/// Size of the root page.
pub open spec fn root_page_len(es: Seq<HierarchyEntry>) -> nat {
    page_len(es, all_indices(es.len()), page_boundaries(deepest_level(es)), 0)
}

proof fn lemma_entries_bytes_len(es: Seq<HierarchyEntry>, sel: Seq<usize>)
    ensures
        entries_bytes(es, sel).len() == 32 * sel.len(),
    decreases sel.len(),
{
    if sel.len() > 0 {
        lemma_entries_bytes_len(es, sel.drop_last());
        lemma_decode_entry(es[sel.last() as int]);
    }
}

proof fn lemma_pointers_bytes_len(
    es: Seq<HierarchyEntry>,
    gs: Seq<(VoxelKey, Seq<usize>)>,
    bounds: Seq<i32>,
    idx: nat,
    start: nat,
    n: nat,
)
    ensures
        pointers_bytes(es, gs, bounds, idx, start, n).len() == 32 * n,
    decreases n,
{
    if n > 0 {
        lemma_pointers_bytes_len(es, gs, bounds, idx, start, (n - 1) as nat);
        lemma_decode_entry(pointer_entry(es, gs, bounds, idx, start, n - 1));
    }
}

/// The bytes of a page and the pages below it are as many as their size says.
pub proof fn lemma_tree_bytes_len(
    es: Seq<HierarchyEntry>,
    sel: Seq<usize>,
    bounds: Seq<i32>,
    idx: nat,
    start: nat,
)
    ensures
        tree_bytes(es, sel, bounds, idx, start).len() == tree_len(es, sel, bounds, idx),
    decreases bounds.len() - idx, 0int,
{
    if is_flat(sel, bounds, idx) {
        lemma_entries_bytes_len(es, sel);
    } else {
        let root = hier_root(es, bounds[idx as int]);
        let gs = group_by(sel, root);
        let below = start + page_len(es, sel, bounds, idx);
        lemma_entries_bytes_len(es, ungrouped(sel, root));
        lemma_pointers_bytes_len(es, gs, bounds, idx + 1, below, gs.len());
        lemma_trees_bytes_len(es, gs, bounds, idx + 1, below);
    }
}

proof fn lemma_trees_bytes_len(
    es: Seq<HierarchyEntry>,
    gs: Seq<(VoxelKey, Seq<usize>)>,
    bounds: Seq<i32>,
    idx: nat,
    start: nat,
)
    ensures
        trees_bytes(es, gs, bounds, idx, start).len() == trees_len(es, gs, bounds, idx),
    decreases bounds.len() - idx, gs.len() + 1,
{
    if gs.len() > 0 {
        lemma_trees_bytes_len(es, gs.drop_last(), bounds, idx, start);
        lemma_tree_bytes_len(
            es,
            gs.last().1,
            bounds,
            idx,
            start + trees_len(es, gs.drop_last(), bounds, idx),
        );
    }
}

/// Fewer groups take no more room.
proof fn lemma_trees_len_prefix(
    es: Seq<HierarchyEntry>,
    gs: Seq<(VoxelKey, Seq<usize>)>,
    bounds: Seq<i32>,
    idx: nat,
    n: int,
)
    requires
        0 <= n < gs.len(),
    ensures
        trees_len(es, gs.take(n), bounds, idx) + tree_len(es, gs[n].1, bounds, idx) == trees_len(
            es,
            gs.take(n + 1),
            bounds,
            idx,
        ),
        trees_len(es, gs.take(n + 1), bounds, idx) <= trees_len(es, gs, bounds, idx),
    decreases gs.len() - n,
{
    let more = gs.take(n + 1);
    assert(more.drop_last() =~= gs.take(n));
    assert(more.last() == gs[n]);
    if n + 1 < gs.len() {
        lemma_trees_len_prefix(es, gs, bounds, idx, n + 1);
    } else {
        assert(more =~= gs);
    }
}

/// Builds the page of the entries `sel` and all pages below it; `start` is the
/// file offset of the page. Returns the bytes and the size of the page itself.
pub fn build_hierarchy_page_recursive(
    entries: &[HierarchyEntry],
    sel: &[usize],
    boundaries: &[i32],
    boundary_idx: usize,
    start: u64,
) -> (r: (Vec<u8>, usize))
    requires
        forall|i: int| 0 <= i < sel@.len() ==> #[trigger] sel@[i] < entries@.len(),
        forall|i: int| 0 <= i < boundaries@.len() ==> #[trigger] boundaries@[i] >= 0,
        start + tree_len(entries@, sel@, boundaries@, boundary_idx as nat) <= u64::MAX,
    ensures
        r.0@ == tree_bytes(entries@, sel@, boundaries@, boundary_idx as nat, start as nat),
        r.1 == page_len(entries@, sel@, boundaries@, boundary_idx as nat),
    decreases boundaries@.len() - boundary_idx,
{
    let ghost es = entries@;
    let ghost idx = boundary_idx as nat;
    let mut data: Vec<u8> = Vec::new();
    if boundary_idx >= boundaries.len() || sel.len() == 0 {
        write_entries(entries, sel, &mut data);
        assert(data@ =~= entries_bytes(es, sel@));
        let size: usize = data.len();
        proof {
            lemma_entries_bytes_len(es, sel@);
        }
        return (data, size);
    }
    let boundary_level: i32 = boundaries[boundary_idx];
    assert(boundaries.len() <= usize::MAX);
    let ghost root = hier_root(es, boundary_level);
    let mut this_page: Vec<usize> = Vec::new();
    let mut groups: Vec<Group> = Vec::new();
    let mut i: usize = 0;
    assert(sel@.take(0) =~= Seq::<usize>::empty());
    assert(group_views(groups@) =~= Seq::<(VoxelKey, Seq<usize>)>::empty());
    while i < sel.len()
        invariant
            i <= sel@.len(),
            es == entries@,
            boundary_level >= 0,
            root == hier_root(es, boundary_level),
            forall|i: int| 0 <= i < sel@.len() ==> #[trigger] sel@[i] < entries@.len(),
            this_page@ == ungrouped(sel@.take(i as int), root),
            group_views(groups@) == group_by(sel@.take(i as int), root),
        decreases sel@.len() - i,
    {
        let e: usize = sel[i];
        proof {
            assert(sel@.take(i + 1).drop_last() =~= sel@.take(i as int));
            assert(sel@.take(i + 1).last() == e);
        }
        let key = entries[e].key;
        if key.level < boundary_level {
            this_page.push(e);
        } else {
            let subtree_root = ancestor_at_level(key, boundary_level);
            add_member(&mut groups, subtree_root, e);
        }
        i = i + 1;
    }
    assert(sel@.take(i as int) =~= sel@);
    let ghost gs = group_by(sel@, root);
    proof {
        lemma_group_bounds(sel@, root, es.len());
        lemma_group_by(sel@, root);
        assert(gs.take(gs.len() as int) =~= gs);
    }
    write_entries(entries, this_page.as_slice(), &mut data);
    assert(data@ =~= entries_bytes(es, this_page@));
    proof {
        lemma_entries_bytes_len(es, this_page@);
    }
    assert(data.len() <= usize::MAX);
    let n_groups: usize = groups.len();
    assert(gs.len() == n_groups);
    assert(page_len(es, sel@, boundaries@, idx) == 32 * (this_page@.len() + n_groups));
    let page_size: u64 = data.len() as u64 + 32 * n_groups as u64;
    let ghost below = start + page_size;
    let mut children: Vec<u8> = Vec::new();
    let mut g: usize = 0;
    let ghost own = data@;
    proof {
        lemma_trees_bytes_len(es, gs.take(0), boundaries@, (idx + 1) as nat, below as nat);
        assert(data@ =~= own + pointers_bytes(
            es,
            gs,
            boundaries@,
            (idx + 1) as nat,
            below as nat,
            0,
        ));
        assert(gs.take(0) =~= Seq::<(VoxelKey, Seq<usize>)>::empty());
        assert(children@ =~= trees_bytes(
            es,
            gs.take(0),
            boundaries@,
            (idx + 1) as nat,
            below as nat,
        ));
    }
    while g < groups.len()
        invariant
            es == entries@,
            idx == boundary_idx as nat,
            boundary_idx < boundaries@.len() <= usize::MAX,
            g <= groups@.len(),
            gs == group_views(groups@),
            below == start + page_size,
            n_groups == gs.len(),
            forall|i: int| 0 <= i < boundaries@.len() ==> #[trigger] boundaries@[i] >= 0,
            forall|g: int, m: int|
                0 <= g < gs.len() && 0 <= m < gs[g].1.len() ==> #[trigger] gs[g].1[m] < es.len(),
            below + trees_len(es, gs, boundaries@, (idx + 1) as nat) <= u64::MAX,
            data@ == own + pointers_bytes(
                es,
                gs,
                boundaries@,
                (idx + 1) as nat,
                below as nat,
                g as nat,
            ),
            children@ == trees_bytes(
                es,
                gs.take(g as int),
                boundaries@,
                (idx + 1) as nat,
                below as nat,
            ),
            children@.len() == trees_len(es, gs.take(g as int), boundaries@, (idx + 1) as nat),
        decreases groups@.len() - g,
    {
        proof {
            lemma_trees_len_prefix(es, gs, boundaries@, (idx + 1) as nat, g as int);
            assert(gs[g as int].1 == groups@[g as int].members@);
            assert forall|i: int| 0 <= i < groups@[g as int].members@.len() implies #[trigger]
            groups@[g as int].members@[i] < entries@.len() by {
                assert(gs[g as int].1[i] < es.len());
            }
        }
        let child_start: u64 = start + page_size + children.len() as u64;
        let (child_bytes, child_page) = build_hierarchy_page_recursive(
            entries,
            groups[g].members.as_slice(),
            boundaries,
            boundary_idx + 1,
            child_start,
        );
        HierarchyEntry {
            key: groups[g].key,
            offset: child_start,
            byte_size: #[verifier::truncate]
            (child_page as u32) as i32,
            point_count: -1,
        }.write(&mut data);
        push_bytes(&mut children, child_bytes.as_slice());
        proof {
            lemma_tree_bytes_len(
                es,
                gs[g as int].1,
                boundaries@,
                (idx + 1) as nat,
                child_start as nat,
            );
            assert(gs.take(g + 1).drop_last() =~= gs.take(g as int));
            assert(gs.take(g + 1).last() == gs[g as int]);
            assert(children@ =~= trees_bytes(
                es,
                gs.take(g + 1),
                boundaries@,
                (idx + 1) as nat,
                below as nat,
            ));
            assert(data@ =~= own + pointers_bytes(
                es,
                gs,
                boundaries@,
                (idx + 1) as nat,
                below as nat,
                (g + 1) as nat,
            ));
        }
        g = g + 1;
    }
    proof {
        lemma_pointers_bytes_len(es, gs, boundaries@, (idx + 1) as nat, below as nat, gs.len());
        assert(gs.take(g as int) =~= gs);
    }
    let size: usize = data.len();
    push_bytes(&mut data, children.as_slice());
    (data, size)
}

/// Appends the entries `sel`.
fn write_entries(entries: &[HierarchyEntry], sel: &[usize], out: &mut Vec<u8>)
    requires
        forall|i: int| 0 <= i < sel@.len() ==> #[trigger] sel@[i] < entries@.len(),
    ensures
        final(out)@ == old(out)@ + entries_bytes(entries@, sel@),
{
    let mut i: usize = 0;
    assert(sel@.take(0) =~= Seq::<usize>::empty());
    assert(out@ =~= old(out)@ + entries_bytes(entries@, sel@.take(0)));
    while i < sel.len()
        invariant
            i <= sel@.len(),
            forall|i: int| 0 <= i < sel@.len() ==> #[trigger] sel@[i] < entries@.len(),
            out@ == old(out)@ + entries_bytes(entries@, sel@.take(i as int)),
        decreases sel@.len() - i,
    {
        entries[sel[i]].write(out);
        proof {
            let more = sel@.take(i + 1);
            assert(more.drop_last() =~= sel@.take(i as int));
            assert(out@ =~= old(out)@ + entries_bytes(entries@, more));
        }
        i = i + 1;
    }
    assert(sel@.take(i as int) =~= sel@);
}

/// Builds the COPC hierarchy with nested pages, to be put at the file offset
/// `evlr_data_start`. Returns the bytes, the file offset of the root page, and
/// its size.
pub fn build_hierarchy_payload(entries: &[HierarchyEntry], evlr_data_start: u64) -> (r: (
    Vec<u8>,
    u64,
    u64,
))
    requires
        evlr_data_start + hierarchy_len(entries@) <= u64::MAX,
    ensures
        r.0@ == hierarchy_bytes(entries@, evlr_data_start as nat),
        r.1 == evlr_data_start,
        r.2 == root_page_len(entries@),
{
    let ghost es = entries@;
    if entries.len() == 0 {
        assert(hierarchy_bytes(es, evlr_data_start as nat) =~= Seq::<u8>::empty());
        return (Vec::new(), evlr_data_start, 0);
    }
    let mut max_level: i32 = entries[0].key.level;
    let mut sel: Vec<usize> = Vec::new();
    sel.push(0);
    let mut i: usize = 1;
    while i < entries.len()
        invariant
            1 <= i <= entries@.len(),
            sel@ =~= all_indices(i as nat),
            max_level == deepest_level(entries@.take(i as int)),
        decreases entries@.len() - i,
    {
        assert(entries@.take(i + 1).drop_last() =~= entries@.take(i as int));
        if entries[i].key.level > max_level {
            max_level = entries[i].key.level;
        }
        sel.push(i);
        i = i + 1;
    }
    assert(entries@.take(i as int) =~= entries@);
    let boundaries = choose_page_boundaries(max_level);
    let (payload, root_size) = build_hierarchy_page_recursive(
        entries,
        sel.as_slice(),
        boundaries.as_slice(),
        0,
        evlr_data_start,
    );
    (payload, evlr_data_start, root_size as u64)
}

// What a reader makes of the pages.
/// The entries of a page.
pub open spec fn decode_page(s: Seq<u8>) -> Seq<HierarchyEntry> {
    Seq::new(s.len() / 32, |i: int| decode_entry(s.subrange(32 * i, 32 * i + 32)))
}

/// All entries that a reader finds when it reads the page of `size` bytes at
/// the file offset `offset` and follows each pointer in it, through at most
/// `depth` levels of pages. `payload` lies at the file offset `base`.
pub open spec fn follow(
    payload: Seq<u8>,
    base: int,
    offset: int,
    size: int,
    depth: nat,
) -> Multiset<HierarchyEntry>
    decreases depth, 0int,
{
    if depth == 0 {
        Multiset::empty()
    } else {
        follow_entries(
            payload,
            base,
            decode_page(payload.subrange(offset - base, offset - base + size)),
            (depth - 1) as nat,
        )
    }
}

/// All entries that a reader finds from the entries of a page.
pub open spec fn follow_entries(
    payload: Seq<u8>,
    base: int,
    page: Seq<HierarchyEntry>,
    depth: nat,
) -> Multiset<HierarchyEntry>
    decreases depth, page.len() + 1,
{
    if page.len() == 0 {
        Multiset::empty()
    } else {
        let rest = follow_entries(payload, base, page.drop_last(), depth);
        let e = page.last();
        if e.point_count == -1 {
            rest.add(follow(payload, base, e.offset as int, (e.byte_size as u32) as int, depth))
        } else {
            rest.insert(e)
        }
    }
}

/// The bytes of a list of entries.
spec fn list_bytes(list: Seq<HierarchyEntry>) -> Seq<u8>
    decreases list.len(),
{
    if list.len() == 0 {
        Seq::empty()
    } else {
        list_bytes(list.drop_last()) + entry_bytes(list.last())
    }
}

proof fn lemma_decode_list(list: Seq<HierarchyEntry>)
    ensures
        list_bytes(list).len() == 32 * list.len(),
        decode_page(list_bytes(list)) == list,
    decreases list.len(),
{
    let s = list_bytes(list);
    if list.len() > 0 {
        let init = list.drop_last();
        let t = list_bytes(init);
        lemma_decode_list(init);
        lemma_decode_entry(list.last());
        assert forall|i: int| 0 <= i < list.len() implies #[trigger] decode_page(s)[i]
            == list[i] by {
            if i < init.len() {
                assert(s.subrange(32 * i, 32 * i + 32) =~= t.subrange(32 * i, 32 * i + 32));
                assert(decode_page(t)[i] == init[i]);
            } else {
                assert(s.subrange(32 * i, 32 * i + 32) =~= entry_bytes(list.last()));
            }
        }
    }
    assert(decode_page(s) =~= list);
}

proof fn lemma_list_bytes_concat(a: Seq<HierarchyEntry>, b: Seq<HierarchyEntry>)
    ensures
        list_bytes(a + b) == list_bytes(a) + list_bytes(b),
    decreases b.len(),
{
    if b.len() == 0 {
        assert(a + b =~= a);
        assert(list_bytes(a) + list_bytes(b) =~= list_bytes(a));
    } else {
        assert((a + b).drop_last() =~= a + b.drop_last());
        lemma_list_bytes_concat(a, b.drop_last());
        assert(list_bytes(a + b) =~= list_bytes(a) + list_bytes(b));
    }
}

/// The entries `sel`.
spec fn select(es: Seq<HierarchyEntry>, sel: Seq<usize>) -> Seq<HierarchyEntry> {
    sel.map_values(|i: usize| es[i as int])
}

/// The pointers to the first `n` groups.
spec fn pointer_list(
    es: Seq<HierarchyEntry>,
    gs: Seq<(VoxelKey, Seq<usize>)>,
    bounds: Seq<i32>,
    idx: nat,
    start: nat,
    n: nat,
) -> Seq<HierarchyEntry> {
    Seq::new(n, |g: int| pointer_entry(es, gs, bounds, idx, start, g))
}

proof fn lemma_entries_as_list(es: Seq<HierarchyEntry>, sel: Seq<usize>)
    ensures
        entries_bytes(es, sel) == list_bytes(select(es, sel)),
    decreases sel.len(),
{
    if sel.len() > 0 {
        lemma_entries_as_list(es, sel.drop_last());
        assert(select(es, sel).drop_last() =~= select(es, sel.drop_last()));
    }
}

proof fn lemma_pointers_as_list(
    es: Seq<HierarchyEntry>,
    gs: Seq<(VoxelKey, Seq<usize>)>,
    bounds: Seq<i32>,
    idx: nat,
    start: nat,
    n: nat,
)
    ensures
        pointers_bytes(es, gs, bounds, idx, start, n) == list_bytes(
            pointer_list(es, gs, bounds, idx, start, n),
        ),
    decreases n,
{
    if n > 0 {
        let m = (n - 1) as nat;
        lemma_pointers_as_list(es, gs, bounds, idx, start, m);
        assert(pointer_list(es, gs, bounds, idx, start, n).drop_last() =~= pointer_list(
            es,
            gs,
            bounds,
            idx,
            start,
            m,
        ));
    }
}

/// The value that an index stands for.
pub open spec fn entry_of(es: Seq<HierarchyEntry>) -> spec_fn(usize) -> HierarchyEntry {
    |i: usize| es[i as int]
}

proof fn lemma_follow_plain(
    payload: Seq<u8>,
    base: int,
    es: Seq<HierarchyEntry>,
    sel: Seq<usize>,
    depth: nat,
)
    requires
        forall|i: int| 0 <= i < es.len() ==> (#[trigger] es[i]).point_count != -1,
        forall|i: int| 0 <= i < sel.len() ==> #[trigger] sel[i] < es.len(),
    ensures
        follow_entries(payload, base, select(es, sel), depth) == picked(entry_of(es), sel),
    decreases sel.len(),
{
    if sel.len() > 0 {
        lemma_follow_plain(payload, base, es, sel.drop_last(), depth);
        assert(select(es, sel).drop_last() =~= select(es, sel.drop_last()));
        assert(es[sel.last() as int].point_count != -1);
    }
}

/// Where the pages of group `g` lie among those of all groups.
proof fn lemma_trees_bytes_part(
    es: Seq<HierarchyEntry>,
    gs: Seq<(VoxelKey, Seq<usize>)>,
    bounds: Seq<i32>,
    idx: nat,
    start: nat,
    g: int,
)
    requires
        0 <= g < gs.len(),
    ensures
        trees_bytes(es, gs, bounds, idx, start).subrange(
            trees_len(es, gs.take(g), bounds, idx) as int,
            trees_len(es, gs.take(g + 1), bounds, idx) as int,
        ) == tree_bytes(
            es,
            gs[g].1,
            bounds,
            idx,
            start + trees_len(es, gs.take(g), bounds, idx),
        ),
        trees_len(es, gs.take(g), bounds, idx) <= trees_len(es, gs.take(g + 1), bounds, idx)
            <= trees_len(es, gs, bounds, idx),
    decreases gs.len(),
{
    lemma_trees_len_prefix(es, gs, bounds, idx, g);
    lemma_trees_bytes_len(es, gs, bounds, idx, start);
    lemma_trees_bytes_len(es, gs.drop_last(), bounds, idx, start);
    let all = trees_bytes(es, gs, bounds, idx, start);
    let init = gs.drop_last();
    let from = trees_len(es, gs.take(g), bounds, idx) as int;
    let to = trees_len(es, gs.take(g + 1), bounds, idx) as int;
    if g == gs.len() - 1 {
        assert(gs.take(g) =~= init);
        assert(gs.take(g + 1) =~= gs);
        lemma_tree_bytes_len(es, gs.last().1, bounds, idx, start + trees_len(es, init, bounds, idx));
        assert(all.subrange(from, to) =~= tree_bytes(
            es,
            gs[g].1,
            bounds,
            idx,
            start + trees_len(es, init, bounds, idx),
        ));
    } else {
        lemma_trees_bytes_part(es, init, bounds, idx, start, g);
        assert(init.take(g) =~= gs.take(g));
        assert(init.take(g + 1) =~= gs.take(g + 1));
        assert(all.subrange(from, to) =~= trees_bytes(es, init, bounds, idx, start).subrange(
            from,
            to,
        ));
    }
}

/// A page lies inside its tree.
proof fn lemma_page_in_tree(
    es: Seq<HierarchyEntry>,
    sel: Seq<usize>,
    bounds: Seq<i32>,
    idx: nat,
)
    ensures
        page_len(es, sel, bounds, idx) <= tree_len(es, sel, bounds, idx),
{
}

proof fn lemma_follow_tree(
    es: Seq<HierarchyEntry>,
    sel: Seq<usize>,
    bounds: Seq<i32>,
    idx: nat,
    start: nat,
    payload: Seq<u8>,
    base: nat,
    depth: nat,
)
    requires
        idx <= bounds.len(),
        depth > bounds.len() - idx,
        base <= start,
        start - base + tree_len(es, sel, bounds, idx) <= payload.len(),
        payload.subrange(
            start - base,
            start - base + tree_len(es, sel, bounds, idx),
        ) == tree_bytes(es, sel, bounds, idx, start),
        start + tree_len(es, sel, bounds, idx) <= u64::MAX,
        pages_fit(es, sel, bounds, idx),
        forall|i: int| 0 <= i < es.len() ==> (#[trigger] es[i]).point_count != -1,
        forall|i: int| 0 <= i < sel.len() ==> #[trigger] sel[i] < es.len(),
    ensures
        follow(
            payload,
            base as int,
            start as int,
            page_len(es, sel, bounds, idx) as int,
            depth,
        ) == picked(entry_of(es), sel),
    decreases bounds.len() - idx, 0nat,
{
    let plen = page_len(es, sel, bounds, idx) as int;
    let off = start - base;
    let d1 = (depth - 1) as nat;
    lemma_page_in_tree(es, sel, bounds, idx);
    lemma_tree_bytes_len(es, sel, bounds, idx, start);
    let tree = tree_bytes(es, sel, bounds, idx, start);
    let page = payload.subrange(off, off + plen);
    let total = tree_len(es, sel, bounds, idx) as int;
    lemma_part_of_part(payload, off, off + total, 0, plen);
    assert(page == tree.subrange(0, plen));
    if is_flat(sel, bounds, idx) {
        lemma_entries_as_list(es, sel);
        lemma_decode_list(select(es, sel));
        assert(page =~= entries_bytes(es, sel));
        lemma_follow_plain(payload, base as int, es, sel, d1);
    } else {
        let root = hier_root(es, bounds[idx as int]);
        let un = ungrouped(sel, root);
        let gs = group_by(sel, root);
        let below = (start + plen) as nat;
        let nx = (idx + 1) as nat;
        lemma_group_bounds(sel, root, es.len());
        lemma_group_by(sel, root);
        lemma_entries_bytes_len(es, un);
        lemma_pointers_bytes_len(es, gs, bounds, nx, below, gs.len());
        lemma_entries_as_list(es, un);
        lemma_pointers_as_list(es, gs, bounds, nx, below, gs.len());
        let ptrs = pointer_list(es, gs, bounds, nx, below, gs.len());
        let list = select(es, un) + ptrs;
        lemma_list_bytes_concat(select(es, un), ptrs);
        lemma_decode_list(list);
        assert(page =~= list_bytes(list));
        lemma_trees_bytes_len(es, gs, bounds, nx, below);
        let trees = trees_bytes(es, gs, bounds, nx, below);
        lemma_part_of_part(payload, off, off + total, plen, total);
        assert(tree.subrange(plen, total) =~= trees);
        assert(payload.subrange(below - base, below - base + trees.len()) == trees);
        lemma_follow_plain(payload, base as int, es, un, d1);
        lemma_follow_pointers(es, gs, bounds, nx, below, payload, base, d1, un, gs.len());
        assert(ptrs =~= pointer_list(es, gs, bounds, nx, below, gs.len()));
        assert(gs.take(gs.len() as int) =~= gs);
        lemma_picked_split(entry_of(es), sel, root);
    }
}

/// What a reader finds from the own entries of a page and its first `n`
/// pointers.
proof fn lemma_follow_pointers(
    es: Seq<HierarchyEntry>,
    gs: Seq<(VoxelKey, Seq<usize>)>,
    bounds: Seq<i32>,
    idx: nat,
    start: nat,
    payload: Seq<u8>,
    base: nat,
    depth: nat,
    un: Seq<usize>,
    n: nat,
)
    requires
        n <= gs.len(),
        idx <= bounds.len(),
        depth > bounds.len() - idx,
        base <= start,
        start - base + trees_len(es, gs, bounds, idx) <= payload.len(),
        payload.subrange(
            start - base,
            start - base + trees_len(es, gs, bounds, idx),
        ) == trees_bytes(es, gs, bounds, idx, start),
        start + trees_len(es, gs, bounds, idx) <= u64::MAX,
        forall|g: int| 0 <= g < gs.len() ==> pages_fit(es, (#[trigger] gs[g]).1, bounds, idx),
        forall|i: int| 0 <= i < es.len() ==> (#[trigger] es[i]).point_count != -1,
        forall|g: int, m: int|
            0 <= g < gs.len() && 0 <= m < gs[g].1.len() ==> #[trigger] gs[g].1[m] < es.len(),
        follow_entries(payload, base as int, select(es, un), depth) == picked(entry_of(es), un),
    ensures
        follow_entries(
            payload,
            base as int,
            select(es, un) + pointer_list(es, gs, bounds, idx, start, n),
            depth,
        ) == picked(entry_of(es), un).add(picked_groups(entry_of(es), gs.take(n as int))),
    decreases bounds.len() - idx, n,
{
    let list = select(es, un) + pointer_list(es, gs, bounds, idx, start, n);
    if n == 0 {
        assert(list =~= select(es, un));
        assert(gs.take(0) =~= Seq::<(VoxelKey, Seq<usize>)>::empty());
        assert(picked(entry_of(es), un).add(picked_groups(entry_of(es), gs.take(0))) =~= picked(
            entry_of(es),
            un,
        ));
    } else {
        let m = (n - 1) as nat;
        let g = n - 1;
        lemma_follow_pointers(es, gs, bounds, idx, start, payload, base, depth, un, m);
        assert(list.drop_last() =~= select(es, un) + pointer_list(es, gs, bounds, idx, start, m));
        let e = pointer_entry(es, gs, bounds, idx, start, g);
        assert(list.last() == e);
        lemma_trees_len_prefix(es, gs, bounds, idx, g);
        lemma_trees_bytes_part(es, gs, bounds, idx, start, g);
        let child = gs[g].1;
        let from = trees_len(es, gs.take(g), bounds, idx);
        let to = trees_len(es, gs.take(g + 1), bounds, idx);
        let child_start = start + from;
        lemma_page_in_tree(es, child, bounds, idx);
        let size = page_len(es, child, bounds, idx) as u32;
        assert((size as i32) as u32 == size) by (bit_vector);
        let all_len = trees_len(es, gs, bounds, idx) as int;
        lemma_part_of_part(
            payload,
            start - base,
            start - base + all_len,
            from as int,
            to as int,
        );
        assert(payload.subrange(
            child_start - base,
            child_start - base + tree_len(es, child, bounds, idx),
        ) == trees_bytes(es, gs, bounds, idx, start).subrange(from as int, to as int));
        assert forall|i: int| 0 <= i < child.len() implies #[trigger] child[i] < es.len() by {
            assert(gs[g].1[i] < es.len());
        }
        lemma_follow_tree(es, child, bounds, idx, child_start, payload, base, depth);
        assert(gs.take(n as int).drop_last() =~= gs.take(g));
        assert(gs.take(n as int).last() == gs[g]);
        assert(follow_entries(payload, base as int, list, depth) =~= picked(entry_of(es), un).add(
            picked_groups(entry_of(es), gs.take(n as int)),
        ));
    }
}

/// The values of all indices are the values of the sequence.
proof fn lemma_picked_all(es: Seq<HierarchyEntry>, n: nat)
    requires
        n <= es.len() <= usize::MAX,
    ensures
        picked(entry_of(es), all_indices(n)) == es.take(n as int).to_multiset(),
    decreases n,
{
    broadcast use vstd::seq_lib::group_to_multiset_ensures;

    if n == 0 {
        assert(es.take(0) =~= Seq::<HierarchyEntry>::empty());
        assert(picked(entry_of(es), all_indices(n)) =~= es.take(0).to_multiset());
    } else {
        lemma_picked_all(es, (n - 1) as nat);
        assert(all_indices(n).drop_last() =~= all_indices((n - 1) as nat));
        assert(es.take(n as int) =~= es.take(n - 1).push(es[n - 1]));
    }
}

/// A reader that starts at the root page and follows every pointer finds each
/// entry that was written exactly once, and nothing else.
pub proof fn law_hierarchy_read_back(es: Seq<HierarchyEntry>, start: nat)
    requires
        es.len() <= usize::MAX,
        start + hierarchy_len(es) <= u64::MAX,
        pages_fit(es, all_indices(es.len()), page_boundaries(deepest_level(es)), 0),
        forall|i: int| 0 <= i < es.len() ==> (#[trigger] es[i]).point_count != -1,
    ensures
        follow(
            hierarchy_bytes(es, start),
            start as int,
            start as int,
            root_page_len(es) as int,
            page_boundaries(deepest_level(es)).len() + 1,
        ) == es.to_multiset(),
        hierarchy_bytes(es, start).len() == hierarchy_len(es),
{
    let sel = all_indices(es.len());
    let bounds = page_boundaries(deepest_level(es));
    let payload = hierarchy_bytes(es, start);
    lemma_tree_bytes_len(es, sel, bounds, 0, start);
    assert(payload.subrange(0, payload.len() as int) =~= payload);
    assert forall|i: int| 0 <= i < sel.len() implies #[trigger] sel[i] < es.len() by {}
    lemma_follow_tree(es, sel, bounds, 0, start, payload, start, bounds.len() + 1);
    lemma_picked_all(es, es.len());
    assert(es.take(es.len() as int) =~= es);
}

/// The own entries of a page lie above the level at which it splits, and it
/// points exactly at cells of that level: the root page splits at level 3, and
/// the pages below it three levels further down each.
pub proof fn law_page_levels(
    es: Seq<HierarchyEntry>,
    sel: Seq<usize>,
    max_level: i32,
    idx: nat,
    start: nat,
    j: int,
)
    requires
        idx < page_boundaries(max_level).len(),
        sel.len() > 0,
        forall|i: int| 0 <= i < es.len() ==> (#[trigger] es[i]).point_count != -1,
        forall|i: int| 0 <= i < sel.len() ==> #[trigger] sel[i] < es.len(),
    ensures
        ({
            let bounds = page_boundaries(max_level);
            let page = decode_page(
                tree_bytes(es, sel, bounds, idx, start).take(
                    page_len(es, sel, bounds, idx) as int,
                ),
            );
            0 <= j < page.len() ==> if page[j].point_count == -1 {
                page[j].key.level == 3 * (idx + 1)
            } else {
                page[j].key.level < 3 * (idx + 1) && es.contains(page[j])
            }
        }),
{
    let bounds = page_boundaries(max_level);
    let boundary = bounds[idx as int];
    assert(boundary == 3 * (idx + 1));
    let root = hier_root(es, boundary);
    let un = ungrouped(sel, root);
    let gs = group_by(sel, root);
    let plen = page_len(es, sel, bounds, idx);
    let below = start + plen;
    let nx = idx + 1;
    lemma_group_bounds(sel, root, es.len());
    lemma_group_by(sel, root);
    lemma_entries_bytes_len(es, un);
    lemma_pointers_bytes_len(es, gs, bounds, nx, below, gs.len());
    lemma_entries_as_list(es, un);
    lemma_pointers_as_list(es, gs, bounds, nx, below, gs.len());
    let ptrs = pointer_list(es, gs, bounds, nx, below, gs.len());
    let list = select(es, un) + ptrs;
    lemma_list_bytes_concat(select(es, un), ptrs);
    lemma_decode_list(list);
    lemma_tree_bytes_len(es, sel, bounds, idx, start);
    lemma_page_in_tree(es, sel, bounds, idx);
    assert(tree_bytes(es, sel, bounds, idx, start).take(plen as int) =~= list_bytes(list));
    if 0 <= j < list.len() {
        if j < un.len() {
            lemma_ungrouped_roots(sel, root, j);
            assert(list[j] == es[un[j] as int]);
        } else {
            let g = j - un.len();
            assert(list[j] == pointer_entry(es, gs, bounds, nx, below, g));
            assert(gs[g].1.len() > 0);
            let m = gs[g].1[0];
            assert(root(m) == Some(gs[g].0));
            crate::key::lemma_ancestor_level(es[m as int].key, boundary as int);
        }
    }
}

proof fn lemma_ungrouped_roots(
    sel: Seq<usize>,
    root: spec_fn(usize) -> Option<VoxelKey>,
    j: int,
)
    requires
        0 <= j < ungrouped(sel, root).len(),
    ensures
        root(ungrouped(sel, root)[j]) is None,
    decreases sel.len(),
{
    if j < ungrouped(sel.drop_last(), root).len() {
        lemma_ungrouped_roots(sel.drop_last(), root, j);
    }
}

} // verus!
