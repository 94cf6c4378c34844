//! Where the points of each node are kept while the octree is built.
//!
//! Either each node has a file of its own, or nodes are appended to a few pack
//! files and an index says where each node's latest data lies. Writing a node
//! again replaces what was there; a node that was never written has no points.

use crate::assembly::held_at;
use crate::config::TempCompression;
use crate::key::VoxelKey;
use crate::point::{point_views, uniform_extras, PointView, RawPoint};
use crate::temp::{
    all_points, count_temp_file_points, encoded_batch, encoded_batches, holds_batch,
    law_batches_round_trip, law_count_round_trip, points_result, read_temp_batches, temp_count,
    temp_points, write_temp_batch, TempReadError,
};
use crate::text::{
    decimal, lemma_signed_decimal, lemma_split_unique, push_decimal, push_signed, push_text,
    signed_decimal,
};
use dashmap::DashMap;
use std::hash::RandomState;
use vstd::prelude::*;
use vstd::string::StrSliceExecFns;

verus! {

/// Nodes in files of their own, all in one directory.
#[derive(Debug)]
pub struct FileNodeStore {
    pub tmp_dir: String,
    pub num_extra_bytes: u16,
    pub codec: TempCompression,
}

/// The name of a node's file.
pub open spec fn node_name(k: VoxelKey) -> Seq<char> {
    signed_decimal(k.level as int) + seq!['_'] + signed_decimal(k.x as int) + seq!['_']
        + signed_decimal(k.y as int) + seq!['_'] + signed_decimal(k.z as int)
}

/// A name inside a directory.
pub open spec fn path_in(dir: Seq<char>, name: Seq<char>) -> Seq<char> {
    if dir.len() == 0 || dir.last() == '/' {
        dir + name
    } else {
        dir + seq!['/'] + name
    }
}

/// Appends the name of a node's file.
fn push_node_name(out: &mut String, key: &VoxelKey)
    ensures
        final(out)@ == old(out)@ + node_name(*key),
{
    push_signed(out, key.level as i64);
    out.push('_');
    push_signed(out, key.x as i64);
    out.push('_');
    push_signed(out, key.y as i64);
    out.push('_');
    push_signed(out, key.z as i64);
    assert(out@ =~= old(out)@ + node_name(*key));
}

/// Appends the separator behind a directory where it lacks one.
pub(crate) fn push_separator(out: &mut String)
    ensures
        final(out)@ == (if old(out)@.len() == 0 || old(out)@.last() == '/' {
            old(out)@
        } else {
            old(out)@.push('/')
        }),
{
    let n: usize = out.as_str().unicode_len();
    if n > 0 && out.as_str().get_char(n - 1) != '/' {
        out.push('/');
    }
}

impl FileNodeStore {
    pub fn new(tmp_dir: String, num_extra_bytes: u16, codec: TempCompression) -> (s: FileNodeStore)
        ensures
            s.tmp_dir@ == tmp_dir@,
            s.num_extra_bytes == num_extra_bytes,
            s.codec == codec,
    {
        FileNodeStore { tmp_dir, num_extra_bytes, codec }
    }

    /// The path of a node's file.
    pub fn node_path(&self, key: &VoxelKey) -> (p: String)
        ensures
            p@ == path_in(self.tmp_dir@, node_name(*key)),
    {
        let mut p = self.tmp_dir.clone();
        push_separator(&mut p);
        push_node_name(&mut p, key);
        assert(p@ =~= path_in(self.tmp_dir@, node_name(*key)));
        p
    }

    /// What a node's file has to hold for the given points.
    pub fn write(&self, points: &[RawPoint]) -> (file: Vec<u8>)
        requires
            uniform_extras(point_views(points@), self.num_extra_bytes as nat),
        ensures
            file@ == encoded_batch(point_views(points@), self.codec),
            holds_batch(file@, point_views(points@), self.codec),
    {
        let mut file: Vec<u8> = Vec::new();
        write_temp_batch(&mut file, points, self.num_extra_bytes, self.codec);
        assert(file@ =~= encoded_batch(point_views(points@), self.codec));
        file
    }

    /// The points of a node, given what its file holds; none where there is no
    /// file.
    pub fn read(&self, file: Option<&[u8]>) -> (r: Result<Vec<RawPoint>, TempReadError>)
        ensures
            match file {
                Some(bytes) => points_result(r) == temp_points(
                    bytes@,
                    self.num_extra_bytes as nat,
                    self.codec,
                ),
                None => r matches Ok(v) && v@.len() == 0,
            },
    {
        match file {
            Some(bytes) => read_temp_batches(bytes, self.num_extra_bytes, self.codec),
            None => Ok(Vec::new()),
        }
    }

    /// The number of points of a node, given what its file holds.
    pub fn count(&self, file: Option<&[u8]>) -> (r: Result<u64, TempReadError>)
        requires
            file matches Some(bytes) ==> bytes@.len() <= i64::MAX,
        ensures
            match (
                r,
                temp_count(
                    match file {
                        Some(bytes) => Some(bytes@),
                        None => None,
                    },
                    self.num_extra_bytes as nat,
                    self.codec,
                ),
            ) {
                (Ok(n), Ok(m)) => n == m,
                (Err(e), Err(f)) => e == f,
                _ => false,
            },
    {
        count_temp_file_points(file, self.num_extra_bytes, self.codec)
    }
}

/// Different nodes have different files.
pub proof fn law_node_names_distinct(a: VoxelKey, b: VoxelKey)
    requires
        node_name(a) == node_name(b),
    ensures
        a == b,
{
    lemma_signed_decimal(a.level as int, b.level as int);
    lemma_signed_decimal(a.x as int, b.x as int);
    lemma_signed_decimal(a.y as int, b.y as int);
    lemma_signed_decimal(a.z as int, b.z as int);
    lemma_signed_decimal(b.level as int, a.level as int);
    lemma_signed_decimal(b.x as int, a.x as int);
    lemma_signed_decimal(b.y as int, a.y as int);
    let (l1, x1, y1, z1) = (
        signed_decimal(a.level as int),
        signed_decimal(a.x as int),
        signed_decimal(a.y as int),
        signed_decimal(a.z as int),
    );
    let (l2, x2, y2, z2) = (
        signed_decimal(b.level as int),
        signed_decimal(b.x as int),
        signed_decimal(b.y as int),
        signed_decimal(b.z as int),
    );
    let u = seq!['_'];
    let yz1 = y1 + u + z1;
    let yz2 = y2 + u + z2;
    let xyz1 = x1 + u + yz1;
    let xyz2 = x2 + u + yz2;
    assert(node_name(a) =~= l1 + u + xyz1);
    assert(node_name(b) =~= l2 + u + xyz2);
    lemma_split_unique(l1, l2, xyz1, xyz2, '_');
    lemma_split_unique(x1, x2, yz1, yz2, '_');
    lemma_split_unique(y1, y2, z1, z2, '_');
}

/// One batch is read back as the points that it was written from, and counted as
/// such.
pub proof fn law_node_read_back(
    bytes: Seq<u8>,
    ps: Seq<PointView>,
    num_extra_bytes: nat,
    codec: TempCompression,
)
    requires
        holds_batch(bytes, ps, codec),
        uniform_extras(ps, num_extra_bytes),
        ps.len() <= u32::MAX,
    ensures
        temp_points(bytes, num_extra_bytes, codec) == Ok::<Seq<PointView>, TempReadError>(ps),
        temp_count(Some(bytes), num_extra_bytes, codec) == Ok::<nat, TempReadError>(ps.len()),
{
    let bs = seq![ps];
    assert(bs.drop_first() =~= Seq::<Seq<PointView>>::empty());
    assert(encoded_batches(bs.drop_first(), codec) =~= Seq::<u8>::empty());
    assert(encoded_batches(bs, codec) =~= bytes);
    assert(all_points(bs.drop_first()) =~= Seq::<PointView>::empty());
    assert(all_points(bs) =~= ps);
    law_batches_round_trip(bs, num_extra_bytes, codec);
    law_count_round_trip(bs, num_extra_bytes, codec);
}

// The packed store.
/// Where a node's data lies: the pack, the offset in it, the number of bytes and
/// the number of points.
pub type Slot = (u16, u64, u32, u32);

/// A node's key as numbers.
pub type SlotKey = (i32, i32, i32, i32);

/// `dashmap::DashMap`, a concurrent map.
#[verifier::external_type_specification]
#[verifier::external_body]
#[verifier::reject_recursive_types(K)]
#[verifier::reject_recursive_types(V)]
#[verifier::reject_recursive_types(S)]
pub struct ExDashMap<K, V, S>(DashMap<K, V, S>);

/// What the index holds.
pub uninterp spec fn index_map(d: DashMap<SlotKey, Slot, RandomState>) -> Map<SlotKey, Slot>;

/// An index that holds nothing.
pub open spec fn no_slots() -> Map<SlotKey, Slot> {
    Map::empty()
}

/// Calls `DashMap::new`: the map holds nothing.
#[verifier::external_body]
fn index_new() -> (d: DashMap<SlotKey, Slot, RandomState>)
    ensures
        index_map(d) == no_slots(),
{
    DashMap::new()
}

/// Calls `DashMap::insert`: the key now has the value, whatever it had before;
/// all other keys have what they had.
#[verifier::external_body]
fn index_insert(d: &mut DashMap<SlotKey, Slot, RandomState>, k: SlotKey, v: Slot)
    ensures
        index_map(*final(d)) == index_map(*old(d)).insert(k, v),
{
    d.insert(k, v);
}

/// Calls `DashMap::get`: the value of the key, if it has one.
#[verifier::external_body]
fn index_get(d: &DashMap<SlotKey, Slot, RandomState>, k: SlotKey) -> (r: Option<Slot>)
    ensures
        match r {
            Some(v) => index_map(*d).contains_key(k) && index_map(*d)[k] == v,
            None => !index_map(*d).contains_key(k),
        },
{
    d.get(&k).map(|v| *v)
}

/// `rayon::current_thread_index`: the number of the current thread in its pool,
/// if it is in one. It depends on the thread, so nothing is said of it.
pub assume_specification[ rayon::current_thread_index ]() -> Option<usize>
;

/// Where a node's data lies in the pack files.
#[derive(Debug, Clone, Copy, PartialEq, Eq, Structural)]
pub struct NodeLocation {
    pub pack_id: u16,
    pub offset: u64,
    pub byte_len: u32,
    pub point_count: u32,
}

/// Bytes that have to be appended to a pack file, which has `offset` bytes.
#[derive(Debug)]
pub struct PackAppend {
    pub pack_id: u16,
    pub offset: u64,
    pub bytes: Vec<u8>,
}

/// A node whose data a location cannot describe.
#[derive(Debug, Clone, Copy, PartialEq, Eq, Structural)]
pub struct NodeTooLarge;

/// Nodes in pack files, of which there are a few. Each write of a node appends
/// to a pack; the index remembers where the latest data of each node lies.
pub struct PackedNodeStore {
    num_extra_bytes: u16,
    codec: TempCompression,
    pack_offsets: Vec<u64>,
    index: DashMap<SlotKey, Slot, RandomState>,
    packs: Ghost<Seq<Seq<u8>>>,
    stored: Ghost<Map<VoxelKey, Seq<PointView>>>,
}

/// A key as numbers.
pub open spec fn slot_key(k: VoxelKey) -> SlotKey {
    (k.level, k.x, k.y, k.z)
}

/// The bytes of a pack that a location describes.
pub open spec fn located(packs: Seq<Seq<u8>>, loc: NodeLocation) -> Seq<u8> {
    packs[loc.pack_id as int].subrange(loc.offset as int, loc.offset + loc.byte_len)
}

/// The location that a slot stands for.
pub open spec fn slot_location(s: Slot) -> NodeLocation {
    NodeLocation { pack_id: s.0, offset: s.1, byte_len: s.2, point_count: s.3 }
}

/// A slot describes the batch of the given points.
spec fn slot_holds(
    s: Slot,
    packs: Seq<Seq<u8>>,
    ps: Seq<PointView>,
    num_extra_bytes: nat,
    codec: TempCompression,
) -> bool {
    &&& s.0 < packs.len()
    &&& s.1 + s.2 <= packs[s.0 as int].len()
    &&& s.3 == ps.len()
    &&& uniform_extras(ps, num_extra_bytes)
    &&& holds_batch(located(packs, slot_location(s)), ps, codec)
}

/// The name of a pack file.
pub open spec fn pack_file_name(pack_id: u16) -> Seq<char> {
    "pack_"@ + decimal(pack_id as nat) + ".bin"@
}

/// The pack for the thread with the given number.
pub open spec fn pack_of_thread(thread: Option<usize>, packs: nat) -> nat {
    match thread {
        Some(i) => i as nat % packs,
        None => 0,
    }
}

/// The pack that a thread appends to: threads take turns; a thread outside the
/// pool takes the first pack.
pub fn pack_for_thread(thread: Option<usize>, pack_count: usize) -> (id: usize)
    requires
        pack_count > 0,
    ensures
        id == pack_of_thread(thread, pack_count as nat),
        id < pack_count,
{
    match thread {
        Some(i) => i % pack_count,
        None => 0,
    }
}

impl PackedNodeStore {
    /// What the pack files hold, if everything that was to be appended was.
    pub closed spec fn packs(self) -> Seq<Seq<u8>> {
        self.packs@
    }

    /// The points of each node that was written.
    pub closed spec fn stored(self) -> Map<VoxelKey, Seq<PointView>> {
        self.stored@
    }

    pub closed spec fn num_extra_bytes(self) -> nat {
        self.num_extra_bytes as nat
    }

    pub closed spec fn codec(self) -> TempCompression {
        self.codec
    }

    /// The index locates the latest data of every node that was written.
    pub closed spec fn wf(self) -> bool {
        let m = index_map(self.index);
        &&& 0 < self.packs@.len() <= 0x1_0000
        &&& self.pack_offsets@.len() == self.packs@.len()
        &&& forall|i: int|
            0 <= i < self.packs@.len() ==> #[trigger] self.pack_offsets@[i] == self.packs@[i].len()
        &&& forall|k: VoxelKey| #[trigger]
            self.stored@.contains_key(k) <==> m.contains_key(slot_key(k))
        &&& forall|k: VoxelKey| #[trigger]
            self.stored@.contains_key(k) ==> slot_holds(
                m[slot_key(k)],
                self.packs@,
                self.stored@[k],
                self.num_extra_bytes as nat,
                self.codec,
            )
    }

    pub fn new(num_extra_bytes: u16, codec: TempCompression, pack_count: usize) -> (s:
        PackedNodeStore)
        requires
            0 < pack_count <= 0x1_0000,
        ensures
            s.wf(),
            s.num_extra_bytes() == num_extra_bytes,
            s.codec() == codec,
            s.stored() == Map::<VoxelKey, Seq<PointView>>::empty(),
            s.packs() == Seq::new(pack_count as nat, |i: int| Seq::<u8>::empty()),
    {
        let mut pack_offsets: Vec<u64> = Vec::new();
        let mut i: usize = 0;
        while i < pack_count
            invariant
                i <= pack_count,
                pack_offsets@.len() == i,
                forall|k: int| 0 <= k < i ==> #[trigger] pack_offsets@[k] == 0,
            decreases pack_count - i,
        {
            pack_offsets.push(0);
            i = i + 1;
        }
        PackedNodeStore {
            num_extra_bytes,
            codec,
            pack_offsets,
            index: index_new(),
            packs: Ghost(Seq::new(pack_count as nat, |i: int| Seq::<u8>::empty())),
            stored: Ghost(Map::<VoxelKey, Seq<PointView>>::empty()),
        }
    }

    /// The name of a pack file.
    pub fn pack_name(pack_id: u16) -> (name: String)
        ensures
            name@ == pack_file_name(pack_id),
    {
        let mut name = String::new();
        push_text(&mut name, "pack_");
        push_decimal(&mut name, pack_id as u64);
        push_text(&mut name, ".bin");
        assert(name@ =~= pack_file_name(pack_id));
        name
    }

    /// The pack that the current thread appends to.
    pub fn current_pack_id(&self) -> (id: u16)
        requires
            self.wf(),
        ensures
            id < self.packs().len(),
            exists|thread: Option<usize>|
                id == #[trigger] pack_of_thread(thread, self.packs().len()),
    {
        let thread: Option<usize> = rayon::current_thread_index();
        let id: usize = pack_for_thread(thread, self.pack_offsets.len());
        assert(id as u16 == pack_of_thread(thread, self.packs().len()));
        id as u16
    }

    /// Stores the points of a node, replacing what was stored for it before.
    /// Returns what has to be appended to which pack. Refuses a node whose data
    /// a location cannot describe, and stores nothing then.
    pub fn write(&mut self, key: &VoxelKey, points: &[RawPoint], pack_id: u16) -> (r: Result<
        PackAppend,
        NodeTooLarge,
    >)
        requires
            old(self).wf(),
            pack_id < old(self).packs().len(),
            uniform_extras(point_views(points@), old(self).num_extra_bytes()),
        ensures
            final(self).wf(),
            final(self).num_extra_bytes() == old(self).num_extra_bytes(),
            final(self).codec() == old(self).codec(),
            match r {
                Ok(a) => {
                    let pack = old(self).packs()[pack_id as int];
                    &&& a.pack_id == pack_id
                    &&& a.offset == pack.len()
                    &&& a.bytes@ == encoded_batch(point_views(points@), old(self).codec())
                    &&& final(self).packs() == old(self).packs().update(
                        pack_id as int,
                        pack + a.bytes@,
                    )
                    &&& final(self).stored() == old(self).stored().insert(
                        *key,
                        point_views(points@),
                    )
                },
                Err(_) => {
                    let bytes = encoded_batch(point_views(points@), old(self).codec());
                    &&& (points@.len() > u32::MAX || bytes.len() > u32::MAX || old(
                        self,
                    ).packs()[pack_id as int].len() + bytes.len() > u64::MAX)
                    &&& final(self).packs() == old(self).packs()
                    &&& final(self).stored() == old(self).stored()
                },
            },
    {
        let ghost ps = point_views(points@);
        assert(ps.len() == points@.len());
        let mut bytes: Vec<u8> = Vec::new();
        write_temp_batch(&mut bytes, points, self.num_extra_bytes, self.codec);
        assert(bytes@ =~= encoded_batch(ps, self.codec));
        let offset: u64 = self.pack_offsets[pack_id as usize];
        assert(offset == self.packs@[pack_id as int].len());
        if points.len() as u64 > u32::MAX as u64 || bytes.len() as u64 > u32::MAX as u64 || offset
            > u64::MAX - bytes.len() as u64 {
            return Err(NodeTooLarge);
        }
        let ghost before = self.packs@;
        let ghost m = index_map(self.index);
        let ghost kept = self.stored@;
        let slot: Slot = (pack_id, offset, bytes.len() as u32, points.len() as u32);
        self.pack_offsets.set(pack_id as usize, offset + bytes.len() as u64);
        index_insert(&mut self.index, (key.level, key.x, key.y, key.z), slot);
        proof {
            let pack = before[pack_id as int];
            let packs = before.update(pack_id as int, pack + bytes@);
            self.packs = Ghost(packs);
            self.stored = Ghost(kept.insert(*key, ps));
            let now = index_map(self.index);
            let n = self.num_extra_bytes as nat;
            assert forall|k: VoxelKey| #[trigger] self.stored@.contains_key(k) <==> now.contains_key(
                slot_key(k),
            ) by {
                if k == *key {
                } else {
                    assert(slot_key(k) != slot_key(*key));
                    assert(kept.contains_key(k) <==> m.contains_key(slot_key(k)));
                }
            }
            assert forall|k: VoxelKey| #[trigger] self.stored@.contains_key(k) implies slot_holds(
                now[slot_key(k)],
                packs,
                self.stored@[k],
                n,
                self.codec,
            ) by {
                if k == *key {
                    assert(located(packs, slot_location(slot)) =~= bytes@);
                } else {
                    assert(slot_key(k) != slot_key(*key));
                    assert(kept.contains_key(k));
                    let s = m[slot_key(k)];
                    assert(slot_holds(s, before, kept[k], n, self.codec));
                    assert(located(packs, slot_location(s)) =~= located(
                        before,
                        slot_location(s),
                    ));
                }
            }
        }
        Ok(PackAppend { pack_id, offset, bytes })
    }

    /// Where the latest data of a node lies; nothing for a node that was never
    /// written.
    pub fn locate(&self, key: &VoxelKey) -> (r: Option<NodeLocation>)
        requires
            self.wf(),
        ensures
            match r {
                Some(loc) => {
                    &&& self.stored().contains_key(*key)
                    &&& loc.pack_id < self.packs().len()
                    &&& loc.offset + loc.byte_len <= self.packs()[loc.pack_id as int].len()
                    &&& loc.point_count == self.stored()[*key].len()
                    &&& located(self.packs(), loc) == encoded_batch(
                        self.stored()[*key],
                        self.codec(),
                    )
                },
                None => !self.stored().contains_key(*key),
            },
    {
        let ghost m = index_map(self.index);
        match index_get(&self.index, (key.level, key.x, key.y, key.z)) {
            Some(s) => {
                assert(m.contains_key(slot_key(*key)));
                assert(self.stored@.contains_key(*key));
                Some(
                    NodeLocation {
                        pack_id: s.0,
                        offset: s.1,
                        byte_len: s.2,
                        point_count: s.3,
                    },
                )
            },
            None => None,
        }
    }

    /// The points of a node, given the bytes that its location describes; none
    /// for a node that was never written. Where the pack holds what was to be
    /// appended to it, these are the points that were stored last.
    pub fn read(&self, key: &VoxelKey, bytes: &[u8]) -> (r: Result<Vec<RawPoint>, TempReadError>)
        requires
            self.wf(),
        ensures
            !self.stored().contains_key(*key) ==> (r matches Ok(v) && v@.len() == 0),
            self.stored().contains_key(*key) ==> points_result(r) == temp_points(
                bytes@,
                self.num_extra_bytes(),
                self.codec(),
            ),
            self.stored().contains_key(*key) && bytes@ == encoded_batch(
                self.stored()[*key],
                self.codec(),
            ) ==> (r matches Ok(v) && point_views(v@) == self.stored()[*key]),
    {
        match self.locate(key) {
            None => Ok(Vec::new()),
            Some(_) => {
                proof {
                    let ps = self.stored@[*key];
                    let s = index_map(self.index)[slot_key(*key)];
                    assert(slot_holds(
                        s,
                        self.packs@,
                        ps,
                        self.num_extra_bytes as nat,
                        self.codec,
                    ));
                    let held = located(self.packs@, slot_location(s));
                    law_node_read_back(held, ps, self.num_extra_bytes as nat, self.codec);
                }
                read_temp_batches(bytes, self.num_extra_bytes, self.codec)
            },
        }
    }

    /// The number of points of a node; zero for a node that was never written.
    pub fn count(&self, key: &VoxelKey) -> (n: u64)
        requires
            self.wf(),
        ensures
            n == held_at(self.stored(), *key).len(),
    {
        match self.locate(key) {
            Some(loc) => loc.point_count as u64,
            None => 0,
        }
    }
}

} // verus!
