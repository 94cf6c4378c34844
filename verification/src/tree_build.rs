//! The order of work in which the octree is built: the chunks batch by batch,
//! then the levels above them, and in the end the list of nodes.
//!
//! Whoever runs it asks for the next action, performs it, and says what came of
//! it, until the list of nodes is all that is left.

use crate::batches::{batch_views, batches, joined, law_batches};
use crate::chunking::PlannedChunk;
use crate::conservation::{built_nodes, merge_parents, nodes_of, root_keys, ChunkData};
use crate::key::VoxelKey;
use crate::merge::{
    at_level, counts_ok, keys_ascend, lemma_at_level, merge_schedule, plan_merge_level, schedule,
    schedule_views, select_level, task_parents, task_sizes, task_views, unique_keys,
    MergeOverBudget, MergeTask, TaskView,
};
use crate::octree::keys_of;
use crate::planner::{build_sizes, chunk_batches};
use crate::sampling::VoxelGrid;
use crate::sorting::is_permutation;
use vstd::prelude::*;

verus! {

/// What is being done.
#[derive(Debug, Clone, Copy, PartialEq, Eq, Structural)]
pub enum Phase {
    /// The chunks are built.
    Building,
    /// The points of the nodes are counted from which a level is built.
    Counting,
    /// A level is built.
    Merging,
    /// The points of all nodes are counted.
    Listing,
}

/// What has to be done next.
#[derive(Debug)]
pub enum BuildAction {
    /// Build the chunks with these numbers, all at the same time.
    BuildChunks { chunks: Vec<usize> },
    /// Count the points of the children of every task of the level.
    CountChildren,
    /// Run the tasks of the level with these numbers, all at the same time.
    MergeTasks { tasks: Vec<usize> },
    /// Count the points of these nodes; with that the octree is complete.
    CountNodes { keys: Vec<VoxelKey> },
}

/// The building of an octree.
#[derive(Debug)]
pub struct TreeBuild {
    chunks: Vec<PlannedChunk>,
    memory_budget: u64,
    mem_per_point: u32,
    phase: Phase,
    batches: Vec<Vec<usize>>,
    built: usize,
    chunk_keys: Vec<VoxelKey>,
    roots: Vec<VoxelKey>,
    levels: Vec<Vec<MergeTask>>,
    level: usize,
    merges: Vec<Vec<usize>>,
    merged: usize,
    parents: Vec<VoxelKey>,
}

/// How far the building of an octree has come.
pub struct BuildState {
    pub chunks: Seq<PlannedChunk>,
    pub memory_budget: u64,
    pub mem_per_point: u32,
    pub phase: Phase,
    /// How many batches of chunks are built.
    pub built: nat,
    /// The keys of the nodes of the chunks that are built.
    pub chunk_keys: Seq<VoxelKey>,
    /// Those of them that are chunk roots.
    pub roots: Seq<VoxelKey>,
    /// How many levels above the chunks are built.
    pub level: nat,
    /// The batches of the tasks of the level that is being built.
    pub merges: Seq<Seq<usize>>,
    /// How many of them are done.
    pub merged: nat,
    /// The keys of the nodes that the levels above the chunks have got.
    pub parents: Seq<VoxelKey>,
}

/// The batches in which the chunks are built.
pub open spec fn work(s: BuildState) -> Seq<Seq<usize>> {
    batches(build_sizes(s.chunks), s.memory_budget)
}

/// Goes to the next level above the chunks, or to the list of nodes where there
/// is none.
pub open spec fn open_level(s: BuildState) -> BuildState {
    BuildState {
        phase: if s.level < schedule(s.roots).len() {
            Phase::Counting
        } else {
            Phase::Listing
        },
        merges: Seq::empty(),
        merged: 0,
        ..s
    }
}

/// Goes to the next batch of chunks, or to the levels above them where there is
/// none.
pub open spec fn open_batch(s: BuildState) -> BuildState {
    if s.built < work(s).len() {
        BuildState { phase: Phase::Building, ..s }
    } else {
        open_level(s)
    }
}

/// Notes that a level is built.
pub open spec fn close_level(s: BuildState) -> BuildState {
    open_level(
        BuildState {
            level: s.level + 1,
            parents: s.parents + task_parents(schedule(s.roots)[s.level as int]),
            ..s
        },
    )
}

/// The beginning.
pub open spec fn begun(
    chunks: Seq<PlannedChunk>,
    memory_budget: u64,
    mem_per_point: u32,
) -> BuildState {
    open_batch(
        BuildState {
            chunks,
            memory_budget,
            mem_per_point,
            phase: Phase::Building,
            built: 0,
            chunk_keys: Seq::empty(),
            roots: Seq::empty(),
            level: 0,
            merges: Seq::empty(),
            merged: 0,
            parents: Seq::empty(),
        },
    )
}

/// The keys of several chunks, one chunk behind another.
pub open spec fn all_keys(nodes: Seq<Seq<VoxelKey>>) -> Seq<VoxelKey>
    decreases nodes.len(),
{
    if nodes.len() == 0 {
        Seq::empty()
    } else {
        all_keys(nodes.drop_last()) + nodes.last()
    }
}

/// The chunk roots among the keys of the chunks of a batch.
pub open spec fn batch_roots(
    chunks: Seq<PlannedChunk>,
    batch: Seq<usize>,
    nodes: Seq<Seq<VoxelKey>>,
) -> Seq<VoxelKey>
    decreases nodes.len(),
{
    if nodes.len() == 0 {
        Seq::empty()
    } else {
        batch_roots(chunks, batch, nodes.drop_last()) + at_level(
            nodes.last(),
            chunks[batch[nodes.len() - 1] as int].level as int,
        )
    }
}

/// After a batch of chunks was built, where `nodes` are the keys of the nodes of
/// each.
pub open spec fn after_chunks(s: BuildState, nodes: Seq<Seq<VoxelKey>>) -> BuildState {
    open_batch(
        BuildState {
            built: s.built + 1,
            chunk_keys: s.chunk_keys + all_keys(nodes),
            roots: s.roots + batch_roots(s.chunks, work(s)[s.built as int], nodes),
            ..s
        },
    )
}

/// After the children of a level were counted, where `merges` are the batches of
/// the level's tasks.
pub open spec fn after_counts(s: BuildState, merges: Seq<Seq<usize>>) -> BuildState {
    if merges.len() > 0 {
        BuildState { phase: Phase::Merging, merges, merged: 0, ..s }
    } else {
        close_level(s)
    }
}

/// After a batch of tasks was run.
pub open spec fn after_merge(s: BuildState) -> BuildState {
    if s.merged + 1 < s.merges.len() {
        BuildState { merged: s.merged + 1, ..s }
    } else {
        close_level(s)
    }
}

/// What holds at any time: there is a next batch, level or batch of tasks where
/// the phase needs one, and the levels that are built have got all their nodes.
pub open spec fn state_ok(s: BuildState) -> bool {
    &&& s.built <= work(s).len()
    &&& s.phase == Phase::Building <==> s.built < work(s).len()
    &&& forall|i: int| 0 <= i < s.chunks.len() ==> (#[trigger] s.chunks[i]).level < i32::MAX
    &&& forall|i: int| 0 <= i < s.roots.len() ==> 0 <= (#[trigger] s.roots[i]).level < i32::MAX
    &&& s.phase == Phase::Building ==> {
        &&& s.level == 0
        &&& s.parents.len() == 0
        &&& s.merges.len() == 0
        &&& s.merged == 0
    }
    &&& s.phase != Phase::Building ==> {
        &&& s.level <= schedule(s.roots).len()
        &&& s.phase == Phase::Listing <==> s.level == schedule(s.roots).len()
        &&& s.parents == merge_parents(schedule(s.roots).take(s.level as int))
    }
    &&& s.phase == Phase::Merging ==> s.merged < s.merges.len()
}

/// The views of the keys of several chunks.
pub open spec fn key_lists(v: Seq<Vec<VoxelKey>>) -> Seq<Seq<VoxelKey>> {
    v.map_values(|k: Vec<VoxelKey>| k@)
}

fn append_keys(out: &mut Vec<VoxelKey>, keys: &Vec<VoxelKey>)
    ensures
        final(out)@ == old(out)@ + keys@,
{
    let ghost before = out@;
    let mut i: usize = 0;
    while i < keys.len()
        invariant
            i <= keys@.len(),
            out@ =~= before + keys@.take(i as int),
        decreases keys@.len() - i,
    {
        out.push(keys[i]);
        i = i + 1;
    }
    assert(keys@.take(i as int) =~= keys@);
}

impl TreeBuild {
    pub closed spec fn state(self) -> BuildState {
        BuildState {
            chunks: self.chunks@,
            memory_budget: self.memory_budget,
            mem_per_point: self.mem_per_point,
            phase: self.phase,
            built: self.built as nat,
            chunk_keys: self.chunk_keys@,
            roots: self.roots@,
            level: self.level as nat,
            merges: batch_views(self.merges@),
            merged: self.merged as nat,
            parents: self.parents@,
        }
    }

    /// The batches and levels at hand are those of the state.
    pub closed spec fn planned(self) -> bool {
        &&& batch_views(self.batches@) == work(self.state())
        &&& self.phase != Phase::Building ==> schedule_views(self.levels@) == schedule(self.roots@)
    }

    pub open spec fn wf(self) -> bool {
        self.planned() && state_ok(self.state())
    }

    /// Plans the building of an octree from its chunks.
    pub fn new(chunks: Vec<PlannedChunk>, memory_budget: u64, mem_per_point: u32) -> (b: TreeBuild)
        requires
            forall|i: int| 0 <= i < chunks@.len() ==> (#[trigger] chunks@[i]).level < i32::MAX,
        ensures
            b.wf(),
            b.state() == begun(chunks@, memory_budget, mem_per_point),
    {
        let batches = chunk_batches(&chunks, memory_budget);
        let mut b = TreeBuild {
            chunks,
            memory_budget,
            mem_per_point,
            phase: Phase::Building,
            batches,
            built: 0,
            chunk_keys: Vec::new(),
            roots: Vec::new(),
            levels: Vec::new(),
            level: 0,
            merges: Vec::new(),
            merged: 0,
            parents: Vec::new(),
        };
        assert(b.state().merges =~= Seq::<Seq<usize>>::empty());
        b.go_on();
        b
    }

    /// Goes to the next batch of chunks, or to the levels above them.
    fn go_on(&mut self)
        requires
            old(self).phase == Phase::Building,
            old(self).built <= old(self).batches@.len(),
            batch_views(old(self).batches@) == work(old(self).state()),
            old(self).level == 0,
            old(self).parents@.len() == 0,
            old(self).state().merges == Seq::<Seq<usize>>::empty(),
            old(self).merged == 0,
            forall|i: int|
                0 <= i < old(self).chunks@.len() ==> (#[trigger] old(self).chunks@[i]).level
                    < i32::MAX,
            forall|i: int|
                0 <= i < old(self).roots@.len() ==> 0 <= (#[trigger] old(self).roots@[i]).level
                    < i32::MAX,
        ensures
            final(self).wf(),
            final(self).state() == open_batch(old(self).state()),
    {
        assert(work(self.state()).len() == self.batches@.len());
        if self.built == self.batches.len() {
            self.levels = merge_schedule(&self.roots);
            let ghost levels = schedule(self.roots@);
            assert(schedule_views(self.levels@).len() == levels.len());
            if self.levels.len() > 0 {
                self.phase = Phase::Counting;
            } else {
                self.phase = Phase::Listing;
            }
            proof {
                assert(levels.take(0) =~= Seq::<Seq<TaskView>>::empty());
                assert(merge_parents(levels.take(0)) =~= Seq::<VoxelKey>::empty());
                assert(self.parents@ =~= Seq::<VoxelKey>::empty());
            }
        }
    }

    /// What has to be done next. The nodes to count in the end are those of the
    /// chunks and of the levels above them, each once, in ascending order.
    pub fn action(&self) -> (a: BuildAction)
        requires
            self.wf(),
        ensures
            match a {
                BuildAction::BuildChunks { chunks } => {
                    &&& self.state().phase == Phase::Building
                    &&& chunks@ == work(self.state())[self.state().built as int]
                },
                BuildAction::CountChildren => self.state().phase == Phase::Counting,
                BuildAction::MergeTasks { tasks } => {
                    &&& self.state().phase == Phase::Merging
                    &&& tasks@ == self.state().merges[self.state().merged as int]
                },
                BuildAction::CountNodes { keys } => {
                    &&& self.state().phase == Phase::Listing
                    &&& keys_ascend(keys@)
                    &&& forall|k: VoxelKey| #[trigger]
                        keys@.contains(k) <==> (self.state().chunk_keys
                            + self.state().parents).contains(k)
                },
            },
    {
        match self.phase {
            Phase::Building => {
                let chunks = self.batches[self.built].clone();
                assert(work(self.state())[self.built as int] == self.batches@[self.built as int]@);
                assert(chunks@ =~= self.batches@[self.built as int]@);
                BuildAction::BuildChunks { chunks }
            },
            Phase::Counting => BuildAction::CountChildren,
            Phase::Merging => {
                let tasks = self.merges[self.merged].clone();
                assert(tasks@ =~= self.merges@[self.merged as int]@);
                BuildAction::MergeTasks { tasks }
            },
            Phase::Listing => {
                let mut all: Vec<VoxelKey> = Vec::new();
                append_keys(&mut all, &self.chunk_keys);
                append_keys(&mut all, &self.parents);
                assert(all@ =~= self.chunk_keys@ + self.parents@);
                BuildAction::CountNodes { keys: unique_keys(&all) }
            },
        }
    }

    /// The tasks of the level that is being built.
    pub fn tasks(&self) -> (tasks: &Vec<MergeTask>)
        requires
            self.wf(),
            self.state().phase == Phase::Counting || self.state().phase == Phase::Merging,
        ensures
            task_views(tasks@) == schedule(self.state().roots)[self.state().level as int],
    {
        assert(schedule_views(self.levels@).len() == self.levels@.len());
        assert(schedule_views(self.levels@)[self.level as int] == task_views(
            self.levels@[self.level as int]@,
        ));
        &self.levels[self.level]
    }

    /// Takes note that the chunks of the batch were built. `nodes` holds the keys
    /// of the nodes of each, in the order of the batch.
    pub fn chunks_built(&mut self, nodes: &Vec<Vec<VoxelKey>>)
        requires
            old(self).wf(),
            old(self).state().phase == Phase::Building,
            nodes@.len() == work(old(self).state())[old(self).state().built as int].len(),
        ensures
            final(self).wf(),
            final(self).state() == after_chunks(old(self).state(), key_lists(nodes@)),
    {
        let ghost before = self.state();
        let ghost batch = work(before)[before.built as int];
        let ghost lists = key_lists(nodes@);
        proof {
            assert(batch == self.batches@[self.built as int]@);
            assert(self.chunks.len() <= usize::MAX);
            lemma_batch_in_range(self.chunks@, self.memory_budget, self.built as int);
        }
        let mut i: usize = 0;
        assert(lists.take(0) =~= Seq::<Seq<VoxelKey>>::empty());
        while i < nodes.len()
            invariant
                i <= nodes@.len(),
                lists == key_lists(nodes@),
                nodes@.len() == batch.len(),
                self.built < self.batches@.len(),
                batch == self.batches@[self.built as int]@,
                forall|j: int| 0 <= j < batch.len() ==> #[trigger] batch[j] < self.chunks@.len(),
                before.phase == Phase::Building,
                state_ok(before),
                batch_views(self.batches@) == work(before),
                self.state() == (BuildState {
                    chunk_keys: before.chunk_keys + all_keys(lists.take(i as int)),
                    roots: before.roots + batch_roots(before.chunks, batch, lists.take(i as int)),
                    ..before
                }),
                forall|j: int|
                    0 <= j < self.roots@.len() ==> 0 <= (#[trigger] self.roots@[j]).level
                        < i32::MAX,
            decreases nodes@.len() - i,
        {
            let ghost keys_before = self.chunk_keys@;
            let ghost roots_before = self.roots@;
            let c: usize = self.batches[self.built][i];
            assert(batch[i as int] == c);
            let level: i32 = self.chunks[c].level as i32;
            append_keys(&mut self.chunk_keys, &nodes[i]);
            let own = select_level(&nodes[i], level);
            append_keys(&mut self.roots, &own);
            proof {
                let now = lists.take(i + 1);
                assert(now.drop_last() =~= lists.take(i as int));
                assert(now.last() == nodes@[i as int]@);
                assert(self.chunk_keys@ =~= before.chunk_keys + all_keys(now));
                assert(self.roots@ =~= before.roots + batch_roots(before.chunks, batch, now));
                lemma_at_level(nodes@[i as int]@, level as int);
                assert forall|j: int| 0 <= j < self.roots@.len() implies 0 <= (
                #[trigger] self.roots@[j]).level < i32::MAX by {
                    if j < roots_before.len() {
                        assert(self.roots@[j] == roots_before[j]);
                    } else {
                        assert(self.roots@[j] == own@[j - roots_before.len()]);
                        assert(own@.contains(self.roots@[j]));
                    }
                }
            }
            i = i + 1;
        }
        assert(lists.take(i as int) =~= lists);
        assert(self.batches.len() <= usize::MAX);
        self.built = self.built + 1;
        assert(self.state().merges =~= Seq::<Seq<usize>>::empty());
        self.go_on();
    }

    /// Notes that the level is built.
    fn finish_level(&mut self)
        requires
            old(self).wf(),
            old(self).phase == Phase::Counting || old(self).phase == Phase::Merging,
        ensures
            final(self).wf(),
            final(self).state() == close_level(old(self).state()),
    {
        let ghost before = self.state();
        let ghost levels = schedule(self.roots@);
        let ghost here = levels[self.level as int];
        let mut i: usize = 0;
        proof {
            assert(schedule_views(self.levels@).len() == self.levels@.len());
            assert(here == task_views(self.levels@[self.level as int]@));
            assert(before.parents + task_parents(here).take(0) =~= before.parents);
        }
        while i < self.levels[self.level].len()
            invariant
                self.level < self.levels@.len(),
                here == task_views(self.levels@[self.level as int]@),
                i <= here.len(),
                self.planned(),
                self.phase == before.phase,
                self.state() == (BuildState {
                    parents: before.parents + task_parents(here).take(i as int),
                    ..before
                }),
            decreases here.len() - i,
        {
            let parent = self.levels[self.level][i].parent;
            self.parents.push(parent);
            proof {
                assert(task_parents(here)[i as int] == parent);
                assert(self.parents@ =~= before.parents + task_parents(here).take(i + 1));
            }
            i = i + 1;
        }
        assert(task_parents(here).take(i as int) =~= task_parents(here));
        assert(self.levels.len() <= usize::MAX);
        self.level = self.level + 1;
        self.merges = Vec::new();
        self.merged = 0;
        if self.level < self.levels.len() {
            self.phase = Phase::Counting;
        } else {
            self.phase = Phase::Listing;
        }
        proof {
            assert(self.state().merges =~= Seq::<Seq<usize>>::empty());
            let now = levels.take(self.level as int);
            assert(now.drop_last() =~= levels.take(before.level as int));
            assert(now.last() == here);
            assert(self.parents@ =~= merge_parents(now));
        }
    }

    /// Takes note of the point counts of the children of every task of the
    /// level. Fails where the children of a task do not fit the memory budget.
    pub fn children_counted(&mut self, counts: &Vec<Vec<u64>>) -> (r: Result<(), MergeOverBudget>)
        requires
            old(self).wf(),
            old(self).state().phase == Phase::Counting,
            counts@.len() == schedule(old(self).state().roots)[old(self).state().level as int].len(),
            counts_ok(counts@),
        ensures
            final(self).wf(),
            ({
                let s = old(self).state();
                let sizes = task_sizes(counts@, s.mem_per_point);
                let tasks = schedule(s.roots)[s.level as int];
                match r {
                    Ok(_) => {
                        &&& final(self).state() == after_counts(s, batches(sizes, s.memory_budget))
                        &&& forall|i: int|
                            0 <= i < sizes.len() ==> #[trigger] sizes[i] <= s.memory_budget
                    },
                    Err(e) => {
                        &&& final(self).state() == s
                        &&& exists|i: int|
                            {
                                &&& 0 <= i < sizes.len()
                                &&& #[trigger] sizes[i] > s.memory_budget
                                &&& forall|j: int|
                                    0 <= j < i ==> #[trigger] sizes[j] <= s.memory_budget
                                &&& e.parent == tasks[i].0
                                &&& e.children == tasks[i].1.len()
                                &&& e.est_mem == sizes[i]
                                &&& e.memory_budget == s.memory_budget
                            }
                    },
                }
            }),
    {
        let ghost before = self.state();
        let ghost sizes = task_sizes(counts@, self.mem_per_point);
        proof {
            assert(schedule_views(self.levels@).len() == self.levels@.len());
            assert(schedule_views(self.levels@)[self.level as int] == task_views(
                self.levels@[self.level as int]@,
            ));
        }
        let plan = plan_merge_level(
            &self.levels[self.level],
            counts,
            self.mem_per_point,
            self.memory_budget,
        );
        match plan {
            Err(e) => Err(e),
            Ok(merges) => {
                let ghost views = batch_views(merges@);
                assert(views.len() == merges@.len());
                assert forall|i: int| 0 <= i < sizes.len() implies #[trigger] sizes[i]
                    <= before.memory_budget by {
                    assert(0 <= i < counts@.len());
                }
                if merges.len() > 0 {
                    self.merges = merges;
                    self.merged = 0;
                    self.phase = Phase::Merging;
                } else {
                    self.finish_level();
                }
                Ok(())
            },
        }
    }

    /// Takes note that a batch of tasks was run.
    pub fn tasks_merged(&mut self)
        requires
            old(self).wf(),
            old(self).state().phase == Phase::Merging,
        ensures
            final(self).wf(),
            final(self).state() == after_merge(old(self).state()),
    {
        assert(self.state().merges.len() == self.merges@.len());
        assert(self.merges.len() <= usize::MAX);
        if self.merged + 1 < self.merges.len() {
            self.merged = self.merged + 1;
        } else {
            self.finish_level();
        }
    }
}

proof fn lemma_in_joined(b: Seq<Seq<usize>>, i: int, j: int)
    requires
        0 <= i < b.len(),
        0 <= j < b[i].len(),
    ensures
        joined(b).contains(b[i][j]),
    decreases b.len(),
{
    let all = joined(b);
    if i == 0 {
        assert(all[j] == b[0][j]);
    } else {
        let rest = joined(b.drop_first());
        assert(b.drop_first()[i - 1] == b[i]);
        lemma_in_joined(b.drop_first(), i - 1, j);
        let k = choose|k: int| 0 <= k < rest.len() && rest[k] == b[i][j];
        assert(all[b[0].len() + k] == b[i][j]);
    }
}

/// The batches hold numbers of chunks.
proof fn lemma_batch_in_range(chunks: Seq<PlannedChunk>, memory_budget: u64, i: int)
    requires
        chunks.len() <= usize::MAX,
        0 <= i < batches(build_sizes(chunks), memory_budget).len(),
    ensures
        forall|j: int|
            0 <= j < batches(build_sizes(chunks), memory_budget)[i].len()
                ==> #[trigger] batches(build_sizes(chunks), memory_budget)[i][j] < chunks.len(),
{
    let b = batches(build_sizes(chunks), memory_budget);
    law_batches(build_sizes(chunks), memory_budget);
    assert forall|j: int| 0 <= j < b[i].len() implies #[trigger] b[i][j] < chunks.len() by {
        lemma_in_joined(b, i, j);
    }
}

/// Every chunk is built exactly once.
pub proof fn law_every_chunk_built_once(chunks: Seq<PlannedChunk>, memory_budget: u64)
    requires
        chunks.len() <= usize::MAX,
    ensures
        is_permutation(joined(batches(build_sizes(chunks), memory_budget)), chunks.len()),
{
    law_batches(build_sizes(chunks), memory_budget);
}

/// When the nodes are listed, the levels above the chunks have got all nodes that
/// the merge of the chunk roots makes.
pub proof fn law_listing_is_complete(s: BuildState)
    requires
        state_ok(s),
        s.phase == Phase::Listing,
    ensures
        s.built == work(s).len(),
        s.parents == merge_parents(schedule(s.roots)),
{
    assert(schedule(s.roots).take(s.level as int) =~= schedule(s.roots));
}

/// What is left to do: batches of chunks, levels, counting for the level, and
/// batches of tasks of the level.
pub open spec fn left(s: BuildState) -> (int, int, int, int) {
    (
        work(s).len() - s.built,
        schedule(s.roots).len() - s.level,
        if s.phase == Phase::Counting {
            1
        } else {
            0
        },
        s.merges.len() - s.merged,
    )
}

/// Whether less is left, and nothing below zero.
pub open spec fn less_left(a: (int, int, int, int), b: (int, int, int, int)) -> bool {
    &&& a.0 >= 0
    &&& a.0 < b.0 || (a.0 == b.0 && a.1 >= 0 && (a.1 < b.1 || (a.1 == b.1 && a.2 >= 0 && (a.2 < b.2
        || (a.2 == b.2 && 0 <= a.3 < b.3)))))
}

/// Every step leaves less to do, until the nodes are listed.
pub proof fn law_build_advances(s: BuildState, nodes: Seq<Seq<VoxelKey>>, merges: Seq<Seq<usize>>)
    requires
        state_ok(s),
    ensures
        s.phase == Phase::Building ==> less_left(left(after_chunks(s, nodes)), left(s)),
        s.phase == Phase::Counting ==> less_left(left(after_counts(s, merges)), left(s)),
        s.phase == Phase::Merging ==> less_left(left(after_merge(s)), left(s)),
{
}

/// The keys that are reported for the chunks in `more` are those of their nodes.
pub open spec fn reported(
    grid_of: spec_fn(VoxelKey) -> VoxelGrid,
    more: Seq<ChunkData>,
) -> Seq<Seq<VoxelKey>> {
    more.map_values(|d: ChunkData| keys_of(nodes_of(grid_of, d)))
}

proof fn lemma_reported(
    grid_of: spec_fn(VoxelKey) -> VoxelGrid,
    chunks: Seq<PlannedChunk>,
    batch: Seq<usize>,
    done: Seq<ChunkData>,
    more: Seq<ChunkData>,
)
    requires
        more.len() <= batch.len(),
        forall|i: int|
            0 <= i < more.len() ==> (#[trigger] more[i]).0 == chunks[batch[i] as int],
    ensures
        keys_of(built_nodes(grid_of, done + more)) == keys_of(built_nodes(grid_of, done))
            + all_keys(reported(grid_of, more)),
        root_keys(grid_of, done + more) == root_keys(grid_of, done) + batch_roots(
            chunks,
            batch,
            reported(grid_of, more),
        ),
    decreases more.len(),
{
    let told = reported(grid_of, more);
    if more.len() == 0 {
        assert(done + more =~= done);
        assert(keys_of(built_nodes(grid_of, done)) + all_keys(told) =~= keys_of(
            built_nodes(grid_of, done),
        ));
        assert(root_keys(grid_of, done) + batch_roots(chunks, batch, told) =~= root_keys(
            grid_of,
            done,
        ));
    } else {
        let init = more.drop_last();
        let last = more.last();
        assert forall|i: int| 0 <= i < init.len() implies (#[trigger] init[i]).0
            == chunks[batch[i] as int] by {
            assert(more[i] == init[i]);
        }
        lemma_reported(grid_of, chunks, batch, done, init);
        assert((done + more).drop_last() =~= done + init);
        assert(told.drop_last() =~= reported(grid_of, init));
        assert(told.last() == keys_of(nodes_of(grid_of, last)));
        assert(more[more.len() - 1].0 == chunks[batch[more.len() - 1] as int]);
        assert(keys_of(built_nodes(grid_of, done + more)) =~= keys_of(
            built_nodes(grid_of, done + init),
        ) + told.last());
        assert(keys_of(built_nodes(grid_of, done + more)) =~= keys_of(built_nodes(grid_of, done))
            + all_keys(told));
        assert(root_keys(grid_of, done + more) =~= root_keys(grid_of, done) + batch_roots(
            chunks,
            batch,
            told,
        ));
    }
}

/// As long as the keys that are reported for a chunk are those of its nodes, the
/// keys and the chunk roots that are kept are those of all chunks built so far.
pub proof fn law_keys_are_tracked(
    grid_of: spec_fn(VoxelKey) -> VoxelGrid,
    s: BuildState,
    done: Seq<ChunkData>,
    more: Seq<ChunkData>,
)
    requires
        state_ok(s),
        s.phase == Phase::Building,
        s.chunk_keys == keys_of(built_nodes(grid_of, done)),
        s.roots == root_keys(grid_of, done),
        more.len() == work(s)[s.built as int].len(),
        forall|i: int|
            0 <= i < more.len() ==> (#[trigger] more[i]).0
                == s.chunks[work(s)[s.built as int][i] as int],
    ensures
        ({
            let next = after_chunks(s, reported(grid_of, more));
            &&& next.chunk_keys == keys_of(built_nodes(grid_of, done + more))
            &&& next.roots == root_keys(grid_of, done + more)
        }),
{
    lemma_reported(grid_of, s.chunks, work(s)[s.built as int], done, more);
}

} // verus!
