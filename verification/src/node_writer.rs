//! Writing the nodes batch by batch: which nodes come next, and what the rest of
//! the file has to know of those that are written.

use crate::batches::{batch_views, batches_from, joined, lemma_batches_from};
use crate::config::{
    events_of, lemma_told, told, PipelineConfig, ProgressEvent, ProgressObserver, TempCompression,
};
use crate::encode::{
    earliest, encodes, latest, lemma_returns_of_concat, lemma_times_of_concat, returns_of,
    samples_for, EncodedNode, Totals,
};
use crate::error::{Error, ErrorView};
use crate::fbits::{num_max, num_min, MAX_BITS, MIN_BITS};
use crate::hierarchy::all_indices;
use crate::node_map::Counted;
use crate::point::PointView;
use crate::temp::{all_points, law_joined_files_hold_both};
use crate::temporal::{entry_views, EntryView, TemporalIndexEntry};
use crate::writer::{node_sizes, write_batches, TemporalIndex};
use vstd::prelude::*;

verus! {

/// The writing of the nodes that hold points.
#[derive(Debug)]
pub struct NodeWriter {
    data: Vec<Counted>,
    stride: Option<u32>,
    batches: Vec<Vec<usize>>,
    next: usize,
    done: usize,
    totals: Totals,
    entries: Vec<TemporalIndexEntry>,
}

/// How far the writing has come.
pub struct WriteState {
    /// The nodes that hold points, in the order in which they are written.
    pub data: Seq<Counted>,
    /// The stride of the temporal index, where there is one.
    pub stride: Option<u32>,
    pub batches: Seq<Seq<usize>>,
    /// How many batches are written.
    pub next: int,
    /// How many nodes are written.
    pub done: int,
    /// How many points that are written have each of the return numbers from 1
    /// to 15.
    pub returns: Seq<u64>,
    /// The time range of the points that are written.
    pub gps_min: u64,
    pub gps_max: u64,
    /// The entries of the temporal index for the nodes that are written.
    pub entries: Seq<EntryView>,
}

/// What holds at any time: the batches that are left hold the nodes that are
/// left, in order, and there is an entry of the temporal index for every node
/// that is written, where there is an index.
pub open spec fn write_ok(s: WriteState) -> bool {
    &&& 0 <= s.next <= s.batches.len()
    &&& 0 <= s.done <= s.data.len() <= usize::MAX
    &&& joined(s.batches.skip(s.next)) == all_indices(s.data.len()).skip(s.done)
    &&& forall|i: int| 0 <= i < s.batches.len() ==> (#[trigger] s.batches[i]).len() > 0
    &&& s.returns.len() == 15
    &&& s.stride is Some ==> s.entries.len() == s.done
    &&& s.stride is None ==> s.entries.len() == 0
    &&& forall|i: int| 0 <= i < s.entries.len() ==> (#[trigger] s.entries[i]).0 == s.data[i].0
}

/// The beginning: nothing is written, and the nodes are split into batches that
/// fit the memory budget.
pub open spec fn begun_writing(
    data: Seq<Counted>,
    fmt: u8,
    num_extra_bytes: u16,
    memory_budget: u64,
    stride: Option<u32>,
) -> WriteState {
    WriteState {
        data,
        stride,
        batches: batches_from(
            node_sizes(data, fmt, num_extra_bytes),
            all_indices(data.len()),
            0,
            memory_budget,
        ),
        next: 0,
        done: 0,
        returns: Seq::new(15, |r: int| 0u64),
        gps_min: MAX_BITS,
        gps_max: MIN_BITS,
        entries: Seq::empty(),
    }
}

/// The nodes of the next batch, if there is one.
pub open spec fn batch_nodes(s: WriteState) -> Seq<Counted> {
    if s.next < s.batches.len() {
        s.data.subrange(s.done, s.done + s.batches[s.next].len())
    } else {
        Seq::empty()
    }
}

/// How many points of the first `n` nodes have return number `r + 1`.
pub open spec fn returns_sum(es: Seq<EncodedNode>, n: nat, r: int) -> nat
    decreases n,
{
    if n == 0 {
        0
    } else {
        returns_sum(es, (n - 1) as nat, r) + es[n - 1].return_counts@[r] as nat
    }
}

/// The earliest time of the first `n` nodes, or `start` if that is earlier.
pub open spec fn earliest_of(es: Seq<EncodedNode>, n: nat, start: u64) -> u64
    decreases n,
{
    if n == 0 {
        start
    } else {
        num_min(earliest_of(es, (n - 1) as nat, start), es[n - 1].gps_min)
    }
}

/// The latest time of the first `n` nodes, or `start` if that is later.
pub open spec fn latest_of(es: Seq<EncodedNode>, n: nat, start: u64) -> u64
    decreases n,
{
    if n == 0 {
        start
    } else {
        num_max(latest_of(es, (n - 1) as nat, start), es[n - 1].gps_max)
    }
}

/// The entries of the temporal index for nodes and their samples.
pub open spec fn index_entries(nodes: Seq<Counted>, es: Seq<EncodedNode>) -> Seq<EntryView> {
    Seq::new(es.len(), |i: int| (nodes[i].0, es[i].samples@))
}

/// 64 bits can count the points of each return number once the nodes are added.
pub open spec fn counts_fit(s: WriteState, es: Seq<EncodedNode>) -> bool {
    forall|r: int|
        0 <= r < 15 ==> #[trigger] s.returns[r] + returns_sum(es, es.len(), r) <= u64::MAX
}

/// There is one encoded node for each node of the next batch, and the points can
/// be counted.
pub open spec fn fits_batch(s: WriteState, es: Seq<EncodedNode>) -> bool {
    &&& es.len() == batch_nodes(s).len()
    &&& counts_fit(s, es)
}

proof fn lemma_returns_sum_prefix(es: Seq<EncodedNode>, m: nat, n: nat, r: int)
    requires
        m <= n,
    ensures
        returns_sum(es, m, r) <= returns_sum(es, n, r),
    decreases n,
{
    if m < n {
        lemma_returns_sum_prefix(es, m, (n - 1) as nat, r);
    }
}

/// The state `z` is `a` after the encoded nodes `es` of the next batch were added.
pub open spec fn batch_added(a: WriteState, es: Seq<EncodedNode>, z: WriteState) -> bool {
    &&& z.data == a.data
    &&& z.stride == a.stride
    &&& z.batches == a.batches
    &&& z.next == a.next + 1
    &&& z.done == a.done + es.len()
    &&& forall|r: int|
        0 <= r < 15 ==> #[trigger] z.returns[r] == a.returns[r] + returns_sum(es, es.len(), r)
    &&& z.gps_min == earliest_of(es, es.len(), a.gps_min)
    &&& z.gps_max == latest_of(es, es.len(), a.gps_max)
    &&& z.entries == (if a.stride is Some {
        a.entries + index_entries(batch_nodes(a), es)
    } else {
        a.entries
    })
}

/// The chunks are the bytes of the encoded nodes.
pub open spec fn holds_chunks(chunks: Seq<Vec<u8>>, es: Seq<EncodedNode>) -> bool {
    &&& chunks.len() == es.len()
    &&& forall|i: int| 0 <= i < es.len() ==> (#[trigger] chunks[i])@ == es[i].bytes@
}

/// The nodes of the next batch are those with the numbers in it.
proof fn lemma_next_batch(s: WriteState)
    requires
        write_ok(s),
        s.next < s.batches.len(),
    ensures
        s.done + s.batches[s.next].len() <= s.data.len(),
        forall|i: int|
            0 <= i < s.batches[s.next].len() ==> #[trigger] s.batches[s.next][i]
                == s.done + i,
        joined(s.batches.skip(s.next + 1)) == all_indices(s.data.len()).skip(
            s.done + s.batches[s.next].len(),
        ),
{
    let left = s.batches.skip(s.next);
    let b = s.batches[s.next];
    let all = all_indices(s.data.len());
    let rest = joined(left.drop_first());
    assert(left[0] == b);
    assert(left.drop_first() =~= s.batches.skip(s.next + 1));
    assert(b + rest == all.skip(s.done));
    assert((b + rest).len() == all.len() - s.done);
    assert forall|i: int| 0 <= i < b.len() implies #[trigger] b[i] == s.done + i by {
        assert((b + rest)[i] == all[s.done + i]);
    }
    assert(rest =~= all.skip(s.done + b.len())) by {
        assert forall|i: int| 0 <= i < rest.len() implies rest[i] == all.skip(
            s.done + b.len(),
        )[i] by {
            assert((b + rest)[b.len() + i] == rest[i]);
        }
    }
}

impl NodeWriter {
    pub closed spec fn state(self) -> WriteState {
        WriteState {
            data: self.data@,
            stride: self.stride,
            batches: batch_views(self.batches@),
            next: self.next as int,
            done: self.done as int,
            returns: self.totals.return_counts@,
            gps_min: self.totals.gps_min,
            gps_max: self.totals.gps_max,
            entries: entry_views(self.entries@),
        }
    }

    pub open spec fn wf(self) -> bool {
        write_ok(self.state())
    }

    /// Plans the writing of the nodes that hold points, in their order, in
    /// batches that fit the memory budget.
    pub fn new(
        data: Vec<Counted>,
        fmt: u8,
        num_extra_bytes: u16,
        memory_budget: u64,
        stride: Option<u32>,
    ) -> (w: NodeWriter)
        ensures
            w.wf(),
            w.state() == begun_writing(data@, fmt, num_extra_bytes, memory_budget, stride),
    {
        let batches = write_batches(&data, fmt, num_extra_bytes, memory_budget);
        let w = NodeWriter {
            data,
            stride,
            batches,
            next: 0,
            done: 0,
            totals: Totals::new(),
            entries: Vec::new(),
        };
        proof {
            assert(w.data.len() <= usize::MAX);
            let order = all_indices(w.data@.len());
            lemma_batches_from(
                node_sizes(w.data@, fmt, num_extra_bytes),
                order,
                0,
                memory_budget,
            );
            let s = w.state();
            assert(s.batches.skip(0) =~= s.batches);
            assert(order.subrange(0, order.len() as int) =~= order.skip(0));
            assert(s.entries =~= Seq::<EntryView>::empty());
            assert(s.returns =~= Seq::new(15, |r: int| 0u64));
            assert forall|i: int| 0 <= i < s.batches.len() implies (#[trigger] s.batches[i]).len()
                > 0 by {}
        }
        w
    }

    /// The nodes to encode next; none when all are written.
    pub fn batch(&self) -> (nodes: Vec<Counted>)
        requires
            self.wf(),
        ensures
            nodes@ == batch_nodes(self.state()),
            nodes@.len() == 0 <==> self.state().next == self.state().batches.len(),
    {
        let mut nodes: Vec<Counted> = Vec::new();
        if self.next < self.batches.len() {
            let ghost s = self.state();
            let ghost b = s.batches[s.next];
            proof {
                lemma_next_batch(s);
                assert(b == self.batches@[self.next as int]@);
            }
            let mut i: usize = 0;
            while i < self.batches[self.next].len()
                invariant
                    i <= b.len(),
                    s == self.state(),
                    self.next < self.batches@.len(),
                    b == self.batches@[self.next as int]@,
                    s.done + b.len() <= s.data.len(),
                    forall|k: int| 0 <= k < b.len() ==> #[trigger] b[k] == s.done + k,
                    nodes@ =~= s.data.subrange(s.done, s.done + i),
                decreases b.len() - i,
            {
                let m: usize = self.batches[self.next][i];
                assert(b[i as int] == m);
                nodes.push(self.data[m]);
                i = i + 1;
            }
        }
        nodes
    }

    /// How many nodes are written.
    pub fn written(&self) -> (n: usize)
        ensures
            n == self.state().done,
    {
        self.done
    }

    /// Whether the points can be counted once the nodes are added.
    pub fn can_count(&self, encoded: &Vec<EncodedNode>) -> (b: bool)
        requires
            self.wf(),
        ensures
            b == counts_fit(self.state(), encoded@),
    {
        let ghost s = self.state();
        let ghost es = encoded@;
        let mut r: usize = 0;
        while r < 15
            invariant
                r <= 15,
                s == self.state(),
                es == encoded@,
                s.returns.len() == 15,
                forall|q: int|
                    0 <= q < r ==> #[trigger] s.returns[q] + returns_sum(es, es.len(), q)
                        <= u64::MAX,
            decreases 15 - r,
        {
            let mut sum: u64 = self.totals.return_counts[r];
            let mut i: usize = 0;
            while i < encoded.len()
                invariant
                    r < 15,
                    i <= es.len(),
                    s == self.state(),
                    es == encoded@,
                    s.returns.len() == 15,
                    sum == s.returns[r as int] + returns_sum(es, i as nat, r as int),
                decreases es.len() - i,
            {
                let n: u64 = encoded[i].return_counts[r];
                if n > u64::MAX - sum {
                    proof {
                        lemma_returns_sum_prefix(es, (i + 1) as nat, es.len(), r as int);
                        assert(s.returns[r as int] + returns_sum(es, es.len(), r as int)
                            > u64::MAX);
                    }
                    return false;
                }
                sum = sum + n;
                i = i + 1;
            }
            r = r + 1;
        }
        true
    }

    /// Takes note of the encoded nodes of the batch, and returns the bytes of
    /// their chunks.
    pub fn add(&mut self, encoded: Vec<EncodedNode>) -> (chunks: Vec<Vec<u8>>)
        requires
            old(self).wf(),
            old(self).state().next < old(self).state().batches.len(),
            fits_batch(old(self).state(), encoded@),
        ensures
            final(self).wf(),
            batch_added(old(self).state(), encoded@, final(self).state()),
            holds_chunks(chunks@, encoded@),
    {
        let ghost s = self.state();
        let ghost es = encoded@;
        let ghost nodes = batch_nodes(s);
        proof {
            lemma_next_batch(s);
        }
        let first: usize = self.done;
        let n: usize = encoded.len();
        let mut encoded = encoded;
        let mut chunks: Vec<Vec<u8>> = Vec::new();
        let mut i: usize = 0;
        assert(index_entries(nodes, es).take(0) =~= Seq::<EntryView>::empty());
        assert(s.entries + index_entries(nodes, es).take(0) =~= s.entries);
        while i < n
            invariant
                n == es.len() == encoded@.len() == nodes.len(),
                i <= n,
                first == s.done,
                write_ok(s),
                s.done + n <= s.data.len(),
                nodes == s.data.subrange(s.done, s.done + n),
                self.data@ == s.data,
                self.stride == s.stride,
                batch_views(self.batches@) == s.batches,
                self.next == s.next,
                self.done == s.done,
                forall|k: int| i <= k < n ==> #[trigger] encoded@[k] == es[k],
                counts_fit(s, es),
                forall|r: int|
                    0 <= r < 15 ==> #[trigger] self.totals.return_counts@[r] == s.returns[r]
                        + returns_sum(es, i as nat, r),
                self.totals.gps_min == earliest_of(es, i as nat, s.gps_min),
                self.totals.gps_max == latest_of(es, i as nat, s.gps_max),
                entry_views(self.entries@) == (if s.stride is Some {
                    s.entries + index_entries(nodes, es).take(i as int)
                } else {
                    s.entries
                }),
                chunks@.len() == i,
                forall|k: int| 0 <= k < i ==> (#[trigger] chunks@[k])@ == es[k].bytes@,
            decreases n - i,
        {
            let ghost before = self.totals.return_counts@;
            proof {
                assert forall|r: int| 0 <= r < 15 implies #[trigger] before[r]
                    + es[i as int].return_counts@[r] <= u64::MAX by {
                    lemma_returns_sum_prefix(es, (i + 1) as nat, n as nat, r);
                    assert(s.returns[r] + returns_sum(es, n as nat, r) <= u64::MAX);
                }
                assert(encoded@[i as int] == es[i as int]);
            }
            self.totals.add_node(&encoded[i]);
            if self.stride.is_some() {
                let mut samples: Vec<u64> = Vec::new();
                core::mem::swap(&mut encoded[i].samples, &mut samples);
                let entry = TemporalIndexEntry { key: self.data[first + i].0, samples };
                proof {
                    assert(entry@ == index_entries(nodes, es)[i as int]);
                    assert(entry_views(self.entries@.push(entry)) =~= entry_views(
                        self.entries@,
                    ).push(entry@));
                    assert(s.entries + index_entries(nodes, es).take(i + 1) =~= (s.entries
                        + index_entries(nodes, es).take(i as int)).push(entry@));
                }
                self.entries.push(entry);
            }
            let mut bytes: Vec<u8> = Vec::new();
            core::mem::swap(&mut encoded[i].bytes, &mut bytes);
            chunks.push(bytes);
            proof {
                assert forall|r: int| 0 <= r < 15 implies #[trigger] self.totals.return_counts@[r]
                    == s.returns[r] + returns_sum(es, (i + 1) as nat, r) by {
                    assert(self.totals.return_counts@[r] == before[r]
                        + es[i as int].return_counts@[r]);
                }
            }
            i = i + 1;
        }
        assert(index_entries(nodes, es).take(i as int) =~= index_entries(nodes, es));
        assert(self.batches.len() <= usize::MAX);
        self.next = self.next + 1;
        self.done = self.done + n;
        proof {
            let now = self.state();
            assert forall|k: int| 0 <= k < now.entries.len() implies (#[trigger] now.entries[k]).0
                == now.data[k].0 by {
                if k < s.entries.len() {
                    assert(now.entries[k] == s.entries[k]);
                } else {
                    assert(nodes[k - s.done] == s.data[k]);
                }
            }
        }
        chunks
    }

    /// What the rest of the file has to know of the nodes.
    pub fn finish(self) -> (r: (Totals, Option<TemporalIndex>))
        ensures
            r.0.return_counts@ == self.state().returns,
            r.0.gps_min == self.state().gps_min,
            r.0.gps_max == self.state().gps_max,
            match r.1 {
                Some(t) => self.state().stride == Some(t.stride) && entry_views(t.entries@)
                    == self.state().entries,
                None => self.state().stride is None,
            },
    {
        let NodeWriter { data: _, stride, batches: _, next: _, done: _, totals, entries } = self;
        match stride {
            Some(stride) => (totals, Some(TemporalIndex { stride, entries })),
            None => (totals, None),
        }
    }
}

/// When all batches are written, all nodes are.
pub proof fn law_all_nodes_written(s: WriteState)
    requires
        write_ok(s),
        s.next == s.batches.len(),
    ensures
        s.done == s.data.len(),
{
    assert(s.batches.skip(s.next) =~= Seq::<Seq<usize>>::empty());
    assert(joined(s.batches.skip(s.next)).len() == 0);
    assert(all_indices(s.data.len()).skip(s.done).len() == s.data.len() - s.done);
}

// Writing all batches.
/// One batch: the state before and behind it, its nodes, what they were encoded
/// to, and the chunks that were compressed.
pub struct Step {
    pub before: WriteState,
    pub after: WriteState,
    pub batch: Vec<Counted>,
    pub encoded: Vec<EncodedNode>,
    pub chunks: Vec<Vec<u8>>,
}

/// A batch was encoded by `encode`, added, and compressed by `compress`.
pub open spec fn step_ok<
    E: Fn(&Vec<Counted>) -> Result<Vec<EncodedNode>, Error>,
    C: Fn(Vec<Vec<u8>>) -> Result<(), Error>,
>(encode: E, compress: C, st: Step) -> bool {
    &&& st.batch@ == batch_nodes(st.before)
    &&& encode.ensures((&st.batch,), Ok::<Vec<EncodedNode>, Error>(st.encoded))
    &&& fits_batch(st.before, st.encoded@)
    &&& batch_added(st.before, st.encoded@, st.after)
    &&& holds_chunks(st.chunks@, st.encoded@)
    &&& compress.ensures((st.chunks,), Ok::<(), Error>(()))
}

/// The steps lead from one state to another.
pub open spec fn steps_lead<
    E: Fn(&Vec<Counted>) -> Result<Vec<EncodedNode>, Error>,
    C: Fn(Vec<Vec<u8>>) -> Result<(), Error>,
>(encode: E, compress: C, from: WriteState, steps: Seq<Step>, to: WriteState) -> bool
    decreases steps.len(),
{
    if steps.len() == 0 {
        from == to
    } else {
        &&& steps_lead(encode, compress, from, steps.drop_last(), steps.last().before)
        &&& step_ok(encode, compress, steps.last())
        &&& steps.last().after == to
    }
}

/// The encoded nodes of all steps, in order.
pub open spec fn run_nodes(steps: Seq<Step>) -> Seq<EncodedNode>
    decreases steps.len(),
{
    if steps.len() == 0 {
        Seq::empty()
    } else {
        run_nodes(steps.drop_last()) + steps.last().encoded@
    }
}

proof fn lemma_returns_sum_concat(a: Seq<EncodedNode>, b: Seq<EncodedNode>, n: nat, r: int)
    requires
        n <= b.len(),
    ensures
        returns_sum(a + b, a.len() + n, r) == returns_sum(a, a.len(), r) + returns_sum(b, n, r),
    decreases a.len() + n,
{
    if n > 0 {
        lemma_returns_sum_concat(a, b, (n - 1) as nat, r);
        assert((a + b)[a.len() + n - 1] == b[n - 1]);
    } else {
        lemma_returns_sum_same(a + b, a, a.len(), r);
    }
}

proof fn lemma_returns_sum_same(a: Seq<EncodedNode>, b: Seq<EncodedNode>, n: nat, r: int)
    requires
        forall|i: int| 0 <= i < n ==> #[trigger] a[i] == b[i],
    ensures
        returns_sum(a, n, r) == returns_sum(b, n, r),
    decreases n,
{
    if n > 0 {
        lemma_returns_sum_same(a, b, (n - 1) as nat, r);
    }
}

proof fn lemma_times_same(a: Seq<EncodedNode>, b: Seq<EncodedNode>, n: nat, low: u64, high: u64)
    requires
        forall|i: int| 0 <= i < n ==> #[trigger] a[i] == b[i],
    ensures
        earliest_of(a, n, low) == earliest_of(b, n, low),
        latest_of(a, n, high) == latest_of(b, n, high),
    decreases n,
{
    if n > 0 {
        lemma_times_same(a, b, (n - 1) as nat, low, high);
    }
}

proof fn lemma_times_concat(
    a: Seq<EncodedNode>,
    b: Seq<EncodedNode>,
    n: nat,
    low: u64,
    high: u64,
)
    requires
        n <= b.len(),
    ensures
        earliest_of(a + b, a.len() + n, low) == earliest_of(
            b,
            n,
            earliest_of(a, a.len(), low),
        ),
        latest_of(a + b, a.len() + n, high) == latest_of(b, n, latest_of(a, a.len(), high)),
    decreases n,
{
    if n > 0 {
        lemma_times_concat(a, b, (n - 1) as nat, low, high);
        assert((a + b)[a.len() + n - 1] == b[n - 1]);
    } else {
        lemma_times_same(a + b, a, a.len(), low, high);
    }
}

/// What the state knows after a run is what it knew before and what the nodes of
/// the run add.
proof fn lemma_run<
    E: Fn(&Vec<Counted>) -> Result<Vec<EncodedNode>, Error>,
    C: Fn(Vec<Vec<u8>>) -> Result<(), Error>,
>(encode: E, compress: C, from: WriteState, steps: Seq<Step>, to: WriteState)
    requires
        steps_lead(encode, compress, from, steps, to),
    ensures
        ({
            let es = run_nodes(steps);
            &&& to.stride == from.stride
            &&& to.done == from.done + es.len()
            &&& forall|r: int|
                0 <= r < 15 ==> #[trigger] to.returns[r] == from.returns[r] + returns_sum(
                    es,
                    es.len(),
                    r,
                )
            &&& to.gps_min == earliest_of(es, es.len(), from.gps_min)
            &&& to.gps_max == latest_of(es, es.len(), from.gps_max)
            &&& from.stride is Some ==> {
                &&& to.entries.len() == from.entries.len() + es.len()
                &&& forall|j: int|
                    0 <= j < es.len() ==> (#[trigger] to.entries[from.entries.len() + j]).1
                        == es[j].samples@
            }
        }),
    decreases steps.len(),
{
    if steps.len() > 0 {
        let st = steps.last();
        let a = run_nodes(steps.drop_last());
        let b = st.encoded@;
        lemma_run(encode, compress, from, steps.drop_last(), st.before);
        assert forall|r: int| 0 <= r < 15 implies #[trigger] to.returns[r] == from.returns[r]
            + returns_sum(a + b, (a + b).len(), r) by {
            lemma_returns_sum_concat(a, b, b.len(), r);
            assert(st.before.returns[r] == from.returns[r] + returns_sum(a, a.len(), r));
        }
        lemma_times_concat(a, b, b.len(), from.gps_min, from.gps_max);
        if from.stride is Some {
            let n = from.entries.len();
            assert forall|j: int| 0 <= j < (a + b).len() implies (#[trigger] to.entries[n + j]).1
                == (a + b)[j].samples@ by {
                if j < a.len() {
                    assert(to.entries[n + j] == st.before.entries[n + j]);
                }
            }
        }
    }
}

proof fn lemma_joined_points(points: Seq<Seq<PointView>>, n: nat)
    requires
        0 < n <= points.len(),
    ensures
        all_points(points.take(n as int)) == all_points(points.take(n - 1)) + points[n - 1],
{
    let init = points.take(n - 1);
    let one = seq![points[n - 1]];
    assert(points.take(n as int) =~= init + one);
    law_joined_files_hold_both(init, one, TempCompression::Uncompressed);
    assert(one.drop_first() =~= Seq::<Seq<PointView>>::empty());
    assert(all_points(one) =~= points[n - 1]) by {
        assert(all_points(one.drop_first()) =~= Seq::<PointView>::empty());
    }
}

/// The sums over the nodes are those over their points.
proof fn lemma_node_totals(
    es: Seq<EncodedNode>,
    points: Seq<Seq<PointView>>,
    fmt: u8,
    stride: Option<u32>,
    n: nat,
)
    requires
        n <= es.len() == points.len(),
        forall|j: int| 0 <= j < es.len() ==> encodes(#[trigger] es[j], points[j], fmt, stride),
    ensures
        forall|r: int|
            1 <= r <= 15 ==> #[trigger] returns_sum(es, n, r - 1) == returns_of(
                all_points(points.take(n as int)),
                r,
            ),
        earliest_of(es, n, MAX_BITS) == earliest(all_points(points.take(n as int))),
        latest_of(es, n, MIN_BITS) == latest(all_points(points.take(n as int))),
    decreases n,
{
    if n == 0 {
        assert(points.take(0) =~= Seq::<Seq<PointView>>::empty());
        assert(all_points(points.take(0)) =~= Seq::<PointView>::empty());
    } else {
        lemma_node_totals(es, points, fmt, stride, (n - 1) as nat);
        lemma_joined_points(points, n);
        let a = all_points(points.take(n - 1));
        let b = points[n - 1];
        let e = es[n - 1];
        assert(encodes(e, b, fmt, stride));
        assert forall|r: int| 1 <= r <= 15 implies #[trigger] returns_sum(es, n, r - 1)
            == returns_of(a + b, r) by {
            lemma_returns_of_concat(a, b, r);
            assert(e.return_counts@[r - 1] == returns_of(b, r));
            assert(returns_sum(es, (n - 1) as nat, r - 1) == returns_of(a, r));
        }
        lemma_times_of_concat(a, b);
    }
}

/// What the file's header says of the points holds of all points that are
/// written: how many there are of each return number, and their time range. The
/// temporal index has the samples of every node. `points` are the points of the
/// written nodes, each node's in the order of their times.
pub proof fn law_totals_of_all_points<
    E: Fn(&Vec<Counted>) -> Result<Vec<EncodedNode>, Error>,
    C: Fn(Vec<Vec<u8>>) -> Result<(), Error>,
>(
    encode: E,
    compress: C,
    data: Seq<Counted>,
    fmt: u8,
    num_extra_bytes: u16,
    memory_budget: u64,
    stride: Option<u32>,
    steps: Seq<Step>,
    s: WriteState,
    points: Seq<Seq<PointView>>,
)
    requires
        steps_lead(
            encode,
            compress,
            begun_writing(data, fmt, num_extra_bytes, memory_budget, stride),
            steps,
            s,
        ),
        points.len() == run_nodes(steps).len(),
        forall|j: int|
            0 <= j < points.len() ==> encodes(
                #[trigger] run_nodes(steps)[j],
                points[j],
                fmt,
                stride,
            ),
    ensures
        s.done == points.len(),
        forall|r: int|
            1 <= r <= 15 ==> #[trigger] s.returns[r - 1] == returns_of(all_points(points), r),
        s.gps_min == earliest(all_points(points)),
        s.gps_max == latest(all_points(points)),
        stride is Some ==> {
            &&& s.entries.len() == points.len()
            &&& forall|j: int|
                0 <= j < points.len() ==> (#[trigger] s.entries[j]).1 == samples_for(
                    points[j],
                    stride,
                )
        },
{
    let first = begun_writing(data, fmt, num_extra_bytes, memory_budget, stride);
    let es = run_nodes(steps);
    lemma_run(encode, compress, first, steps, s);
    lemma_node_totals(es, points, fmt, stride, es.len());
    assert(points.take(es.len() as int) =~= points);
    assert forall|r: int| 1 <= r <= 15 implies #[trigger] s.returns[r - 1] == returns_of(
        all_points(points),
        r,
    ) by {
        assert(first.returns[r - 1] == 0);
        assert(returns_sum(es, es.len(), r - 1) == returns_of(all_points(points), r));
    }
    if stride is Some {
        assert forall|j: int| 0 <= j < points.len() implies (#[trigger] s.entries[j]).1
            == samples_for(points[j], stride) by {
            assert(s.entries[first.entries.len() + j].1 == es[j].samples@);
        }
    }
}

/// How many nodes are written once the first `n` batches are.
pub open spec fn batches_len(batches: Seq<Seq<usize>>, n: nat) -> nat
    decreases n,
{
    if n == 0 {
        0
    } else {
        batches_len(batches, (n - 1) as nat) + batches[n - 1].len()
    }
}

/// One event for each of the first `n` batches: the number of nodes written.
pub open spec fn batch_events(batches: Seq<Seq<usize>>, n: nat) -> Seq<ProgressEvent> {
    Seq::new(
        n,
        |i: int| ProgressEvent::StageProgress { done: batches_len(batches, (i + 1) as nat) as u64 },
    )
}

/// The error where there are more points than 64 bits can count.
pub open spec fn too_many_points() -> ErrorView {
    ErrorView::Internal("the nodes hold too many points"@)
}

/// The error for encoded nodes that cannot be added: there is not one for each
/// node of the batch, or their points cannot be counted.
pub open spec fn batch_error(s: WriteState, es: Seq<EncodedNode>) -> ErrorView {
    if es.len() != batch_nodes(s).len() {
        ErrorView::Internal("a batch was not encoded node by node"@)
    } else {
        too_many_points()
    }
}

/// Writes all batches: `encode` encodes the nodes of a batch, and `compress`
/// compresses their chunks and writes them. The observer receives an event for
/// every batch: the number of nodes written so far. Fails at the first batch
/// that cannot be encoded, added or compressed.
pub fn write_nodes<
    P: ProgressObserver,
    E: Fn(&Vec<Counted>) -> Result<Vec<EncodedNode>, Error>,
    C: Fn(Vec<Vec<u8>>) -> Result<(), Error>,
>(writer: NodeWriter, config: &mut PipelineConfig<P>, encode: &E, compress: &C) -> (r: Result<
    NodeWriter,
    Error,
>)
    requires
        writer.wf(),
        writer.state().next == 0,
        writer.state().done == 0,
        forall|b: &Vec<Counted>| #[trigger] encode.requires((b,)),
        forall|c: Vec<Vec<u8>>| #[trigger] compress.requires((c,)),
    ensures
        match r {
            Ok(w) => {
                &&& w.wf()
                &&& w.state().next == w.state().batches.len()
                &&& exists|steps: Seq<Step>| #[trigger]
                    steps_lead(*encode, *compress, writer.state(), steps, w.state())
                &&& told(
                    *old(config),
                    *final(config),
                    batch_events(writer.state().batches, writer.state().batches.len()),
                )
            },
            Err(e) => exists|steps: Seq<Step>, s: WriteState|
                {
                    &&& #[trigger] steps_lead(*encode, *compress, writer.state(), steps, s)
                    &&& s.next < s.batches.len()
                    &&& batch_fails(*encode, *compress, s, e)
                    &&& told(
                        *old(config),
                        *final(config),
                        batch_events(writer.state().batches, s.next as nat),
                    )
                },
        },
{
    let ghost first = writer.state();
    let ghost before = *config;
    let ghost mut steps: Seq<Step> = Seq::empty();
    let mut run = writer;
    proof {
        assert(batch_events(first.batches, 0) =~= Seq::<ProgressEvent>::empty());
        if before.progress is Some {
            assert(events_of(before.progress) + batch_events(first.batches, 0) =~= events_of(
                before.progress,
            ));
        }
    }
    let mut batch = run.batch();
    while batch.len() > 0
        invariant
            forall|b: &Vec<Counted>| #[trigger] encode.requires((b,)),
            forall|c: Vec<Vec<u8>>| #[trigger] compress.requires((c,)),
            before == *old(config),
            first == writer.state(),
            run.wf(),
            batch@ == batch_nodes(run.state()),
            batch@.len() == 0 <==> run.state().next == run.state().batches.len(),
            run.state().batches == first.batches,
            run.state().done == batches_len(first.batches, run.state().next as nat),
            steps_lead(*encode, *compress, first, steps, run.state()),
            told(
                before,
                *config,
                batch_events(first.batches, run.state().next as nat),
            ),
        decreases run.state().batches.len() - run.state().next,
    {
        let ghost s = run.state();
        proof {
            lemma_next_batch(s);
        }
        let encoded = encode(&batch);
        match encoded {
            Err(e) => {
                assert(batch_fails(*encode, *compress, s, e));
                return Err(e);
            },
            Ok(es) => {
                let one_each: bool = es.len() == batch.len();
                if !one_each || !run.can_count(&es) {
                    let e = if one_each {
                        Error::Internal("the nodes hold too many points".to_owned())
                    } else {
                        Error::Internal("a batch was not encoded node by node".to_owned())
                    };
                    proof {
                        assert(encode.ensures((&batch,), Ok::<Vec<EncodedNode>, Error>(es)));
                        assert(batch_fails(*encode, *compress, s, e));
                    }
                    return Err(e);
                }
                let ghost kept = es;
                let chunks = run.add(es);
                let ghost now = run.state();
                let ghost sent = chunks;
                match compress(chunks) {
                    Err(e) => {
                        proof {
                            assert(holds_chunks(sent@, kept@));
                            assert(compress.ensures((sent,), Err::<(), Error>(e)));
                            assert(batch_fails(*encode, *compress, s, e));
                        }
                        return Err(e);
                    },
                    Ok(unit) => {
                        let ghost so_far = *config;
                        config.report(
                            ProgressEvent::StageProgress { done: run.written() as u64 },
                        );
                        proof {
                            assert(unit == ());
                            let st = Step {
                                before: s,
                                after: now,
                                batch,
                                encoded: kept,
                                chunks: sent,
                            };
                            assert(step_ok(*encode, *compress, st));
                            let more = steps.push(st);
                            assert(more.drop_last() =~= steps);
                            steps = more;
                            let n = s.next as nat;
                            let event = ProgressEvent::StageProgress {
                                done: batches_len(first.batches, n + 1) as u64,
                            };
                            lemma_told(
                                before,
                                so_far,
                                *config,
                                batch_events(first.batches, n),
                                seq![event],
                            );
                            assert(batch_events(first.batches, n) + seq![event] =~= batch_events(
                                first.batches,
                                n + 1,
                            ));
                        }
                    },
                }
            },
        }
        batch = run.batch();
    }
    assert(run.state().next as nat == first.batches.len());
    Ok(run)
}

/// The next batch fails with `e`: it cannot be encoded, added or compressed.
pub open spec fn batch_fails<
    E: Fn(&Vec<Counted>) -> Result<Vec<EncodedNode>, Error>,
    C: Fn(Vec<Vec<u8>>) -> Result<(), Error>,
>(encode: E, compress: C, s: WriteState, e: Error) -> bool {
    exists|batch: Vec<Counted>, encoded: Result<Vec<EncodedNode>, Error>|
        {
            &&& #[trigger] encode.ensures((&batch,), encoded)
            &&& batch@ == batch_nodes(s)
            &&& match encoded {
                Err(x) => e == x,
                Ok(es) => {
                    if fits_batch(s, es@) {
                        exists|chunks: Vec<Vec<u8>>|
                            {
                                &&& holds_chunks(chunks@, es@)
                                &&& #[trigger] compress.ensures((chunks,), Err::<(), Error>(e))
                            }
                    } else {
                        e@ == batch_error(s, es@)
                    }
                },
            }
        }
}

} // verus!
