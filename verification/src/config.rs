//! What a conversion is configured with, and how it reports its progress.

use vstd::prelude::*;

verus! {

/// Compression codec for distribute-stage scratch files.
///
/// Scratch files are highly compressible. Compression trades CPU for disk
/// space: most useful on workers with little space and on network filesystems,
/// and roughly a wash on fast local disks.
#[derive(Debug, Clone, Copy, PartialEq, Eq, Structural)]
pub enum TempCompression {
    /// No compression (default).
    Uncompressed,
    /// LZ4 frame format.
    Lz4,
}

impl Default for TempCompression {
    fn default() -> (c: TempCompression)
        ensures
            c == TempCompression::Uncompressed,
    {
        TempCompression::Uncompressed
    }
}

/// Storage layout for per-node point data during the build stage.
#[derive(Debug, Clone, Copy, PartialEq, Eq, Structural)]
pub enum NodeStorage {
    /// One temp file per node (default). No dead space, but one inode per node.
    Files,
    /// A few append-only pack files plus an index in memory. Trades disk space
    /// for inodes, because what is overwritten stays in the packs.
    Packed,
}

impl Default for NodeStorage {
    fn default() -> (s: NodeStorage)
        ensures
            s == NodeStorage::Files,
    {
        NodeStorage::Files
    }
}

/// Events emitted during pipeline execution.
#[derive(Debug, Clone, Copy)]
pub enum ProgressEvent {
    /// A pipeline stage started. `total` is the number of work units (0 if
    /// unknown).
    StageStart { name: &'static str, total: u64 },
    /// Progress within the current stage: work units completed so far.
    StageProgress { done: u64 },
    /// Current stage finished.
    StageDone,
}

/// Observer for pipeline progress events. Implement this to receive callbacks.
pub trait ProgressObserver: Sized {
    /// The events that the observer has received, in order.
    spec fn events(&self) -> Seq<ProgressEvent>;

    /// Called when a progress event occurs.
    fn on_progress(&mut self, event: ProgressEvent)
        ensures
            final(self).events() == old(self).events().push(event),
    ;
}

/// An observer that keeps the events it receives.
#[derive(Debug)]
pub struct ProgressLog {
    pub received: Vec<ProgressEvent>,
}

impl ProgressObserver for ProgressLog {
    open spec fn events(&self) -> Seq<ProgressEvent> {
        self.received@
    }

    fn on_progress(&mut self, event: ProgressEvent) {
        self.received.push(event);
    }
}

/// An observer that hands the events it receives on to a function.
pub struct Forward<F: Fn(ProgressEvent)> {
    call: F,
    sent: Ghost<Seq<ProgressEvent>>,
}

impl<F: Fn(ProgressEvent)> Forward<F> {
    #[verifier::type_invariant]
    spec fn callable(self) -> bool {
        forall|e: ProgressEvent| #[trigger] self.call.requires((e,))
    }

    pub fn new(call: F) -> (f: Forward<F>)
        requires
            forall|e: ProgressEvent| #[trigger] call.requires((e,)),
        ensures
            f.events() == Seq::<ProgressEvent>::empty(),
    {
        Forward { call, sent: Ghost(Seq::empty()) }
    }
}

impl<F: Fn(ProgressEvent)> ProgressObserver for Forward<F> {
    closed spec fn events(&self) -> Seq<ProgressEvent> {
        self.sent@
    }

    fn on_progress(&mut self, event: ProgressEvent) {
        proof {
            use_type_invariant(&*self);
        }
        (self.call)(event);
        self.sent = Ghost(self.sent@.push(event));
    }
}

/// Configuration for the conversion pipeline.
#[derive(Debug)]
pub struct PipelineConfig<P> {
    /// Effective memory budget in bytes.
    pub memory_budget: u64,
    /// Optional custom temp directory.
    pub temp_dir: Option<String>,
    /// Sampling stride of the temporal index, where one is to be written.
    pub temporal_index: Option<u32>,
    /// Optional progress observer for reporting pipeline progress.
    pub progress: Option<P>,
    /// Optional override for the chunk target size (in points).
    pub chunk_target_override: Option<u64>,
    /// Compression codec for scratch temp files.
    pub temp_compression: TempCompression,
    /// Storage layout for per-node point data during build.
    pub node_storage: NodeStorage,
}

/// The events that an optional observer has received.
pub open spec fn events_of<P: ProgressObserver>(p: Option<P>) -> Seq<ProgressEvent> {
    match p {
        Some(o) => o.events(),
        None => Seq::empty(),
    }
}

/// Two configurations that differ in nothing but what the observer received.
pub open spec fn same_settings<P>(a: PipelineConfig<P>, b: PipelineConfig<P>) -> bool {
    &&& a.memory_budget == b.memory_budget
    &&& a.temp_dir == b.temp_dir
    &&& a.temporal_index == b.temporal_index
    &&& (a.progress is Some <==> b.progress is Some)
    &&& a.chunk_target_override == b.chunk_target_override
    &&& a.temp_compression == b.temp_compression
    &&& a.node_storage == b.node_storage
}

/// `b` is the configuration `a` after the observer, if there is one, received
/// `events`.
pub open spec fn told<P: ProgressObserver>(
    a: PipelineConfig<P>,
    b: PipelineConfig<P>,
    events: Seq<ProgressEvent>,
) -> bool {
    &&& same_settings(a, b)
    &&& a.progress is Some ==> events_of(b.progress) == events_of(a.progress) + events
}

/// What is told first and what is told then are told together.
pub proof fn lemma_told<P: ProgressObserver>(
    a: PipelineConfig<P>,
    b: PipelineConfig<P>,
    c: PipelineConfig<P>,
    first: Seq<ProgressEvent>,
    then_told: Seq<ProgressEvent>,
)
    requires
        told(a, b, first),
        told(b, c, then_told),
    ensures
        told(a, c, first + then_told),
{
    if a.progress is Some {
        assert(events_of(a.progress) + first + then_told =~= events_of(a.progress) + (first
            + then_told));
    }
}

impl<P: ProgressObserver> PipelineConfig<P> {
    /// Hands an event to the observer, if there is one.
    pub fn report(&mut self, event: ProgressEvent)
        ensures
            told(*old(self), *final(self), seq![event]),
    {
        match self.progress.as_mut() {
            Some(observer) => {
                observer.on_progress(event);
            },
            None => {},
        }
        proof {
            if old(self).progress is Some {
                assert(events_of(old(self).progress).push(event) =~= events_of(
                    old(self).progress,
                ) + seq![event]);
            }
        }
    }
}

} // verus!
