//! The job of one resource: what to do next, given what has happened.
//!
//! A job does no input or output itself. It is told what happened (an
//! [`Event`]) and answers with what is to be done (a list of [`Action`]s).
//! Whoever drives it performs the actions, in any order and concurrently
//! where it likes, and reports each result as an event.
//!
//! The first failure that a job is told of ends it. Requests and writes that
//! are under way at that moment are not called back: their events, when they
//! come, change nothing.

use vstd::prelude::*;
use crate::chunk::{fetched, Chunk, ChunkView, FetchOutcome};
use crate::chunks::{
    lemma_plan_len, lemma_plan_tiles, lemma_plan_unfetched, plan, views, Chunks,
};
use crate::downloader::DownloadPolicy;
use crate::error::DownloadError;
use crate::file_image::{all_fetched, lemma_written_size, write_all};
use crate::metadata::ResourceMetadata;
use crate::payload::contents;
use crate::tiling::{lemma_same_ranges_tile, tiles, total_size};

verus! {

/// Where a job stands.
#[derive(Debug, Clone, Copy, PartialEq, Eq, Structural)]
pub enum JobState {
    /// The metadata probe is under way.
    Planning,
    /// At least one chunk has not been fetched yet.
    Fetching,
    /// All chunks are fetched, at least one is not written yet.
    Writing,
    /// All chunks are written; the size of the file is being checked.
    Verifying,
    /// The file is complete.
    Done,
    /// The job has failed.
    Failed,
}

/// Where one chunk of a job stands.
#[derive(Debug, Clone, Copy, PartialEq, Eq, Structural)]
pub enum Phase {
    /// Its request is under way.
    Requested,
    /// It is fetched and waits for the other chunks.
    Held,
    /// Its write is under way.
    Writing,
    /// It is in the file.
    Written,
}

/// What a job is told.
pub enum Event {
    /// The probe succeeded.
    Probed(ResourceMetadata),
    /// The probe did not complete.
    ProbeFailed,
    /// The request for the chunk at `index` of the plan has ended.
    Fetched { index: usize, outcome: FetchOutcome },
    /// The chunk at `index` of the plan is in the file.
    Written { index: usize },
    /// Creating the file, a write or the sync failed.
    IoFailed,
    /// The file is synced and has this size.
    Synced { file_size: u64 },
}

/// What a job asks for.
pub enum Action {
    /// Probe the resource's metadata.
    Probe,
    /// Create the output file, empty, before any write, and tell the progress
    /// sink how many bytes to expect.
    Open { total: usize },
    /// Fetch the chunk at `index` of the plan: its range of offsets, or the
    /// whole resource where the chunk is empty.
    Fetch { index: usize, chunk: Chunk },
    /// Write the chunk's payload at the chunk's start.
    Write { index: usize, chunk: Chunk },
    /// Tell the progress sink that this many more bytes are in the file.
    Advance { bytes: usize },
    /// Sync the file and report its size.
    Sync,
}

/// What an action is, mathematically.
pub enum ActionView {
    Probe,
    Open { total: nat },
    Fetch { index: nat, chunk: ChunkView },
    Write { index: nat, chunk: ChunkView },
    Advance { bytes: nat },
    Sync,
}

impl View for Action {
    type V = ActionView;

    open spec fn view(&self) -> ActionView {
        match *self {
            Action::Probe => ActionView::Probe,
            Action::Open { total } => ActionView::Open { total: total as nat },
            Action::Fetch { index, chunk } => ActionView::Fetch {
                index: index as nat,
                chunk: chunk@,
            },
            Action::Write { index, chunk } => ActionView::Write {
                index: index as nat,
                chunk: chunk@,
            },
            Action::Advance { bytes } => ActionView::Advance { bytes: bytes as nat },
            Action::Sync => ActionView::Sync,
        }
    }
}

/// The views of a list of actions.
pub open spec fn action_views(actions: Seq<Action>) -> Seq<ActionView> {
    Seq::new(actions.len(), |i: int| actions[i]@)
}

/// One chunk of a job: its range, its payload once it has come in, and where
/// it stands. The job itself holds the payload only until the write is asked
/// for; after that this tells what was handed to the write.
pub struct SlotView {
    pub chunk: ChunkView,
    pub phase: Phase,
}

/// Some chunk stands in the phase.
pub open spec fn any_in(slots: Seq<SlotView>, phase: Phase) -> bool {
    exists|i: int| 0 <= i < slots.len() && (#[trigger] slots[i]).phase == phase
}

/// All chunks stand in the phase.
pub open spec fn all_in(slots: Seq<SlotView>, phase: Phase) -> bool {
    forall|i: int| 0 <= i < slots.len() ==> (#[trigger] slots[i]).phase == phase
}

/// The ranges of the chunks, without payloads.
pub open spec fn descriptors(slots: Seq<SlotView>) -> Seq<ChunkView> {
    Seq::new(slots.len(), |i: int| slots[i].chunk.descriptor())
}

/// The number of bytes in the chunks that are in the file.
pub open spec fn written_bytes(slots: Seq<SlotView>) -> nat
    decreases slots.len(),
{
    if slots.len() == 0 {
        0
    } else {
        written_bytes(slots.drop_last()) + if slots.last().phase == Phase::Written {
            slots.last().chunk.size
        } else {
            0
        }
    }
}

/// The state of a job whose chunks stand as given.
pub open spec fn transfer_state(slots: Seq<SlotView>) -> JobState {
    if any_in(slots, Phase::Requested) {
        JobState::Fetching
    } else if all_in(slots, Phase::Written) {
        JobState::Verifying
    } else {
        JobState::Writing
    }
}

/// One request for each chunk of a plan, in order.
pub open spec fn requests(chunks: Seq<ChunkView>) -> Seq<ActionView> {
    Seq::new(chunks.len(), |i: int| ActionView::Fetch { index: i as nat, chunk: chunks[i] })
}

/// One write for each chunk, in order, with the payload that the job holds.
pub open spec fn writes(slots: Seq<SlotView>) -> Seq<ActionView> {
    Seq::new(slots.len(), |i: int| ActionView::Write { index: i as nat, chunk: slots[i].chunk })
}

/// All chunks handed to their writes.
pub open spec fn released(slots: Seq<SlotView>) -> Seq<SlotView> {
    Seq::new(slots.len(), |i: int| SlotView { chunk: slots[i].chunk, phase: Phase::Writing })
}

/// The chunks with the payloads that came in for them, in the order of the
/// plan.
pub open spec fn payloads(slots: Seq<SlotView>) -> Seq<ChunkView> {
    Seq::new(slots.len(), |i: int| slots[i].chunk)
}

/// What a job is, mathematically.
pub struct JobView {
    pub policy: DownloadPolicy,
    pub workers: nat,
    pub state: JobState,
    pub supports_ranges: bool,
    pub total: nat,
    pub slots: Seq<SlotView>,
    pub progress: nat,
    pub error: Option<DownloadError>,
}

impl JobView {
    /// A job that has not been told anything yet.
    pub open spec fn fresh(policy: DownloadPolicy, workers: nat) -> JobView {
        JobView {
            policy,
            workers,
            state: JobState::Planning,
            supports_ranges: false,
            total: 0,
            slots: Seq::empty(),
            progress: 0,
            error: None,
        }
    }

    /// The job, ended by a failure. It lets go of its chunks.
    pub open spec fn failed(self, error: DownloadError) -> JobView {
        JobView { state: JobState::Failed, error: Some(error), slots: Seq::empty(), ..self }
    }

    /// The job after a successful probe: every chunk of the plan is requested.
    pub open spec fn planned(self, metadata: ResourceMetadata) -> JobView {
        let chunks = plan(metadata.supports_ranges, metadata.total_bytes as nat, self.workers);
        JobView {
            state: JobState::Fetching,
            supports_ranges: metadata.supports_ranges,
            total: metadata.total_bytes as nat,
            slots: Seq::new(
                chunks.len(),
                |i: int| SlotView { chunk: chunks[i], phase: Phase::Requested },
            ),
            ..self
        }
    }

    /// The chunks after the one at `index` came in with its payload, and
    /// before any write is asked for.
    pub open spec fn holding(self, index: int, chunk: ChunkView) -> Seq<SlotView> {
        self.slots.update(index, SlotView { chunk, phase: Phase::Held })
    }

    /// The job after the chunk at `index` came in with its payload. Under
    /// `DownloadAndSave` its write begins. Under `DownloadThenSave` the job
    /// holds it, and when it is the last to come in, all writes begin.
    pub open spec fn with_fetched(self, index: int, chunk: ChunkView) -> JobView {
        match self.policy {
            DownloadPolicy::DownloadAndSave => {
                let slots = self.slots.update(index, SlotView { chunk, phase: Phase::Writing });
                JobView { slots, state: transfer_state(slots), ..self }
            },
            DownloadPolicy::DownloadThenSave => {
                let held = self.holding(index, chunk);
                if any_in(held, Phase::Requested) {
                    JobView { slots: held, ..self }
                } else {
                    JobView { slots: released(held), state: JobState::Writing, ..self }
                }
            },
        }
    }

    /// The job after the chunk at `index` was written: its bytes count as
    /// progress, once.
    pub open spec fn with_written(self, index: int) -> JobView {
        let slots = self.slots.update(
            index,
            SlotView { chunk: self.slots[index].chunk, phase: Phase::Written },
        );
        JobView {
            slots,
            progress: self.progress + self.slots[index].chunk.size,
            state: transfer_state(slots),
            ..self
        }
    }

    /// The event is about a chunk of the plan that stands in the phase.
    pub open spec fn expects(self, index: usize, phase: Phase) -> bool {
        index < self.slots.len() && self.slots[index as int].phase == phase
    }

    /// The job after an event. An event that does not belong to the state
    /// changes nothing.
    pub open spec fn after(self, event: Event) -> JobView {
        match self.state {
            JobState::Planning => match event {
                Event::Probed(metadata) => self.planned(metadata),
                Event::ProbeFailed => self.failed(DownloadError::MetadataProbeFailed),
                _ => self,
            },
            JobState::Fetching | JobState::Writing => match event {
                Event::Fetched { index, outcome } => if self.expects(index, Phase::Requested) {
                    match fetched(self.slots[index as int].chunk, outcome) {
                        Ok(chunk) => self.with_fetched(index as int, chunk),
                        Err(error) => self.failed(error),
                    }
                } else {
                    self
                },
                Event::Written { index } => if self.expects(index, Phase::Writing) {
                    self.with_written(index as int)
                } else {
                    self
                },
                Event::IoFailed => self.failed(DownloadError::IOError),
                _ => self,
            },
            JobState::Verifying => match event {
                Event::Synced { file_size } => if file_size == self.total {
                    JobView { state: JobState::Done, ..self }
                } else {
                    self.failed(
                        DownloadError::IncompleteDownload {
                            expected: self.total as usize,
                            on_disk: file_size,
                        },
                    )
                },
                Event::IoFailed => self.failed(DownloadError::IOError),
                _ => self,
            },
            JobState::Done | JobState::Failed => self,
        }
    }

    /// What the job asks for when it is told of an event.
    pub open spec fn response(self, event: Event) -> Seq<ActionView> {
        match self.state {
            JobState::Planning => match event {
                Event::Probed(metadata) => seq![
                    ActionView::Open { total: metadata.total_bytes as nat },
                ] + requests(
                    plan(metadata.supports_ranges, metadata.total_bytes as nat, self.workers),
                ),
                _ => Seq::empty(),
            },
            JobState::Fetching | JobState::Writing => match event {
                Event::Fetched { index, outcome } => if self.expects(index, Phase::Requested) {
                    match fetched(self.slots[index as int].chunk, outcome) {
                        Ok(chunk) => match self.policy {
                            DownloadPolicy::DownloadAndSave => seq![
                                ActionView::Write { index: index as nat, chunk },
                            ],
                            DownloadPolicy::DownloadThenSave => {
                                let held = self.holding(index as int, chunk);
                                if any_in(held, Phase::Requested) {
                                    Seq::empty()
                                } else {
                                    writes(held)
                                }
                            },
                        },
                        Err(_) => Seq::empty(),
                    }
                } else {
                    Seq::empty()
                },
                Event::Written { index } => if self.expects(index, Phase::Writing) {
                    let advance = seq![
                        ActionView::Advance { bytes: self.slots[index as int].chunk.size },
                    ];
                    if all_in(self.with_written(index as int).slots, Phase::Written) {
                        advance.push(ActionView::Sync)
                    } else {
                        advance
                    }
                } else {
                    Seq::empty()
                },
                _ => Seq::empty(),
            },
            _ => Seq::empty(),
        }
    }

    /// The job after a series of events, the first of them first.
    pub open spec fn after_all(self, events: Seq<Event>) -> JobView
        decreases events.len(),
    {
        if events.len() == 0 {
            self
        } else {
            self.after_all(events.drop_last()).after(events.last())
        }
    }

    /// What holds of every job, whatever it has been told.
    pub open spec fn wf(self) -> bool {
        &&& self.workers >= 1
        &&& (self.state == JobState::Failed) == self.error.is_some()
        &&& match self.state {
            JobState::Planning => self.slots.len() == 0 && self.progress == 0,
            JobState::Failed => true,
            _ => {
                &&& descriptors(self.slots) == plan(self.supports_ranges, self.total, self.workers)
                &&& self.state == JobState::Done || self.state == transfer_state(self.slots)
                &&& self.state == JobState::Done ==> all_in(self.slots, Phase::Written)
                &&& self.progress == written_bytes(self.slots)
                &&& forall|i: int|
                    0 <= i < self.slots.len() ==> if (#[trigger] self.slots[i]).phase
                        == Phase::Requested {
                        self.slots[i].chunk.data == Seq::<u8>::empty()
                    } else {
                        self.slots[i].chunk.is_fetched()
                    }
                &&& self.policy == DownloadPolicy::DownloadAndSave ==> !any_in(
                    self.slots,
                    Phase::Held,
                )
                &&& self.policy == DownloadPolicy::DownloadThenSave && any_in(
                    self.slots,
                    Phase::Requested,
                ) ==> forall|i: int|
                    0 <= i < self.slots.len() ==> (#[trigger] self.slots[i]).phase
                        == Phase::Requested || self.slots[i].phase == Phase::Held
                &&& self.policy == DownloadPolicy::DownloadThenSave && !any_in(
                    self.slots,
                    Phase::Requested,
                ) ==> !any_in(self.slots, Phase::Held)
            },
        }
    }
}

/// The bytes that a chunk adds to the progress: its size once it is written.
pub open spec fn committed(slot: SlotView) -> nat {
    if slot.phase == Phase::Written {
        slot.chunk.size
    } else {
        0
    }
}

/// Replacing one chunk's entry changes the written bytes by what that entry
/// counts for.
pub proof fn lemma_written_bytes_update(slots: Seq<SlotView>, index: int, slot: SlotView)
    requires
        0 <= index < slots.len(),
    ensures
        written_bytes(slots.update(index, slot)) + committed(slots[index]) == written_bytes(slots)
            + committed(slot),
    decreases slots.len(),
{
    let updated = slots.update(index, slot);
    if index == slots.len() - 1 {
        assert(updated.drop_last() =~= slots.drop_last());
    } else {
        assert(updated.drop_last() =~= slots.drop_last().update(index, slot));
        lemma_written_bytes_update(slots.drop_last(), index, slot);
    }
}

/// The written bytes are at most the bytes of all chunks, and are all of
/// them when every chunk is written. They are none when no chunk is.
pub proof fn lemma_written_bytes_bounds(slots: Seq<SlotView>)
    ensures
        written_bytes(slots) <= total_size(descriptors(slots)),
        all_in(slots, Phase::Written) ==> written_bytes(slots) == total_size(descriptors(slots)),
        !any_in(slots, Phase::Written) ==> written_bytes(slots) == 0,
    decreases slots.len(),
{
    if slots.len() > 0 {
        let front = slots.drop_last();
        lemma_written_bytes_bounds(front);
        assert(descriptors(slots).drop_last() =~= descriptors(front));
        assert(descriptors(slots).last().size == slots.last().chunk.size);
        if all_in(slots, Phase::Written) {
            assert(slots.last() == slots[slots.len() - 1]);
            assert forall|i: int| 0 <= i < front.len() implies (#[trigger] front[i]).phase
                == Phase::Written by {
                assert(front[i] == slots[i]);
            }
        }
        if !any_in(slots, Phase::Written) {
            assert(slots.last() == slots[slots.len() - 1]);
            assert forall|i: int| 0 <= i < front.len() implies (#[trigger] front[i]).phase
                != Phase::Written by {
                assert(front[i] == slots[i]);
            }
        }
    }
}

/// Every state that a job can reach is well formed.
pub proof fn lemma_after_wf(job: JobView, event: Event)
    requires
        job.wf(),
    ensures
        job.after(event).wf(),
{
    let next = job.after(event);
    match job.state {
        JobState::Planning => match event {
            Event::Probed(metadata) => {
                let chunks = plan(
                    metadata.supports_ranges,
                    metadata.total_bytes as nat,
                    job.workers,
                );
                lemma_plan_len(
                    metadata.supports_ranges,
                    metadata.total_bytes as nat,
                    job.workers,
                );
                lemma_plan_unfetched(
                    metadata.supports_ranges,
                    metadata.total_bytes as nat,
                    job.workers,
                );
                assert(descriptors(next.slots) =~= chunks);
                assert(next.slots[0].phase == Phase::Requested);
                lemma_written_bytes_bounds(next.slots);
            },
            _ => {},
        },
        JobState::Fetching | JobState::Writing => match event {
            Event::Fetched { index, outcome } => {
                if job.expects(index, Phase::Requested) {
                    let i = index as int;
                    match fetched(job.slots[i].chunk, outcome) {
                        Ok(chunk) => {
                            assert(job.slots[i].phase == Phase::Requested);
                            match job.policy {
                                DownloadPolicy::DownloadAndSave => {
                                    let slot = SlotView { chunk, phase: Phase::Writing };
                                    lemma_written_bytes_update(job.slots, i, slot);
                                    assert(descriptors(next.slots) =~= descriptors(job.slots));
                                    assert(next.slots[i].phase == Phase::Writing);
                                },
                                DownloadPolicy::DownloadThenSave => {
                                    let held = job.holding(i, chunk);
                                    assert(descriptors(held) =~= descriptors(job.slots));
                                    assert(descriptors(released(held)) =~= descriptors(held));
                                    lemma_written_bytes_bounds(job.slots);
                                    lemma_written_bytes_bounds(held);
                                    lemma_written_bytes_bounds(released(held));
                                    if !any_in(held, Phase::Requested) {
                                        assert(released(held)[i].phase == Phase::Writing);
                                    }
                                },
                            }
                        },
                        Err(_) => {},
                    }
                }
            },
            Event::Written { index } => {
                if job.expects(index, Phase::Writing) {
                    let i = index as int;
                    let slot = SlotView { chunk: job.slots[i].chunk, phase: Phase::Written };
                    lemma_written_bytes_update(job.slots, i, slot);
                    assert(descriptors(next.slots) =~= descriptors(job.slots));
                    assert(job.slots[i].phase == Phase::Writing);
                }
            },
            _ => {},
        },
        JobState::Verifying => {},
        JobState::Done | JobState::Failed => {},
    }
}

/// Whatever a job is told, and in whatever order, it stays well formed.
pub proof fn lemma_every_state_wf(job: JobView, events: Seq<Event>)
    requires
        job.wf(),
    ensures
        job.after_all(events).wf(),
    decreases events.len(),
{
    if events.len() > 0 {
        lemma_every_state_wf(job, events.drop_last());
        lemma_after_wf(job.after_all(events.drop_last()), events.last());
    }
}

/// Whatever a job is told, its progress never falls, and a job that has
/// ended stays as it is.
pub proof fn lemma_runs(job: JobView, events: Seq<Event>)
    requires
        job.wf(),
    ensures
        job.progress <= job.after_all(events).progress,
        job.state == JobState::Done || job.state == JobState::Failed ==> job.after_all(events)
            == job,
    decreases events.len(),
{
    if events.len() > 0 {
        let before = job.after_all(events.drop_last());
        lemma_runs(job, events.drop_last());
        lemma_every_state_wf(job, events.drop_last());
        lemma_progress_steps(before, events.last());
    }
}

/// Once every chunk is written, the chunks that were handed to the writes are
/// the chunks of the plan, each with a payload of its length. Written to an
/// empty file, in whatever order, they make a file of the size of the
/// resource.
pub proof fn lemma_all_written(job: JobView, order: Seq<ChunkView>)
    requires
        job.wf(),
        job.state == JobState::Verifying || job.state == JobState::Done,
        order.to_multiset() == payloads(job.slots).to_multiset(),
    ensures
        tiles(payloads(job.slots), job.total),
        all_fetched(payloads(job.slots)),
        write_all(Seq::empty(), order).len() == job.total,
{
    let got = payloads(job.slots);
    let chunks = plan(job.supports_ranges, job.total, job.workers);
    lemma_plan_tiles(job.supports_ranges, job.total, job.workers);
    assert(descriptors(job.slots).len() == chunks.len());
    assert forall|i: int| 0 <= i < got.len() implies (#[trigger] got[i]).start == chunks[i].start
        && got[i].size == chunks[i].size && got[i].is_fetched() by {
        assert(descriptors(job.slots)[i] == chunks[i]);
        assert(job.slots[i].phase == Phase::Written);
    }
    lemma_same_ranges_tile(chunks, got, job.total);
    lemma_written_size(got, job.total, order);
}

/// Every write that a job asks for is the first for its chunk, and carries
/// the payload that the job has taken in for it.
pub proof fn lemma_writes_once(job: JobView, event: Event)
    requires
        job.wf(),
    ensures
        forall|i: int|
            0 <= i < job.response(event).len() ==> (#[trigger] job.response(
                event,
            )[i] matches ActionView::Write { index, chunk } ==> {
                &&& index < job.slots.len()
                &&& job.slots[index as int].phase == Phase::Requested
                    || job.slots[index as int].phase == Phase::Held
                &&& job.after(event).slots[index as int] == (SlotView {
                    chunk,
                    phase: Phase::Writing,
                })
                &&& chunk.is_fetched()
            }),
{
    lemma_after_wf(job, event);
    match event {
        Event::Fetched { index, outcome } => {
            if job.policy == DownloadPolicy::DownloadThenSave && job.expects(
                index,
                Phase::Requested,
            ) {
                let chunk = fetched(job.slots[index as int].chunk, outcome).unwrap();
                let held = job.holding(index as int, chunk);
                assert forall|i: int| 0 <= i < held.len() && i != index implies held[i]
                    == job.slots[i] by {}
            }
        },
        _ => {},
    }
}

/// A job that is done or has failed stays as it is and asks for nothing more.
pub proof fn lemma_terminal_is_final(job: JobView, event: Event)
    requires
        job.state == JobState::Done || job.state == JobState::Failed,
    ensures
        job.after(event) == job,
        job.response(event) == Seq::<ActionView>::empty(),
{
}

/// A body whose length is not that of the requested range fails the job with
/// `SizeMismatch`; no write is asked for, of that chunk or of any other.
pub proof fn lemma_wrong_length_fails(job: JobView, index: usize, body: bytes::Bytes)
    requires
        job.state == JobState::Fetching || job.state == JobState::Writing,
        job.expects(index, Phase::Requested),
        contents(body).len() != job.slots[index as int].chunk.size,
    ensures
        job.after(Event::Fetched { index, outcome: FetchOutcome::Body(body) }).state
            == JobState::Failed,
        job.after(Event::Fetched { index, outcome: FetchOutcome::Body(body) }).error == Some(
            DownloadError::SizeMismatch {
                expected: job.slots[index as int].chunk.size as usize,
                got: contents(body).len() as usize,
            },
        ),
        job.response(Event::Fetched { index, outcome: FetchOutcome::Body(body) }) == Seq::<
            ActionView,
        >::empty(),
{
}

/// The progress is the number of bytes in the chunks that are written: never
/// more than the resource has, and all of them once every chunk is written.
pub proof fn lemma_progress_bounds(job: JobView)
    requires
        job.wf(),
        job.state != JobState::Failed,
    ensures
        job.progress <= job.total,
        job.state != JobState::Planning ==> job.progress == written_bytes(job.slots),
        job.state == JobState::Verifying || job.state == JobState::Done ==> job.progress
            == job.total,
{
    if job.state != JobState::Planning {
        lemma_written_bytes_bounds(job.slots);
        lemma_plan_tiles(job.supports_ranges, job.total, job.workers);
    }
}

/// The progress moves only when a write is reported for a chunk whose write
/// is under way: then by that chunk's size, and the job asks to advance the
/// progress sink by as much. A second report for the same chunk moves nothing.
pub proof fn lemma_progress_steps(job: JobView, event: Event)
    requires
        job.wf(),
    ensures
        match event {
            Event::Written { index } => if (job.state == JobState::Fetching || job.state
                == JobState::Writing) && job.expects(index, Phase::Writing) {
                &&& job.after(event).progress == job.progress + job.slots[index as int].chunk.size
                &&& job.response(event)[0] == (ActionView::Advance {
                    bytes: job.slots[index as int].chunk.size,
                })
                &&& !job.after(event).expects(index, Phase::Writing)
            } else {
                job.after(event) == job
            },
            _ => job.after(event).progress == job.progress,
        },
        forall|i: int|
            0 <= i < job.response(event).len() && job.response(event)[i] is Advance ==> i == 0
                && event is Written,
{
}

/// Under `DownloadThenSave` no write is asked for while a chunk is still to
/// be fetched. When the last one comes in, the write of every chunk is asked
/// for, in the order of the plan, each with a payload of its range's length.
pub proof fn lemma_then_save_writes_last(job: JobView, event: Event)
    requires
        job.wf(),
        job.policy == DownloadPolicy::DownloadThenSave,
    ensures
        any_in(job.after(event).slots, Phase::Requested) ==> forall|i: int|
            0 <= i < job.response(event).len() ==> !(#[trigger] job.response(event)[i] is Write),
        (exists|i: int|
            0 <= i < job.response(event).len() && #[trigger] job.response(event)[i] is Write) ==> {
            &&& all_in(job.after(event).slots, Phase::Writing)
            &&& job.response(event).len() == job.slots.len()
            &&& forall|i: int|
                0 <= i < job.response(event).len() ==> ((#[trigger] job.response(
                    event,
                )[i]) matches ActionView::Write { index, chunk } && index == i
                    && chunk.descriptor() == job.slots[i].chunk.descriptor()
                    && chunk.is_fetched())
        },
{
    if exists|i: int|
        0 <= i < job.response(event).len() && #[trigger] job.response(event)[i] is Write {
        match event {
            Event::Fetched { index, outcome } => {
                let chunk = fetched(job.slots[index as int].chunk, outcome).unwrap();
                let held = job.holding(index as int, chunk);
                assert(job.slots[index as int].phase == Phase::Requested);
                assert forall|k: int| 0 <= k < held.len() implies (#[trigger] held[k]).phase
                    == Phase::Held && held[k].chunk.is_fetched() by {
                    if k != index {
                        assert(held[k] == job.slots[k]);
                    }
                }
            },
            _ => {},
        }
    }
}

struct Slot {
    start: usize,
    size: usize,
    phase: Phase,
    held: Option<Chunk>,
    handed: Ghost<Seq<u8>>,
}

impl Slot {
    spec fn view(&self) -> SlotView {
        SlotView {
            chunk: ChunkView {
                start: self.start as nat,
                size: self.size as nat,
                data: match self.held {
                    Some(chunk) => chunk@.data,
                    None => self.handed@,
                },
            },
            phase: self.phase,
        }
    }

    /// The range fits the machine word, and a payload is held exactly in the
    /// phase `Held`, for this range.
    spec fn sound(&self) -> bool {
        &&& self.start + self.size <= usize::MAX
        &&& self.held.is_some() == (self.phase == Phase::Held)
        &&& self.held matches Some(chunk) ==> chunk@.start == self.start && chunk@.size
            == self.size
    }
}

spec fn slot_views(slots: Seq<Slot>) -> Seq<SlotView> {
    Seq::new(slots.len(), |i: int| slots[i].view())
}

spec fn all_sound(slots: Seq<Slot>) -> bool {
    forall|i: int| 0 <= i < slots.len() ==> (#[trigger] slots[i]).sound()
}

/// The job of one resource.
pub struct Job {
    policy: DownloadPolicy,
    workers: usize,
    state: JobState,
    supports_ranges: bool,
    total: usize,
    slots: Vec<Slot>,
    progress: usize,
    error: Option<DownloadError>,
}

impl View for Job {
    type V = JobView;

    closed spec fn view(&self) -> JobView {
        JobView {
            policy: self.policy,
            workers: self.workers as nat,
            state: self.state,
            supports_ranges: self.supports_ranges,
            total: self.total as nat,
            slots: slot_views(self.slots@),
            progress: self.progress as nat,
            error: self.error,
        }
    }
}

/// Whether some chunk stands in the phase.
fn some_in(slots: &Vec<Slot>, phase: Phase) -> (r: bool)
    ensures
        r == any_in(slot_views(slots@), phase),
{
    let mut i: usize = 0;
    while i < slots.len()
        invariant
            i <= slots.len(),
            forall|k: int| 0 <= k < i ==> (#[trigger] slot_views(slots@)[k]).phase != phase,
        decreases slots.len() - i,
    {
        if slots[i].phase == phase {
            assert(slot_views(slots@)[i as int].phase == phase);
            return true;
        }
        i = i + 1;
    }
    false
}

/// Whether all chunks stand in the phase.
fn every_in(slots: &Vec<Slot>, phase: Phase) -> (r: bool)
    ensures
        r == all_in(slot_views(slots@), phase),
{
    let mut i: usize = 0;
    while i < slots.len()
        invariant
            i <= slots.len(),
            forall|k: int| 0 <= k < i ==> (#[trigger] slot_views(slots@)[k]).phase == phase,
        decreases slots.len() - i,
    {
        if slots[i].phase != phase {
            assert(slot_views(slots@)[i as int].phase != phase);
            return false;
        }
        i = i + 1;
    }
    true
}

/// The state of a job whose chunks stand as given.
fn state_of(slots: &Vec<Slot>) -> (s: JobState)
    ensures
        s == transfer_state(slot_views(slots@)),
{
    if some_in(slots, Phase::Requested) {
        JobState::Fetching
    } else if every_in(slots, Phase::Written) {
        JobState::Verifying
    } else {
        JobState::Writing
    }
}

impl Job {
    #[verifier::type_invariant]
    spec fn inv(&self) -> bool {
        &&& self@.wf()
        &&& all_sound(self.slots@)
    }

    /// A job that waits for its probe.
    pub fn new(policy: DownloadPolicy, workers: usize) -> (job: Job)
        requires
            workers >= 1,
        ensures
            job@ == JobView::fresh(policy, workers as nat),
            job@.wf(),
    {
        let job = Job {
            policy,
            workers,
            state: JobState::Planning,
            supports_ranges: false,
            total: 0,
            slots: Vec::new(),
            progress: 0,
            error: None,
        };
        assert(job@.slots =~= Seq::<SlotView>::empty());
        job
    }

    pub fn state(&self) -> (s: JobState)
        ensures
            s == self@.state,
            self@.wf(),
    {
        proof {
            use_type_invariant(self);
        }
        self.state
    }

    pub fn policy(&self) -> (p: DownloadPolicy)
        ensures
            p == self@.policy,
    {
        self.policy
    }

    pub fn workers(&self) -> (n: usize)
        ensures
            n == self@.workers,
    {
        self.workers
    }

    /// The size of the resource, once the probe has told it.
    pub fn total(&self) -> (n: usize)
        ensures
            n == self@.total,
    {
        self.total
    }

    /// The number of bytes that are in the file.
    pub fn progress(&self) -> (n: usize)
        ensures
            n == self@.progress,
    {
        self.progress
    }

    /// Why the job failed, if it did.
    pub fn error(&self) -> (e: Option<DownloadError>)
        ensures
            e == self@.error,
    {
        self.error
    }

    /// How the job ended, once it has.
    pub fn result(&self) -> (r: Option<Result<(), DownloadError>>)
        ensures
            self@.wf(),
            r == match self@.state {
                JobState::Done => Some(Ok::<(), DownloadError>(())),
                JobState::Failed => Some(Err::<(), _>(self@.error.unwrap())),
                _ => None,
            },
    {
        proof {
            use_type_invariant(self);
        }
        match self.state {
            JobState::Done => Some(Ok(())),
            JobState::Failed => match self.error {
                Some(error) => Some(Err(error)),
                None => None,
            },
            _ => None,
        }
    }

    /// What a job asks for before it has been told anything: the probe.
    pub fn start(&self) -> (actions: Vec<Action>)
        ensures
            action_views(actions@) == if self@.state == JobState::Planning {
                seq![ActionView::Probe]
            } else {
                Seq::empty()
            },
    {
        let mut actions: Vec<Action> = Vec::new();
        if self.state == JobState::Planning {
            actions.push(Action::Probe);
        }
        assert(action_views(actions@) =~= if self@.state == JobState::Planning {
            seq![ActionView::Probe]
        } else {
            Seq::empty()
        });
        actions
    }

    fn fail(self, error: DownloadError) -> (job: Job)
        ensures
            job@ == self@.failed(error),
    {
        proof {
            use_type_invariant(&self);
        }
        let job = Job {
            policy: self.policy,
            workers: self.workers,
            state: JobState::Failed,
            supports_ranges: self.supports_ranges,
            total: self.total,
            slots: Vec::new(),
            progress: self.progress,
            error: Some(error),
        };
        assert(job@.slots =~= Seq::<SlotView>::empty());
        job
    }

    fn plan(self, metadata: ResourceMetadata) -> (r: (Job, Vec<Action>))
        requires
            self@.state == JobState::Planning,
        ensures
            r.0@ == self@.planned(metadata),
            action_views(r.1@) == seq![ActionView::Open { total: metadata.total_bytes as nat }]
                + requests(
                plan(metadata.supports_ranges, metadata.total_bytes as nat, self@.workers),
            ),
    {
        proof {
            use_type_invariant(&self);
            lemma_after_wf(self@, Event::Probed(metadata));
        }
        let ghost chunks = plan(
            metadata.supports_ranges,
            metadata.total_bytes as nat,
            self.workers as nat,
        );
        let planned = Chunks::new(&metadata, self.workers).chunks();
        let mut slots: Vec<Slot> = Vec::new();
        let mut actions: Vec<Action> = Vec::new();
        actions.push(Action::Open { total: metadata.total_bytes });
        let mut i: usize = 0;
        while i < planned.len()
            invariant
                i <= planned.len(),
                views(planned@) == chunks,
                chunks == plan(
                    metadata.supports_ranges,
                    metadata.total_bytes as nat,
                    self.workers as nat,
                ),
                slots.len() == i,
                actions.len() == i + 1,
                actions[0]@ == (ActionView::Open { total: metadata.total_bytes as nat }),
                all_sound(slots@),
                forall|k: int|
                    0 <= k < i ==> (#[trigger] slots[k]).view() == (SlotView {
                        chunk: chunks[k],
                        phase: Phase::Requested,
                    }),
                forall|k: int|
                    0 <= k < i ==> (#[trigger] actions[k + 1])@ == (ActionView::Fetch {
                        index: k as nat,
                        chunk: chunks[k],
                    }),
            decreases planned.len() - i,
        {
            let chunk = &planned[i];
            proof {
                lemma_plan_unfetched(
                    metadata.supports_ranges,
                    metadata.total_bytes as nat,
                    self.workers as nat,
                );
                assert(views(planned@)[i as int] == chunk@);
                assert(chunks[i as int].data == Seq::<u8>::empty());
            }
            let ghost before = slots@;
            slots.push(
                Slot {
                    start: chunk.start(),
                    size: chunk.chunk_size(),
                    phase: Phase::Requested,
                    held: None,
                    handed: Ghost(Seq::empty()),
                },
            );
            actions.push(
                Action::Fetch { index: i, chunk: Chunk::new(chunk.start(), chunk.chunk_size()) },
            );
            proof {
                assert(slots[i as int].view() == (SlotView {
                    chunk: chunks[i as int],
                    phase: Phase::Requested,
                }));
                assert forall|k: int| 0 <= k < i implies (#[trigger] slots[k]).view() == (SlotView {
                    chunk: chunks[k],
                    phase: Phase::Requested,
                }) by {
                    assert(slots[k] == before[k]);
                }
            }
            i = i + 1;
        }
        let ghost next = self@.planned(metadata);
        assert(slot_views(slots@) =~= next.slots);
        assert(action_views(actions@) =~= seq![
            ActionView::Open { total: metadata.total_bytes as nat },
        ] + requests(chunks)) by {
            let want = seq![ActionView::Open { total: metadata.total_bytes as nat }] + requests(
                chunks,
            );
            assert forall|k: int| 0 <= k < actions.len() implies action_views(actions@)[k]
                == want[k] by {
                if k > 0 {
                    assert(actions[(k - 1) + 1]@ == want[k]);
                }
            }
        }
        let job = Job {
            policy: self.policy,
            workers: self.workers,
            state: JobState::Fetching,
            supports_ranges: metadata.supports_ranges,
            total: metadata.total_bytes,
            slots,
            progress: self.progress,
            error: self.error,
        };
        (job, actions)
    }

    /// Hands every held chunk to its write.
    fn release(slots: &mut Vec<Slot>) -> (actions: Vec<Action>)
        requires
            all_sound(old(slots)@),
            all_in(slot_views(old(slots)@), Phase::Held),
        ensures
            all_sound(final(slots)@),
            slot_views(final(slots)@) == released(slot_views(old(slots)@)),
            action_views(actions@) == writes(slot_views(old(slots)@)),
    {
        let ghost held = slots@;
        let mut actions: Vec<Action> = Vec::new();
        let mut i: usize = 0;
        while i < slots.len()
            invariant
                i <= slots.len(),
                slots.len() == held.len(),
                actions.len() == i,
                all_sound(held),
                all_in(slot_views(held), Phase::Held),
                forall|k: int| i <= k < slots.len() ==> slots[k] == held[k],
                forall|k: int|
                    0 <= k < i ==> (#[trigger] slots[k]).sound() && slots[k].view() == released(
                        slot_views(held),
                    )[k],
                forall|k: int|
                    0 <= k < i ==> (#[trigger] actions[k])@ == writes(slot_views(held))[k],
            decreases slots.len() - i,
        {
            let ghost before = slots@;
            let ghost done = actions@;
            assert(held[i as int].sound());
            assert(slot_views(held)[i as int].phase == Phase::Held);
            let slot = &mut slots[i];
            let taken = slot.held.take();
            let chunk = taken.unwrap();
            slot.phase = Phase::Writing;
            slot.handed = Ghost(chunk@.data);
            actions.push(Action::Write { index: i, chunk });
            proof {
                assert forall|k: int| 0 <= k < i implies (#[trigger] slots[k]).sound()
                    && slots[k].view() == released(slot_views(held))[k] by {
                    assert(slots[k] == before[k]);
                }
                assert forall|k: int| 0 <= k < i implies (#[trigger] actions[k])@ == writes(
                    slot_views(held),
                )[k] by {
                    assert(actions[k] == done[k]);
                }
                assert forall|k: int| i < k < slots.len() implies slots[k] == held[k] by {
                    assert(slots[k] == before[k]);
                }
            }
            i = i + 1;
        }
        assert(slot_views(slots@) =~= released(slot_views(held)));
        assert(action_views(actions@) =~= writes(slot_views(held)));
        actions
    }

    fn take_in(self, index: usize, outcome: FetchOutcome) -> (r: (Job, Vec<Action>))
        requires
            self@.state == JobState::Fetching || self@.state == JobState::Writing,
        ensures
            r.0@ == self@.after(Event::Fetched { index, outcome }),
            action_views(r.1@) == self@.response(Event::Fetched { index, outcome }),
    {
        let ghost event = Event::Fetched { index, outcome };
        let ghost pre = self@;
        proof {
            use_type_invariant(&self);
            lemma_after_wf(pre, event);
        }
        if index >= self.slots.len() {
            return (self, Vec::new());
        }
        if self.slots[index].phase != Phase::Requested {
            return (self, Vec::new());
        }
        let start = self.slots[index].start;
        let size = self.slots[index].size;
        assert(self.slots[index as int].sound());
        assert(pre.slots[index as int] == self.slots[index as int].view());
        match Chunk::new(start, size).download(outcome) {
            Err(error) => (self.fail(error), Vec::new()),
            Ok(chunk) => {
                let Job {
                    policy,
                    workers,
                    state,
                    supports_ranges,
                    total,
                    mut slots,
                    progress,
                    error,
                } = self;
                let ghost payload = chunk@;
                match policy {
                    DownloadPolicy::DownloadAndSave => {
                        slots.set(
                            index,
                            Slot {
                                start,
                                size,
                                phase: Phase::Writing,
                                held: None,
                                handed: Ghost(payload.data),
                            },
                        );
                        let mut actions: Vec<Action> = Vec::new();
                        actions.push(Action::Write { index, chunk });
                        assert(slot_views(slots@) =~= pre.with_fetched(
                            index as int,
                            payload,
                        ).slots);
                        assert(action_views(actions@) =~= pre.response(event));
                        let state = state_of(&slots);
                        (
                            Job {
                                policy,
                                workers,
                                state,
                                supports_ranges,
                                total,
                                slots,
                                progress,
                                error,
                            },
                            actions,
                        )
                    },
                    DownloadPolicy::DownloadThenSave => {
                        slots.set(
                            index,
                            Slot {
                                start,
                                size,
                                phase: Phase::Held,
                                held: Some(chunk),
                                handed: Ghost(Seq::empty()),
                            },
                        );
                        assert(slot_views(slots@) =~= pre.holding(index as int, payload));
                        if some_in(&slots, Phase::Requested) {
                            (
                                Job {
                                    policy,
                                    workers,
                                    state,
                                    supports_ranges,
                                    total,
                                    slots,
                                    progress,
                                    error,
                                },
                                Vec::new(),
                            )
                        } else {
                            proof {
                                let held = pre.holding(index as int, payload);
                                assert(pre.slots[index as int].phase == Phase::Requested);
                                assert forall|k: int| 0 <= k < held.len() implies (
                                #[trigger] held[k]).phase == Phase::Held by {
                                    if k != index {
                                        assert(held[k] == pre.slots[k]);
                                    }
                                }
                            }
                            let actions = Job::release(&mut slots);
                            (
                                Job {
                                    policy,
                                    workers,
                                    state: JobState::Writing,
                                    supports_ranges,
                                    total,
                                    slots,
                                    progress,
                                    error,
                                },
                                actions,
                            )
                        }
                    },
                }
            },
        }
    }

    fn commit(self, index: usize) -> (r: (Job, Vec<Action>))
        requires
            self@.state == JobState::Fetching || self@.state == JobState::Writing,
        ensures
            r.0@ == self@.after(Event::Written { index }),
            action_views(r.1@) == self@.response(Event::Written { index }),
    {
        let ghost event = Event::Written { index };
        let ghost pre = self@;
        proof {
            use_type_invariant(&self);
            lemma_after_wf(pre, event);
        }
        if index >= self.slots.len() {
            return (self, Vec::new());
        }
        if self.slots[index].phase != Phase::Writing {
            return (self, Vec::new());
        }
        let start = self.slots[index].start;
        let size = self.slots[index].size;
        let handed = self.slots[index].handed;
        assert(self.slots[index as int].sound());
        assert(pre.slots[index as int] == self.slots[index as int].view());
        let Job { policy, workers, state, supports_ranges, total, mut slots, progress, error } =
            self;
        slots.set(index, Slot { start, size, phase: Phase::Written, held: None, handed });
        let ghost next = pre.with_written(index as int);
        assert(slot_views(slots@) =~= next.slots);
        proof {
            lemma_written_bytes_bounds(next.slots);
            lemma_plan_tiles(supports_ranges, total as nat, workers as nat);
        }
        let progress = progress + size;
        let mut actions: Vec<Action> = Vec::new();
        actions.push(Action::Advance { bytes: size });
        let state = state_of(&slots);
        if state == JobState::Verifying {
            actions.push(Action::Sync);
        }
        proof {
            if all_in(next.slots, Phase::Written) {
                assert forall|k: int| 0 <= k < next.slots.len() implies (
                #[trigger] next.slots[k]).phase != Phase::Requested by {}
            }
            assert(action_views(actions@) =~= pre.response(event));
        }
        (Job { policy, workers, state, supports_ranges, total, slots, progress, error }, actions)
    }

    fn settle(self, file_size: u64) -> (job: Job)
        requires
            self@.state == JobState::Verifying,
        ensures
            job@ == self@.after(Event::Synced { file_size }),
    {
        proof {
            use_type_invariant(&self);
            lemma_after_wf(self@, Event::Synced { file_size });
        }
        if file_size == self.total as u64 {
            Job {
                policy: self.policy,
                workers: self.workers,
                state: JobState::Done,
                supports_ranges: self.supports_ranges,
                total: self.total,
                slots: self.slots,
                progress: self.progress,
                error: self.error,
            }
        } else {
            let expected = self.total;
            self.fail(DownloadError::IncompleteDownload { expected, on_disk: file_size })
        }
    }

    /// Tells the job of an event. Returns the job as it stands afterwards and
    /// what is to be done now.
    pub fn handle(self, event: Event) -> (r: (Job, Vec<Action>))
        ensures
            r.0@ == self@.after(event),
            action_views(r.1@) == self@.response(event),
            r.0@.wf(),
    {
        proof {
            use_type_invariant(&self);
            lemma_after_wf(self@, event);
        }
        match self.state {
            JobState::Planning => match event {
                Event::Probed(metadata) => self.plan(metadata),
                Event::ProbeFailed => (
                    self.fail(DownloadError::MetadataProbeFailed),
                    Vec::new(),
                ),
                _ => (self, Vec::new()),
            },
            JobState::Fetching | JobState::Writing => match event {
                Event::Fetched { index, outcome } => self.take_in(index, outcome),
                Event::Written { index } => self.commit(index),
                Event::IoFailed => (self.fail(DownloadError::IOError), Vec::new()),
                _ => (self, Vec::new()),
            },
            JobState::Verifying => match event {
                Event::Synced { file_size } => (self.settle(file_size), Vec::new()),
                Event::IoFailed => (self.fail(DownloadError::IOError), Vec::new()),
                _ => (self, Vec::new()),
            },
            JobState::Done | JobState::Failed => (self, Vec::new()),
        }
    }
}

} // verus!
