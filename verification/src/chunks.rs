//! The plan of a download: into which byte ranges a resource is cut.

use vstd::prelude::*;
use vstd::arithmetic::div_mod::*;
use vstd::arithmetic::mul::*;
use crate::chunk::{fetched, Chunk, ChunkView, FetchOutcome};
use crate::chunk_vec::{ChunkVec, ChunkVecView};
use crate::error::DownloadError;
use crate::file_image::{all_fetched, lemma_written_size, write_all, FileImage};
use crate::metadata::ResourceMetadata;
use crate::tiling::{
    lemma_same_ranges_tile, lemma_tiles_sorted_disjoint, lemma_tiles_total_size,
    pairwise_disjoint, sorted_by_start, tiles, total_size,
};

verus! {

/// A resource of fewer bytes than this, 4 MiB, is fetched with one request.
pub const SINGLE_SHOT_THRESHOLD: usize = 4194304;

/// `a / b`, rounded up.
pub open spec fn ceil_div(a: nat, b: nat) -> nat
    recommends
        b > 0,
{
    if a % b == 0 {
        a / b
    } else {
        a / b + 1
    }
}

/// The size of all chunks but the last: the whole resource where ranges are
/// not supported or the resource is small, else the size divided by the number
/// of workers, rounded up.
pub open spec fn planned_chunk_size(supports_ranges: bool, total: nat, workers: nat) -> nat {
    if !supports_ranges || total < SINGLE_SHOT_THRESHOLD {
        total
    } else {
        ceil_div(total, workers)
    }
}

/// The ranges that cover `[from, total)` in steps of `step`; the last one is
/// cut to fit.
pub open spec fn stride(from: nat, total: nat, step: nat) -> Seq<ChunkView> {
    Seq::new(
        ceil_div((total - from) as nat, step),
        |i: int|
            ChunkView {
                start: (from + i * step) as nat,
                size: vstd::math::min(step as int, total - from - i * step) as nat,
                data: Seq::empty(),
            },
    )
}

/// The ranges of a resource, in order. A resource of size 0 has one empty
/// range.
pub open spec fn plan(supports_ranges: bool, total: nat, workers: nat) -> Seq<ChunkView> {
    if total == 0 {
        seq![ChunkView { start: 0, size: 0, data: Seq::empty() }]
    } else {
        stride(0, total, planned_chunk_size(supports_ranges, total, workers))
    }
}

/// `ceil_div(a, b)` is the least count of steps of `b` that reach `a`.
pub proof fn lemma_ceil_div_bounds(a: nat, b: nat)
    requires
        a > 0,
        b > 0,
    ensures
        ceil_div(a, b) >= 1,
        (ceil_div(a, b) - 1) * b < a <= ceil_div(a, b) * b,
{
    let q = a as int / b as int;
    let r = a as int % b as int;
    lemma_fundamental_div_mod(a as int, b as int);
    lemma_mod_pos_bound(a as int, b as int);
    assert(b * q == q * b) by (nonlinear_arith);
    assert((q - 1) * b == q * b - b) by (nonlinear_arith);
    assert((q + 1) * b == q * b + b) by (nonlinear_arith);
    if q <= 0 {
        assert(q * b <= 0) by (nonlinear_arith)
            requires
                q <= 0,
                b > 0,
        ;
    }
}

/// The count of steps is determined by the two bounds.
pub proof fn lemma_ceil_div_unique(a: nat, b: nat, n: nat)
    requires
        b > 0,
        n >= 1,
        (n - 1) * b < a <= n * b,
    ensures
        ceil_div(a, b) == n,
{
    let rest = a - (n - 1) * b;
    assert(n * b == (n - 1) * b + b) by (nonlinear_arith);
    if rest == b {
        assert(a == n * b + 0);
        lemma_fundamental_div_mod_converse(a as int, b as int, n as int, 0);
    } else {
        lemma_fundamental_div_mod_converse(a as int, b as int, n - 1, rest);
    }
}

/// No more chunks are planned than there are workers.
pub proof fn lemma_plan_len(supports_ranges: bool, total: nat, workers: nat)
    requires
        workers >= 1,
    ensures
        1 <= plan(supports_ranges, total, workers).len() <= workers,
{
    if total > 0 {
        let step = planned_chunk_size(supports_ranges, total, workers);
        if step == total {
            lemma_ceil_div_unique(total, total, 1);
        } else {
            lemma_ceil_div_bounds(total, workers);
            lemma_ceil_div_bounds(total, step);
            let n = ceil_div(total, step);
            assert(n - 1 < workers) by (nonlinear_arith)
                requires
                    (n - 1) * step < total,
                    total <= step * workers,
                    step > 0,
            ;
        }
    }
}

/// Striding from 0 covers the resource exactly.
pub proof fn lemma_stride_tiles(total: nat, step: nat)
    requires
        total > 0,
        step > 0,
    ensures
        tiles(stride(0, total, step), total),
{
    let s = stride(0, total, step);
    let n = ceil_div(total, step);
    lemma_ceil_div_bounds(total, step);
    assert(s.len() == n);
    assert(0 * step == 0) by (nonlinear_arith);
    assert forall|i: int, j: int|
        #![trigger s[i], s[j]]
        0 <= i && j == i + 1 && j < s.len() implies s[i].end() == s[j].start by {
        assert((i + 1) * step == i * step + step) by (nonlinear_arith);
        lemma_mul_inequality(j, n - 1, step as int);
    }
    assert(s.last() == s[n - 1]);
    assert(n * step == (n - 1) * step + step) by (nonlinear_arith);
    assert forall|i: int| 0 <= i < s.len() implies (#[trigger] s[i]).size > 0 by {
        lemma_mul_inequality(i, n - 1, step as int);
    }
}

/// The planned ranges are sorted, start at 0, leave no gap and do not
/// overlap, and their sizes add up to the size of the resource.
pub proof fn lemma_plan_tiles(supports_ranges: bool, total: nat, workers: nat)
    requires
        workers >= 1,
    ensures
        tiles(plan(supports_ranges, total, workers), total),
        sorted_by_start(plan(supports_ranges, total, workers)),
        pairwise_disjoint(plan(supports_ranges, total, workers)),
        total_size(plan(supports_ranges, total, workers)) == total,
{
    let s = plan(supports_ranges, total, workers);
    if total > 0 {
        let step = planned_chunk_size(supports_ranges, total, workers);
        if step != total {
            lemma_ceil_div_bounds(total, workers);
        }
        lemma_stride_tiles(total, step);
    }
    lemma_tiles_total_size(s, total);
    lemma_tiles_sorted_disjoint(s, total);
}

/// The chunks of a plan carry no payload.
pub proof fn lemma_plan_unfetched(supports_ranges: bool, total: nat, workers: nat)
    ensures
        forall|i: int|
            0 <= i < plan(supports_ranges, total, workers).len() ==> (#[trigger] plan(
                supports_ranges,
                total,
                workers,
            )[i]).data == Seq::<u8>::empty(),
{
}

/// Below the threshold, or where the server does not support ranges, the plan
/// is one range that covers the whole resource, whatever the number of workers.
pub proof fn lemma_single_shot(supports_ranges: bool, total: nat, workers: nat)
    requires
        !supports_ranges || total < SINGLE_SHOT_THRESHOLD,
    ensures
        plan(supports_ranges, total, workers) == seq![
            ChunkView { start: 0, size: total, data: Seq::empty() },
        ],
{
    if total > 0 {
        lemma_ceil_div_unique(total, total, 1);
        assert(0 * total == 0) by (nonlinear_arith);
        assert(plan(supports_ranges, total, workers) =~= seq![
            ChunkView { start: 0, size: total, data: Seq::empty() },
        ]);
    }
}

/// The chunks that come in before the first failure, with their payloads,
/// when the outcomes of the fetches are taken in the order of the plan.
pub open spec fn accepted(chunks: Seq<ChunkView>, outcomes: Seq<FetchOutcome>) -> Seq<ChunkView>
    decreases chunks.len(),
{
    if chunks.len() == 0 || outcomes.len() == 0 {
        Seq::empty()
    } else {
        match fetched(chunks[0], outcomes[0]) {
            Ok(chunk) => seq![chunk] + accepted(chunks.skip(1), outcomes.skip(1)),
            Err(_) => Seq::empty(),
        }
    }
}

/// The first failure among the fetches, in the order of the plan.
pub open spec fn first_failure(chunks: Seq<ChunkView>, outcomes: Seq<FetchOutcome>) -> Option<
    DownloadError,
>
    decreases chunks.len(),
{
    if chunks.len() == 0 || outcomes.len() == 0 {
        None
    } else {
        match fetched(chunks[0], outcomes[0]) {
            Ok(_) => first_failure(chunks.skip(1), outcomes.skip(1)),
            Err(error) => Some(error),
        }
    }
}

/// What the check of the file's size says.
pub open spec fn size_checked(total: nat, file_size: nat) -> Result<(), DownloadError> {
    if file_size == total {
        Ok(())
    } else {
        Err(
            DownloadError::IncompleteDownload {
                expected: total as usize,
                on_disk: file_size as u64,
            },
        )
    }
}

/// Where no fetch fails, every chunk comes in with the range that was planned
/// for it and a payload of that length.
pub proof fn lemma_accepted_all(chunks: Seq<ChunkView>, outcomes: Seq<FetchOutcome>)
    requires
        chunks.len() == outcomes.len(),
        first_failure(chunks, outcomes).is_none(),
    ensures
        accepted(chunks, outcomes).len() == chunks.len(),
        all_fetched(accepted(chunks, outcomes)),
        forall|i: int|
            0 <= i < chunks.len() ==> (#[trigger] accepted(chunks, outcomes)[i]).start
                == chunks[i].start && accepted(chunks, outcomes)[i].size == chunks[i].size,
    decreases chunks.len(),
{
    if chunks.len() > 0 {
        lemma_accepted_all(chunks.skip(1), outcomes.skip(1));
        let rest = accepted(chunks.skip(1), outcomes.skip(1));
        let all = accepted(chunks, outcomes);
        assert forall|i: int| 0 <= i < chunks.len() implies (#[trigger] all[i]).start
            == chunks[i].start && all[i].size == chunks[i].size && all[i].is_fetched() by {
            if i > 0 {
                assert(all[i] == rest[i - 1]);
                assert(chunks.skip(1)[i - 1] == chunks[i]);
            }
        }
    }
}

/// Where no fetch fails, the chunks that come in cover the resource exactly,
/// and once they are written to an empty file, in whatever order, the file
/// has the size of the resource.
pub proof fn lemma_complete_download(
    supports_ranges: bool,
    total: nat,
    workers: nat,
    outcomes: Seq<FetchOutcome>,
    order: Seq<ChunkView>,
)
    requires
        workers >= 1,
        outcomes.len() == plan(supports_ranges, total, workers).len(),
        first_failure(plan(supports_ranges, total, workers), outcomes).is_none(),
        order.to_multiset() == accepted(
            plan(supports_ranges, total, workers),
            outcomes,
        ).to_multiset(),
    ensures
        tiles(accepted(plan(supports_ranges, total, workers), outcomes), total),
        all_fetched(accepted(plan(supports_ranges, total, workers), outcomes)),
        write_all(Seq::empty(), order).len() == total,
{
    let chunks = plan(supports_ranges, total, workers);
    let got = accepted(chunks, outcomes);
    lemma_plan_tiles(supports_ranges, total, workers);
    lemma_accepted_all(chunks, outcomes);
    lemma_same_ranges_tile(chunks, got, total);
    lemma_written_size(got, total, order);
}

/// Where a plan stands: the start of the next chunk, the size of the resource,
/// the size of a full chunk, and whether the last chunk has been handed out.
pub struct ChunksView {
    pub start: nat,
    pub total: nat,
    pub chunk_size: nat,
    pub done: bool,
}

impl ChunksView {
    /// The chunks that are still to come, in order.
    pub open spec fn remaining(self) -> Seq<ChunkView> {
        if self.done {
            Seq::empty()
        } else if self.total == 0 {
            seq![ChunkView { start: 0, size: 0, data: Seq::empty() }]
        } else {
            stride(self.start, self.total, self.chunk_size)
        }
    }
}

/// The plan of one resource, handed out chunk by chunk. It holds plain
/// numbers only, so a copy of it gives the same chunks again.
#[derive(Debug, Clone, Copy)]
pub struct Chunks {
    start: usize,
    total: usize,
    chunk_size: usize,
    done: bool,
}

impl View for Chunks {
    type V = ChunksView;

    closed spec fn view(&self) -> ChunksView {
        ChunksView {
            start: self.start as nat,
            total: self.total as nat,
            chunk_size: self.chunk_size as nat,
            done: self.done,
        }
    }
}

/// What the chunks of a vector are, in order.
pub open spec fn views(v: Seq<Chunk>) -> Seq<ChunkView> {
    Seq::new(v.len(), |i: int| v[i]@)
}

impl Chunks {
    #[verifier::type_invariant]
    spec fn well_formed(&self) -> bool {
        !self.done ==> (self.total == 0 && self.start == 0 && self.chunk_size == 0) || (self.start
            < self.total && self.chunk_size > 0)
    }

    pub fn start(&self) -> (s: usize)
        ensures
            s == self@.start,
    {
        self.start
    }

    pub fn total(&self) -> (t: usize)
        ensures
            t == self@.total,
    {
        self.total
    }

    pub fn chunk_size(&self) -> (n: usize)
        ensures
            n == self@.chunk_size,
    {
        self.chunk_size
    }

    /// Plans the download of a resource for a number of workers.
    pub fn new(metadata: &ResourceMetadata, workers: usize) -> (c: Chunks)
        requires
            workers >= 1,
        ensures
            c@ == (ChunksView {
                start: 0,
                total: metadata.total_bytes as nat,
                chunk_size: planned_chunk_size(
                    metadata.supports_ranges,
                    metadata.total_bytes as nat,
                    workers as nat,
                ),
                done: false,
            }),
            c@.remaining() == plan(
                metadata.supports_ranges,
                metadata.total_bytes as nat,
                workers as nat,
            ),
            tiles(c@.remaining(), metadata.total_bytes as nat),
            c@.remaining().len() <= workers,
    {
        let total = metadata.total_bytes;
        proof {
            lemma_plan_tiles(metadata.supports_ranges, total as nat, workers as nat);
            lemma_plan_len(metadata.supports_ranges, total as nat, workers as nat);
        }
        if !metadata.supports_ranges || total < SINGLE_SHOT_THRESHOLD {
            Chunks { start: 0, total, chunk_size: total, done: false }
        } else {
            proof {
                lemma_ceil_div_bounds(total as nat, workers as nat);
                let n = ceil_div(total as nat, workers as nat);
                assert(n - 1 <= (n - 1) * workers) by (nonlinear_arith)
                    requires
                        n >= 1,
                        workers >= 1,
                ;
            }
            let chunk_size = if total % workers == 0 {
                total / workers
            } else {
                total / workers + 1
            };
            Chunks { start: 0, total, chunk_size, done: false }
        }
    }

    /// Hands out the next chunk of the plan, if one is left.
    pub fn next(&mut self) -> (r: Option<Chunk>)
        ensures
            old(self)@.remaining().len() == 0 ==> r.is_none() && final(self)@ == old(self)@,
            old(self)@.remaining().len() > 0 ==> r.is_some() && r.unwrap()@ == old(
                self,
            )@.remaining()[0] && final(self)@.remaining() == old(self)@.remaining().skip(1),
            final(self)@.total == old(self)@.total,
            final(self)@.chunk_size == old(self)@.chunk_size,
            r matches Some(chunk) ==> final(self)@.start == chunk@.end() && final(self)@.done == (
            chunk@.end() >= old(self)@.total),
    {
        proof {
            use_type_invariant(&*self);
        }
        if self.done {
            return None;
        }
        let left = self.total - self.start;
        let size = if self.chunk_size < left {
            self.chunk_size
        } else {
            left
        };
        let chunk = Chunk::new(self.start, size);
        proof {
            let from = self.start as nat;
            let total = self.total as nat;
            let step = self.chunk_size as nat;
            if total > 0 {
                lemma_ceil_div_bounds((total - from) as nat, step);
                assert(0 * step == 0) by (nonlinear_arith);
                if size < left {
                    lemma_ceil_div_bounds((total - from - step) as nat, step);
                    let m = ceil_div((total - from - step) as nat, step);
                    assert(((m + 1) - 1) * step == (m - 1) * step + step) by (nonlinear_arith);
                    assert((m + 1) * step == m * step + step) by (nonlinear_arith);
                    lemma_ceil_div_unique((total - from) as nat, step, m + 1);
                    let next = stride((from + step) as nat, total, step);
                    let rest = stride(from, total, step).skip(1);
                    assert(next.len() == rest.len());
                    assert forall|i: int| 0 <= i < next.len() implies next[i] == rest[i] by {
                        assert((i + 1) * step == i * step + step) by (nonlinear_arith);
                    }
                    assert(next =~= rest);
                } else {
                    lemma_ceil_div_unique((total - from) as nat, step, 1);
                    assert(stride(from, total, step).skip(1) =~= Seq::<ChunkView>::empty());
                }
            } else {
                assert(old(self)@.remaining().skip(1) =~= Seq::<ChunkView>::empty());
            }
        }
        let start = self.start + size;
        *self = Chunks {
            start,
            total: self.total,
            chunk_size: self.chunk_size,
            done: start >= self.total,
        };
        Some(chunk)
    }

    /// All chunks that are still to come, in order. The plan itself is left
    /// as it is.
    pub fn chunks(&self) -> (v: Vec<Chunk>)
        ensures
            views(v@) == self@.remaining(),
    {
        let mut it = *self;
        let mut v: Vec<Chunk> = Vec::new();
        loop
            invariant
                views(v@) + it@.remaining() == self@.remaining(),
            ensures
                it@.remaining().len() == 0,
                views(v@) + it@.remaining() == self@.remaining(),
            decreases it@.remaining().len(),
        {
            let ghost before = it@.remaining();
            let ghost seen = views(v@);
            match it.next() {
                None => {
                    break ;
                },
                Some(chunk) => {
                    v.push(chunk);
                    assert(views(v@) =~= seen.push(before[0]));
                    assert(seen.push(before[0]) + before.skip(1) =~= seen + before);
                },
            }
        }
        assert(views(v@) + it@.remaining() =~= views(v@));
        v
    }

    /// Compares the size that the output file has after all writes with the
    /// size of the resource.
    pub fn verify(&self, file_size: u64) -> (r: Result<(), DownloadError>)
        ensures
            r == size_checked(self@.total, file_size as nat),
    {
        if self.total as u64 == file_size {
            Ok(())
        } else {
            Err(DownloadError::IncompleteDownload { expected: self.total, on_disk: file_size })
        }
    }

    /// Takes in the outcomes of the fetches of all chunks that are still to
    /// come, one for each chunk, in the order of the plan. Gives the fetched
    /// chunks, or the first failure.
    pub fn download(self, outcomes: Vec<FetchOutcome>) -> (r: Result<ChunkVec, DownloadError>)
        requires
            outcomes@.len() == self@.remaining().len(),
        ensures
            match first_failure(self@.remaining(), outcomes@) {
                Some(error) => r matches Err(e) && e == error,
                None => r matches Ok(set) && set@ == (ChunkVecView {
                    chunks: accepted(self@.remaining(), outcomes@),
                    total: self@.total,
                }),
            },
    {
        let ghost chunks = self@.remaining();
        let ghost given = outcomes@;
        let mut it = self;
        let mut pending = outcomes;
        let mut got: Vec<Chunk> = Vec::new();
        let mut i: usize = 0;
        proof {
            assert(chunks.skip(0) =~= chunks);
            assert(given.skip(0) =~= given);
            assert(views(got@) + accepted(chunks, given) =~= accepted(chunks, given));
        }
        loop
            invariant
                chunks == self@.remaining(),
                given == outcomes@,
                given.len() == chunks.len(),
                pending.len() == given.len(),
                i <= chunks.len(),
                it@.remaining() == chunks.skip(i as int),
                forall|k: int| i <= k < pending.len() ==> pending[k] == given[k],
                first_failure(chunks, given) == first_failure(
                    chunks.skip(i as int),
                    given.skip(i as int),
                ),
                accepted(chunks, given) == views(got@) + accepted(
                    chunks.skip(i as int),
                    given.skip(i as int),
                ),
            ensures
                i == chunks.len(),
                first_failure(chunks, given).is_none(),
                accepted(chunks, given) == views(got@),
            decreases chunks.len() - i,
        {
            let ghost left = chunks.skip(i as int);
            let ghost owed = given.skip(i as int);
            match it.next() {
                None => {
                    assert(accepted(left, owed) =~= Seq::<ChunkView>::empty());
                    assert(views(got@) + accepted(left, owed) =~= views(got@));
                    break ;
                },
                Some(chunk) => {
                    let mut outcome = FetchOutcome::TransportFailed;
                    std::mem::swap(&mut pending[i], &mut outcome);
                    assert(outcome == given[i as int]);
                    assert(owed[0] == given[i as int]);
                    assert(left[0] == chunk@);
                    assert(left.skip(1) =~= chunks.skip(i as int + 1));
                    assert(owed.skip(1) =~= given.skip(i as int + 1));
                    let ghost seen = views(got@);
                    match chunk.download(outcome) {
                        Err(error) => {
                            assert(first_failure(left, owed) == Some(error));
                            return Err(error);
                        },
                        Ok(fetched_chunk) => {
                            got.push(fetched_chunk);
                            assert(views(got@) =~= seen + seq![fetched_chunk@]);
                            assert(seen + (seq![fetched_chunk@] + accepted(
                                left.skip(1),
                                owed.skip(1),
                            )) =~= (seen + seq![fetched_chunk@]) + accepted(
                                left.skip(1),
                                owed.skip(1),
                            ));
                        },
                    }
                    i = i + 1;
                },
            }
        }
        Ok(ChunkVec::new(got, self.total))
    }

    /// Runs a whole download on the outcomes of the fetches, with a file in
    /// memory: takes in all chunks, then writes them all, then checks the
    /// file's size. Where a fetch has failed, nothing is written.
    pub fn download_then_save(self, outcomes: Vec<FetchOutcome>, file: &mut FileImage) -> (r:
        Result<(), DownloadError>)
        requires
            outcomes@.len() == self@.remaining().len(),
        ensures
            match first_failure(self@.remaining(), outcomes@) {
                Some(error) => r == Err::<(), _>(error) && final(file)@ == old(file)@,
                None => final(file)@ == write_all(
                    old(file)@,
                    accepted(self@.remaining(), outcomes@),
                ) && r == size_checked(self@.total, final(file)@.len()),
            },
    {
        match self.download(outcomes) {
            Err(error) => Err(error),
            Ok(set) => {
                set.save(file);
                self.verify(file.len() as u64)
            },
        }
    }

    /// Runs a whole download on the outcomes of the fetches, with a file in
    /// memory: takes in each chunk and writes it at once, in the order of the
    /// plan, then checks the file's size. The chunks before the first failure
    /// are written, that chunk and the later ones are not.
    pub fn download_and_save(self, outcomes: Vec<FetchOutcome>, file: &mut FileImage) -> (r:
        Result<(), DownloadError>)
        requires
            outcomes@.len() == self@.remaining().len(),
        ensures
            final(file)@ == write_all(old(file)@, accepted(self@.remaining(), outcomes@)),
            r == match first_failure(self@.remaining(), outcomes@) {
                Some(error) => Err::<(), _>(error),
                None => size_checked(self@.total, final(file)@.len()),
            },
    {
        let ghost chunks = self@.remaining();
        let ghost given = outcomes@;
        let ghost all = accepted(chunks, given);
        let mut it = self;
        let mut pending = outcomes;
        let ghost mut done: Seq<ChunkView> = Seq::empty();
        let mut i: usize = 0;
        proof {
            assert(chunks.skip(0) =~= chunks);
            assert(given.skip(0) =~= given);
            assert(done + all =~= all);
        }
        loop
            invariant
                chunks == self@.remaining(),
                given == outcomes@,
                all == accepted(chunks, given),
                given.len() == chunks.len(),
                pending.len() == given.len(),
                i <= chunks.len(),
                it@.remaining() == chunks.skip(i as int),
                forall|k: int| i <= k < pending.len() ==> pending[k] == given[k],
                first_failure(chunks, given) == first_failure(
                    chunks.skip(i as int),
                    given.skip(i as int),
                ),
                all == done + accepted(chunks.skip(i as int), given.skip(i as int)),
                file@ == write_all(old(file)@, done),
            ensures
                first_failure(chunks, given).is_none(),
                file@ == write_all(old(file)@, all),
            decreases chunks.len() - i,
        {
            let ghost left = chunks.skip(i as int);
            let ghost owed = given.skip(i as int);
            match it.next() {
                None => {
                    assert(accepted(left, owed) =~= Seq::<ChunkView>::empty());
                    assert(done + accepted(left, owed) =~= done);
                    break ;
                },
                Some(chunk) => {
                    let mut outcome = FetchOutcome::TransportFailed;
                    std::mem::swap(&mut pending[i], &mut outcome);
                    assert(outcome == given[i as int]);
                    assert(owed[0] == given[i as int]);
                    assert(left[0] == chunk@);
                    assert(left.skip(1) =~= chunks.skip(i as int + 1));
                    assert(owed.skip(1) =~= given.skip(i as int + 1));
                    match chunk.download(outcome) {
                        Err(error) => {
                            assert(first_failure(left, owed) == Some(error));
                            assert(accepted(left, owed) =~= Seq::<ChunkView>::empty());
                            assert(done + accepted(left, owed) =~= done);
                            return Err(error);
                        },
                        Ok(fetched_chunk) => {
                            fetched_chunk.save(file);
                            proof {
                                let next = done.push(fetched_chunk@);
                                assert(next.drop_last() =~= done);
                                assert(done + (seq![fetched_chunk@] + accepted(
                                    left.skip(1),
                                    owed.skip(1),
                                )) =~= next + accepted(left.skip(1), owed.skip(1)));
                                done = next;
                            }
                        },
                    }
                    i = i + 1;
                },
            }
        }
        self.verify(file.len() as u64)
    }
}

} // verus!
