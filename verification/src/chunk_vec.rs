//! The fetched chunks of one resource.

use vstd::prelude::*;
use vstd::seq_lib::*;
use crate::chunk::{Chunk, ChunkView};
use crate::chunks::views;
use crate::error::DownloadError;
use crate::file_image::{all_fetched, write_all, FileImage};
use crate::tiling::{
    lemma_contiguous_ordered, lemma_tiles_total_size, sorted_by_start, tiles, total_size,
};

verus! {

/// What a set of chunks is: the chunks in the order in which they are held,
/// and the size of the resource that they belong to.
pub struct ChunkVecView {
    pub chunks: Seq<ChunkView>,
    pub total: nat,
}

impl ChunkVecView {
    /// The chunks are all that the resource has: in the order in which they
    /// are held they cover it exactly, and each holds its payload.
    pub open spec fn complete(self) -> bool {
        tiles(self.chunks, self.total) && all_fetched(self.chunks)
    }
}

pub struct ChunkVec {
    chunks: Vec<Chunk>,
    total: usize,
}

impl View for ChunkVec {
    type V = ChunkVecView;

    closed spec fn view(&self) -> ChunkVecView {
        ChunkVecView { chunks: views(self.chunks@), total: self.total as nat }
    }
}

/// `sort_by_key` on a vector, with a chunk's start as the key: afterwards the
/// vector holds the same chunks as before, none of them starting before an
/// earlier one.
#[verifier::external_body]
fn sort_by_start(chunks: &mut Vec<Chunk>)
    ensures
        views(final(chunks)@).to_multiset() == views(old(chunks)@).to_multiset(),
        sorted_by_start(views(final(chunks)@)),
{
    chunks.sort_by_key(|c| c.start());
}

/// The sizes add up to the same in whatever order the chunks stand.
pub proof fn lemma_total_size_in_any_order(a: Seq<ChunkView>, b: Seq<ChunkView>)
    requires
        a.to_multiset() == b.to_multiset(),
    ensures
        total_size(a) == total_size(b),
{
    let add = |sum: nat, c: ChunkView| sum + c.size;
    lemma_total_size_is_fold(a);
    lemma_total_size_is_fold(b);
    lemma_fold_left_permutation(a, b, add, 0);
}

proof fn lemma_total_size_is_fold(s: Seq<ChunkView>)
    ensures
        total_size(s) == s.fold_left(0nat, |sum: nat, c: ChunkView| sum + c.size),
    decreases s.len(),
{
    if s.len() > 0 {
        lemma_total_size_is_fold(s.drop_last());
    }
}

/// A set of chunks from which one chunk of an exact cover is missing does not
/// cover the resource, in whatever order it stands.
pub proof fn lemma_dropped_chunk(
    cover: Seq<ChunkView>,
    total: nat,
    dropped: ChunkView,
    rest: Seq<ChunkView>,
)
    requires
        tiles(cover, total),
        rest.to_multiset().insert(dropped) == cover.to_multiset(),
    ensures
        !tiles(rest, total),
{
    broadcast use group_to_multiset_ensures;

    if tiles(rest, total) {
        let whole = rest.push(dropped);
        assert(whole.to_multiset() =~= cover.to_multiset());
        lemma_total_size_in_any_order(whole, cover);
        assert(whole.drop_last() =~= rest);
        lemma_tiles_total_size(cover, total);
        lemma_tiles_total_size(rest, total);
        assert(dropped.size == 0);
        assert(cover.to_multiset().count(dropped) > 0);
        assert(cover.contains(dropped));
        let k = cover.index_of(dropped);
        assert(cover[k].size == 0);
        assert(cover.to_multiset().len() == cover.len());
        assert(rest.to_multiset().len() == rest.len());
    }
}

/// A set of chunks in which one chunk of an exact cover stands twice does
/// not cover the resource, in whatever order it stands.
pub proof fn lemma_duplicated_chunk(
    cover: Seq<ChunkView>,
    total: nat,
    twice: ChunkView,
    more: Seq<ChunkView>,
)
    requires
        tiles(cover, total),
        cover.contains(twice),
        more.to_multiset() == cover.to_multiset().insert(twice),
    ensures
        !tiles(more, total),
{
    broadcast use group_to_multiset_ensures;

    if tiles(more, total) {
        let whole = cover.push(twice);
        assert(whole.to_multiset() =~= more.to_multiset());
        lemma_total_size_in_any_order(whole, more);
        assert(whole.drop_last() =~= cover);
        lemma_tiles_total_size(cover, total);
        lemma_tiles_total_size(more, total);
        assert(twice.size == 0);
        let k = cover.index_of(twice);
        assert(cover[k].size == 0);
        assert(cover.to_multiset().len() == cover.len());
        assert(more.to_multiset().len() == more.len());
    }
}

/// Each range starts after the one before it.
pub open spec fn strictly_sorted(s: Seq<ChunkView>) -> bool {
    forall|i: int, j: int| 0 <= i < j < s.len() ==> s[i].start < s[j].start
}

/// Chunks whose starts all differ stand in one order only when sorted by
/// start.
pub proof fn lemma_sorted_order_is_unique(sorted: Seq<ChunkView>, strict: Seq<ChunkView>)
    requires
        sorted_by_start(sorted),
        strictly_sorted(strict),
        sorted.to_multiset() == strict.to_multiset(),
    ensures
        sorted == strict,
    decreases strict.len(),
{
    broadcast use group_to_multiset_ensures;

    assert(sorted.to_multiset().len() == sorted.len());
    assert(strict.to_multiset().len() == strict.len());
    if strict.len() > 0 {
        let n = strict.len() - 1;
        let top = strict[n];
        let end = sorted[n];
        assert(strict.contains(top));
        assert(sorted.to_multiset().count(top) > 0);
        let j = sorted.index_of(top);
        assert(sorted.contains(end));
        assert(strict.to_multiset().count(end) > 0);
        let k = strict.index_of(end);
        assert(sorted[j].start <= sorted[n].start);
        assert(k == n);
        assert(sorted.remove(n) =~= sorted.drop_last());
        assert(strict.remove(n) =~= strict.drop_last());
        assert(sorted.drop_last().to_multiset() =~= strict.drop_last().to_multiset());
        assert forall|a: int, b: int| 0 <= a <= b < sorted.drop_last().len() implies sorted.drop_last()[a].start
            <= sorted.drop_last()[b].start by {
            assert(sorted.drop_last()[a] == sorted[a] && sorted.drop_last()[b] == sorted[b]);
        }
        assert forall|a: int, b: int| 0 <= a < b < strict.drop_last().len() implies strict.drop_last()[a].start
            < strict.drop_last()[b].start by {
            assert(strict.drop_last()[a] == strict[a] && strict.drop_last()[b] == strict[b]);
        }
        lemma_sorted_order_is_unique(sorted.drop_last(), strict.drop_last());
        assert(sorted =~= sorted.drop_last().push(end));
        assert(strict =~= strict.drop_last().push(top));
    }
    assert(sorted =~= strict);
}

/// The chunks of an exact cover, in whatever order they were collected, are
/// that cover again once they are sorted by start.
pub proof fn lemma_sorted_cover(cover: Seq<ChunkView>, total: nat, sorted: Seq<ChunkView>)
    requires
        tiles(cover, total),
        sorted_by_start(sorted),
        sorted.to_multiset() == cover.to_multiset(),
    ensures
        sorted == cover,
{
    broadcast use group_to_multiset_ensures;

    if total > 0 {
        assert forall|i: int, j: int| 0 <= i < j < cover.len() implies cover[i].start
            < cover[j].start by {
            lemma_contiguous_ordered(cover, i, j);
            assert(cover[i].size > 0);
        }
    }
    lemma_sorted_order_is_unique(sorted, cover);
}

impl ChunkVec {
    /// The chunks as they are, for a resource of the given size.
    pub fn new(chunks: Vec<Chunk>, total: usize) -> (set: ChunkVec)
        ensures
            set@ == (ChunkVecView { chunks: views(chunks@), total: total as nat }),
    {
        ChunkVec { chunks, total }
    }

    pub fn chunks(&self) -> (chunks: &Vec<Chunk>)
        ensures
            views(chunks@) == self@.chunks,
    {
        &self.chunks
    }

    pub fn total(&self) -> (total: usize)
        ensures
            total == self@.total,
    {
        self.total
    }

    /// Writes every chunk into the file, in the order in which they are held.
    pub fn save(self, file: &mut FileImage)
        ensures
            final(file)@ == write_all(old(file)@, self@.chunks),
    {
        let mut i: usize = 0;
        while i < self.chunks.len()
            invariant
                i <= self.chunks.len(),
                file@ == write_all(old(file)@, self@.chunks.take(i as int)),
            decreases self.chunks.len() - i,
        {
            self.chunks[i].save(file);
            proof {
                let done = self@.chunks.take(i as int + 1);
                assert(done.drop_last() =~= self@.chunks.take(i as int));
                assert(done.last() == self.chunks[i as int]@);
            }
            i = i + 1;
        }
        assert(self@.chunks.take(i as int) =~= self@.chunks);
    }

    /// Whether the chunks, in the order in which they are held, are complete.
    pub fn is_complete(&self) -> (b: bool)
        ensures
            b == self@.complete(),
    {
        let n = self.chunks.len();
        let ghost s = self@.chunks;
        if n == 0 {
            return false;
        }
        if self.chunks[0].start() != 0 {
            assert(s[0] == self.chunks[0]@);
            return false;
        }
        if self.total == 0 && n != 1 {
            return false;
        }
        let mut i: usize = 0;
        while i < n
            invariant
                i <= n,
                n == self.chunks.len(),
                s == views(self.chunks@),
                s == self@.chunks,
                forall|k: int| 0 <= k < i ==> (#[trigger] s[k]).is_fetched(),
                self.total > 0 ==> forall|k: int| 0 <= k < i ==> (#[trigger] s[k]).size > 0,
                forall|a: int, b: int|
                    #![trigger s[a], s[b]]
                    0 <= a && b == a + 1 && b < n && a < i ==> s[a].end() == s[b].start,
                i == n ==> s[n - 1].end() == self.total,
            decreases n - i,
        {
            let chunk = &self.chunks[i];
            assert(s[i as int] == chunk@);
            if chunk.data().len() != chunk.chunk_size() {
                return false;
            }
            if self.total > 0 && chunk.chunk_size() == 0 {
                return false;
            }
            let end = chunk.end();
            if i + 1 < n {
                assert(s[i as int + 1] == self.chunks[i as int + 1]@);
                if self.chunks[i + 1].start() != end {
                    return false;
                }
            } else {
                if end != self.total {
                    assert(s.last() == s[n - 1]);
                    return false;
                }
            }
            i = i + 1;
        }
        assert(s.last() == s[n - 1]);
        true
    }

    /// Sorts the chunks by start and checks that they are complete.
    pub fn verify(&mut self) -> (r: Result<(), DownloadError>)
        ensures
            final(self)@.total == old(self)@.total,
            final(self)@.chunks.to_multiset() == old(self)@.chunks.to_multiset(),
            sorted_by_start(final(self)@.chunks),
            final(self)@.complete() ==> r.is_ok(),
            !final(self)@.complete() ==> r == Err::<(), _>(DownloadError::IncompleteChunks),
    {
        sort_by_start(&mut self.chunks);
        if self.is_complete() {
            Ok(())
        } else {
            Err(DownloadError::IncompleteChunks)
        }
    }
}

} // verus!
