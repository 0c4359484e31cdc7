//! What writes at offsets do to a file, and an image of a file in memory.
//!
//! A write at an offset replaces the bytes that it covers. Where it reaches
//! past the end, the file grows; where it starts past the end, the gap reads
//! as zeros. A write of no bytes changes nothing.

use vstd::prelude::*;
use vstd::seq_lib::*;
use crate::chunk::ChunkView;
use crate::tiling::{contiguous, pairwise_disjoint, tiles};

verus! {

/// The bytes of a file after `data` was written at `offset`.
pub open spec fn write_at(file: Seq<u8>, offset: nat, data: Seq<u8>) -> Seq<u8> {
    if data.len() == 0 {
        file
    } else {
        Seq::new(
            if file.len() >= offset + data.len() {
                file.len()
            } else {
                offset + data.len()
            },
            |i: int|
                if offset <= i < offset + data.len() {
                    data[i - offset]
                } else if i < file.len() {
                    file[i]
                } else {
                    0u8
                },
        )
    }
}

/// The bytes of a file after the chunks were written one after the other,
/// each at its start.
pub open spec fn write_all(file: Seq<u8>, chunks: Seq<ChunkView>) -> Seq<u8>
    decreases chunks.len(),
{
    if chunks.len() == 0 {
        file
    } else {
        write_at(write_all(file, chunks.drop_last()), chunks.last().start, chunks.last().data)
    }
}

/// Every chunk's payload is as long as its range.
pub open spec fn all_fetched(chunks: Seq<ChunkView>) -> bool {
    forall|k: int| 0 <= k < chunks.len() ==> (#[trigger] chunks[k]).is_fetched()
}

/// Some chunk's range holds the offset.
pub open spec fn covered(chunks: Seq<ChunkView>, i: int) -> bool {
    exists|k: int| 0 <= k < chunks.len() && (#[trigger] chunks[k]).start <= i < chunks[k].end()
}

/// What a file holds after chunks with disjoint ranges were written to it,
/// said without their order: an offset that a chunk covers holds that chunk's
/// byte, any other holds what the file held before, or zero past its old end;
/// and the file ends where it ended before or where the furthest chunk ends.
pub proof fn lemma_write_all_bytes(file: Seq<u8>, chunks: Seq<ChunkView>)
    requires
        pairwise_disjoint(chunks),
        all_fetched(chunks),
    ensures
        write_all(file, chunks).len() >= file.len(),
        forall|k: int|
            0 <= k < chunks.len() && (#[trigger] chunks[k]).size > 0 ==> write_all(
                file,
                chunks,
            ).len() >= chunks[k].end(),
        write_all(file, chunks).len() == file.len() || exists|k: int|
            0 <= k < chunks.len() && (#[trigger] chunks[k]).size > 0 && write_all(
                file,
                chunks,
            ).len() == chunks[k].end(),
        forall|k: int, i: int|
            #![trigger chunks[k], write_all(file, chunks)[i]]
            0 <= k < chunks.len() && chunks[k].start <= i < chunks[k].end() ==> write_all(
                file,
                chunks,
            )[i] == chunks[k].data[i - chunks[k].start],
        forall|i: int|
            0 <= i < write_all(file, chunks).len() && !covered(chunks, i) ==> #[trigger] write_all(
                file,
                chunks,
            )[i] == if i < file.len() {
                file[i]
            } else {
                0u8
            },
    decreases chunks.len(),
{
    if chunks.len() > 0 {
        let front = chunks.drop_last();
        let last = chunks.last();
        let n = chunks.len() - 1;
        let prev = write_all(file, front);
        let out = write_all(file, chunks);
        assert(last == chunks[n]);
        assert forall|a: int, b: int|
            #![trigger front[a], front[b]]
            0 <= a < b < front.len() implies front[a].end() <= front[b].start || front[b].end()
            <= front[a].start by {
            assert(front[a] == chunks[a] && front[b] == chunks[b]);
        }
        assert forall|k: int| 0 <= k < front.len() implies (#[trigger] front[k]).is_fetched() by {
            assert(front[k] == chunks[k]);
        }
        lemma_write_all_bytes(file, front);
        assert forall|k: int| 0 <= k < chunks.len() && (#[trigger] chunks[k]).size > 0 implies out.len()
            >= chunks[k].end() by {
            if k < n {
                assert(front[k] == chunks[k]);
            }
        }
        assert(out.len() == file.len() || exists|k: int|
            0 <= k < chunks.len() && (#[trigger] chunks[k]).size > 0 && out.len()
                == chunks[k].end()) by {
            if out.len() != file.len() {
                if last.size > 0 && out.len() == last.end() {
                    assert(chunks[n].size > 0 && out.len() == chunks[n].end());
                } else {
                    assert(out.len() == prev.len());
                    let k = choose|k: int|
                        0 <= k < front.len() && (#[trigger] front[k]).size > 0 && prev.len()
                            == front[k].end();
                    assert(front[k] == chunks[k]);
                }
            }
        }
        assert forall|k: int, i: int|
            #![trigger chunks[k], out[i]]
            0 <= k < chunks.len() && chunks[k].start <= i < chunks[k].end() implies out[i]
            == chunks[k].data[i - chunks[k].start] by {
            if k < n {
                assert(front[k] == chunks[k]);
                assert(chunks[k].end() <= chunks[n].start || chunks[n].end() <= chunks[k].start);
                assert(prev[i] == front[k].data[i - front[k].start]);
            }
        }
        assert forall|i: int| 0 <= i < out.len() && !covered(chunks, i) implies #[trigger] out[i]
            == if i < file.len() {
            file[i]
        } else {
            0u8
        } by {
            assert(!(chunks[n].start <= i < chunks[n].end()));
            if covered(front, i) {
                let k = choose|k: int|
                    0 <= k < front.len() && (#[trigger] front[k]).start <= i < front[k].end();
                assert(front[k] == chunks[k]);
            }
            if i < prev.len() {
                assert(out[i] == prev[i]);
            }
        }
    }
}

/// A sequence with the same chunks as one whose ranges are disjoint has
/// disjoint ranges too.
pub proof fn lemma_disjoint_in_any_order(a: Seq<ChunkView>, b: Seq<ChunkView>)
    requires
        a.to_multiset() == b.to_multiset(),
        pairwise_disjoint(a),
    ensures
        pairwise_disjoint(b),
    decreases a.len(),
{
    broadcast use group_to_multiset_ensures;

    if a.len() == 0 {
        assert(b.to_multiset().len() == 0);
    } else {
        let n = a.len() - 1;
        let last = a[n];
        assert(a.contains(last));
        assert(b.to_multiset().count(last) > 0);
        let at = b.index_of(last);
        let front = a.remove(n);
        let rest = b.remove(at);
        assert(front =~= a.drop_last());
        assert(front.to_multiset() =~= rest.to_multiset());
        assert forall|i: int, j: int|
            #![trigger front[i], front[j]]
            0 <= i < j < front.len() implies front[i].end() <= front[j].start || front[j].end()
            <= front[i].start by {
            assert(front[i] == a[i] && front[j] == a[j]);
        }
        lemma_disjoint_in_any_order(front, rest);
        assert forall|j: int| 0 <= j < b.len() && j != at implies (#[trigger] b[j]).end()
            <= last.start || last.end() <= b[j].start by {
            let r = if j < at {
                j
            } else {
                j - 1
            };
            assert(rest[r] == b[j]);
            assert(rest.contains(b[j]));
            assert(front.to_multiset().count(b[j]) > 0);
            let k = front.index_of(b[j]);
            assert(a[k] == b[j]);
            assert(a[k].end() <= a[n].start || a[n].end() <= a[k].start);
        }
        assert forall|i: int, j: int|
            #![trigger b[i], b[j]]
            0 <= i < j < b.len() implies b[i].end() <= b[j].start || b[j].end() <= b[i].start by {
            if i != at && j != at {
                let ri = if i < at {
                    i
                } else {
                    i - 1
                };
                let rj = if j < at {
                    j
                } else {
                    j - 1
                };
                assert(rest[ri] == b[i] && rest[rj] == b[j]);
            }
        }
    }
}

/// Chunks with disjoint ranges leave the same file in whatever order they
/// are written.
pub proof fn lemma_write_order(file: Seq<u8>, a: Seq<ChunkView>, b: Seq<ChunkView>)
    requires
        a.to_multiset() == b.to_multiset(),
        pairwise_disjoint(a),
        all_fetched(a),
    ensures
        write_all(file, a) == write_all(file, b),
{
    broadcast use group_to_multiset_ensures;

    lemma_disjoint_in_any_order(a, b);
    assert forall|k: int| 0 <= k < b.len() implies (#[trigger] b[k]).is_fetched() by {
        assert(b.contains(b[k]));
        assert(a.to_multiset().count(b[k]) > 0);
        let j = a.index_of(b[k]);
        assert(a[j].is_fetched());
    }
    lemma_write_all_bytes(file, a);
    lemma_write_all_bytes(file, b);
    let x = write_all(file, a);
    let y = write_all(file, b);
    lemma_same_chunks_same_file(file, a, b);
    lemma_same_chunks_same_file(file, b, a);
    assert(x.len() == y.len());
    assert forall|i: int| 0 <= i < x.len() implies x[i] == y[i] by {
        if covered(a, i) {
            let k = choose|k: int| 0 <= k < a.len() && (#[trigger] a[k]).start <= i < a[k].end();
            assert(a.contains(a[k]));
            assert(b.to_multiset().count(a[k]) > 0);
            let j = b.index_of(a[k]);
            assert(b[j] == a[k]);
            assert(y[i] == b[j].data[i - b[j].start]);
            assert(x[i] == a[k].data[i - a[k].start]);
        } else {
            if covered(b, i) {
                let j = choose|j: int|
                    0 <= j < b.len() && (#[trigger] b[j]).start <= i < b[j].end();
                assert(b.contains(b[j]));
                assert(a.to_multiset().count(b[j]) > 0);
                let k = a.index_of(b[j]);
                assert(a[k] == b[j]);
            }
        }
    }
    assert(x =~= y);
}

/// The file that one sequence of chunks leaves is at least as long as the
/// file that another sequence of the same chunks leaves.
proof fn lemma_same_chunks_same_file(file: Seq<u8>, a: Seq<ChunkView>, b: Seq<ChunkView>)
    requires
        a.to_multiset() == b.to_multiset(),
        pairwise_disjoint(a),
        all_fetched(a),
        pairwise_disjoint(b),
        all_fetched(b),
    ensures
        write_all(file, a).len() <= write_all(file, b).len(),
{
    broadcast use group_to_multiset_ensures;

    lemma_write_all_bytes(file, a);
    lemma_write_all_bytes(file, b);
    let x = write_all(file, a);
    if x.len() != file.len() {
        let k = choose|k: int|
            0 <= k < a.len() && (#[trigger] a[k]).size > 0 && x.len() == a[k].end();
        assert(a.contains(a[k]));
        assert(b.to_multiset().count(a[k]) > 0);
        let j = b.index_of(a[k]);
        assert(b[j] == a[k]);
    }
}

/// Once all chunks of an exact cover are written to an empty file, in
/// whatever order, the file is as long as the resource.
pub proof fn lemma_written_size(cover: Seq<ChunkView>, total: nat, order: Seq<ChunkView>)
    requires
        tiles(cover, total),
        all_fetched(cover),
        order.to_multiset() == cover.to_multiset(),
    ensures
        write_all(Seq::empty(), order).len() == total,
{
    crate::tiling::lemma_tiles_sorted_disjoint(cover, total);
    lemma_write_order(Seq::empty(), cover, order);
    lemma_write_all_bytes(Seq::empty(), cover);
    let out = write_all(Seq::empty(), cover);
    let last = cover.len() - 1;
    assert(cover.last() == cover[last]);
    if total > 0 {
        assert(cover[last].size > 0);
        if out.len() != 0 {
            let k = choose|k: int|
                0 <= k < cover.len() && (#[trigger] cover[k]).size > 0 && out.len()
                    == cover[k].end();
            if k < last {
                crate::tiling::lemma_contiguous_ordered(cover, k, last);
            }
        }
    } else {
        assert(cover[0].size == 0);
    }
}

/// Every offset between the first start and the last end of a contiguous
/// sequence lies in one of its ranges.
pub proof fn lemma_contiguous_covers(s: Seq<ChunkView>, i: int)
    requires
        s.len() > 0,
        contiguous(s),
        s[0].start <= i < s.last().end(),
    ensures
        covered(s, i),
    decreases s.len(),
{
    let n = s.len() - 1;
    assert(s.last() == s[n]);
    if s[n].start <= i {
        assert(s[n].start <= i < s[n].end());
    } else {
        let front = s.drop_last();
        assert forall|a: int, b: int|
            #![trigger front[a], front[b]]
            0 <= a && b == a + 1 && b < front.len() implies front[a].end() == front[b].start by {
            assert(front[a] == s[a] && front[b] == s[b]);
        }
        assert(n > 0);
        assert(front.last() == s[n - 1]);
        assert(s[n - 1].end() == s[n].start);
        assert(front[0] == s[0]);
        lemma_contiguous_covers(front, i);
        let k = choose|k: int|
            0 <= k < front.len() && (#[trigger] front[k]).start <= i < front[k].end();
        assert(front[k] == s[k]);
    }
}

/// Where each chunk of an exact cover holds the bytes of its range of the
/// resource, writing the chunks to an empty file, in whatever order, gives the
/// resource again, byte for byte.
pub proof fn lemma_reassembled(resource: Seq<u8>, cover: Seq<ChunkView>, order: Seq<ChunkView>)
    requires
        tiles(cover, resource.len()),
        forall|k: int|
            0 <= k < cover.len() ==> (#[trigger] cover[k]).data == resource.subrange(
                cover[k].start as int,
                cover[k].end() as int,
            ),
        order.to_multiset() == cover.to_multiset(),
    ensures
        write_all(Seq::empty(), order) == resource,
{
    let total = resource.len();
    crate::tiling::lemma_tiles_sorted_disjoint(cover, total);
    assert(cover.last() == cover[cover.len() - 1]);
    assert forall|k: int| 0 <= k < cover.len() implies (#[trigger] cover[k]).is_fetched() by {
        if k < cover.len() - 1 {
            crate::tiling::lemma_contiguous_ordered(cover, k, cover.len() - 1);
        }
    }
    lemma_written_size(cover, total, order);
    lemma_write_order(Seq::empty(), cover, order);
    lemma_write_all_bytes(Seq::empty(), cover);
    let out = write_all(Seq::empty(), cover);
    assert forall|i: int| 0 <= i < total implies out[i] == resource[i] by {
        lemma_contiguous_covers(cover, i);
        let k = choose|k: int|
            0 <= k < cover.len() && (#[trigger] cover[k]).start <= i < cover[k].end();
        assert(out[i] == cover[k].data[i - cover[k].start]);
    }
    assert(out =~= resource);
}

/// The bytes of a file, held in memory.
pub struct FileImage {
    content: Vec<u8>,
}

impl View for FileImage {
    type V = Seq<u8>;

    closed spec fn view(&self) -> Seq<u8> {
        self.content@
    }
}

impl FileImage {
    /// An empty file.
    pub fn new() -> (file: FileImage)
        ensures
            file@ == Seq::<u8>::empty(),
    {
        FileImage { content: Vec::new() }
    }

    /// The size of the file.
    pub fn len(&self) -> (n: usize)
        ensures
            n == self@.len(),
    {
        self.content.len()
    }

    /// The bytes of the file.
    pub fn data(&self) -> (d: &Vec<u8>)
        ensures
            d@ == self@,
    {
        &self.content
    }

    /// Writes `data` at `offset`.
    pub fn write_at(&mut self, offset: usize, data: &[u8])
        requires
            offset + data@.len() <= usize::MAX,
        ensures
            final(self)@ == write_at(old(self)@, offset as nat, data@),
    {
        let n = data.len();
        if n == 0 {
            return ;
        }
        let end = offset + n;
        while self.content.len() < end
            invariant
                old(self)@.len() <= self.content.len(),
                self.content.len() <= end || self.content.len() == old(self)@.len(),
                forall|i: int| 0 <= i < old(self)@.len() ==> self.content[i] == old(self)@[i],
                forall|i: int| old(self)@.len() <= i < self.content.len() ==> self.content[i] == 0u8,
            decreases end - self.content.len(),
        {
            self.content.push(0u8);
        }
        let ghost grown = self.content@;
        let mut k: usize = 0;
        while k < n
            invariant
                k <= n,
                n == data@.len(),
                end == offset + n,
                self.content.len() == grown.len(),
                end <= grown.len(),
                grown.len() == end || grown.len() == old(self)@.len(),
                old(self)@.len() <= grown.len(),
                forall|i: int| 0 <= i < old(self)@.len() ==> grown[i] == old(self)@[i],
                forall|i: int| old(self)@.len() <= i < grown.len() ==> grown[i] == 0u8,
                forall|i: int| offset <= i < offset + k ==> self.content[i] == data@[i - offset],
                forall|i: int|
                    0 <= i < grown.len() && !(offset <= i < offset + k) ==> self.content[i]
                        == grown[i],
            decreases n - k,
        {
            self.content.set(offset + k, data[k]);
            k = k + 1;
        }
        let ghost want = write_at(old(self)@, offset as nat, data@);
        assert(want.len() == grown.len());
        assert forall|i: int| 0 <= i < want.len() implies self@[i] == want[i] by {
            if !(offset <= i < offset + n) {
                assert(self@[i] == grown[i]);
            }
        }
        assert(self@ =~= want);
    }
}

} // verus!
