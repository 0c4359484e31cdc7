//! When a sequence of byte ranges covers a resource exactly, and what follows
//! from that.

use vstd::prelude::*;
use crate::chunk::ChunkView;

verus! {

/// The sizes of the ranges, added up.
pub open spec fn total_size(s: Seq<ChunkView>) -> nat
    decreases s.len(),
{
    if s.len() == 0 {
        0
    } else {
        total_size(s.drop_last()) + s.last().size
    }
}

/// No range starts before one that stands earlier in the sequence.
pub open spec fn sorted_by_start(s: Seq<ChunkView>) -> bool {
    forall|i: int, j: int| 0 <= i <= j < s.len() ==> s[i].start <= s[j].start
}

/// Each range ends where the next one starts.
pub open spec fn contiguous(s: Seq<ChunkView>) -> bool {
    forall|i: int, j: int|
        #![trigger s[i], s[j]]
        0 <= i && j == i + 1 && j < s.len() ==> s[i].end() == s[j].start
}

/// No two ranges share an offset.
pub open spec fn pairwise_disjoint(s: Seq<ChunkView>) -> bool {
    forall|i: int, j: int|
        #![trigger s[i], s[j]]
        0 <= i < j < s.len() ==> s[i].end() <= s[j].start || s[j].end() <= s[i].start
}

/// The ranges cover `[0, total)` exactly, in order: the first starts at 0,
/// each ends where the next starts, the last ends at `total`. No range is
/// empty, except the single empty range of a resource of size 0.
pub open spec fn tiles(s: Seq<ChunkView>, total: nat) -> bool {
    &&& s.len() > 0
    &&& s[0].start == 0
    &&& contiguous(s)
    &&& s.last().end() == total
    &&& total == 0 ==> s.len() == 1
    &&& total > 0 ==> forall|i: int| 0 <= i < s.len() ==> (#[trigger] s[i]).size > 0
}

/// In a contiguous sequence the sizes add up to the distance from the first
/// start to the last end.
pub proof fn lemma_contiguous_total_size(s: Seq<ChunkView>)
    requires
        s.len() > 0,
        contiguous(s),
    ensures
        s[0].start + total_size(s) == s.last().end(),
    decreases s.len(),
{
    let front = s.drop_last();
    if front.len() == 0 {
        assert(total_size(front) == 0);
    } else {
        assert forall|i: int, j: int|
            #![trigger front[i], front[j]]
            0 <= i && j == i + 1 && j < front.len() implies front[i].end() == front[j].start by {
            assert(front[i] == s[i] && front[j] == s[j]);
        }
        lemma_contiguous_total_size(front);
        let k = s.len() - 2;
        assert(front.last() == s[k]);
        assert(s[k].end() == s[k + 1].start);
    }
}

/// In a contiguous sequence a later range starts no earlier than an earlier
/// one ends.
pub proof fn lemma_contiguous_ordered(s: Seq<ChunkView>, i: int, j: int)
    requires
        contiguous(s),
        0 <= i < j < s.len(),
    ensures
        s[i].end() <= s[j].start,
    decreases j - i,
{
    if j == i + 1 {
        assert(s[i].end() == s[j].start);
    } else {
        lemma_contiguous_ordered(s, i, j - 1);
        assert(s[j - 1].end() == s[j].start);
    }
}

/// The sizes of an exact cover add up to the size of the resource.
pub proof fn lemma_tiles_total_size(s: Seq<ChunkView>, total: nat)
    requires
        tiles(s, total),
    ensures
        total_size(s) == total,
{
    lemma_contiguous_total_size(s);
}

/// An exact cover is sorted by start and its ranges do not overlap.
pub proof fn lemma_tiles_sorted_disjoint(s: Seq<ChunkView>, total: nat)
    requires
        tiles(s, total),
    ensures
        sorted_by_start(s),
        pairwise_disjoint(s),
{
    assert forall|i: int, j: int| 0 <= i <= j < s.len() implies s[i].start <= s[j].start by {
        if i < j {
            lemma_contiguous_ordered(s, i, j);
        }
    }
    assert forall|i: int, j: int|
        #![trigger s[i], s[j]]
        0 <= i < j < s.len() implies s[i].end() <= s[j].start || s[j].end() <= s[i].start by {
        lemma_contiguous_ordered(s, i, j);
    }
}

/// Chunks with the ranges of an exact cover, in the same order, are an exact
/// cover too, whatever payloads they hold.
pub proof fn lemma_same_ranges_tile(cover: Seq<ChunkView>, other: Seq<ChunkView>, total: nat)
    requires
        tiles(cover, total),
        other.len() == cover.len(),
        forall|i: int|
            0 <= i < cover.len() ==> (#[trigger] other[i]).start == cover[i].start
                && other[i].size == cover[i].size,
    ensures
        tiles(other, total),
{
    assert(other.last() == other[other.len() - 1]);
    assert(cover.last() == cover[cover.len() - 1]);
    assert forall|i: int, j: int|
        #![trigger other[i], other[j]]
        0 <= i && j == i + 1 && j < other.len() implies other[i].end() == other[j].start by {
        assert(cover[i].end() == cover[j].start);
    }
    if total > 0 {
        assert forall|i: int| 0 <= i < other.len() implies (#[trigger] other[i]).size > 0 by {
            assert(cover[i].size > 0);
        }
    }
}

} // verus!
