//! Walks the postings of one term across its ordered chunks, decoding each
//! chunk's doc ids and frequencies when the walk reaches it.
use crate::chunk::Chunk;
use crate::compressor::decodable;
use vstd::prelude::*;

verus! {

#[derive(Debug)]
pub struct ChunkIterator {
    pub chunks: Vec<Chunk>,
    pub current_chunk_index: usize,
    pub current_doc_id_index: usize,
}

/// A chunk whose stored lists, where not yet decoded, can be decoded.
pub open spec fn chunk_ready(c: Chunk) -> bool {
    &&& c.compressed_doc_ids@.len() > 0 ==> decodable(c.codec(), c.compressed_doc_ids@)
    &&& c.compressed_doc_frequencies@.len() > 0 ==> decodable(
        c.codec(),
        c.compressed_doc_frequencies@,
    )
}

/// The number of postings the chunks hold.
pub open spec fn total_postings(chunks: Seq<Chunk>) -> int
    decreases chunks.len(),
{
    if chunks.len() == 0 {
        0
    } else {
        total_postings(chunks.drop_last()) + chunks.last().no_of_postings
    }
}

/// Each chunk holds at most 255 postings.
proof fn lemma_total_postings_bounds(chunks: Seq<Chunk>)
    ensures
        0 <= total_postings(chunks) <= 255 * chunks.len(),
    decreases chunks.len(),
{
    if chunks.len() > 0 {
        lemma_total_postings_bounds(chunks.drop_last());
    }
}

/// A decoded chunk whose doc ids are all there, ascending, and end at its `max_doc_id`.
pub open spec fn chunk_consistent(c: Chunk) -> bool {
    &&& c.doc_ids@.len() == c.no_of_postings
    &&& c.doc_ids@.len() > 0
    &&& c.doc_ids@.last() == c.max_doc_id
    &&& forall|i: int, j: int| 0 <= i < j < c.doc_ids@.len() ==> c.doc_ids@[i] < c.doc_ids@[j]
}

impl ChunkIterator {
    /// Every chunk can be decoded.
    pub open spec fn ready(&self) -> bool {
        forall|k: int| 0 <= k < self.chunks@.len() ==> #[trigger] chunk_ready(self.chunks@[k])
    }

    /// The iterator stands on a decoded posting.
    pub open spec fn at_posting(&self) -> bool {
        &&& self.current_chunk_index < self.chunks@.len()
        &&& self.current_doc_id_index < self.chunks@[self.current_chunk_index as int].doc_ids@.len()
        &&& self.current_doc_id_index < self.chunks@[self.current_chunk_index as int].doc_frequencies@.len()
    }

    /// The chunk the iterator stands in.
    pub open spec fn current(&self) -> Chunk {
        self.chunks@[self.current_chunk_index as int]
    }

    pub fn new(chunks: Vec<Chunk>) -> (r: Self)
        ensures
            r.chunks@ == chunks@,
            r.current_chunk_index == 0,
            r.current_doc_id_index == 0,
    {
        Self { chunks, current_chunk_index: 0, current_doc_id_index: 0 }
    }

    /// Decodes the current chunk and stands on its first posting.
    pub fn init(&mut self)
        requires
            old(self).current_chunk_index < old(self).chunks@.len(),
            old(self).ready(),
        ensures
            final(self).ready(),
            final(self).chunks@.len() == old(self).chunks@.len(),
            final(self).current_chunk_index == old(self).current_chunk_index,
            final(self).current_doc_id_index == 0,
            forall|k: int|
                0 <= k < final(self).chunks@.len() && k != final(self).current_chunk_index ==> #[trigger] final(self).chunks@[k]
                    == old(self).chunks@[k],
            final(self).current().compressed_doc_ids@.len() == 0,
            final(self).current().compressed_doc_frequencies@.len() == 0,
            old(self).current().compressed_doc_ids@.len() == 0 ==> final(self).current().doc_ids
                == old(self).current().doc_ids,
            old(self).current().compressed_doc_frequencies@.len() == 0 ==> final(self).current().doc_frequencies
                == old(self).current().doc_frequencies,
            final(self).current().max_doc_id == old(self).current().max_doc_id,
            final(self).current().no_of_postings == old(self).current().no_of_postings,
    {
        let ci = self.current_chunk_index;
        assert(chunk_ready(self.chunks@[ci as int]));
        self.chunks[ci].decode_doc_ids();
        assert(chunk_ready(self.chunks@[ci as int]));
        self.chunks[ci].decode_doc_frequencies();
        self.current_doc_id_index = 0;
        assert forall|k: int| 0 <= k < self.chunks@.len() implies #[trigger] chunk_ready(
            self.chunks@[k],
        ) by {
            if k != ci {
                assert(self.chunks@[k] == old(self).chunks@[k]);
            }
        }
    }

    /// Back to the first posting of the first chunk.
    pub fn reset(&mut self)
        ensures
            final(self).chunks == old(self).chunks,
            final(self).current_chunk_index == 0,
            final(self).current_doc_id_index == 0,
    {
        self.current_chunk_index = 0;
        self.current_doc_id_index = 0;
    }

    /// The number of postings over all chunks.
    pub fn get_no_of_postings(&self) -> (r: u32)
        requires
            self.chunks@.len() <= 0xffffff,
        ensures
            r == total_postings(self.chunks@),
    {
        let mut sum: u32 = 0;
        let mut i: usize = 0;
        while i < self.chunks.len()
            invariant
                i <= self.chunks@.len() <= 0xffffff,
                sum == total_postings(self.chunks@.take(i as int)),
            decreases self.chunks@.len() - i,
        {
            proof {
                assert(self.chunks@.take(i + 1).drop_last() =~= self.chunks@.take(i as int));
                lemma_total_postings_bounds(self.chunks@.take(i as int));
            }
            sum = sum + self.chunks[i].no_of_postings as u32;
            i = i + 1;
        }
        assert(self.chunks@.take(i as int) =~= self.chunks@);
        sum
    }

    /// Whether the current chunk's decoded doc ids hold `doc_id`.
    pub fn contains_doc_id(&self, doc_id: u32) -> (r: bool)
        requires
            self.current_chunk_index < self.chunks@.len(),
        ensures
            r == self.current().doc_ids@.contains(doc_id),
    {
        let ids = &self.chunks[self.current_chunk_index].doc_ids;
        let mut i: usize = 0;
        while i < ids.len()
            invariant
                i <= ids@.len(),
                self.current_chunk_index < self.chunks@.len(),
                ids@ == self.current().doc_ids@,
                forall|k: int| 0 <= k < i ==> ids@[k] != doc_id,
            decreases ids@.len() - i,
        {
            if ids[i] == doc_id {
                assert(ids@[i as int] == doc_id);
                assert(self.current().doc_ids@[i as int] == doc_id);
                return true;
            }
            i = i + 1;
        }
        false
    }

    /// Moves to the next posting, decoding the next chunk when the current one
    /// is used up. Returns false, without moving, at the last posting.
    pub fn next(&mut self) -> (r: bool)
        requires
            old(self).current_chunk_index < old(self).chunks@.len(),
            old(self).ready(),
        ensures
            final(self).ready(),
            final(self).chunks@.len() == old(self).chunks@.len(),
            old(self).current_doc_id_index + 1 < old(self).current().no_of_postings ==> {
                &&& r
                &&& final(self).current_chunk_index == old(self).current_chunk_index
                &&& final(self).current_doc_id_index == old(self).current_doc_id_index + 1
                &&& final(self).chunks == old(self).chunks
            },
            old(self).current_doc_id_index + 1 >= old(self).current().no_of_postings
                && old(self).current_chunk_index + 1 < old(self).chunks@.len() ==> {
                &&& r
                &&& final(self).current_chunk_index == old(self).current_chunk_index + 1
                &&& final(self).current_doc_id_index == 0
                &&& final(self).current().compressed_doc_ids@.len() == 0
            },
            old(self).current_doc_id_index + 1 >= old(self).current().no_of_postings
                && old(self).current_chunk_index + 1 >= old(self).chunks@.len() ==> {
                &&& !r
                &&& *final(self) == *old(self)
            },
            forall|k: int|
                0 <= k < final(self).chunks@.len() && k != final(self).current_chunk_index ==> #[trigger] final(self).chunks@[k]
                    == old(self).chunks@[k],
            final(self).current_chunk_index < final(self).chunks@.len(),
            final(self).current_chunk_index >= old(self).current_chunk_index,
            final(self).current().max_doc_id == old(self).chunks@[final(self).current_chunk_index as int].max_doc_id,
            final(self).current().no_of_postings == old(self).chunks@[final(self).current_chunk_index as int].no_of_postings,
            final(self).current_chunk_index == old(self).current_chunk_index ==> final(self).chunks == old(self).chunks,
    {
        let n = self.chunks[self.current_chunk_index].get_no_of_postings() as usize;
        if self.current_doc_id_index < n && self.current_doc_id_index + 1 < n {
            self.current_doc_id_index = self.current_doc_id_index + 1;
            true
        } else if self.chunks.len() - self.current_chunk_index > 1 {
            self.current_chunk_index = self.current_chunk_index + 1;
            self.init();
            true
        } else {
            false
        }
    }

    /// Whether a posting follows the current one.
    pub fn has_next(&self) -> (r: bool)
        requires
            self.current_chunk_index < self.chunks@.len(),
        ensures
            r == (self.current_doc_id_index + 1 < self.current().no_of_postings
                || self.current_chunk_index + 1 < self.chunks@.len()),
    {
        let n = self.chunks[self.current_chunk_index].get_no_of_postings() as usize;
        if self.current_doc_id_index < n && self.current_doc_id_index + 1 < n {
            true
        } else {
            self.chunks.len() - self.current_chunk_index > 1
        }
    }

    pub fn get_doc_id(&self) -> (r: u32)
        requires
            self.at_posting(),
        ensures
            r == self.current().doc_ids@[self.current_doc_id_index as int],
    {
        self.chunks[self.current_chunk_index].doc_ids[self.current_doc_id_index]
    }

    pub fn get_doc_frequency(&self) -> (r: u32)
        requires
            self.at_posting(),
        ensures
            r == self.current().doc_frequencies@[self.current_doc_id_index as int],
    {
        self.chunks[self.current_chunk_index].doc_frequencies[self.current_doc_id_index]
    }

    /// The positions of the current posting.
    pub fn get_posting_list(&self) -> (r: Vec<u32>)
        requires
            self.current_chunk_index < self.chunks@.len(),
            self.current().indexed_compressed_positions@.len() > 0 ==> {
                &&& self.current_doc_id_index < self.current().indexed_compressed_positions@.len()
                &&& self.current_doc_id_index < self.current().doc_frequencies@.len()
                &&& decodable(
                    self.current().compressor.compression_algorithm,
                    self.current().indexed_compressed_positions@[self.current_doc_id_index as int]@,
                )
            },
        ensures
            r@ == crate::chunk::truncated(
                crate::compressor::running_sums(
                    crate::compressor::decompressed(
                        self.current().compressor.compression_algorithm,
                        self.current().indexed_compressed_positions@[self.current_doc_id_index as int]@,
                    ),
                ),
                self.current().doc_frequencies@[self.current_doc_id_index as int] as int,
            ) || self.current().indexed_compressed_positions@.len() == 0 && r@.len() == 0,
    {
        self.chunks[self.current_chunk_index].get_posting_list(self.current_doc_id_index)
    }

    /// Moves to the first posting whose doc id is at least `doc_id`: skips the
    /// chunks whose `max_doc_id` is below it (never past the last chunk),
    /// decodes the chunk reached, then steps through its postings. Where even
    /// the last chunk ends below `doc_id`, stays on that chunk's first posting.
    pub fn advance(&mut self, doc_id: u32)
        requires
            old(self).current_chunk_index < old(self).chunks@.len(),
            old(self).ready(),
        ensures
            final(self).ready(),
            final(self).chunks@.len() == old(self).chunks@.len(),
            final(self).current_chunk_index < final(self).chunks@.len(),
            final(self).current_chunk_index >= old(self).current_chunk_index,
            forall|k: int|
                old(self).current_chunk_index <= k < final(self).current_chunk_index ==> #[trigger] old(self).chunks@[k].max_doc_id
                    < doc_id,
            final(self).at_posting() && doc_id <= final(self).current().max_doc_id
                ==> final(self).get_doc_id_spec() >= doc_id || !final(self).has_next_spec(),
            forall|j: int|
                0 <= j < final(self).current_doc_id_index ==> (#[trigger] final(self).current().doc_ids@[j])
                    < doc_id,
            final(self).at_posting() && doc_id <= final(self).current().max_doc_id && chunk_consistent(
                final(self).current(),
            ) ==> final(self).get_doc_id_spec() >= doc_id,
    {
        while self.chunks.len() - self.current_chunk_index > 1
            && doc_id > self.chunks[self.current_chunk_index].max_doc_id
            invariant
                self.current_chunk_index < self.chunks@.len(),
                self.chunks == old(self).chunks,
                self.current_chunk_index >= old(self).current_chunk_index,
                forall|k: int|
                    old(self).current_chunk_index <= k < self.current_chunk_index ==> #[trigger] old(self).chunks@[k].max_doc_id
                        < doc_id,
            decreases self.chunks@.len() - self.current_chunk_index,
        {
            self.current_chunk_index = self.current_chunk_index + 1;
        }
        self.init();
        let ghost skip_to = self.current_chunk_index;
        if doc_id <= self.chunks[self.current_chunk_index].max_doc_id {
            loop
                invariant
                    self.ready(),
                    self.chunks@.len() == old(self).chunks@.len(),
                    self.current_chunk_index < self.chunks@.len(),
                    self.current_chunk_index >= skip_to,
                    skip_to >= old(self).current_chunk_index,
                    forall|k: int|
                        old(self).current_chunk_index <= k < skip_to ==> #[trigger] old(self).chunks@[k].max_doc_id
                            < doc_id,
                    self.current_chunk_index == skip_to,
                    self.current_doc_id_index <= self.current().doc_ids@.len(),
                    forall|j: int|
                        0 <= j < self.current_doc_id_index ==> (#[trigger] self.current().doc_ids@[j])
                            < doc_id,
                ensures
                    self.ready(),
                    self.chunks@.len() == old(self).chunks@.len(),
                    self.current_chunk_index < self.chunks@.len(),
                    self.current_chunk_index == skip_to,
                    !self.at_posting() || self.get_doc_id_spec() >= doc_id || !self.has_next_spec(),
                    forall|j: int|
                        0 <= j < self.current_doc_id_index ==> (#[trigger] self.current().doc_ids@[j])
                            < doc_id,
                decreases self.current().no_of_postings - self.current_doc_id_index,
            {
                if !self.at_posting_exec() {
                    break;
                }
                if self.get_doc_id() >= doc_id {
                    break;
                }
                let n = self.chunks[self.current_chunk_index].get_no_of_postings() as usize;
                if self.current_doc_id_index < n && n - self.current_doc_id_index > 1 {
                    self.current_doc_id_index = self.current_doc_id_index + 1;
                } else {
                    break;
                }
            }
        }
    }

    /// Whether the iterator stands on a decoded posting.
    pub fn at_posting_exec(&self) -> (r: bool)
        ensures
            r == self.at_posting(),
    {
        self.current_chunk_index < self.chunks.len() && self.current_doc_id_index
            < self.chunks[self.current_chunk_index].doc_ids.len() && self.current_doc_id_index
            < self.chunks[self.current_chunk_index].doc_frequencies.len()
    }

    pub open spec fn get_doc_id_spec(&self) -> u32 {
        self.current().doc_ids@[self.current_doc_id_index as int]
    }

    pub open spec fn has_next_spec(&self) -> bool {
        self.current_doc_id_index + 1 < self.current().no_of_postings
    }
}

} // verus!
