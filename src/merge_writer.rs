//! Packs a term's postings into chunks and the chunks into fixed-size blocks.
//!
//! Finished blocks are appended to an in-memory buffer of pages, which the
//! caller writes out to the index file.
use crate::block::{block_image, chunks_in, framed, lemma_chunks_in_framed, Block, MINIMUM_BLOCK_SIZE};
use crate::chunk::{
    chunk_body, encodable, encoded_parts, lemma_chunk_body_len, lemma_chunk_body_round_trip,
    parse_chunk, parts_fit, position_lists, Chunk, ChunkParts, MAX_POSTINGS,
};
use crate::compressor::{d_gaps, fits_28_bits, non_decreasing, CompressionAlgorithm, SIMPLE_MAX};
use crate::bytes::{le32, u32_at};
use crate::posting::{postings_view, PostingModel, Posting};
use vstd::prelude::*;

verus! {

/// Why a term could not be added.
#[derive(Debug, PartialEq, Eq, Structural)]
pub enum MergeWriteError {
    /// An encoded chunk is larger than an empty block can hold.
    ChunkTooLarge,
    /// Block numbers ran past `u32::MAX`.
    TooManyBlocks,
}

pub struct SpimiMergeWriter {
    /// Finished pages, in block order, not yet written out.
    pub buffered_block_bytes: Vec<u8>,
    /// The number of the block being filled.
    pub current_block_no: u32,
    pub current_block: Block,
    pub include_positions: bool,
    pub compression_algorithm: CompressionAlgorithm,
    /// The most postings in a chunk.
    pub chunk_size: u8,
}

/// Whether the postings of a term can be stored: doc ids strictly ascending,
/// position lists ascending with counts that fit a `u32`; with Simple9 or
/// Simple16 every doc id, position and count within 28 bits; with PFor-Delta
/// at most 128 positions per posting.
pub open spec fn postings_storable(alg: CompressionAlgorithm, s: Seq<PostingModel>) -> bool {
    let simple = alg == CompressionAlgorithm::Simple9 || alg == CompressionAlgorithm::Simple16;
    &&& forall|i: int, j: int| 0 <= i < j < s.len() ==> s[i].0 < s[j].0
    &&& forall|i: int| 0 <= i < s.len() && simple ==> #[trigger] s[i].0 <= SIMPLE_MAX
    &&& forall|i: int|
        0 <= i < s.len() ==> non_decreasing(#[trigger] s[i].1) && s[i].1.len() <= u32::MAX && (simple
            ==> fits_28_bits(s[i].1) && s[i].1.len() <= SIMPLE_MAX) && (alg
            == CompressionAlgorithm::PforDelta ==> s[i].1.len() <= 128)
}

/// Whole pages add up: `cap` bytes per block closed.
proof fn lemma_pages_add(cap: int, a: int, b: int, c: int)
    requires
        a <= b <= c,
    ensures
        cap * (b - a) + cap * (c - b) == cap * (c - a),
{
    assert(cap * (b - a) + cap * (c - b) == cap * (c - a)) by (nonlinear_arith);
}

/// No block closed adds nothing; one adds one page.
proof fn lemma_one_page(cap: int, a: int)
    ensures
        cap * (a - a) == 0,
        cap * ((a + 1) - a) == cap,
{
    assert(cap * (a - a) == 0) by (nonlinear_arith);
    assert(cap * ((a + 1) - a) == cap) by (nonlinear_arith);
}

/// A block's page is exactly its capacity long.
proof fn lemma_block_image_len(terms: Seq<u32>, offsets: Seq<u16>, chunks: Seq<u8>, cap: nat)
    requires
        terms.len() == offsets.len(),
        4 + 6 * terms.len() + chunks.len() <= cap,
    ensures
        block_image(terms, offsets, chunks, cap).len() == cap,
{
    crate::bytes::lemma_le32_seq_len(terms);
    crate::bytes::lemma_le16_seq_len(offsets);
}

/// The d-gaps of an ascending list of 28-bit values are 28-bit values.
proof fn lemma_d_gaps_fit(s: Seq<u32>)
    requires
        non_decreasing(s),
        fits_28_bits(s),
    ensures
        fits_28_bits(d_gaps(s)),
        d_gaps(s).len() == s.len(),
{
}

impl SpimiMergeWriter {
    /// The writer's state is consistent: the block's size counts its header,
    /// its directory and its chunks, and fits its capacity.
    pub open spec fn wf(&self) -> bool {
        let b = self.current_block;
        &&& b.terms@.len() == b.term_offsets@.len()
        &&& b.current_block_size == 4 + 6 * b.terms@.len() + b.chunk_bytes@.len()
        &&& b.current_block_size <= b.capacity()
        &&& b.max_block_size >= 1
        &&& b.block_id == self.current_block_no
        &&& 1 <= self.chunk_size <= MAX_POSTINGS
    }

    pub fn new(
        chunk_size: Option<u8>,
        block_size: Option<u8>,
        include_positions: bool,
        compression_algorithm: CompressionAlgorithm,
    ) -> (r: Self)
        requires
            chunk_size matches Some(c) ==> 1 <= c <= MAX_POSTINGS,
            block_size matches Some(b) ==> b >= 1,
        ensures
            r.wf(),
            r.current_block_no == 0,
            r.buffered_block_bytes@.len() == 0,
            r.chunk_size == match chunk_size {
                Some(c) => c,
                None => MAX_POSTINGS,
            },
            r.include_positions == include_positions,
            r.compression_algorithm == compression_algorithm,
    {
        Self {
            buffered_block_bytes: Vec::new(),
            current_block_no: 0,
            current_block: Block::new(0, block_size),
            include_positions,
            compression_algorithm,
            chunk_size: match chunk_size {
                Some(c) => c,
                None => MAX_POSTINGS,
            },
        }
    }

    /// Closes the current block: its page goes to the buffer and an empty
    /// block with the next number takes its place.
    fn write_block_to_buffer(&mut self) -> (r: Result<(), MergeWriteError>)
        requires
            old(self).wf(),
        ensures
            final(self).wf(),
            final(self).chunk_size == old(self).chunk_size,
            final(self).include_positions == old(self).include_positions,
            final(self).compression_algorithm == old(self).compression_algorithm,
            final(self).current_block.max_block_size == old(self).current_block.max_block_size,
            r is Err <==> old(self).current_block_no == u32::MAX,
            r is Err ==> r == Err::<(), MergeWriteError>(MergeWriteError::TooManyBlocks) && *final(self) == *old(self),
            r is Ok ==> {
                &&& final(self).current_block_no == old(self).current_block_no + 1
                &&& final(self).buffered_block_bytes@ == old(self).buffered_block_bytes@ + block_image(
                    old(self).current_block.terms@,
                    old(self).current_block.term_offsets@,
                    old(self).current_block.chunk_bytes@,
                    old(self).current_block.capacity(),
                )
                &&& final(self).current_block.terms@.len() == 0
                &&& final(self).current_block.term_offsets@.len() == 0
                &&& final(self).current_block.chunk_bytes@.len() == 0
                &&& final(self).buffered_block_bytes@.len() == old(self).buffered_block_bytes@.len()
                    + old(self).current_block.capacity()
            },
    {
        proof {
            lemma_block_image_len(
                self.current_block.terms@,
                self.current_block.term_offsets@,
                self.current_block.chunk_bytes@,
                self.current_block.capacity(),
            );
        }
        if self.current_block_no == u32::MAX {
            return Err(MergeWriteError::TooManyBlocks);
        }
        let mut page: Vec<u8> = Vec::new();
        self.current_block.encode(&mut page);
        self.buffered_block_bytes.append(&mut page);
        self.current_block_no = self.current_block_no + 1;
        self.current_block.reset();
        self.current_block.set_block_id(self.current_block_no);
        Ok(())
    }

    /// Closes the last block; its page goes to the buffer.
    pub fn finish(&mut self) -> (r: Result<(), MergeWriteError>)
        requires
            old(self).wf(),
        ensures
            final(self).wf(),
            r is Err <==> old(self).current_block_no == u32::MAX,
            r is Ok ==> final(self).buffered_block_bytes@ == old(self).buffered_block_bytes@ + block_image(
                old(self).current_block.terms@,
                old(self).current_block.term_offsets@,
                old(self).current_block.chunk_bytes@,
                old(self).current_block.capacity(),
            ) && final(self).current_block_no == old(self).current_block_no + 1,
    {
        self.write_block_to_buffer()
    }

    /// Hands over the finished pages, leaving the buffer empty.
    pub fn take_buffered_bytes(&mut self) -> (r: Vec<u8>)
        ensures
            r@ == old(self).buffered_block_bytes@,
            final(self).buffered_block_bytes@.len() == 0,
            final(self).current_block == old(self).current_block,
            final(self).current_block_no == old(self).current_block_no,
            final(self).chunk_size == old(self).chunk_size,
            final(self).include_positions == old(self).include_positions,
            final(self).compression_algorithm == old(self).compression_algorithm,
    {
        let mut out: Vec<u8> = Vec::new();
        out.append(&mut self.buffered_block_bytes);
        out
    }

    /// Puts an encoded chunk of `term` in the current block, or, where it does
    /// not fit, closes the block and starts the next one with `term`.
    fn place_chunk(&mut self, term: u32, chunk_bytes: Vec<u8>, block_ids: &mut Vec<u32>) -> (r: Result<(), MergeWriteError>)
        requires
            old(self).wf(),
            old(block_ids)@.len() > 0,
            old(block_ids)@.last() == old(self).current_block_no,
            forall|i: int, j: int| 0 <= i < j < old(block_ids)@.len() ==> old(block_ids)@[i] < old(block_ids)@[j],
        ensures
            final(self).wf(),
            final(self).chunk_size == old(self).chunk_size,
            final(self).include_positions == old(self).include_positions,
            final(self).compression_algorithm == old(self).compression_algorithm,
            final(self).current_block_no >= old(self).current_block_no,
            final(block_ids)@.len() > 0,
            final(block_ids)@.last() == final(self).current_block_no,
            forall|i: int, j: int| 0 <= i < j < final(block_ids)@.len() ==> final(block_ids)@[i] < final(block_ids)@[j],
            old(block_ids)@.len() <= final(block_ids)@.len(),
            final(block_ids)@.take(old(block_ids)@.len() as int) == old(block_ids)@,
            r is Ok ==> final(self).current_block.chunk_bytes@.len() >= chunk_bytes@.len(),
            final(self).current_block.max_block_size == old(self).current_block.max_block_size,
            final(self).buffered_block_bytes@.len() == old(self).buffered_block_bytes@.len()
                + old(self).current_block.capacity() * (final(self).current_block_no - old(self).current_block_no),
            r is Ok && final(self).current_block_no == old(self).current_block_no ==> {
                &&& final(self).current_block.chunk_bytes@ == old(self).current_block.chunk_bytes@ + chunk_bytes@
                &&& final(self).current_block.terms == old(self).current_block.terms
                &&& final(self).current_block.term_offsets == old(self).current_block.term_offsets
            },
            r is Ok && final(self).current_block_no != old(self).current_block_no ==> {
                &&& final(self).buffered_block_bytes@ == old(self).buffered_block_bytes@ + block_image(
                    old(self).current_block.terms@,
                    old(self).current_block.term_offsets@,
                    old(self).current_block.chunk_bytes@,
                    old(self).current_block.capacity(),
                )
                &&& final(self).current_block.terms@ == seq![term]
                &&& final(self).current_block.term_offsets@ == seq![0u16]
                &&& final(self).current_block.chunk_bytes@ == chunk_bytes@
                &&& final(block_ids)@ == old(block_ids)@.push(final(self).current_block_no)
            },
            final(self).current_block_no == old(self).current_block_no ==> final(block_ids)@ == old(block_ids)@
                && final(self).buffered_block_bytes@ == old(self).buffered_block_bytes@,
            final(self).current_block_no <= old(self).current_block_no + 1,
            chunk_bytes@.len() + 10 <= old(self).current_block.capacity() && old(self).current_block_no
                < u32::MAX ==> r is Ok,
            r == Err::<(), MergeWriteError>(MergeWriteError::ChunkTooLarge) ==> chunk_bytes@.len() + 10
                > old(self).current_block.capacity(),
            r == Err::<(), MergeWriteError>(MergeWriteError::TooManyBlocks) ==> old(self).current_block_no
                == u32::MAX,
    {
        proof {
            lemma_one_page(self.current_block.capacity() as int, self.current_block_no as int);
        }
        let len = chunk_bytes.len();
        let space = self.current_block.space_left();
        if (space as usize) >= len {
            self.current_block.add_chunk_bytes(chunk_bytes);
            return Ok(());
        }
        let w = self.write_block_to_buffer();
        if w.is_err() {
            return w;
        }
        proof {
            lemma_pages_add(
                old(self).current_block.capacity() as int,
                old(self).current_block_no as int,
                old(self).current_block_no as int,
                self.current_block_no as int,
            );
        }
        self.current_block.add_term(term);
        block_ids.push(self.current_block_no);
        assert(block_ids@.take(old(block_ids)@.len() as int) =~= old(block_ids)@);
        let space = self.current_block.space_left();
        if (space as usize) < len {
            return Err(MergeWriteError::ChunkTooLarge);
        }
        self.current_block.add_chunk_bytes(chunk_bytes);
        Ok(())
    }

    /// Encodes `chunk` (whose body is `body`) and places it like `place_chunk`.
    fn store_chunk(
        &mut self,
        term: u32,
        chunk: &mut Chunk,
        block_ids: &mut Vec<u32>,
        Ghost(body): Ghost<Seq<u8>>,
    ) -> (r: Result<(), MergeWriteError>)
        requires
            old(self).wf(),
            old(block_ids)@.len() > 0,
            old(block_ids)@.last() == old(self).current_block_no,
            forall|i: int, j: int| 0 <= i < j < old(block_ids)@.len() ==> old(block_ids)@[i] < old(block_ids)@[j],
            encodable(
                old(chunk).compressor.compression_algorithm,
                old(chunk).no_of_postings,
                old(chunk).doc_ids@,
                old(chunk).doc_frequencies@,
                position_lists(old(chunk).doc_positions@),
            ),
            body == chunk_body(
                encoded_parts(
                    old(chunk).compressor.compression_algorithm,
                    old(chunk).no_of_postings,
                    old(chunk).max_doc_id,
                    old(chunk).doc_ids@,
                    old(chunk).doc_frequencies@,
                    position_lists(old(chunk).doc_positions@),
                ),
            ),
        ensures
            final(chunk).compressor == old(chunk).compressor,
            final(chunk).term == old(chunk).term,
            final(self).wf(),
            final(self).chunk_size == old(self).chunk_size,
            final(self).include_positions == old(self).include_positions,
            final(self).compression_algorithm == old(self).compression_algorithm,
            final(self).current_block_no >= old(self).current_block_no,
            final(self).current_block_no <= old(self).current_block_no + 1,
            final(block_ids)@.len() > 0,
            final(block_ids)@.last() == final(self).current_block_no,
            forall|i: int, j: int| 0 <= i < j < final(block_ids)@.len() ==> final(block_ids)@[i] < final(block_ids)@[j],
            old(block_ids)@.len() <= final(block_ids)@.len(),
            final(block_ids)@.take(old(block_ids)@.len() as int) == old(block_ids)@,
            final(self).current_block.max_block_size == old(self).current_block.max_block_size,
            final(self).buffered_block_bytes@.len() == old(self).buffered_block_bytes@.len()
                + old(self).current_block.capacity() * (final(self).current_block_no - old(self).current_block_no),
            r is Ok && final(self).current_block_no == old(self).current_block_no ==> {
                &&& final(self).current_block.chunk_bytes@ == old(self).current_block.chunk_bytes@ + (le32(
                    body.len() as u32,
                ) + body)
                &&& final(self).current_block.terms == old(self).current_block.terms
                &&& final(self).current_block.term_offsets == old(self).current_block.term_offsets
            },
            r is Ok && final(self).current_block_no != old(self).current_block_no ==> {
                &&& final(self).buffered_block_bytes@ == old(self).buffered_block_bytes@ + block_image(
                    old(self).current_block.terms@,
                    old(self).current_block.term_offsets@,
                    old(self).current_block.chunk_bytes@,
                    old(self).current_block.capacity(),
                )
                &&& final(self).current_block.terms@ == seq![term]
                &&& final(self).current_block.term_offsets@ == seq![0u16]
                &&& final(self).current_block.chunk_bytes@ == le32(body.len() as u32) + body
                &&& final(block_ids)@ == old(block_ids)@.push(final(self).current_block_no)
            },
            final(self).current_block_no == old(self).current_block_no ==> final(block_ids)@ == old(block_ids)@
                && final(self).buffered_block_bytes@ == old(self).buffered_block_bytes@,
            body.len() + 14 <= old(self).current_block.capacity() && old(self).current_block_no
                < u32::MAX ==> r is Ok,
            r == Err::<(), MergeWriteError>(MergeWriteError::ChunkTooLarge) ==> body.len() + 14
                > old(self).current_block.capacity(),
            r == Err::<(), MergeWriteError>(MergeWriteError::TooManyBlocks) ==> old(self).current_block_no
                == u32::MAX,
    {
        let bytes = chunk.encode();
        assert(bytes@.len() == body.len() + 4);
        assert(bytes@ == le32(body.len() as u32) + body);
        self.place_chunk(term, bytes, block_ids)
    }

    /// Stores the postings of `term` (doc ids ascending) as chunks of at most
    /// `chunk_size` postings, filling blocks in order: the term enters the
    /// current block (or, when that has no room for a term, a new one), its
    /// chunks follow, and each block that fills goes to the buffer as a page,
    /// the next one holding only this term. Returns the numbers of the blocks
    /// that hold the term's chunks, consecutive.
    pub fn add_term(&mut self, term: u32, postings: Vec<Posting>) -> (r: Result<Vec<u32>, MergeWriteError>)
        requires
            old(self).wf(),
            postings_storable(old(self).compression_algorithm, postings_view(postings@)),
        ensures
            final(self).wf(),
            final(self).chunk_size == old(self).chunk_size,
            final(self).include_positions == old(self).include_positions,
            final(self).compression_algorithm == old(self).compression_algorithm,
            final(self).current_block.max_block_size == old(self).current_block.max_block_size,
            final(self).current_block_no >= old(self).current_block_no,
            final(self).buffered_block_bytes@.len() == old(self).buffered_block_bytes@.len()
                + old(self).current_block.capacity() * (final(self).current_block_no - old(self).current_block_no),
            ({
                let bodies = bodies_from(
                    old(self).compression_algorithm,
                    postings_view(postings@),
                    old(self).chunk_size as int,
                    0,
                    old(self).include_positions,
                );
                &&& chunks_fit_blocks(bodies, old(self).current_block.capacity())
                    && old(self).current_block_no + bodies.len() + 1 <= u32::MAX ==> r is Ok
                &&& r == Err::<Vec<u32>, MergeWriteError>(MergeWriteError::ChunkTooLarge)
                    ==> !chunks_fit_blocks(bodies, old(self).current_block.capacity())
                &&& r == Err::<Vec<u32>, MergeWriteError>(MergeWriteError::TooManyBlocks)
                    ==> old(self).current_block_no + bodies.len() + 1 > u32::MAX
            }),
            r is Ok ==> {
                let ids = r->Ok_0@;
                let flushed = ids[0] != old(self).current_block_no;
                &&& ids.len() >= 1
                &&& ids[0] == old(self).current_block_no || ids[0] == old(self).current_block_no + 1
                &&& flushed <==> old(self).current_block.capacity() - old(self).current_block.current_block_size
                    <= MINIMUM_BLOCK_SIZE
                &&& forall|i: int| 0 <= i < ids.len() ==> #[trigger] ids[i] == ids[0] + i
                &&& ids.last() == final(self).current_block_no
                &&& stored_in_blocks(
                    term,
                    opening_buffer(old(self).buffered_block_bytes@, old(self).current_block, flushed),
                    opening_terms(old(self).current_block, term, flushed),
                    opening_offsets(old(self).current_block, flushed),
                    opening_chunks(old(self).current_block, flushed),
                    old(self).current_block.capacity(),
                    framed(bodies_from(
                    old(self).compression_algorithm,
                    postings_view(postings@),
                    old(self).chunk_size as int,
                    0,
                    old(self).include_positions,
                )),
                    ids.len(),
                    final(self).buffered_block_bytes@,
                    final(self).current_block.terms@,
                    final(self).current_block.term_offsets@,
                    final(self).current_block.chunk_bytes@,
                )
            },
    {
        proof {
            lemma_one_page(self.current_block.capacity() as int, self.current_block_no as int);
        }
        let ghost flushed = self.current_block.capacity() - self.current_block.current_block_size
            <= MINIMUM_BLOCK_SIZE;
        if self.current_block.space_left() <= MINIMUM_BLOCK_SIZE {
            let w = self.write_block_to_buffer();
            if w.is_err() {
                return Err(MergeWriteError::TooManyBlocks);
            }
        }
        let ghost mid_no = self.current_block_no;
        self.current_block.add_term(term);
        proof {
            assert(self.buffered_block_bytes@ == opening_buffer(old(self).buffered_block_bytes@, old(self).current_block, flushed));
            assert(self.current_block.terms@ == opening_terms(old(self).current_block, term, flushed));
            assert(self.current_block.term_offsets@ == opening_offsets(old(self).current_block, flushed));
            assert(self.current_block.chunk_bytes@ == opening_chunks(old(self).current_block, flushed));
        }
        let r = self.write_chunks(term, postings);
        proof {
            lemma_pages_add(
                old(self).current_block.capacity() as int,
                old(self).current_block_no as int,
                mid_no as int,
                self.current_block_no as int,
            );
        }
        r
    }

    /// Writes the chunks of `term`, which the current block has just taken:
    /// into the current block while they fit, then into new blocks that hold
    /// only this term.
    #[verifier::rlimit(100)]
    #[verifier::spinoff_prover]
    fn write_chunks(&mut self, term: u32, postings: Vec<Posting>) -> (r: Result<Vec<u32>, MergeWriteError>)
        requires
            old(self).wf(),
            postings_storable(old(self).compression_algorithm, postings_view(postings@)),
        ensures
            final(self).wf(),
            final(self).chunk_size == old(self).chunk_size,
            final(self).include_positions == old(self).include_positions,
            final(self).compression_algorithm == old(self).compression_algorithm,
            final(self).current_block.max_block_size == old(self).current_block.max_block_size,
            final(self).current_block_no >= old(self).current_block_no,
            final(self).buffered_block_bytes@.len() == old(self).buffered_block_bytes@.len()
                + old(self).current_block.capacity() * (final(self).current_block_no - old(self).current_block_no),
            ({
                let bodies = bodies_from(
                    old(self).compression_algorithm,
                    postings_view(postings@),
                    old(self).chunk_size as int,
                    0,
                    old(self).include_positions,
                );
                &&& chunks_fit_blocks(bodies, old(self).current_block.capacity())
                    && old(self).current_block_no + bodies.len() <= u32::MAX ==> r is Ok
                &&& r == Err::<Vec<u32>, MergeWriteError>(MergeWriteError::ChunkTooLarge)
                    ==> !chunks_fit_blocks(bodies, old(self).current_block.capacity())
                &&& r == Err::<Vec<u32>, MergeWriteError>(MergeWriteError::TooManyBlocks)
                    ==> old(self).current_block_no + bodies.len() > u32::MAX
            }),
            r is Ok ==> {
                let ids = r->Ok_0@;
                &&& ids.len() >= 1
                &&& forall|i: int| 0 <= i < ids.len() ==> #[trigger] ids[i] == old(self).current_block_no + i
                &&& ids.last() == final(self).current_block_no
                &&& stored_in_blocks(
                    term,
                    old(self).buffered_block_bytes@,
                    old(self).current_block.terms@,
                    old(self).current_block.term_offsets@,
                    old(self).current_block.chunk_bytes@,
                    old(self).current_block.capacity(),
                    framed(bodies_from(
                    old(self).compression_algorithm,
                    postings_view(postings@),
                    old(self).chunk_size as int,
                    0,
                    old(self).include_positions,
                )),
                    ids.len(),
                    final(self).buffered_block_bytes@,
                    final(self).current_block.terms@,
                    final(self).current_block.term_offsets@,
                    final(self).current_block.chunk_bytes@,
                )
            },
    {
        let ghost all_bodies = bodies_from(
            self.compression_algorithm,
            postings_view(postings@),
            self.chunk_size as int,
            0,
            self.include_positions,
        );
        let ghost cap0 = self.current_block.capacity();
        assert(all_bodies.len() >= 1);
        let ghost start_no = self.current_block_no;
        let mut block_ids: Vec<u32> = Vec::new();
        block_ids.push(self.current_block_no);
        let ghost buf_start = self.buffered_block_bytes@;
        let ghost mut pieces: Seq<Seq<u8>> = seq![Seq::<u8>::empty()];
        proof {
            lemma_flat_one(Seq::<u8>::empty());
            lemma_one_page(cap0 as int, start_no as int);
        }
        let ghost orig = postings@;
        let ghost pv = postings_view(postings@);
        let ghost base = self.current_block.chunk_bytes@;
        assert(base + pieces[0] =~= base);
        let ghost terms0 = self.current_block.terms;
        let ghost offsets0 = self.current_block.term_offsets;
        let ghost size = self.chunk_size as int;
        let ghost whole = framed(bodies_from(self.compression_algorithm, pv, size, 0, self.include_positions));
        let alg = self.compression_algorithm;
        let keep_positions = self.include_positions;
        let n = postings.len();
        let mut stack = crate::posting::reversed(postings);
        let mut chunk = Chunk::new(term, alg);
        let mut k: usize = 0;
        let mut chunk_start: usize = 0;
        let ghost mut done: Seq<Seq<u8>> = Seq::empty();
        assert(all_bodies =~= done + bodies_from(alg, pv, size, 0, keep_positions));
        while stack.len() > 0
            invariant
                self.wf(),
                self.compression_algorithm == alg,
                self.include_positions == keep_positions,
                alg == old(self).compression_algorithm,
                keep_positions == old(self).include_positions,
                self.chunk_size == old(self).chunk_size,
                postings_storable(alg, pv),
                pv == postings_view(orig),
                n == orig.len(),
                stack@.len() + k == n,
                forall|j: int| 0 <= j < stack@.len() ==> #[trigger] stack@[j] == orig[n - 1 - j],
                chunk_start <= k,
                k - chunk_start == chunk.no_of_postings,
                chunk.no_of_postings <= self.chunk_size,
                chunk.compressor.compression_algorithm == alg,
                chunk.doc_ids@ == chunk_ids(pv, chunk_start as int, k as int),
                chunk.doc_frequencies@ == chunk_freqs(pv, chunk_start as int, k as int),
                position_lists(chunk.doc_positions@) == chunk_positions(pv, chunk_start as int, k as int, keep_positions),
                block_ids@.len() > 0,
                block_ids@.last() == self.current_block_no,
                start_no == old(self).current_block_no,
                pieces.len() >= 1,
                pieces.len() <= done.len() + 1,
                self.current_block_no == start_no + pieces.len() - 1,
                block_ids@.len() == pieces.len(),
                forall|i: int| 0 <= i < block_ids@.len() ==> #[trigger] block_ids@[i] == start_no + i,
                flat(pieces) + framed(bodies_from(alg, pv, size, chunk_start as int, keep_positions)) == whole,
                self.buffered_block_bytes@ == buf_start + spilled_pages(term, terms0@, offsets0@, base, pieces, cap0),
                pieces.len() == 1 ==> self.current_block.terms@ == terms0@ && self.current_block.term_offsets@
                    == offsets0@ && self.current_block.chunk_bytes@ == base + pieces[0],
                pieces.len() > 1 ==> self.current_block.terms@ == seq![term] && self.current_block.term_offsets@
                    == seq![0u16] && self.current_block.chunk_bytes@ == pieces.last(),
                buf_start == old(self).buffered_block_bytes@,
                terms0 == old(self).current_block.terms,
                offsets0 == old(self).current_block.term_offsets,
                base == old(self).current_block.chunk_bytes@,
                self.current_block.max_block_size == old(self).current_block.max_block_size,
                self.current_block_no >= old(self).current_block_no,
                self.buffered_block_bytes@.len() == old(self).buffered_block_bytes@.len()
                    + old(self).current_block.capacity() * (self.current_block_no - old(self).current_block_no),
                size == self.chunk_size as int,
                chunk.max_doc_id == if k > chunk_start { pv[k - 1].0 } else { 0 },
                self.current_block_no >= start_no,
                whole == framed(bodies_from(alg, pv, size, 0, keep_positions)),
                all_bodies == done + bodies_from(alg, pv, size, chunk_start as int, keep_positions),
                all_bodies == bodies_from(alg, pv, size, 0, keep_positions),
                all_bodies == bodies_from(
                    old(self).compression_algorithm,
                    postings_view(postings@),
                    old(self).chunk_size as int,
                    0,
                    old(self).include_positions,
                ),
                cap0 == old(self).current_block.capacity(),
            decreases stack@.len(),
        {
            if chunk.no_of_postings >= self.chunk_size {
                proof {
                    lemma_chunk_encodable(alg, pv, chunk_start as int, k as int, keep_positions);
                }
                let ghost body = chunk_body_of(alg, pv, chunk_start as int, k as int, keep_positions);
                let ghost rest_bodies = bodies_from(alg, pv, size, k as int, keep_positions);
                let ghost before_bytes = self.current_block.chunk_bytes@;
                proof {
                    assert(bodies_from(alg, pv, size, chunk_start as int, keep_positions) == seq![body] + rest_bodies);
                    lemma_framed_cons(body, rest_bodies);
                }
                let ghost ids_before = block_ids@;
                let ghost no_before = self.current_block_no;
                let placed = self.store_chunk(term, &mut chunk, &mut block_ids, Ghost(body));
                proof {
                    lemma_pages_add(
                        old(self).current_block.capacity() as int,
                        old(self).current_block_no as int,
                        no_before as int,
                        self.current_block_no as int,
                    );
                }
                proof {
                    assert(all_bodies == done + (seq![body] + rest_bodies));
                    assert(all_bodies[done.len() as int] == body);
                }
                match placed {
                    Err(MergeWriteError::ChunkTooLarge) => {
                        assert(!(all_bodies[done.len() as int].len() + 14 <= cap0));
                        return Err(MergeWriteError::ChunkTooLarge);
                    },
                    Err(MergeWriteError::TooManyBlocks) => {
                        assert(all_bodies.len() >= done.len() + 1);
                        return Err(MergeWriteError::TooManyBlocks);
                    },
                    Ok(()) => {},
                }
                let ghost frame = le32(body.len() as u32) + body;
                proof {
                    let nd = done.push(body);
                    assert(all_bodies =~= nd + rest_bodies);
                    done = nd;
                    let pb = pieces;
                    lemma_pieces_step(term, terms0@, offsets0@, base, pb, frame, cap0);
                    if self.current_block_no == no_before {
                        pieces = pb.update(pb.len() - 1, pb.last() + frame);
                        if pb.len() == 1 {
                            assert(self.current_block.chunk_bytes@ =~= base + pieces[0]);
                        } else {
                            assert(self.current_block.chunk_bytes@ =~= pieces.last());
                        }
                    } else {
                        pieces = pb.push(frame);
                        if pb.len() == 1 {
                            assert(piece_image(term, terms0@, offsets0@, base, pb, 0, cap0) == block_image(
                                terms0@,
                                offsets0@,
                                base + pb[0],
                                cap0,
                            ));
                        } else {
                            assert(piece_image(term, terms0@, offsets0@, base, pb, pb.len() - 1, cap0) == block_image(
                                seq![term],
                                seq![0u16],
                                pb.last(),
                                cap0,
                            ));
                        }
                        assert forall|i: int| 0 <= i < block_ids@.len() implies #[trigger] block_ids@[i] == start_no + i by {
                            if i < ids_before.len() {
                                assert(block_ids@[i] == ids_before[i]);
                            }
                        }
                    }
                    assert(flat(pieces) + framed(rest_bodies) =~= flat(pb) + framed(seq![body] + rest_bodies));
                }
                chunk.reset();
                chunk_start = k;
                assert(chunk.doc_ids@ =~= chunk_ids(pv, chunk_start as int, k as int));
                assert(chunk.doc_frequencies@ =~= chunk_freqs(pv, chunk_start as int, k as int));
                assert(position_lists(chunk.doc_positions@) =~= chunk_positions(pv, chunk_start as int, k as int, keep_positions));
            }
            let p = stack.pop().unwrap();
            assert(p == orig[k as int]);
            assert(p@ == pv[k as int]);
            proof {
                if k > chunk_start {
                    assert(chunk.doc_ids@.last() == pv[k - 1].0);
                    assert(pv[k - 1].0 < pv[k as int].0);
                }
            }
            assert(pv[k as int].1 == p.positions@);
            assert(non_decreasing(pv[k as int].1));
            assert(p.positions@.len() <= u32::MAX);
            chunk.add_doc_id(p.doc_id);
            chunk.add_doc_frequency(p.positions.len() as u32);
            let ghost before = position_lists(chunk.doc_positions@);
            if keep_positions {
                chunk.add_doc_positions(p.positions);
                assert(position_lists(chunk.doc_positions@) =~= before.push(pv[k as int].1));
            }
            k = k + 1;
            assert(chunk.doc_ids@ =~= chunk_ids(pv, chunk_start as int, k as int));
            assert(chunk.doc_frequencies@ =~= chunk_freqs(pv, chunk_start as int, k as int));
            assert(position_lists(chunk.doc_positions@) =~= chunk_positions(pv, chunk_start as int, k as int, keep_positions));
        }
        proof {
            lemma_chunk_encodable(alg, pv, chunk_start as int, k as int, keep_positions);
        }
        let ghost body = chunk_body_of(alg, pv, chunk_start as int, k as int, keep_positions);
        let ghost before_bytes = self.current_block.chunk_bytes@;
        proof {
            assert(bodies_from(alg, pv, size, chunk_start as int, keep_positions) == seq![body]);
            lemma_framed_cons(body, Seq::empty());
            assert(seq![body] + Seq::<Seq<u8>>::empty() =~= seq![body]);
            assert(framed(Seq::<Seq<u8>>::empty()) =~= Seq::<u8>::empty());
        }
        let ghost ids_before = block_ids@;
        let ghost no_before = self.current_block_no;
        let placed = self.store_chunk(term, &mut chunk, &mut block_ids, Ghost(body));
        proof {
            lemma_pages_add(
                old(self).current_block.capacity() as int,
                old(self).current_block_no as int,
                no_before as int,
                self.current_block_no as int,
            );
        }
        proof {
            assert(all_bodies == done + seq![body]);
            assert(all_bodies[done.len() as int] == body);
        }
        match placed {
            Err(MergeWriteError::ChunkTooLarge) => {
                assert(!(all_bodies[done.len() as int].len() + 14 <= cap0));
                return Err(MergeWriteError::ChunkTooLarge);
            },
            Err(MergeWriteError::TooManyBlocks) => {
                return Err(MergeWriteError::TooManyBlocks);
            },
            Ok(()) => {},
        }
        let ghost frame = le32(body.len() as u32) + body;
        proof {
            let pb = pieces;
            lemma_pieces_step(term, terms0@, offsets0@, base, pb, frame, cap0);
            if self.current_block_no == no_before {
                pieces = pb.update(pb.len() - 1, pb.last() + frame);
                if pb.len() == 1 {
                    assert(self.current_block.chunk_bytes@ =~= base + pieces[0]);
                } else {
                    assert(self.current_block.chunk_bytes@ =~= pieces.last());
                }
            } else {
                pieces = pb.push(frame);
                if pb.len() == 1 {
                    assert(piece_image(term, terms0@, offsets0@, base, pb, 0, cap0) == block_image(
                        terms0@,
                        offsets0@,
                        base + pb[0],
                        cap0,
                    ));
                } else {
                    assert(piece_image(term, terms0@, offsets0@, base, pb, pb.len() - 1, cap0) == block_image(
                        seq![term],
                        seq![0u16],
                        pb.last(),
                        cap0,
                    ));
                }
                assert forall|i: int| 0 <= i < block_ids@.len() implies #[trigger] block_ids@[i] == start_no + i by {
                    if i < ids_before.len() {
                        assert(block_ids@[i] == ids_before[i]);
                    }
                }
            }
            assert(flat(pieces) =~= flat(pb) + framed(seq![body]));
            assert(bodies_from(alg, pv, size, chunk_start as int, keep_positions) == seq![body]);
            assert(flat(pieces) == whole);
            assert(pieces.len() == block_ids@.len());
            assert(self.buffered_block_bytes@ == buf_start + spilled_pages(term, terms0@, offsets0@, base, pieces, cap0));
            assert(pieces.len() == 1 ==> self.current_block.terms@ == terms0@ && self.current_block.term_offsets@
                == offsets0@ && self.current_block.chunk_bytes@ == base + pieces[0]);
            assert(pieces.len() > 1 ==> self.current_block.terms@ == seq![term] && self.current_block.term_offsets@
                == seq![0u16] && self.current_block.chunk_bytes@ == pieces.last());
            assert(pieces_hold(
                term,
                buf_start,
                terms0@,
                offsets0@,
                base,
                cap0,
                whole,
                block_ids@.len() as nat,
                self.buffered_block_bytes@,
                self.current_block.terms@,
                self.current_block.term_offsets@,
                self.current_block.chunk_bytes@,
                pieces,
            ));
        }
        Ok(block_ids)
    }
}

/// The stored parts of the chunk that holds postings `cs..k`.
pub open spec fn group_parts(alg: CompressionAlgorithm, pv: Seq<PostingModel>, cs: int, k: int, keep_positions: bool) -> ChunkParts {
    encoded_parts(
        alg,
        (k - cs) as u8,
        if k > cs { pv[k - 1].0 } else { 0 },
        chunk_ids(pv, cs, k),
        chunk_freqs(pv, cs, k),
        chunk_positions(pv, cs, k, keep_positions),
    )
}

/// The stored body of the chunk that holds postings `cs..k`.
pub open spec fn chunk_body_of(alg: CompressionAlgorithm, pv: Seq<PostingModel>, cs: int, k: int, keep_positions: bool) -> Seq<u8> {
    chunk_body(group_parts(alg, pv, cs, k, keep_positions))
}

/// The parts of the chunks of postings `start..`, grouped as `bodies_from` groups them.
pub open spec fn parts_from(alg: CompressionAlgorithm, pv: Seq<PostingModel>, size: int, start: int, keep_positions: bool) -> Seq<ChunkParts>
    decreases pv.len() - start,
{
    if size <= 0 || pv.len() - start <= size {
        seq![group_parts(alg, pv, start, pv.len() as int, keep_positions)]
    } else {
        seq![group_parts(alg, pv, start, start + size, keep_positions)] + parts_from(
            alg,
            pv,
            size,
            start + size,
            keep_positions,
        )
    }
}

/// Every chunk of postings `start..` stores parts short enough for their length fields.
pub open spec fn groups_fit(alg: CompressionAlgorithm, pv: Seq<PostingModel>, size: int, start: int, keep_positions: bool) -> bool
    decreases pv.len() - start,
{
    if size <= 0 || pv.len() - start <= size {
        parts_fit(group_parts(alg, pv, start, pv.len() as int, keep_positions))
    } else {
        parts_fit(group_parts(alg, pv, start, start + size, keep_positions)) && groups_fit(
            alg,
            pv,
            size,
            start + size,
            keep_positions,
        )
    }
}

/// The count and position lists of one chunk's parts.
proof fn lemma_group_shape(alg: CompressionAlgorithm, pv: Seq<PostingModel>, start: int, end: int, keep_positions: bool)
    requires
        0 <= start < end <= pv.len(),
        end - start <= MAX_POSTINGS,
    ensures
        group_parts(alg, pv, start, end, keep_positions).no_of_postings > 0,
        group_parts(alg, pv, start, end, keep_positions).positions.len() == 0 || group_parts(
            alg,
            pv,
            start,
            end,
            keep_positions,
        ).positions.len() == group_parts(alg, pv, start, end, keep_positions).no_of_postings,
        group_parts(alg, pv, start, end, keep_positions).positions.len() <= 255,
{
}

/// One chunk's body is a whole, parseable chunk of its parts.
proof fn lemma_group_body(alg: CompressionAlgorithm, pv: Seq<PostingModel>, start: int, end: int, keep_positions: bool)
    requires
        0 <= start < end <= pv.len(),
        end - start <= MAX_POSTINGS,
        parts_fit(group_parts(alg, pv, start, end, keep_positions)),
    ensures
        0 < chunk_body_of(alg, pv, start, end, keep_positions).len() <= u32::MAX,
        parse_chunk(chunk_body_of(alg, pv, start, end, keep_positions)) == Some(
            group_parts(alg, pv, start, end, keep_positions),
        ),
{
    lemma_group_shape(alg, pv, start, end, keep_positions);
    let c = group_parts(alg, pv, start, end, keep_positions);
    lemma_chunk_body_round_trip(c);
    lemma_chunk_body_len(c);
}

/// The bodies of a term's chunks parse back as their parts.
proof fn lemma_bodies_parse(alg: CompressionAlgorithm, pv: Seq<PostingModel>, size: int, start: int, keep_positions: bool)
    requires
        1 <= size <= MAX_POSTINGS,
        0 <= start < pv.len(),
        groups_fit(alg, pv, size, start, keep_positions),
    ensures
        forall|i: int|
            0 <= i < bodies_from(alg, pv, size, start, keep_positions).len() ==> 0 < (
            #[trigger] bodies_from(alg, pv, size, start, keep_positions)[i]).len() <= u32::MAX
                && parse_chunk(bodies_from(alg, pv, size, start, keep_positions)[i]) is Some,
        bodies_from(alg, pv, size, start, keep_positions).map_values(|b: Seq<u8>| parse_chunk(b)->Some_0)
            == parts_from(alg, pv, size, start, keep_positions),
    decreases pv.len() - start,
{
    let last = pv.len() - start <= size;
    let end = if last { pv.len() as int } else { start + size };
    lemma_group_body(alg, pv, start, end, keep_positions);
    let b = chunk_body_of(alg, pv, start, end, keep_positions);
    let c = group_parts(alg, pv, start, end, keep_positions);
    let bodies = bodies_from(alg, pv, size, start, keep_positions);
    if last {
        assert(bodies == seq![b]);
        assert(parts_from(alg, pv, size, start, keep_positions) == seq![c]);
        assert(bodies.map_values(|x: Seq<u8>| parse_chunk(x)->Some_0) =~= seq![c]);
    } else {
        lemma_bodies_parse(alg, pv, size, start + size, keep_positions);
        let rest = bodies_from(alg, pv, size, start + size, keep_positions);
        assert(bodies == seq![b] + rest);
        assert(parts_from(alg, pv, size, start, keep_positions) == seq![c] + parts_from(
            alg,
            pv,
            size,
            start + size,
            keep_positions,
        ));
        assert forall|i: int| 0 <= i < bodies.len() implies 0 < (#[trigger] bodies[i]).len() <= u32::MAX
            && parse_chunk(bodies[i]) is Some by {
            if i > 0 {
                assert(bodies[i] == rest[i - 1]);
            }
        }
        assert(bodies.map_values(|x: Seq<u8>| parse_chunk(x)->Some_0) =~= seq![c] + rest.map_values(
            |x: Seq<u8>| parse_chunk(x)->Some_0,
        ));
    }
}

/// A term's chunks written into its area by `add_term`, followed by the next
/// term's chunks or the zero padding of the block, read back as exactly the
/// parts its postings were encoded to.
pub proof fn lemma_term_area_read_back(
    alg: CompressionAlgorithm,
    pv: Seq<PostingModel>,
    size: int,
    keep_positions: bool,
    tail: Seq<u8>,
)
    requires
        1 <= size <= MAX_POSTINGS,
        pv.len() > 0,
        groups_fit(alg, pv, size, 0, keep_positions),
        tail.len() <= 4 || u32_at(tail, 0) == 0,
    ensures
        chunks_in(framed(bodies_from(alg, pv, size, 0, keep_positions)) + tail) == parts_from(
            alg,
            pv,
            size,
            0,
            keep_positions,
        ),
{
    lemma_bodies_parse(alg, pv, size, 0, keep_positions);
    lemma_chunks_in_framed(bodies_from(alg, pv, size, 0, keep_positions), tail);
}

/// The bodies of the chunks of postings `start..`: groups of `size`, the last
/// one possibly shorter (and empty where no posting is left at all).
pub open spec fn bodies_from(alg: CompressionAlgorithm, pv: Seq<PostingModel>, size: int, start: int, keep_positions: bool) -> Seq<Seq<u8>>
    decreases pv.len() - start,
{
    if size <= 0 || pv.len() - start <= size {
        seq![chunk_body_of(alg, pv, start, pv.len() as int, keep_positions)]
    } else {
        seq![chunk_body_of(alg, pv, start, start + size, keep_positions)] + bodies_from(
            alg,
            pv,
            size,
            start + size,
            keep_positions,
        )
    }
}

/// Byte strings one after another.
pub open spec fn flat(ps: Seq<Seq<u8>>) -> Seq<u8>
    decreases ps.len(),
{
    if ps.len() == 0 {
        Seq::empty()
    } else {
        flat(ps.drop_last()) + ps.last()
    }
}

/// The page of the `t`-th block a term's chunk bytes `ps` went to: the first
/// is the block the term started in (directory `terms0`/`offsets0`, earlier
/// chunks `base`); each later one holds only the term.
pub open spec fn piece_image(
    term: u32,
    terms0: Seq<u32>,
    offsets0: Seq<u16>,
    base: Seq<u8>,
    ps: Seq<Seq<u8>>,
    t: int,
    cap: nat,
) -> Seq<u8> {
    if t == 0 {
        block_image(terms0, offsets0, base + ps[0], cap)
    } else {
        block_image(seq![term], seq![0u16], ps[t], cap)
    }
}

/// The pages of every block but the last that the pieces `ps` went to, in order.
pub open spec fn spilled_pages(
    term: u32,
    terms0: Seq<u32>,
    offsets0: Seq<u16>,
    base: Seq<u8>,
    ps: Seq<Seq<u8>>,
    cap: nat,
) -> Seq<u8>
    decreases ps.len(),
{
    if ps.len() <= 1 {
        Seq::empty()
    } else {
        spilled_pages(term, terms0, offsets0, base, ps.drop_last(), cap) + piece_image(
            term,
            terms0,
            offsets0,
            base,
            ps.drop_last(),
            ps.len() - 2,
            cap,
        )
    }
}

/// A term's chunk bytes `whole`, written from a block with directory
/// `terms0`/`offsets0` and chunks `base` over `count` blocks, split into
/// `pieces`: one piece per block, in order. The buffer gained the pages of all
/// blocks but the last; the last is the current block.
pub open spec fn pieces_hold(
    term: u32,
    buf0: Seq<u8>,
    terms0: Seq<u32>,
    offsets0: Seq<u16>,
    base: Seq<u8>,
    cap: nat,
    whole: Seq<u8>,
    count: nat,
    buf: Seq<u8>,
    terms: Seq<u32>,
    offsets: Seq<u16>,
    chunks: Seq<u8>,
    pieces: Seq<Seq<u8>>,
) -> bool {
    &&& pieces.len() == count
    &&& flat(pieces) == whole
    &&& buf == buf0 + spilled_pages(term, terms0, offsets0, base, pieces, cap)
    &&& pieces.len() == 1 ==> terms == terms0 && offsets == offsets0 && chunks == base + pieces[0]
    &&& pieces.len() > 1 ==> terms == seq![term] && offsets == seq![0u16] && chunks == pieces.last()
}

/// Some split of `whole` into pieces holds (see `pieces_hold`).
pub open spec fn stored_in_blocks(
    term: u32,
    buf0: Seq<u8>,
    terms0: Seq<u32>,
    offsets0: Seq<u16>,
    base: Seq<u8>,
    cap: nat,
    whole: Seq<u8>,
    count: nat,
    buf: Seq<u8>,
    terms: Seq<u32>,
    offsets: Seq<u16>,
    chunks: Seq<u8>,
) -> bool {
    exists|pieces: Seq<Seq<u8>>|
        #[trigger] pieces_hold(term, buf0, terms0, offsets0, base, cap, whole, count, buf, terms, offsets, chunks, pieces)
}

/// The buffer when a term starts: with the page of the closed block when the
/// block was too full to take the term.
pub open spec fn opening_buffer(buf: Seq<u8>, b: Block, flushed: bool) -> Seq<u8> {
    if flushed {
        buf + block_image(b.terms@, b.term_offsets@, b.chunk_bytes@, b.capacity())
    } else {
        buf
    }
}

/// The block's term ids once the term is entered.
pub open spec fn opening_terms(b: Block, term: u32, flushed: bool) -> Seq<u32> {
    if flushed {
        seq![term]
    } else {
        b.terms@.push(term)
    }
}

/// The block's offsets once the term is entered.
pub open spec fn opening_offsets(b: Block, flushed: bool) -> Seq<u16> {
    if flushed {
        seq![0u16]
    } else {
        b.term_offsets@.push(b.chunk_bytes@.len() as u16)
    }
}

/// The block's chunk bytes before the term's.
pub open spec fn opening_chunks(b: Block, flushed: bool) -> Seq<u8> {
    if flushed {
        Seq::empty()
    } else {
        b.chunk_bytes@
    }
}

/// One byte string alone is itself; none is nothing.
proof fn lemma_flat_one(p: Seq<u8>)
    ensures
        flat(seq![p]) == p,
        flat(Seq::<Seq<u8>>::empty()) == Seq::<u8>::empty(),
{
    assert(flat(Seq::<Seq<u8>>::empty()) == Seq::<u8>::empty());
    assert(seq![p].drop_last() =~= Seq::<Seq<u8>>::empty());
    assert(seq![p].last() == p);
    assert(flat(seq![p]) =~= Seq::<u8>::empty() + p);
}

/// Adding a chunk's bytes to the last block, or starting a new block with them.
proof fn lemma_pieces_step(
    term: u32,
    terms0: Seq<u32>,
    offsets0: Seq<u16>,
    base: Seq<u8>,
    ps: Seq<Seq<u8>>,
    frame: Seq<u8>,
    cap: nat,
)
    requires
        ps.len() >= 1,
    ensures
        ({
            let u = ps.update(ps.len() - 1, ps.last() + frame);
            &&& flat(u) == flat(ps) + frame
            &&& spilled_pages(term, terms0, offsets0, base, u, cap) == spilled_pages(term, terms0, offsets0, base, ps, cap)
            &&& u.last() == ps.last() + frame
            &&& u.len() == ps.len()
            &&& (ps.len() == 1 ==> u[0] == ps[0] + frame)
        }),
        flat(ps.push(frame)) == flat(ps) + frame,
        spilled_pages(term, terms0, offsets0, base, ps.push(frame), cap) == spilled_pages(
            term,
            terms0,
            offsets0,
            base,
            ps,
            cap,
        ) + piece_image(term, terms0, offsets0, base, ps, ps.len() - 1, cap),
{
    let u = ps.update(ps.len() - 1, ps.last() + frame);
    assert(u.drop_last() =~= ps.drop_last());
    assert(flat(u) =~= flat(ps) + frame);
    assert(ps.push(frame).drop_last() =~= ps);
    assert(flat(ps.push(frame)) =~= flat(ps) + frame);
    if ps.len() >= 2 {
        assert(spilled_pages(term, terms0, offsets0, base, u, cap) == spilled_pages(term, terms0, offsets0, base, ps, cap));
    }
}

/// Every chunk, with its size field, fits a block that holds only its term.
pub open spec fn chunks_fit_blocks(bodies: Seq<Seq<u8>>, cap: nat) -> bool {
    forall|i: int| 0 <= i < bodies.len() ==> (#[trigger] bodies[i]).len() + 14 <= cap
}

/// Framing one body then more is its size, the body, then the rest's framing.
proof fn lemma_framed_cons(b: Seq<u8>, rest: Seq<Seq<u8>>)
    ensures
        framed(seq![b] + rest) == le32(b.len() as u32) + b + framed(rest),
{
    assert((seq![b] + rest).drop_first() =~= rest);
    assert((seq![b] + rest)[0] == b);
}

/// The doc ids of postings `cs..k`.
pub open spec fn chunk_ids(pv: Seq<PostingModel>, cs: int, k: int) -> Seq<u32> {
    Seq::new((k - cs) as nat, |j: int| pv[cs + j].0)
}

/// The frequencies (position counts) of postings `cs..k`.
pub open spec fn chunk_freqs(pv: Seq<PostingModel>, cs: int, k: int) -> Seq<u32> {
    Seq::new((k - cs) as nat, |j: int| pv[cs + j].1.len() as u32)
}

/// The position lists of postings `cs..k`, or none where positions are not kept.
pub open spec fn chunk_positions(pv: Seq<PostingModel>, cs: int, k: int, keep_positions: bool) -> Seq<Seq<u32>> {
    if keep_positions {
        Seq::new((k - cs) as nat, |j: int| pv[cs + j].1)
    } else {
        Seq::empty()
    }
}

/// A run of storable postings of chunk size makes an encodable chunk.
proof fn lemma_chunk_encodable(alg: CompressionAlgorithm, pv: Seq<PostingModel>, cs: int, k: int, keep_positions: bool)
    requires
        postings_storable(alg, pv),
        0 <= cs <= k <= pv.len(),
        k - cs <= MAX_POSTINGS,
    ensures
        encodable(
            alg,
            (k - cs) as u8,
            chunk_ids(pv, cs, k),
            chunk_freqs(pv, cs, k),
            chunk_positions(pv, cs, k, keep_positions),
        ),
{
    let simple = alg == CompressionAlgorithm::Simple9 || alg == CompressionAlgorithm::Simple16;
    let ids = chunk_ids(pv, cs, k);
    let freqs = chunk_freqs(pv, cs, k);
    let ps = chunk_positions(pv, cs, k, keep_positions);
    assert(non_decreasing(ids)) by {
        assert forall|i: int| 0 < i < ids.len() implies ids[i - 1] <= #[trigger] ids[i] by {
            assert(pv[cs + i - 1].0 < pv[cs + i].0);
        }
    }
    if simple {
        assert(fits_28_bits(ids)) by {
            assert forall|i: int| 0 <= i < ids.len() implies ids[i] <= SIMPLE_MAX by {
                assert(pv[cs + i].0 <= SIMPLE_MAX);
            }
        }
        lemma_d_gaps_fit(ids);
        assert(fits_28_bits(freqs)) by {
            assert forall|i: int| 0 <= i < freqs.len() implies freqs[i] <= SIMPLE_MAX by {
                assert(non_decreasing(pv[cs + i].1));
            }
        }
    }
    assert forall|i: int| 0 <= i < ps.len() implies non_decreasing(#[trigger] ps[i])
        && crate::compressor::can_compress(alg, d_gaps(ps[i])) by {
        assert(ps[i] == pv[cs + i].1);
        assert(non_decreasing(pv[cs + i].1));
        if simple {
            lemma_d_gaps_fit(ps[i]);
        }
    }
}

} // verus!
