//! A block: a fixed-size page of the inverted index holding a sorted term
//! directory and the chunks of those terms.
//!
//! Layout: `u32 term_count`, the `u32` term ids, the `u16` offsets of each
//! term's first chunk in the chunk area, then the chunk area, zero-padded to
//! the block's capacity.
use crate::bytes::{
    le16_seq, le32, le32_seq, lemma_le16_seq_index, lemma_le16_seq_len, lemma_le32_seq_index,
    lemma_le32_seq_len, lemma_u32_at_le32, push_u16_le, push_u32_le, read_u16_le, read_u32_le,
    u16_at, u16_of, u32_at, u32_of,
};
use crate::chunk::{byte_segments, parse_chunk, slice_to_vec, Chunk, ChunkParts};
use crate::compressor::CompressionAlgorithm;
use vstd::prelude::*;

verus! {

/// The capacity, in thousands of bytes, of a block when none is given.
pub const DEFAULT_BLOCK_SIZE: u8 = 64;

/// Below this much free space a block takes no new term (a term id and an offset).
pub const MINIMUM_BLOCK_SIZE: u32 = 6;

pub struct Block {
    /// Capacity in thousands of bytes.
    pub max_block_size: u8,
    /// Bytes used so far: header, term directory and chunks.
    pub current_block_size: u32,
    pub block_id: u32,
    /// The encoded chunks of every term in the block.
    pub chunk_bytes: Vec<u8>,
    pub no_of_terms: u32,
    /// The term ids, ascending.
    pub terms: Vec<u32>,
    /// Where each term's chunks start in `chunk_bytes`.
    pub term_offsets: Vec<u16>,
}

/// Term ids never decrease along `s`.
pub open spec fn sorted_ids(s: Seq<u32>) -> bool {
    forall|i: int, j: int| 0 <= i < j < s.len() ==> s[i] <= s[j]
}

/// `n` zero bytes.
pub open spec fn zeros(n: nat) -> Seq<u8> {
    Seq::new(n, |i: int| 0u8)
}

/// The page a block writes: header, term ids, offsets, chunks, zero padding up to `cap` bytes.
pub open spec fn block_image(terms: Seq<u32>, offsets: Seq<u16>, chunks: Seq<u8>, cap: nat) -> Seq<u8> {
    let used = le32(terms.len() as u32) + le32_seq(terms) + le16_seq(offsets) + chunks;
    used + zeros((cap - used.len()) as nat)
}

/// What a block reads from a page: its term ids, offsets and chunk area.
pub struct BlockParts {
    pub terms: Seq<u32>,
    pub offsets: Seq<u16>,
    pub chunks: Seq<u8>,
}

/// Parses a page; `None` where its directory runs past its end.
pub open spec fn parse_block(b: Seq<u8>) -> Option<BlockParts> {
    if b.len() < 4 {
        None
    } else {
        let n = u32_at(b, 0) as int;
        if b.len() < 4 + 6 * n {
            None
        } else {
            Some(
                BlockParts {
                    terms: Seq::new(n as nat, |i: int| u32_at(b, 4 + 4 * i)),
                    offsets: Seq::new(n as nat, |i: int| u16_at(b, 4 + 4 * n + 2 * i)),
                    chunks: b.subrange(4 + 6 * n, b.len() as int),
                },
            )
        }
    }
}

/// Writing a block's page and reading it back gives its term ids and offsets,
/// and a chunk area that starts with its chunks.
pub proof fn lemma_block_round_trip(terms: Seq<u32>, offsets: Seq<u16>, chunks: Seq<u8>, cap: nat)
    requires
        terms.len() == offsets.len(),
        terms.len() <= u32::MAX,
        4 + 6 * terms.len() + chunks.len() <= cap,
    ensures
        parse_block(block_image(terms, offsets, chunks, cap)) is Some,
        parse_block(block_image(terms, offsets, chunks, cap))->Some_0.terms == terms,
        parse_block(block_image(terms, offsets, chunks, cap))->Some_0.offsets == offsets,
        parse_block(block_image(terms, offsets, chunks, cap))->Some_0.chunks.take(chunks.len() as int)
            == chunks,
{
    let n = terms.len() as int;
    let tb = le32_seq(terms);
    let ob = le16_seq(offsets);
    lemma_le32_seq_len(terms);
    lemma_le16_seq_len(offsets);
    let used = le32(n as u32) + tb + ob + chunks;
    let b = block_image(terms, offsets, chunks, cap);
    lemma_u32_at_le32(Seq::empty(), n as u32, tb + ob + chunks + zeros((cap - used.len()) as nat));
    assert(b =~= Seq::<u8>::empty() + le32(n as u32) + (tb + ob + chunks + zeros(
        (cap - used.len()) as nat,
    )));
    assert(u32_at(b, 0) as int == n);
    let p = parse_block(b)->Some_0;
    assert forall|i: int| 0 <= i < n implies #[trigger] p.terms[i] == terms[i] by {
        lemma_le32_seq_index(terms, i);
        let w = tb.subrange(4 * i, 4 * i + 4);
        assert(b[4 + 4 * i] == w[0]);
        assert(b[4 + 4 * i + 1] == w[1]);
        assert(b[4 + 4 * i + 2] == w[2]);
        assert(b[4 + 4 * i + 3] == w[3]);
        crate::bytes::lemma_le32_round_trip(terms[i]);
    }
    assert(p.terms =~= terms);
    assert forall|i: int| 0 <= i < n implies #[trigger] p.offsets[i] == offsets[i] by {
        lemma_le16_seq_index(offsets, i);
        let w = ob.subrange(2 * i, 2 * i + 2);
        assert(b[4 + 4 * n + 2 * i] == w[0]);
        assert(b[4 + 4 * n + 2 * i + 1] == w[1]);
        crate::bytes::lemma_le16_round_trip(offsets[i]);
    }
    assert(p.offsets =~= offsets);
    assert(p.chunks.take(chunks.len() as int) =~= chunks);
}

/// The chunks stored one after another in a term's chunk area: each a `u32`
/// size and that many bytes. Reading stops at a size of zero (the padding
/// after a block's last chunk), at fewer than five bytes left, at a size that
/// runs past the area, and at bytes that do not parse as a chunk.
pub open spec fn chunks_in(area: Seq<u8>) -> Seq<ChunkParts>
    decreases area.len(),
{
    if area.len() <= 4 {
        Seq::empty()
    } else {
        let size = u32_at(area, 0) as int;
        if size == 0 || size > area.len() - 4 {
            Seq::empty()
        } else {
            match parse_chunk(area.subrange(4, 4 + size)) {
                Some(c) => seq![c] + chunks_in(area.subrange(4 + size, area.len() as int)),
                None => Seq::empty(),
            }
        }
    }
}

/// Chunk bodies written one after another, each after its `u32` size.
pub open spec fn framed(bodies: Seq<Seq<u8>>) -> Seq<u8>
    decreases bodies.len(),
{
    if bodies.len() == 0 {
        Seq::empty()
    } else {
        le32(bodies[0].len() as u32) + bodies[0] + framed(bodies.drop_first())
    }
}

/// Chunks written one after another into a term's area, followed by zero
/// padding or the end of the block, read back as exactly those chunks.
pub proof fn lemma_chunks_in_framed(bodies: Seq<Seq<u8>>, tail: Seq<u8>)
    requires
        forall|i: int|
            0 <= i < bodies.len() ==> 0 < (#[trigger] bodies[i]).len() <= u32::MAX && parse_chunk(
                bodies[i],
            ) is Some,
        tail.len() <= 4 || u32_at(tail, 0) == 0,
    ensures
        chunks_in(framed(bodies) + tail) == bodies.map_values(|b: Seq<u8>| parse_chunk(b)->Some_0),
    decreases bodies.len(),
{
    if bodies.len() == 0 {
        assert(framed(bodies) + tail =~= tail);
        assert(bodies.map_values(|b: Seq<u8>| parse_chunk(b)->Some_0) =~= Seq::<ChunkParts>::empty());
    } else {
        let b0 = bodies[0];
        let rest = bodies.drop_first();
        let after = framed(rest) + tail;
        let area = framed(bodies) + tail;
        assert(area =~= Seq::<u8>::empty() + le32(b0.len() as u32) + (b0 + after));
        lemma_u32_at_le32(Seq::empty(), b0.len() as u32, b0 + after);
        assert(u32_at(area, 0) as int == b0.len());
        assert(area.subrange(4, 4 + b0.len() as int) =~= b0);
        assert(area.subrange(4 + b0.len() as int, area.len() as int) =~= after);
        assert forall|i: int| 0 <= i < rest.len() implies 0 < (#[trigger] rest[i]).len() <= u32::MAX
            && parse_chunk(rest[i]) is Some by {
            assert(rest[i] == bodies[i + 1]);
        }
        lemma_chunks_in_framed(rest, tail);
        assert(bodies.map_values(|b: Seq<u8>| parse_chunk(b)->Some_0) =~= seq![parse_chunk(b0)->Some_0]
            + rest.map_values(|b: Seq<u8>| parse_chunk(b)->Some_0));
    }
}

/// What a decoded chunk holds, as its stored parts.
pub open spec fn parts_of(c: Chunk) -> ChunkParts {
    ChunkParts {
        no_of_postings: c.no_of_postings,
        max_doc_id: c.max_doc_id,
        doc_ids: c.compressed_doc_ids@,
        frequencies: c.compressed_doc_frequencies@,
        positions: byte_segments(c.indexed_compressed_positions@),
    }
}

impl Block {
    /// The chunk area of the term at `i`: from its offset to the next term's,
    /// or to the end for the last term; empty where the offsets are out of order.
    pub open spec fn term_area(&self, i: int) -> Seq<u8> {
        let start = self.term_offsets@[i] as int;
        let end = if i == self.terms@.len() - 1 {
            self.chunk_bytes@.len() as int
        } else {
            self.term_offsets@[i + 1] as int
        };
        if start <= end && end <= self.chunk_bytes@.len() {
            self.chunk_bytes@.subrange(start, end)
        } else {
            Seq::empty()
        }
    }

    /// The capacity in bytes.
    pub open spec fn capacity(&self) -> nat {
        self.max_block_size as nat * 1000
    }

    pub fn new(block_id: u32, max_block_size: Option<u8>) -> (r: Self)
        ensures
            r.max_block_size == match max_block_size {
                Some(s) => s,
                None => DEFAULT_BLOCK_SIZE,
            },
            r.current_block_size == 4,
            r.no_of_terms == 0,
            r.block_id == block_id,
            r.chunk_bytes@.len() == 0,
            r.terms@.len() == 0,
            r.term_offsets@.len() == 0,
    {
        let size = match max_block_size {
            Some(s) => s,
            None => DEFAULT_BLOCK_SIZE,
        };
        Self {
            max_block_size: size,
            current_block_size: 4,
            no_of_terms: 0,
            block_id,
            chunk_bytes: Vec::new(),
            term_offsets: Vec::new(),
            terms: Vec::new(),
        }
    }

    /// Empties the block; only the header's four bytes count as used.
    pub fn reset(&mut self)
        ensures
            final(self).current_block_size == 4,
            final(self).no_of_terms == 0,
            final(self).terms@.len() == 0,
            final(self).chunk_bytes@.len() == 0,
            final(self).term_offsets@.len() == 0,
            final(self).block_id == old(self).block_id,
            final(self).max_block_size == old(self).max_block_size,
    {
        self.current_block_size = 4;
        self.no_of_terms = 0;
        self.terms.clear();
        self.chunk_bytes.clear();
        self.term_offsets.clear();
    }

    /// The index of `term_id` among the block's (ascending) term ids, or -1.
    pub fn check_if_term_exists(&self, term_id: u32) -> (r: i64)
        requires
            sorted_ids(self.terms@),
            self.terms@.len() <= u32::MAX,
        ensures
            r == -1 <==> !self.terms@.contains(term_id),
            r != -1 ==> 0 <= r < self.terms@.len() && self.terms@[r as int] == term_id,
    {
        let mut lo: usize = 0;
        let mut hi: usize = self.terms.len();
        while lo < hi
            invariant
                0 <= lo <= hi <= self.terms@.len(),
                self.terms@.len() <= u32::MAX,
                sorted_ids(self.terms@),
                forall|i: int| 0 <= i < lo ==> self.terms@[i] < term_id,
                forall|i: int| hi <= i < self.terms@.len() ==> self.terms@[i] > term_id,
            decreases hi - lo,
        {
            let mid = lo + (hi - lo) / 2;
            let t = self.terms[mid];
            if t == term_id {
                assert(self.terms@[mid as int] == term_id);
                return mid as i64;
            } else if t < term_id {
                lo = mid + 1;
            } else {
                hi = mid;
            }
        }
        proof {
            if self.terms@.contains(term_id) {
                let k = choose|k: int| 0 <= k < self.terms@.len() && self.terms@[k] == term_id;
                assert(k < lo || k >= hi);
            }
        }
        -1
    }

    pub fn set_block_id(&mut self, block_id: u32)
        ensures
            final(self).block_id == block_id,
            final(self).terms == old(self).terms,
            final(self).term_offsets == old(self).term_offsets,
            final(self).chunk_bytes == old(self).chunk_bytes,
            final(self).current_block_size == old(self).current_block_size,
            final(self).max_block_size == old(self).max_block_size,
            final(self).no_of_terms == old(self).no_of_terms,
    {
        self.block_id = block_id;
    }

    pub fn set_no_of_terms(&mut self, no_of_terms: u32)
        ensures
            final(self).no_of_terms == no_of_terms,
            final(self).block_id == old(self).block_id,
            final(self).terms == old(self).terms,
            final(self).term_offsets == old(self).term_offsets,
            final(self).chunk_bytes == old(self).chunk_bytes,
            final(self).current_block_size == old(self).current_block_size,
            final(self).max_block_size == old(self).max_block_size,
    {
        self.no_of_terms = no_of_terms;
    }

    /// Starts a term: its id and the current end of the chunk area as its
    /// offset, six bytes of the block.
    pub fn add_term(&mut self, term: u32)
        requires
            old(self).current_block_size + 6 <= u32::MAX,
        ensures
            final(self).terms@ == old(self).terms@.push(term),
            final(self).term_offsets@ == old(self).term_offsets@.push(
                old(self).chunk_bytes@.len() as u16,
            ),
            final(self).current_block_size == old(self).current_block_size + 6,
            final(self).chunk_bytes == old(self).chunk_bytes,
            final(self).block_id == old(self).block_id,
            final(self).max_block_size == old(self).max_block_size,
            final(self).no_of_terms == old(self).no_of_terms,
    {
        self.current_block_size = self.current_block_size + 6;
        self.terms.push(term);
        self.term_offsets.push(#[verifier::truncate] (self.chunk_bytes.len() as u16));
    }

    /// The first of `chunks` whose last doc id is at least `doc_id`.
    pub fn get_chunk_for_doc<'a>(&self, doc_id: u32, chunks: &'a [Chunk]) -> (r: Option<&'a Chunk>)
        ensures
            match r {
                Some(c) => exists|i: int|
                    0 <= i < chunks@.len() && chunks@[i] == *c && c.max_doc_id >= doc_id && forall|
                        j: int,
                    | 0 <= j < i ==> (#[trigger] chunks@[j]).max_doc_id < doc_id,
                None => forall|j: int| 0 <= j < chunks@.len() ==> (#[trigger] chunks@[j]).max_doc_id < doc_id,
            },
    {
        let mut i: usize = 0;
        while i < chunks.len() && chunks[i].max_doc_id < doc_id
            invariant
                i <= chunks@.len(),
                forall|j: int| 0 <= j < i ==> (#[trigger] chunks@[j]).max_doc_id < doc_id,
            decreases chunks@.len() - i,
        {
            i = i + 1;
        }
        if i == chunks.len() {
            return None;
        }
        Some(&chunks[i])
    }

    /// Free bytes left in the block.
    pub fn space_left(&self) -> (r: u32)
        requires
            self.current_block_size <= self.capacity(),
        ensures
            r == self.capacity() - self.current_block_size,
    {
        self.max_block_size as u32 * 1000 - self.current_block_size
    }

    /// Appends an encoded chunk; the caller has checked that it fits.
    pub fn add_chunk_bytes(&mut self, chunk_bytes: Vec<u8>)
        requires
            old(self).current_block_size + chunk_bytes@.len() <= u32::MAX,
        ensures
            final(self).chunk_bytes@ == old(self).chunk_bytes@ + chunk_bytes@,
            final(self).current_block_size == old(self).current_block_size + chunk_bytes@.len(),
            final(self).terms == old(self).terms,
            final(self).term_offsets == old(self).term_offsets,
            final(self).block_id == old(self).block_id,
            final(self).max_block_size == old(self).max_block_size,
            final(self).no_of_terms == old(self).no_of_terms,
    {
        let n = chunk_bytes.len();
        self.chunk_bytes.extend_from_slice(chunk_bytes.as_slice());
        self.current_block_size = self.current_block_size + n as u32;
    }

    /// Decodes the chunks of the term at `term_index`: they run from its offset
    /// to the next term's offset, or to the end of the chunk area, and stop at
    /// a size field of zero (the padding after the last chunk) or at bytes that
    /// do not hold a whole chunk.
    pub fn decode_chunks_for_term(
        &self,
        term_id: u32,
        term_index: usize,
        compression_algorithm: CompressionAlgorithm,
    ) -> (r: Vec<Chunk>)
        requires
            term_index < self.terms@.len(),
            self.term_offsets@.len() == self.terms@.len(),
        ensures
            forall|i: int|
                0 <= i < r@.len() ==> (#[trigger] r@[i]).term == term_id
                    && r@[i].compressor.compression_algorithm == compression_algorithm,
            r@.map_values(|c: Chunk| parts_of(c)) == chunks_in(self.term_area(term_index as int)),
    {
        let mut chunk_vec: Vec<Chunk> = Vec::new();
        let len = self.chunk_bytes.len();
        let start = self.term_offsets[term_index] as usize;
        let end = if term_index == self.terms.len() - 1 {
            len
        } else {
            self.term_offsets[term_index + 1] as usize
        };
        if start > end || end > len {
            assert(chunks_in(Seq::<u8>::empty()) =~= Seq::<ChunkParts>::empty());
            assert(chunk_vec@.map_values(|c: Chunk| parts_of(c)) =~= Seq::<ChunkParts>::empty());
            return chunk_vec;
        }
        let area = slice_to_vec(self.chunk_bytes.as_slice(), start, end);
        assert(area@ == self.term_area(term_index as int));
        let ghost whole = chunks_in(area@);
        let area_len = area.len();
        let mut off: usize = 0;
        assert(area@.subrange(0, area_len as int) =~= area@);
        assert(chunk_vec@.map_values(|c: Chunk| parts_of(c)) + whole =~= whole);
        loop
            invariant
                off <= area_len,
                area_len == area@.len(),
                whole == chunks_in(area@),
                chunk_vec@.map_values(|c: Chunk| parts_of(c)) + chunks_in(
                    area@.subrange(off as int, area_len as int),
                ) == whole,
                forall|i: int|
                    0 <= i < chunk_vec@.len() ==> (#[trigger] chunk_vec@[i]).term == term_id
                        && chunk_vec@[i].compressor.compression_algorithm == compression_algorithm,
            ensures
                chunk_vec@.map_values(|c: Chunk| parts_of(c)) == whole,
                forall|i: int|
                    0 <= i < chunk_vec@.len() ==> (#[trigger] chunk_vec@[i]).term == term_id
                        && chunk_vec@[i].compressor.compression_algorithm == compression_algorithm,
            decreases area_len - off,
        {
            let ghost rest = area@.subrange(off as int, area_len as int);
            let ghost done = chunk_vec@.map_values(|c: Chunk| parts_of(c));
            if !(off < area_len && area_len - off > 4) {
                assert(chunks_in(rest) =~= Seq::<ChunkParts>::empty());
                assert(done + Seq::<ChunkParts>::empty() =~= done);
                break;
            }
            let size = read_u32_le(area.as_slice(), off) as usize;
            assert(u32_at(rest, 0) as usize == size);
            if size == 0 || size > area_len - off - 4 {
                assert(chunks_in(rest) =~= Seq::<ChunkParts>::empty());
                assert(done + Seq::<ChunkParts>::empty() =~= done);
                break;
            }
            let bytes = slice_to_vec(area.as_slice(), off + 4, off + 4 + size);
            assert(bytes@ =~= rest.subrange(4, 4 + size as int));
            let mut chunk = Chunk::new(term_id, compression_algorithm);
            if !chunk.decode(bytes.as_slice()) {
                assert(chunks_in(rest) =~= Seq::<ChunkParts>::empty());
                assert(done + Seq::<ChunkParts>::empty() =~= done);
                break;
            }
            assert(parts_of(chunk) == parse_chunk(bytes@).unwrap());
            chunk_vec.push(chunk);
            let next = off + 4 + size;
            assert(rest.subrange(4 + size as int, rest.len() as int) =~= area@.subrange(
                next as int,
                area_len as int,
            ));
            assert(chunk_vec@.map_values(|c: Chunk| parts_of(c)) =~= done.push(parts_of(chunk)));
            assert(done.push(parts_of(chunk)) + chunks_in(area@.subrange(next as int, area_len as int))
                =~= done + chunks_in(rest));
            off = next;
        }
        chunk_vec
    }

    /// Writes the block's page into `block_bytes`: exactly `capacity` bytes.
    pub fn encode(&mut self, block_bytes: &mut Vec<u8>)
        requires
            old(self).term_offsets@.len() == old(self).terms@.len(),
            4 + 6 * old(self).terms@.len() + old(self).chunk_bytes@.len() <= old(self).capacity(),
        ensures
            final(block_bytes)@ == block_image(
                old(self).terms@,
                old(self).term_offsets@,
                old(self).chunk_bytes@,
                old(self).capacity(),
            ),
            *final(self) == *old(self),
    {
        let cap = self.max_block_size as usize * 1000;
        block_bytes.clear();
        push_u32_le(block_bytes, self.terms.len() as u32);
        let ghost h = block_bytes@;
        let mut i: usize = 0;
        while i < self.terms.len()
            invariant
                i <= self.terms@.len(),
                block_bytes@ == h + le32_seq(self.terms@.take(i as int)),
            decreases self.terms@.len() - i,
        {
            push_u32_le(block_bytes, self.terms[i]);
            assert(self.terms@.take(i + 1).drop_last() =~= self.terms@.take(i as int));
            i = i + 1;
        }
        assert(self.terms@.take(i as int) =~= self.terms@);
        let ghost h2 = block_bytes@;
        let mut j: usize = 0;
        while j < self.term_offsets.len()
            invariant
                j <= self.term_offsets@.len(),
                block_bytes@ == h2 + le16_seq(self.term_offsets@.take(j as int)),
            decreases self.term_offsets@.len() - j,
        {
            push_u16_le(block_bytes, self.term_offsets[j]);
            assert(self.term_offsets@.take(j + 1).drop_last() =~= self.term_offsets@.take(j as int));
            j = j + 1;
        }
        assert(self.term_offsets@.take(j as int) =~= self.term_offsets@);
        block_bytes.extend_from_slice(self.chunk_bytes.as_slice());
        let ghost used = block_bytes@;
        proof {
            lemma_le32_seq_len(self.terms@);
            lemma_le16_seq_len(self.term_offsets@);
        }
        assert(used.len() == 4 + 6 * self.terms@.len() + self.chunk_bytes@.len());
        while block_bytes.len() < cap
            invariant
                used.len() <= block_bytes@.len() <= cap,
                block_bytes@ =~= used + zeros((block_bytes@.len() - used.len()) as nat),
            decreases cap - block_bytes@.len(),
        {
            block_bytes.push(0);
        }
    }

    /// Reads a page: the term directory and the chunk area. Returns false,
    /// leaving the block as it was, where the directory runs past the page.
    pub fn decode_from_bytes(&mut self, block_bytes: &[u8]) -> (ok: bool)
        ensures
            ok == parse_block(block_bytes@).is_some(),
            ok ==> {
                let p = parse_block(block_bytes@).unwrap();
                &&& final(self).terms@ == p.terms
                &&& final(self).term_offsets@ == p.offsets
                &&& final(self).chunk_bytes@ == p.chunks
                &&& final(self).no_of_terms == p.terms.len()
            },
            !ok ==> *final(self) == *old(self),
            final(self).block_id == old(self).block_id,
            final(self).max_block_size == old(self).max_block_size,
    {
        let len = block_bytes.len();
        if len < 4 {
            return false;
        }
        let n = read_u32_le(block_bytes, 0);
        if (n as usize) > (len - 4) / 6 {
            return false;
        }
        let n = n as usize;
        let mut terms: Vec<u32> = Vec::new();
        let mut i: usize = 0;
        while i < n
            invariant
                i <= n,
                4 + 6 * n <= len,
                len == block_bytes@.len(),
                terms@ =~= Seq::new(i as nat, |k: int| u32_at(block_bytes@, 4 + 4 * k)),
            decreases n - i,
        {
            terms.push(read_u32_le(block_bytes, 4 + 4 * i));
            i = i + 1;
        }
        let mut offsets: Vec<u16> = Vec::new();
        let mut j: usize = 0;
        while j < n
            invariant
                j <= n,
                4 + 6 * n <= len,
                len == block_bytes@.len(),
                offsets@ =~= Seq::new(j as nat, |k: int| u16_at(block_bytes@, 4 + 4 * n + 2 * k)),
            decreases n - j,
        {
            offsets.push(read_u16_le(block_bytes, 4 + 4 * n + 2 * j));
            j = j + 1;
        }
        self.no_of_terms = n as u32;
        self.terms = terms;
        self.term_offsets = offsets;
        self.chunk_bytes = slice_to_vec(block_bytes, 4 + 6 * n, len);
        true
    }
}

} // verus!
