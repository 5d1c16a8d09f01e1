//! A chunk: up to 128 postings of one term, the unit of decompression.
//!
//! Encoded layout: `u32 size` (of what follows), `u8 no_of_postings`,
//! `u32 max_doc_id`, `u16` length and bytes of the d-gap compressed doc ids,
//! `u16` length and bytes of the compressed frequencies, then, when positions
//! are kept, a `u16` length and the d-gap compressed positions of each posting.
use crate::bytes::{
    le16, le32, lemma_u16_at_le16, lemma_u32_at_le32, push_u16_le, push_u32_le, read_u16_le,
    read_u32_le, u16_at, u32_at,
};
use crate::compressor::{
    can_compress, compressed, d_gaps, decodable, decompressed, non_decreasing,
    recovers_with_gaps, recovers, running_sums, CompressionAlgorithm, Compressor,
};
use vstd::prelude::*;

verus! {

/// The most postings a chunk holds.
pub const MAX_POSTINGS: u8 = 128;

#[derive(Debug, Clone)]
pub struct Chunk {
    pub size_of_chunk: u32,
    pub max_doc_id: u32,
    pub no_of_postings: u8,
    pub compressed_doc_ids: Vec<u8>,
    pub compressed_doc_frequencies: Vec<u8>,
    pub compressed_doc_positions: Vec<u8>,
    pub indexed_compressed_positions: Vec<Vec<u8>>,
    pub compressor: Compressor,
    pub p_for_delta_compressor: Compressor,
    pub doc_ids: Vec<u32>,
    pub doc_positions: Vec<Vec<u32>>,
    pub doc_frequencies: Vec<u32>,
    pub term: u32,
}

/// The contents of a sequence of byte vectors.
pub open spec fn byte_segments(v: Seq<Vec<u8>>) -> Seq<Seq<u8>> {
    v.map_values(|b: Vec<u8>| b@)
}

/// The contents of a sequence of position lists.
pub open spec fn position_lists(v: Seq<Vec<u32>>) -> Seq<Seq<u32>> {
    v.map_values(|p: Vec<u32>| p@)
}

/// Simple9 or Simple16: codecs whose output takes at most four bytes per value.
pub open spec fn simple_codec(alg: CompressionAlgorithm) -> bool {
    alg == CompressionAlgorithm::Simple9 || alg == CompressionAlgorithm::Simple16
}

/// The codec a chunk of `n` postings stores its doc ids and frequencies with:
/// PFor-Delta for a full chunk of 128, the primary codec otherwise.
pub open spec fn codec_for(primary: CompressionAlgorithm, n: u8) -> CompressionAlgorithm {
    if n == MAX_POSTINGS {
        CompressionAlgorithm::PforDelta
    } else {
        primary
    }
}

/// Length-prefixed segments, one after another.
pub open spec fn segments_bytes(ps: Seq<Seq<u8>>) -> Seq<u8>
    decreases ps.len(),
{
    if ps.len() == 0 {
        Seq::empty()
    } else {
        le16(ps[0].len() as u16) + ps[0] + segments_bytes(ps.drop_first())
    }
}

/// Reads `n` length-prefixed segments from the front of `b`.
pub open spec fn parse_segments(b: Seq<u8>, n: nat) -> Option<Seq<Seq<u8>>>
    decreases n,
{
    if n == 0 {
        Some(Seq::empty())
    } else if b.len() < 2 {
        None
    } else {
        let l = u16_at(b, 0) as int;
        if b.len() < 2 + l {
            None
        } else {
            match parse_segments(b.subrange(2 + l, b.len() as int), (n - 1) as nat) {
                Some(rest) => Some(seq![b.subrange(2, 2 + l)] + rest),
                None => None,
            }
        }
    }
}

/// The stored parts of a chunk.
pub struct ChunkParts {
    pub no_of_postings: u8,
    pub max_doc_id: u32,
    pub doc_ids: Seq<u8>,
    pub frequencies: Seq<u8>,
    pub positions: Seq<Seq<u8>>,
}

/// The bytes of a chunk after its size field.
pub open spec fn chunk_body(c: ChunkParts) -> Seq<u8> {
    seq![c.no_of_postings] + le32(c.max_doc_id) + le16(c.doc_ids.len() as u16) + c.doc_ids + le16(
        c.frequencies.len() as u16,
    ) + c.frequencies + segments_bytes(c.positions)
}

/// Parses the bytes of a chunk after its size field. A chunk of no postings
/// stores nothing else that is read.
pub open spec fn parse_chunk(b: Seq<u8>) -> Option<ChunkParts> {
    if b.len() < 1 {
        None
    } else if b[0] == 0 {
        Some(
            ChunkParts {
                no_of_postings: 0,
                max_doc_id: 0,
                doc_ids: Seq::empty(),
                frequencies: Seq::empty(),
                positions: Seq::empty(),
            },
        )
    } else if b.len() < 7 {
        None
    } else {
        let dl = u16_at(b, 5) as int;
        if b.len() < 9 + dl {
            None
        } else {
            let fl = u16_at(b, 7 + dl) as int;
            if b.len() < 9 + dl + fl {
                None
            } else {
                let rest = b.subrange(9 + dl + fl, b.len() as int);
                let ps = if rest.len() == 0 {
                    Some(Seq::<Seq<u8>>::empty())
                } else {
                    parse_segments(rest, b[0] as nat)
                };
                match ps {
                    Some(ps) => Some(
                        ChunkParts {
                            no_of_postings: b[0],
                            max_doc_id: u32_at(b, 1),
                            doc_ids: b.subrange(7, 7 + dl),
                            frequencies: b.subrange(9 + dl, 9 + dl + fl),
                            positions: ps,
                        },
                    ),
                    None => None,
                }
            }
        }
    }
}

/// The parts `encode` stores for these postings.
pub open spec fn encoded_parts(
    primary: CompressionAlgorithm,
    no_of_postings: u8,
    max_doc_id: u32,
    doc_ids: Seq<u32>,
    frequencies: Seq<u32>,
    positions: Seq<Seq<u32>>,
) -> ChunkParts {
    let codec = codec_for(primary, no_of_postings);
    ChunkParts {
        no_of_postings,
        max_doc_id,
        doc_ids: compressed(codec, d_gaps(doc_ids)),
        frequencies: compressed(codec, frequencies),
        positions: positions.map_values(|p: Seq<u32>| compressed(primary, d_gaps(p))),
    }
}

/// Whether the codecs accept these postings: doc ids and every position list
/// ascending, and each list within its codec's range.
pub open spec fn encodable(
    primary: CompressionAlgorithm,
    no_of_postings: u8,
    doc_ids: Seq<u32>,
    frequencies: Seq<u32>,
    positions: Seq<Seq<u32>>,
) -> bool {
    let codec = codec_for(primary, no_of_postings);
    &&& non_decreasing(doc_ids)
    &&& can_compress(codec, d_gaps(doc_ids))
    &&& can_compress(codec, frequencies)
    &&& forall|i: int|
        0 <= i < positions.len() ==> non_decreasing(#[trigger] positions[i]) && can_compress(
            primary,
            d_gaps(positions[i]),
        )
}

/// Every stored part is short enough for its `u16` length field.
pub open spec fn parts_fit(c: ChunkParts) -> bool {
    &&& c.doc_ids.len() <= u16::MAX
    &&& c.frequencies.len() <= u16::MAX
    &&& forall|i: int| 0 <= i < c.positions.len() ==> #[trigger] c.positions[i].len() <= u16::MAX
}

/// Appending a segment appends its length prefix and its bytes.
pub proof fn lemma_segments_bytes_push(ps: Seq<Seq<u8>>, p: Seq<u8>)
    ensures
        segments_bytes(ps.push(p)) == segments_bytes(ps) + le16(p.len() as u16) + p,
    decreases ps.len(),
{
    if ps.len() == 0 {
        assert(ps.push(p).drop_first() =~= Seq::<Seq<u8>>::empty());
        assert(segments_bytes(ps.push(p).drop_first()) =~= Seq::<u8>::empty());
        assert(segments_bytes(ps.push(p)) =~= segments_bytes(ps) + le16(p.len() as u16) + p);
    } else {
        assert(ps.push(p).drop_first() =~= ps.drop_first().push(p));
        lemma_segments_bytes_push(ps.drop_first(), p);
        assert(segments_bytes(ps.push(p)) =~= segments_bytes(ps) + le16(p.len() as u16) + p);
    }
}

/// Reading back length-prefixed segments gives the segments.
pub proof fn lemma_parse_segments(ps: Seq<Seq<u8>>)
    requires
        forall|i: int| 0 <= i < ps.len() ==> #[trigger] ps[i].len() <= u16::MAX,
    ensures
        parse_segments(segments_bytes(ps), ps.len()) == Some(ps),
    decreases ps.len(),
{
    if ps.len() > 0 {
        let b = segments_bytes(ps);
        let p = ps[0];
        let tail = segments_bytes(ps.drop_first());
        lemma_u16_at_le16(Seq::empty(), p.len() as u16, p + tail);
        assert(b =~= Seq::<u8>::empty() + le16(p.len() as u16) + (p + tail));
        assert(b.subrange(2 + p.len() as int, b.len() as int) =~= tail);
        assert(b.subrange(2, 2 + p.len() as int) =~= p);
        lemma_parse_segments(ps.drop_first());
        assert(seq![p] + ps.drop_first() =~= ps);
    }
}

/// Length-prefixed segments of at most `u16::MAX` bytes take at most that plus two each.
proof fn lemma_segments_len(ps: Seq<Seq<u8>>)
    requires
        forall|i: int| 0 <= i < ps.len() ==> #[trigger] ps[i].len() <= u16::MAX,
    ensures
        segments_bytes(ps).len() <= 65537 * ps.len(),
    decreases ps.len(),
{
    if ps.len() > 0 {
        assert forall|i: int| 0 <= i < ps.drop_first().len() implies #[trigger] ps.drop_first()[i].len() <= u16::MAX by {
            assert(ps.drop_first()[i] == ps[i + 1]);
        }
        lemma_segments_len(ps.drop_first());
    }
}

/// A chunk body whose parts fit their length fields is non-empty and fits a `u32` size.
pub proof fn lemma_chunk_body_len(c: ChunkParts)
    requires
        parts_fit(c),
        c.positions.len() <= 255,
    ensures
        0 < chunk_body(c).len() <= u32::MAX,
{
    lemma_segments_len(c.positions);
    assert(chunk_body(c).len() == 9 + c.doc_ids.len() + c.frequencies.len() + segments_bytes(c.positions).len());
}

/// Encoding then decoding a chunk's body gives back the parts it was built from.
pub proof fn lemma_chunk_body_round_trip(c: ChunkParts)
    requires
        c.no_of_postings > 0,
        parts_fit(c),
        c.positions.len() == 0 || c.positions.len() == c.no_of_postings,
    ensures
        parse_chunk(chunk_body(c)) == Some(c),
{
    let b = chunk_body(c);
    let d = c.doc_ids;
    let f = c.frequencies;
    let seg = segments_bytes(c.positions);
    let dl = d.len() as int;
    let fl = f.len() as int;
    lemma_u32_at_le32(seq![c.no_of_postings], c.max_doc_id, le16(dl as u16) + d + le16(fl as u16) + f + seg);
    assert(b =~= seq![c.no_of_postings] + le32(c.max_doc_id) + (le16(dl as u16) + d + le16(fl as u16) + f + seg));
    lemma_u16_at_le16(seq![c.no_of_postings] + le32(c.max_doc_id), dl as u16, d + le16(fl as u16) + f + seg);
    assert(b =~= seq![c.no_of_postings] + le32(c.max_doc_id) + le16(dl as u16) + (d + le16(fl as u16) + f + seg));
    lemma_u16_at_le16(seq![c.no_of_postings] + le32(c.max_doc_id) + le16(dl as u16) + d, fl as u16, f + seg);
    assert(b =~= seq![c.no_of_postings] + le32(c.max_doc_id) + le16(dl as u16) + d + le16(fl as u16) + (f + seg));
    assert(b.subrange(7, 7 + dl) =~= d);
    assert(b.subrange(9 + dl, 9 + dl + fl) =~= f);
    assert(b.subrange(9 + dl + fl, b.len() as int) =~= seg);
    assert(b[0] == c.no_of_postings);
    assert(u32_at(b, 1) == c.max_doc_id);
    assert(u16_at(b, 5) as int == dl);
    assert(u16_at(b, 7 + dl) as int == fl);
    assert(b.len() >= 9 + dl + fl);
    if c.positions.len() == 0 {
        assert(seg =~= Seq::<u8>::empty());
        assert(c.positions =~= Seq::<Seq<u8>>::empty());
    } else {
        lemma_parse_segments(c.positions);
        if seg.len() == 0 {
            assert(le16(c.positions[0].len() as u16).len() == 2);
            assert(false);
        }
        assert(parse_segments(b.subrange(9 + dl + fl, b.len() as int), b[0] as nat) == Some(
            c.positions,
        ));
    }
    let parsed = ChunkParts {
        no_of_postings: b[0],
        max_doc_id: u32_at(b, 1),
        doc_ids: b.subrange(7, 7 + dl),
        frequencies: b.subrange(9 + dl, 9 + dl + fl),
        positions: c.positions,
    };
    assert(parsed == c);
}

impl Chunk {
    /// The codec this chunk's doc ids and frequencies use.
    pub open spec fn codec(&self) -> CompressionAlgorithm {
        codec_for(self.compressor.compression_algorithm, self.no_of_postings)
    }

    pub fn new(term: u32, compression_algorithm: CompressionAlgorithm) -> (r: Self)
        ensures
            r.term == term,
            r.size_of_chunk == 9,
            r.max_doc_id == 0,
            r.no_of_postings == 0,
            r.compressor.compression_algorithm == compression_algorithm,
            r.p_for_delta_compressor.compression_algorithm == CompressionAlgorithm::PforDelta,
            r.doc_ids@.len() == 0,
            r.doc_frequencies@.len() == 0,
            r.doc_positions@.len() == 0,
            r.compressed_doc_ids@.len() == 0,
            r.compressed_doc_frequencies@.len() == 0,
            r.compressed_doc_positions@.len() == 0,
            r.indexed_compressed_positions@.len() == 0,
    {
        Self {
            size_of_chunk: 9,
            max_doc_id: 0,
            no_of_postings: 0,
            compressed_doc_ids: Vec::new(),
            compressed_doc_positions: Vec::new(),
            compressed_doc_frequencies: Vec::new(),
            indexed_compressed_positions: Vec::new(),
            compressor: Compressor::new(compression_algorithm),
            p_for_delta_compressor: Compressor::new(CompressionAlgorithm::PforDelta),
            term,
            doc_ids: Vec::new(),
            doc_frequencies: Vec::new(),
            doc_positions: Vec::new(),
        }
    }

    /// Empties the postings, keeping the term and the codecs.
    pub fn reset(&mut self)
        ensures
            final(self).size_of_chunk == 9,
            final(self).max_doc_id == 0,
            final(self).no_of_postings == 0,
            final(self).doc_ids@.len() == 0,
            final(self).doc_frequencies@.len() == 0,
            final(self).doc_positions@.len() == 0,
            final(self).term == old(self).term,
            final(self).compressor == old(self).compressor,
            final(self).p_for_delta_compressor == old(self).p_for_delta_compressor,
    {
        self.size_of_chunk = 9;
        self.max_doc_id = 0;
        self.doc_positions.clear();
        self.doc_frequencies.clear();
        self.doc_ids.clear();
        self.no_of_postings = 0;
    }

    pub fn get_no_of_postings(&self) -> (r: u8)
        ensures
            r == self.no_of_postings,
    {
        self.no_of_postings
    }

    /// Records the next doc id; ids come in strictly increasing order and a
    /// chunk takes at most 128.
    pub fn add_doc_id(&mut self, doc_id: u32)
        requires
            old(self).no_of_postings < MAX_POSTINGS,
            old(self).doc_ids@.len() > 0 ==> old(self).doc_ids@.last() < doc_id,
        ensures
            final(self).doc_ids@ == old(self).doc_ids@.push(doc_id),
            final(self).no_of_postings == old(self).no_of_postings + 1,
            final(self).max_doc_id == if old(self).max_doc_id < doc_id {
                doc_id
            } else {
                old(self).max_doc_id
            },
            final(self).doc_frequencies == old(self).doc_frequencies,
            final(self).doc_positions == old(self).doc_positions,
            final(self).compressor == old(self).compressor,
            final(self).term == old(self).term,
    {
        self.doc_ids.push(doc_id);
        self.set_max_doc_id(doc_id);
        self.no_of_postings = self.no_of_postings + 1;
    }

    pub fn add_doc_positions(&mut self, positions: Vec<u32>)
        ensures
            final(self).doc_positions@ == old(self).doc_positions@.push(positions),
            final(self).doc_ids == old(self).doc_ids,
            final(self).doc_frequencies == old(self).doc_frequencies,
            final(self).no_of_postings == old(self).no_of_postings,
            final(self).max_doc_id == old(self).max_doc_id,
            final(self).compressor == old(self).compressor,
            final(self).term == old(self).term,
    {
        self.doc_positions.push(positions)
    }

    pub fn add_doc_frequency(&mut self, doc_frequency: u32)
        ensures
            final(self).doc_frequencies@ == old(self).doc_frequencies@.push(doc_frequency),
            final(self).doc_ids == old(self).doc_ids,
            final(self).doc_positions == old(self).doc_positions,
            final(self).no_of_postings == old(self).no_of_postings,
            final(self).max_doc_id == old(self).max_doc_id,
            final(self).compressor == old(self).compressor,
            final(self).term == old(self).term,
    {
        self.doc_frequencies.push(doc_frequency)
    }

    /// Raises `max_doc_id` to `doc_id` if it is larger.
    pub fn set_max_doc_id(&mut self, doc_id: u32)
        ensures
            final(self).max_doc_id == if old(self).max_doc_id < doc_id {
                doc_id
            } else {
                old(self).max_doc_id
            },
            final(self).doc_ids == old(self).doc_ids,
            final(self).doc_frequencies == old(self).doc_frequencies,
            final(self).doc_positions == old(self).doc_positions,
            final(self).no_of_postings == old(self).no_of_postings,
            final(self).compressor == old(self).compressor,
            final(self).term == old(self).term,
    {
        if self.max_doc_id < doc_id {
            self.max_doc_id = doc_id;
        }
    }

    fn codec_compressor(&self) -> (r: Compressor)
        ensures
            r.compression_algorithm == self.codec(),
    {
        if self.no_of_postings == MAX_POSTINGS {
            Compressor::new(CompressionAlgorithm::PforDelta)
        } else {
            self.compressor
        }
    }

    /// The encoded chunk, its size field first; records that size.
    pub fn encode(&mut self) -> (r: Vec<u8>)
        requires
            encodable(
                old(self).compressor.compression_algorithm,
                old(self).no_of_postings,
                old(self).doc_ids@,
                old(self).doc_frequencies@,
                position_lists(old(self).doc_positions@),
            ),
        ensures
            r@ == le32(final(self).size_of_chunk) + chunk_body(
                encoded_parts(
                    old(self).compressor.compression_algorithm,
                    old(self).no_of_postings,
                    old(self).max_doc_id,
                    old(self).doc_ids@,
                    old(self).doc_frequencies@,
                    position_lists(old(self).doc_positions@),
                ),
            ),
            final(self).size_of_chunk == (r@.len() - 4) as u32,
            final(self).doc_ids == old(self).doc_ids,
            final(self).doc_frequencies == old(self).doc_frequencies,
            final(self).doc_positions == old(self).doc_positions,
            final(self).no_of_postings == old(self).no_of_postings,
            final(self).max_doc_id == old(self).max_doc_id,
            final(self).compressor == old(self).compressor,
            final(self).term == old(self).term,
            simple_codec(old(self).compressor.compression_algorithm) && old(self).no_of_postings < MAX_POSTINGS
                && old(self).doc_ids@.len() <= MAX_POSTINGS && old(self).doc_frequencies@.len() <= MAX_POSTINGS
                && (forall|k: int|
                0 <= k < old(self).doc_positions@.len() ==> (#[trigger] old(self).doc_positions@[k])@.len()
                    <= 16383) ==> parts_fit(
                encoded_parts(
                    old(self).compressor.compression_algorithm,
                    old(self).no_of_postings,
                    old(self).max_doc_id,
                    old(self).doc_ids@,
                    old(self).doc_frequencies@,
                    position_lists(old(self).doc_positions@),
                ),
            ),
    {
        let ghost parts = encoded_parts(
            self.compressor.compression_algorithm,
            self.no_of_postings,
            self.max_doc_id,
            self.doc_ids@,
            self.doc_frequencies@,
            position_lists(self.doc_positions@),
        );
        let codec = self.codec_compressor();
        let mut body: Vec<u8> = Vec::new();
        body.push(self.no_of_postings);
        push_u32_le(&mut body, self.max_doc_id);
        let doc_id_bytes = codec.compress_list_with_d_gaps(&self.doc_ids);
        push_u16_le(&mut body, #[verifier::truncate] (doc_id_bytes.len() as u16));
        body.extend_from_slice(doc_id_bytes.as_slice());
        let doc_freq_bytes = codec.compress_list(&self.doc_frequencies);
        push_u16_le(&mut body, #[verifier::truncate] (doc_freq_bytes.len() as u16));
        body.extend_from_slice(doc_freq_bytes.as_slice());
        let ghost head = body@;
        let ghost segs = parts.positions;
        let ghost alg = self.compressor.compression_algorithm;
        let positions = &self.doc_positions;
        let primary = self.compressor;
        assert(segs.len() == positions@.len());
        assert forall|k: int| 0 <= k < positions@.len() implies non_decreasing(
            #[trigger] positions@[k]@,
        ) && can_compress(alg, d_gaps(positions@[k]@)) by {
            assert(position_lists(old(self).doc_positions@)[k] == positions@[k]@);
        }
        let mut i: usize = 0;
        while i < positions.len()
            invariant
                i <= positions@.len(),
                primary.compression_algorithm == alg,
                segs.len() == positions@.len(),
                forall|k: int|
                    0 <= k < segs.len() ==> #[trigger] segs[k] == compressed(alg, d_gaps(positions@[k]@)),
                forall|k: int|
                    0 <= k < positions@.len() ==> non_decreasing(#[trigger] positions@[k]@) && can_compress(
                        alg,
                        d_gaps(positions@[k]@),
                    ),
                body@ == head + segments_bytes(segs.take(i as int)),
                forall|k: int|
                    0 <= k < i && simple_codec(alg) && positions@[k]@.len() <= 16383 ==> (#[trigger] segs[k]).len()
                        <= u16::MAX,
            decreases positions@.len() - i,
        {
            let position_bytes = primary.compress_list_with_d_gaps(&positions[i]);
            assert(segs[i as int] == position_bytes@);
            push_u16_le(&mut body, #[verifier::truncate] (position_bytes.len() as u16));
            body.extend_from_slice(position_bytes.as_slice());
            proof {
                assert(segs.take(i + 1) =~= segs.take(i as int).push(position_bytes@));
                lemma_segments_bytes_push(segs.take(i as int), position_bytes@);
            }
            i = i + 1;
        }
        assert(segs.take(i as int) =~= segs);
        assert(body@ =~= chunk_body(parts));
        let size = body.len() as u32;
        self.size_of_chunk = size;
        let mut chunk_bytes: Vec<u8> = Vec::new();
        push_u32_le(&mut chunk_bytes, size);
        chunk_bytes.append(&mut body);
        chunk_bytes
    }

    /// Reads a chunk body (the bytes after its size field). Returns false,
    /// and leaves the postings unread, where the bytes do not parse.
    pub fn decode(&mut self, chunk_bytes: &[u8]) -> (ok: bool)
        ensures
            ok == parse_chunk(chunk_bytes@).is_some(),
            ok ==> {
                let c = parse_chunk(chunk_bytes@).unwrap();
                &&& final(self).no_of_postings == c.no_of_postings
                &&& final(self).max_doc_id == c.max_doc_id
                &&& final(self).compressed_doc_ids@ == c.doc_ids
                &&& final(self).compressed_doc_frequencies@ == c.frequencies
                &&& byte_segments(final(self).indexed_compressed_positions@) == c.positions
                &&& chunk_bytes@.len() + 4 <= u32::MAX ==> final(self).size_of_chunk
                    == chunk_bytes@.len() + 4
            },
            final(self).compressor == old(self).compressor,
            final(self).term == old(self).term,
    {
        let ghost b = chunk_bytes@;
        let len = chunk_bytes.len();
        if len < 1 {
            return false;
        }
        let n = chunk_bytes[0];
        let size: u32 = if len <= 0xffff_fffb {
            (len + 4) as u32
        } else {
            u32::MAX
        };
        if n == 0 {
            self.size_of_chunk = size;
            self.no_of_postings = 0;
            self.max_doc_id = 0;
            self.compressed_doc_ids = Vec::new();
            self.compressed_doc_frequencies = Vec::new();
            self.compressed_doc_positions = Vec::new();
            self.indexed_compressed_positions = Vec::new();
            assert(byte_segments(self.indexed_compressed_positions@) =~= Seq::<Seq<u8>>::empty());
            return true;
        }
        if len < 7 {
            return false;
        }
        let max_doc_id = read_u32_le(chunk_bytes, 1);
        let dl = read_u16_le(chunk_bytes, 5) as usize;
        if len < 9 + dl {
            return false;
        }
        let fl = read_u16_le(chunk_bytes, 7 + dl) as usize;
        if len < 9 + dl + fl {
            return false;
        }
        let positions_start = 9 + dl + fl;
        let ghost rest = b.subrange(positions_start as int, len as int);
        let indexed = if positions_start == len {
            Some(Vec::new())
        } else {
            Self::index_segments(chunk_bytes, positions_start, n)
        };
        match indexed {
            Some(segments) => {
                self.size_of_chunk = size;
                self.no_of_postings = n;
                self.max_doc_id = max_doc_id;
                self.compressed_doc_ids = slice_to_vec(chunk_bytes, 7, 7 + dl);
                self.compressed_doc_frequencies = slice_to_vec(chunk_bytes, 9 + dl, positions_start);
                self.compressed_doc_positions = Vec::new();
                self.indexed_compressed_positions = segments;
                proof {
                    if positions_start == len {
                        assert(byte_segments(self.indexed_compressed_positions@)
                            =~= Seq::<Seq<u8>>::empty());
                    }
                }
                true
            },
            None => false,
        }
    }

    /// Splits `n` length-prefixed segments starting at `start`.
    fn index_segments(b: &[u8], start: usize, n: u8) -> (r: Option<Vec<Vec<u8>>>)
        requires
            start <= b@.len(),
        ensures
            r.is_some() == parse_segments(b@.subrange(start as int, b@.len() as int), n as nat).is_some(),
            r.is_some() ==> byte_segments(r.unwrap()@) == parse_segments(
                b@.subrange(start as int, b@.len() as int),
                n as nat,
            ).unwrap(),
    {
        let len = b.len();
        let mut segments: Vec<Vec<u8>> = Vec::new();
        let mut off = start;
        let mut k: u8 = 0;
        let ghost whole = parse_segments(b@.subrange(start as int, len as int), n as nat);
        while k < n
            invariant
                start <= off <= len,
                len == b@.len(),
                k <= n,
                whole == parse_segments(b@.subrange(start as int, len as int), n as nat),
                whole.is_some() == parse_segments(b@.subrange(off as int, len as int), (n - k) as nat).is_some(),
                whole.is_some() ==> whole.unwrap() == byte_segments(segments@) + parse_segments(
                    b@.subrange(off as int, len as int),
                    (n - k) as nat,
                ).unwrap(),
            decreases n - k,
        {
            let ghost rest = b@.subrange(off as int, len as int);
            if len - off < 2 {
                return None;
            }
            let l = read_u16_le(b, off) as usize;
            assert(u16_at(rest, 0) as usize == l);
            if len - off - 2 < l {
                return None;
            }
            let seg = slice_to_vec(b, off + 2, off + 2 + l);
            assert(rest.subrange(2, 2 + l as int) =~= seg@);
            assert(rest.subrange(2 + l as int, rest.len() as int) =~= b@.subrange(
                (off + 2 + l) as int,
                len as int,
            ));
            let ghost before = byte_segments(segments@);
            segments.push(seg);
            assert(byte_segments(segments@) =~= before.push(seg@));
            proof {
                let tail = parse_segments(b@.subrange((off + 2 + l) as int, len as int), (n - k - 1) as nat);
                if tail.is_some() {
                    assert(before.push(seg@) + tail.unwrap() =~= before + (seq![seg@] + tail.unwrap()));
                }
            }
            off = off + 2 + l;
            k = k + 1;
        }
        proof {
            if whole.is_some() {
                assert(byte_segments(segments@) + Seq::<Seq<u8>>::empty() =~= byte_segments(segments@));
            }
        }
        Some(segments)
    }

    /// Decompresses the doc ids, keeping the first `no_of_postings`.
    pub fn decode_doc_ids(&mut self)
        requires
            old(self).compressed_doc_ids@.len() > 0 ==> decodable(old(self).codec(), old(self).compressed_doc_ids@),
        ensures
            old(self).compressed_doc_ids@.len() > 0 ==> {
                &&& final(self).doc_ids@ == truncated(
                    running_sums(decompressed(old(self).codec(), old(self).compressed_doc_ids@)),
                    old(self).no_of_postings as int,
                )
                &&& final(self).compressed_doc_ids@.len() == 0
                &&& forall|l: Seq<u32>|
                    non_decreasing(l) && l.len() == old(self).no_of_postings && can_compress(
                        old(self).codec(),
                        d_gaps(l),
                    ) && #[trigger] compressed(old(self).codec(), d_gaps(l))
                        == old(self).compressed_doc_ids@ && recovery_holds(old(self).codec(), l) ==> final(self).doc_ids@ == l
            },
            old(self).compressed_doc_ids@.len() == 0 ==> final(self).doc_ids == old(self).doc_ids
                && final(self).compressed_doc_ids == old(self).compressed_doc_ids,
            final(self).no_of_postings == old(self).no_of_postings,
            final(self).compressor == old(self).compressor,
            final(self).compressed_doc_frequencies == old(self).compressed_doc_frequencies,
            final(self).indexed_compressed_positions == old(self).indexed_compressed_positions,
            final(self).doc_frequencies == old(self).doc_frequencies,
            final(self).max_doc_id == old(self).max_doc_id,
            final(self).term == old(self).term,
    {
        if self.compressed_doc_ids.len() > 0 {
            let codec = self.codec_compressor();
            let ids = codec.decompress_list_with_dgaps(&self.compressed_doc_ids);
            let ghost alg = self.codec();
            let ghost bytes = self.compressed_doc_ids@;
            let n = self.no_of_postings as usize;
            self.doc_ids = truncate_list(ids, n);
            self.compressed_doc_ids = Vec::new();
            proof {
                assert forall|l: Seq<u32>|
                    non_decreasing(l) && l.len() == n && can_compress(alg, d_gaps(l))
                        && #[trigger] compressed(alg, d_gaps(l)) == bytes && recovery_holds(alg, l)
                    implies self.doc_ids@ == l by {
                    assert(recovers_with_gaps(alg, l, ids@));
                    lemma_recovered_truncated(alg, l, ids@);
                }
            }
        }
    }

    /// Decompresses the frequencies, keeping the first `no_of_postings`.
    pub fn decode_doc_frequencies(&mut self)
        requires
            old(self).compressed_doc_frequencies@.len() > 0 ==> decodable(old(self).codec(), old(self).compressed_doc_frequencies@),
        ensures
            old(self).compressed_doc_frequencies@.len() > 0 ==> {
                &&& final(self).doc_frequencies@ == truncated(
                    decompressed(old(self).codec(), old(self).compressed_doc_frequencies@),
                    old(self).no_of_postings as int,
                )
                &&& final(self).compressed_doc_frequencies@.len() == 0
                &&& forall|l: Seq<u32>|
                    l.len() == old(self).no_of_postings && can_compress(old(self).codec(), l)
                        && #[trigger] compressed(old(self).codec(), l) == old(self).compressed_doc_frequencies@
                        && plain_recovery_holds(old(self).codec(), l) ==> final(self).doc_frequencies@ == l
            },
            old(self).compressed_doc_frequencies@.len() == 0 ==> final(self).doc_frequencies
                == old(self).doc_frequencies && final(self).compressed_doc_frequencies
                == old(self).compressed_doc_frequencies,
            final(self).no_of_postings == old(self).no_of_postings,
            final(self).compressor == old(self).compressor,
            final(self).compressed_doc_ids == old(self).compressed_doc_ids,
            final(self).indexed_compressed_positions == old(self).indexed_compressed_positions,
            final(self).doc_ids == old(self).doc_ids,
            final(self).max_doc_id == old(self).max_doc_id,
            final(self).term == old(self).term,
    {
        if self.compressed_doc_frequencies.len() > 0 {
            let codec = self.codec_compressor();
            let freqs = codec.decompress_list(&self.compressed_doc_frequencies);
            let ghost alg = self.codec();
            let ghost bytes = self.compressed_doc_frequencies@;
            let n = self.no_of_postings as usize;
            self.doc_frequencies = truncate_list(freqs, n);
            self.compressed_doc_frequencies = Vec::new();
            proof {
                assert forall|l: Seq<u32>|
                    l.len() == n && can_compress(alg, l) && #[trigger] compressed(alg, l) == bytes
                        && plain_recovery_holds(alg, l) implies self.doc_frequencies@ == l by {
                    assert(recovers(alg, l, freqs@));
                    lemma_plain_recovered_truncated(alg, l, freqs@);
                }
            }
        }
    }

    /// The positions of the `index`-th posting, cut to its frequency; empty
    /// where the chunk keeps no positions.
    pub fn get_posting_list(&self, index: usize) -> (r: Vec<u32>)
        requires
            self.indexed_compressed_positions@.len() > 0 ==> {
                &&& index < self.indexed_compressed_positions@.len()
                &&& index < self.doc_frequencies@.len()
                &&& decodable(
                    self.compressor.compression_algorithm,
                    self.indexed_compressed_positions@[index as int]@,
                )
            },
        ensures
            self.indexed_compressed_positions@.len() == 0 ==> r@.len() == 0,
            self.indexed_compressed_positions@.len() > 0 ==> {
                &&& r@ == truncated(
                    running_sums(
                        decompressed(
                            self.compressor.compression_algorithm,
                            self.indexed_compressed_positions@[index as int]@,
                        ),
                    ),
                    self.doc_frequencies@[index as int] as int,
                )
                &&& forall|l: Seq<u32>|
                    non_decreasing(l) && l.len() == self.doc_frequencies@[index as int] && can_compress(
                        self.compressor.compression_algorithm,
                        d_gaps(l),
                    ) && #[trigger] compressed(self.compressor.compression_algorithm, d_gaps(l))
                        == self.indexed_compressed_positions@[index as int]@ && recovery_holds(
                        self.compressor.compression_algorithm,
                        l,
                    ) ==> r@ == l
            },
    {
        if self.indexed_compressed_positions.len() > 0 {
            let positions = self.compressor.decompress_list_with_dgaps(
                &self.indexed_compressed_positions[index],
            );
            let r = truncate_list(positions, self.doc_frequencies[index] as usize);
            proof {
                let alg = self.compressor.compression_algorithm;
                let bytes = self.indexed_compressed_positions@[index as int]@;
                assert forall|l: Seq<u32>|
                    non_decreasing(l) && l.len() == self.doc_frequencies@[index as int] && can_compress(alg, d_gaps(l))
                        && #[trigger] compressed(alg, d_gaps(l)) == bytes && recovery_holds(alg, l)
                    implies r@ == l by {
                    assert(recovers_with_gaps(alg, l, positions@));
                    lemma_recovered_truncated(alg, l, positions@);
                }
            }
            return r;
        }
        Vec::new()
    }
}

/// The first `n` values of `s`, or all of them when there are fewer.
pub open spec fn truncated(s: Seq<u32>, n: int) -> Seq<u32> {
    if n < s.len() {
        s.take(n)
    } else {
        s
    }
}

/// When reading back a d-gap list stored with `alg` gives the list itself:
/// Rice lists are not read back, and PFor-Delta drops everything from the
/// first zero gap on.
pub open spec fn recovery_holds(alg: CompressionAlgorithm, l: Seq<u32>) -> bool {
    match alg {
        CompressionAlgorithm::RiceCoding => l.len() == 0,
        CompressionAlgorithm::PforDelta => crate::compressor::zero_free(d_gaps(l)),
        _ => true,
    }
}

/// As `recovery_holds`, for a list stored without d-gaps.
pub open spec fn plain_recovery_holds(alg: CompressionAlgorithm, l: Seq<u32>) -> bool {
    match alg {
        CompressionAlgorithm::RiceCoding => l.len() == 0,
        CompressionAlgorithm::PforDelta => crate::compressor::zero_free(l),
        _ => true,
    }
}

/// A d-gap list read back and cut to its length is the list itself.
proof fn lemma_recovered_truncated(alg: CompressionAlgorithm, l: Seq<u32>, r: Seq<u32>)
    requires
        recovers_with_gaps(alg, l, r),
        recovery_holds(alg, l),
        alg == CompressionAlgorithm::RiceCoding ==> r.len() == 0,
    ensures
        truncated(r, l.len() as int) == l,
{
    match alg {
        CompressionAlgorithm::Simple9 | CompressionAlgorithm::Simple16 => {},
        CompressionAlgorithm::RiceCoding => {
            assert(l =~= r);
        },
        _ => {},
    }
}

/// A plain list read back and cut to its length is the list itself.
proof fn lemma_plain_recovered_truncated(alg: CompressionAlgorithm, l: Seq<u32>, r: Seq<u32>)
    requires
        recovers(alg, l, r),
        plain_recovery_holds(alg, l),
        alg == CompressionAlgorithm::RiceCoding ==> r.len() == 0,
    ensures
        truncated(r, l.len() as int) == l,
{
    match alg {
        CompressionAlgorithm::RiceCoding => {
            assert(l =~= r);
        },
        _ => {},
    }
}

/// `list` cut to its first `n` values.
fn truncate_list(list: Vec<u32>, n: usize) -> (r: Vec<u32>)
    ensures
        r@ == truncated(list@, n as int),
{
    let mut list = list;
    list.truncate(n);
    list
}

/// A copy of `b[start..end]`.
pub fn slice_to_vec(b: &[u8], start: usize, end: usize) -> (r: Vec<u8>)
    requires
        start <= end <= b@.len(),
    ensures
        r@ == b@.subrange(start as int, end as int),
{
    let mut r: Vec<u8> = Vec::new();
    let mut i = start;
    while i < end
        invariant
            start <= i <= end <= b@.len(),
            r@ =~= b@.subrange(start as int, i as int),
        decreases end - i,
    {
        r.push(b[i]);
        i = i + 1;
    }
    r
}

} // verus!
