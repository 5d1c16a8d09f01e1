//! The term directory: per-term statistics indexed by `term_id - 1`, the
//! flattened block lists, and the term to id table; and its file format.
//!
//! File layout, all `u32` little-endian: block count, document count, term
//! count, record count; per record its term frequency, max score (the bits of
//! an `f32`), offset into the block-id list, chunk count, and per chunk its
//! last doc id and max score bits; then the block-id count and ids; then the
//! table size and, per entry, the term's byte length, UTF-8 bytes and id.
use crate::bytes::{read_u32_le, u32_at};
use crate::chunk::slice_to_vec;
use vstd::prelude::*;
use vstd::utf8::{decode_utf8, valid_utf8};

verus! {

/// A chunk's last doc id and its largest score, as the bits of an `f32`.
#[derive(Debug, Clone, Copy, PartialEq, Eq, Structural)]
pub struct ChunkBlockMax {
    pub chunk_last_doc_id: u32,
    pub chunk_max_score_bits: u32,
}

/// What the directory keeps of one term.
#[derive(Debug, Clone)]
pub struct TermRecord {
    pub term_frequency: u32,
    pub max_score_bits: u32,
    pub block_offset: u32,
    pub chunk_block_max: Vec<ChunkBlockMax>,
}

/// A term record as plain values.
pub struct RecordModel {
    pub term_frequency: u32,
    pub max_score_bits: u32,
    pub block_offset: u32,
    pub chunk_block_max: Seq<ChunkBlockMax>,
}

pub open spec fn record_view(r: TermRecord) -> RecordModel {
    RecordModel {
        term_frequency: r.term_frequency,
        max_score_bits: r.max_score_bits,
        block_offset: r.block_offset,
        chunk_block_max: r.chunk_block_max@,
    }
}

/// The whole directory as plain values.
pub struct DirectoryModel {
    pub no_of_blocks: u32,
    pub no_of_docs: u32,
    pub no_of_terms: u32,
    pub records: Seq<RecordModel>,
    pub block_ids: Seq<u32>,
    pub term_ids: Seq<(Seq<char>, u32)>,
}

#[derive(Debug, Clone)]
pub struct TermDirectory {
    pub no_of_blocks: u32,
    pub no_of_docs: u32,
    pub no_of_terms: u32,
    pub records: Vec<TermRecord>,
    pub term_block_ids: Vec<u32>,
    pub term_ids: Vec<(String, u32)>,
}

/// What `String::from_utf8` gives for these bytes.
#[verifier::external_body]
fn string_from_utf8(b: Vec<u8>) -> (r: Option<String>)
    ensures
        r is Some <==> valid_utf8(b@),
        r is Some ==> r->Some_0@ == decode_utf8(b@),
{
    String::from_utf8(b).ok()
}

/// The `n` chunk bounds stored from `off`.
pub open spec fn parse_bounds(b: Seq<u8>, off: int, n: nat) -> Seq<ChunkBlockMax> {
    Seq::new(n, |i: int| ChunkBlockMax { chunk_last_doc_id: u32_at(b, off + 8 * i), chunk_max_score_bits: u32_at(b, off + 8 * i + 4) })
}

/// Reads `n` term records from `off`: the records and where they end.
pub open spec fn parse_records(b: Seq<u8>, off: int, n: nat) -> Option<(Seq<RecordModel>, int)>
    decreases n,
{
    if n == 0 {
        Some((Seq::empty(), off))
    } else if off < 0 || off + 16 > b.len() {
        None
    } else {
        let m = u32_at(b, off + 12) as int;
        if off + 16 + 8 * m > b.len() {
            None
        } else {
            let rec = RecordModel {
                term_frequency: u32_at(b, off),
                max_score_bits: u32_at(b, off + 4),
                block_offset: u32_at(b, off + 8),
                chunk_block_max: parse_bounds(b, off + 16, m as nat),
            };
            match parse_records(b, off + 16 + 8 * m, (n - 1) as nat) {
                Some(rest) => Some((seq![rec] + rest.0, rest.1)),
                None => None,
            }
        }
    }
}

/// Reads `n` table entries from `off`: the entries and where they end.
pub open spec fn parse_entries(b: Seq<u8>, off: int, n: nat) -> Option<(Seq<(Seq<char>, u32)>, int)>
    decreases n,
{
    if n == 0 {
        Some((Seq::empty(), off))
    } else if off < 0 || off + 4 > b.len() {
        None
    } else {
        let l = u32_at(b, off) as int;
        if off + 8 + l > b.len() || !valid_utf8(b.subrange(off + 4, off + 4 + l)) {
            None
        } else {
            let e = (decode_utf8(b.subrange(off + 4, off + 4 + l)), u32_at(b, off + 4 + l));
            match parse_entries(b, off + 8 + l, (n - 1) as nat) {
                Some(rest) => Some((seq![e] + rest.0, rest.1)),
                None => None,
            }
        }
    }
}

/// Parses a directory file; `None` where a section runs past its end or a
/// term is not UTF-8. Bytes after the table are not read.
pub open spec fn parse_directory(b: Seq<u8>) -> Option<DirectoryModel> {
    if b.len() < 16 {
        None
    } else {
        match parse_records(b, 16, u32_at(b, 12) as nat) {
            None => None,
            Some(recs) => {
                let p = recs.1;
                if p + 4 > b.len() {
                    None
                } else {
                    let nb = u32_at(b, p) as int;
                    if p + 4 + 4 * nb + 4 > b.len() {
                        None
                    } else {
                        let q = p + 4 + 4 * nb;
                        match parse_entries(b, q + 4, u32_at(b, q) as nat) {
                            None => None,
                            Some(ents) => Some(
                                DirectoryModel {
                                    no_of_blocks: u32_at(b, 0),
                                    no_of_docs: u32_at(b, 4),
                                    no_of_terms: u32_at(b, 8),
                                    records: recs.0,
                                    block_ids: Seq::new(nb as nat, |i: int| u32_at(b, p + 4 + 4 * i)),
                                    term_ids: ents.0,
                                },
                            ),
                        }
                    }
                }
            },
        }
    }
}

/// Reads `n` little-endian `u32`s from `off`.
fn read_u32s(b: &[u8], off: usize, n: usize) -> (r: Vec<u32>)
    requires
        off + 4 * n <= b@.len(),
    ensures
        r@ == Seq::new(n as nat, |i: int| u32_at(b@, off + 4 * i)),
{
    let mut r: Vec<u32> = Vec::new();
    let mut i: usize = 0;
    let len = b.len();
    while i < n
        invariant
            i <= n,
            len == b@.len(),
            off + 4 * n <= len,
            r@ =~= Seq::new(i as nat, |j: int| u32_at(b@, off + 4 * j)),
        decreases n - i,
    {
        r.push(read_u32_le(b, off + 4 * i));
        i = i + 1;
    }
    r
}

/// Reads the chunk bounds of one record.
fn read_bounds(b: &[u8], off: usize, n: usize) -> (r: Vec<ChunkBlockMax>)
    requires
        off + 8 * n <= b@.len(),
    ensures
        r@ == parse_bounds(b@, off as int, n as nat),
{
    let mut r: Vec<ChunkBlockMax> = Vec::new();
    let mut i: usize = 0;
    let len = b.len();
    while i < n
        invariant
            i <= n,
            len == b@.len(),
            off + 8 * n <= len,
            r@ =~= parse_bounds(b@, off as int, i as nat),
        decreases n - i,
    {
        let last = read_u32_le(b, off + 8 * i);
        let bits = read_u32_le(b, off + 8 * i + 4);
        r.push(ChunkBlockMax { chunk_last_doc_id: last, chunk_max_score_bits: bits });
        i = i + 1;
    }
    r
}

impl TermDirectory {
    /// The directory as plain values.
    pub open spec fn model(&self) -> DirectoryModel {
        DirectoryModel {
            no_of_blocks: self.no_of_blocks,
            no_of_docs: self.no_of_docs,
            no_of_terms: self.no_of_terms,
            records: self.records@.map_values(|r: TermRecord| record_view(r)),
            block_ids: self.term_block_ids@,
            term_ids: self.term_ids@.map_values(|e: (String, u32)| (e.0@, e.1)),
        }
    }

    pub fn new() -> (r: Self)
        ensures
            r.model().records.len() == 0,
            r.model().block_ids.len() == 0,
            r.model().term_ids.len() == 0,
            r.no_of_blocks == 0 && r.no_of_docs == 0 && r.no_of_terms == 0,
    {
        TermDirectory {
            no_of_blocks: 0,
            no_of_docs: 0,
            no_of_terms: 0,
            records: Vec::new(),
            term_block_ids: Vec::new(),
            term_ids: Vec::new(),
        }
    }

    /// Reads a directory file.
    pub fn parse_term_metadata(b: &[u8]) -> (r: Option<TermDirectory>)
        ensures
            r is Some <==> parse_directory(b@) is Some,
            r is Some ==> r->Some_0.model() == parse_directory(b@)->Some_0,
    {
        let len = b.len();
        if len < 16 {
            return None;
        }
        let no_of_blocks = read_u32_le(b, 0);
        let no_of_docs = read_u32_le(b, 4);
        let no_of_terms = read_u32_le(b, 8);
        let n = read_u32_le(b, 12);
        let ghost bv = b@;
        let ghost whole = parse_records(bv, 16, n as nat);
        let mut records: Vec<TermRecord> = Vec::new();
        let mut off: usize = 16;
        let mut k: u32 = 0;
        while k < n
            invariant
                len == bv.len(),
                bv == b@,
                16 <= off <= len,
                k <= n,
                whole == parse_records(bv, 16, n as nat),
                n == u32_at(bv, 12),
                bv.len() >= 16,
                whole is Some == parse_records(bv, off as int, (n - k) as nat) is Some,
                whole is Some ==> whole->Some_0.0 == records@.map_values(|r: TermRecord| record_view(r))
                    + parse_records(bv, off as int, (n - k) as nat)->Some_0.0
                    && whole->Some_0.1 == parse_records(bv, off as int, (n - k) as nat)->Some_0.1,
            decreases n - k,
        {
            let ghost rest = parse_records(bv, off as int, (n - k) as nat);
            if len - off < 16 {
                assert(rest is None);
                assert(parse_directory(bv) is None);
                return None;
            }
            let m32 = read_u32_le(b, off + 12);
            if (m32 as u64) * 8 > (len - off - 16) as u64 {
                assert(rest is None);
                assert(parse_directory(bv) is None);
                return None;
            }
            let m = m32 as usize;
            let rec = TermRecord {
                term_frequency: read_u32_le(b, off),
                max_score_bits: read_u32_le(b, off + 4),
                block_offset: read_u32_le(b, off + 8),
                chunk_block_max: read_bounds(b, off + 16, m),
            };
            let ghost before = records@.map_values(|r: TermRecord| record_view(r));
            records.push(rec);
            proof {
                assert(records@.map_values(|r: TermRecord| record_view(r)) =~= before.push(record_view(rec)));
                let tail = parse_records(bv, (off + 16 + 8 * m) as int, (n - k - 1) as nat);
                if tail is Some {
                    assert(before.push(record_view(rec)) + tail->Some_0.0 =~= before + (seq![record_view(rec)]
                        + tail->Some_0.0));
                }
            }
            off = off + 16 + 8 * m;
            k = k + 1;
        }
        proof {
            if whole is Some {
                assert(records@.map_values(|r: TermRecord| record_view(r)) + Seq::<RecordModel>::empty()
                    =~= records@.map_values(|r: TermRecord| record_view(r)));
            }
        }
        assert(whole is Some ==> whole->Some_0.1 == off);
        if len - off < 8 {
            assert(parse_directory(bv) is None);
            return None;
        }
        let nb32 = read_u32_le(b, off);
        if (nb32 as u64) * 4 > (len - off - 8) as u64 {
            assert(parse_directory(bv) is None);
            return None;
        }
        let nb = nb32 as usize;
        let term_block_ids = read_u32s(b, off + 4, nb);
        let q = off + 4 + 4 * nb;
        let ne = read_u32_le(b, q);
        let ghost ewhole = parse_entries(bv, (q + 4) as int, ne as nat);
        let mut term_ids: Vec<(String, u32)> = Vec::new();
        let mut e_off: usize = q + 4;
        let mut j: u32 = 0;
        while j < ne
            invariant
                len == bv.len(),
                bv == b@,
                e_off <= len,
                j <= ne,
                ewhole == parse_entries(bv, (q + 4) as int, ne as nat),
                whole == parse_records(bv, 16, n as nat),
                n == u32_at(bv, 12),
                bv.len() >= 16,
                whole is Some,
                whole->Some_0.1 == off,
                nb == u32_at(bv, off as int),
                q == off + 4 + 4 * nb,
                q + 4 <= len,
                ne == u32_at(bv, q as int),
                ewhole is Some == parse_entries(bv, e_off as int, (ne - j) as nat) is Some,
                ewhole is Some ==> ewhole->Some_0.0 == term_ids@.map_values(|e: (String, u32)| (e.0@, e.1))
                    + parse_entries(bv, e_off as int, (ne - j) as nat)->Some_0.0,
            decreases ne - j,
        {
            let ghost rest = parse_entries(bv, e_off as int, (ne - j) as nat);
            if len - e_off < 4 {
                assert(rest is None);
                assert(parse_directory(bv) is None);
                return None;
            }
            let l32 = read_u32_le(b, e_off);
            if (l32 as u64) > (len - e_off - 4) as u64 || (len - e_off - 4 - l32 as usize) < 4 {
                assert(rest is None);
                assert(parse_directory(bv) is None);
                return None;
            }
            let l = l32 as usize;
            let bytes = slice_to_vec(b, e_off + 4, e_off + 4 + l);
            let id = read_u32_le(b, e_off + 4 + l);
            let name = match string_from_utf8(bytes) {
                Some(s) => s,
                None => {
                    assert(rest is None);
                    assert(parse_directory(bv) is None);
                    return None;
                },
            };
            let ghost before = term_ids@.map_values(|e: (String, u32)| (e.0@, e.1));
            let ghost ev = (name@, id);
            term_ids.push((name, id));
            proof {
                assert(term_ids@.map_values(|e: (String, u32)| (e.0@, e.1)) =~= before.push(ev));
                let tail = parse_entries(bv, (e_off + 8 + l) as int, (ne - j - 1) as nat);
                if tail is Some {
                    assert(before.push(ev) + tail->Some_0.0 =~= before + (seq![ev] + tail->Some_0.0));
                }
            }
            e_off = e_off + 8 + l;
            j = j + 1;
        }
        proof {
            if ewhole is Some {
                assert(term_ids@.map_values(|e: (String, u32)| (e.0@, e.1)) + Seq::<(Seq<char>, u32)>::empty()
                    =~= term_ids@.map_values(|e: (String, u32)| (e.0@, e.1)));
            }
        }
        let d = TermDirectory { no_of_blocks, no_of_docs, no_of_terms, records, term_block_ids, term_ids };
        assert(d.model() =~= parse_directory(b@)->Some_0);
        Some(d)
    }

    /// The id of `term`: that of its first table entry, or 0 when it has none.
    pub fn get_term_id(&self, term: &str) -> (r: u32)
        ensures
            (forall|i: int| 0 <= i < self.model().term_ids.len() ==> (#[trigger] self.model().term_ids[i]).0 != term@)
                ==> r == 0,
            (exists|i: int| 0 <= i < self.model().term_ids.len() && (#[trigger] self.model().term_ids[i]).0 == term@)
                ==> exists|i: int|
                0 <= i < self.model().term_ids.len() && (#[trigger] self.model().term_ids[i]).0 == term@
                    && r == self.model().term_ids[i].1 && forall|j: int| 0 <= j < i ==> self.model().term_ids[j].0 != term@,
    {
        let key = term.to_owned();
        let mut i: usize = 0;
        while i < self.term_ids.len()
            invariant
                i <= self.term_ids@.len(),
                key@ == term@,
                forall|j: int| 0 <= j < i ==> (#[trigger] self.model().term_ids[j]).0 != term@,
            decreases self.term_ids@.len() - i,
        {
            if self.term_ids[i].0 == key {
                assert(self.model().term_ids[i as int].0 == term@);
                return self.term_ids[i].1;
            }
            assert(self.model().term_ids[i as int].0 != term@);
            i = i + 1;
        }
        0
    }

    /// The blocks of the term with id `term_id`: from its offset to the next
    /// term's offset, or to the end for the last term; none for an unknown id
    /// or offsets out of order.
    pub fn get_block_ids(&self, term_id: u32) -> (r: Vec<u32>)
        ensures
            r@ == block_ids_of(self.model(), term_id as int),
    {
        let n = self.records.len();
        if term_id == 0 || term_id as usize > n {
            return Vec::new();
        }
        let i = (term_id - 1) as usize;
        let start = self.records[i].block_offset as usize;
        let end = if i + 1 < n {
            self.records[i + 1].block_offset as usize
        } else {
            self.term_block_ids.len()
        };
        if start > end || end > self.term_block_ids.len() {
            return Vec::new();
        }
        let mut r: Vec<u32> = Vec::new();
        let mut k = start;
        while k < end
            invariant
                start <= k <= end <= self.term_block_ids@.len(),
                r@ =~= self.term_block_ids@.subrange(start as int, k as int),
            decreases end - k,
        {
            r.push(self.term_block_ids[k]);
            k = k + 1;
        }
        r
    }

    /// The term frequency of the term with id `term_id`.
    pub fn get_term_frequency(&self, term_id: u32) -> (r: u32)
        requires
            1 <= term_id <= self.records@.len(),
        ensures
            r == self.model().records[term_id - 1].term_frequency,
    {
        self.records[(term_id - 1) as usize].term_frequency
    }

    /// The max score (as `f32` bits) of the term with id `term_id`.
    pub fn get_max_term_score_bits(&self, term_id: u32) -> (r: u32)
        requires
            1 <= term_id <= self.records@.len(),
        ensures
            r == self.model().records[term_id - 1].max_score_bits,
    {
        self.records[(term_id - 1) as usize].max_score_bits
    }

    /// The chunk bounds of the term with id `term_id`.
    pub fn get_chunk_block_max_metadata(&self, term_id: u32) -> (r: &Vec<ChunkBlockMax>)
        requires
            1 <= term_id <= self.records@.len(),
        ensures
            r@ == self.model().records[term_id - 1].chunk_block_max,
    {
        &self.records[(term_id - 1) as usize].chunk_block_max
    }

    /// Maps `term` to `term_id` in the table.
    pub fn set_term_id(&mut self, term: String, term_id: u32)
        ensures
            final(self).model() == (DirectoryModel {
                term_ids: old(self).model().term_ids.push((term@, term_id)),
                ..old(self).model()
            }),
    {
        let ghost before = self.model();
        self.term_ids.push((term, term_id));
        assert(self.model().term_ids =~= before.term_ids.push((term@, term_id)));
    }

    /// Appends the next term's record; its blocks go at the end of the block list.
    pub fn add_term_record(
        &mut self,
        term_frequency: u32,
        max_score_bits: u32,
        block_ids: Vec<u32>,
        chunk_block_max: Vec<ChunkBlockMax>,
    )
        requires
            old(self).term_block_ids@.len() + block_ids@.len() <= u32::MAX,
        ensures
            final(self).model() == (DirectoryModel {
                records: old(self).model().records.push(RecordModel {
                    term_frequency,
                    max_score_bits,
                    block_offset: old(self).term_block_ids@.len() as u32,
                    chunk_block_max: chunk_block_max@,
                }),
                block_ids: old(self).model().block_ids + block_ids@,
                ..old(self).model()
            }),
    {
        let ghost before = self.model();
        let offset = self.term_block_ids.len() as u32;
        let rec = TermRecord { term_frequency, max_score_bits, block_offset: offset, chunk_block_max };
        self.records.push(rec);
        let mut ids = block_ids;
        self.term_block_ids.append(&mut ids);
        assert(self.model().records =~= before.records.push(record_view(rec)));
    }
}

/// The blocks of term `id` in a directory, as `get_block_ids` reads them.
pub open spec fn block_ids_of(d: DirectoryModel, id: int) -> Seq<u32> {
    if id < 1 || id > d.records.len() {
        Seq::empty()
    } else {
        let start = d.records[id - 1].block_offset as int;
        let end = if id < d.records.len() {
            d.records[id].block_offset as int
        } else {
            d.block_ids.len() as int
        };
        if start <= end && end <= d.block_ids.len() {
            d.block_ids.subrange(start, end)
        } else {
            Seq::empty()
        }
    }
}

} // verus!

verus! {

/// Walks a term's chunk bounds in doc-id order.
#[derive(Debug)]
pub struct BlockMaxIterator {
    block_index: usize,
    blocks: Vec<ChunkBlockMax>,
}

impl BlockMaxIterator {
    /// The bounds walked.
    pub closed spec fn bounds(&self) -> Seq<ChunkBlockMax> {
        self.blocks@
    }

    /// The index of the current bound.
    pub closed spec fn index(&self) -> int {
        self.block_index as int
    }

    pub fn new(blocks: Vec<ChunkBlockMax>) -> (r: Self)
        ensures
            r.bounds() == blocks@,
            r.index() == 0,
    {
        Self { block_index: 0, blocks }
    }

    /// The last doc id of the current chunk.
    pub fn last(&self) -> (r: u32)
        requires
            self.index() < self.bounds().len(),
        ensures
            r == self.bounds()[self.index()].chunk_last_doc_id,
    {
        self.blocks[self.block_index].chunk_last_doc_id
    }

    /// The max score bits of the current chunk.
    pub fn score(&self) -> (r: u32)
        requires
            self.index() < self.bounds().len(),
        ensures
            r == self.bounds()[self.index()].chunk_max_score_bits,
    {
        self.blocks[self.block_index].chunk_max_score_bits
    }

    /// Moves to the first chunk, from the current one on, whose last doc id is
    /// at least `doc_id`; the last chunk must reach `doc_id`.
    pub fn advance(&mut self, doc_id: u32)
        requires
            old(self).index() < old(self).bounds().len(),
            old(self).bounds().last().chunk_last_doc_id >= doc_id,
        ensures
            final(self).bounds() == old(self).bounds(),
            old(self).index() <= final(self).index() < final(self).bounds().len(),
            final(self).bounds()[final(self).index()].chunk_last_doc_id >= doc_id,
            forall|i: int|
                old(self).index() <= i < final(self).index() ==> (#[trigger] final(self).bounds()[i]).chunk_last_doc_id
                    < doc_id,
    {
        let n = self.blocks.len();
        while self.blocks[self.block_index].chunk_last_doc_id < doc_id
            invariant
                n == self.blocks@.len(),
                self.blocks == old(self).blocks,
                old(self).index() <= self.block_index < self.blocks@.len(),
                self.blocks@.last().chunk_last_doc_id >= doc_id,
                forall|i: int|
                    old(self).index() <= i < self.block_index ==> (#[trigger] self.blocks@[i]).chunk_last_doc_id
                        < doc_id,
            decreases self.blocks@.len() - self.block_index,
        {
            assert(self.blocks@.last() == self.blocks@[self.blocks@.len() - 1]);
            assert(self.block_index + 1 < self.blocks@.len());
            self.block_index = self.block_index + 1;
        }
    }

    /// The last doc id of the last chunk; 0 where there is none.
    pub fn last_doc_id_of_term(&self) -> (r: u32)
        ensures
            self.bounds().len() > 0 ==> r == self.bounds().last().chunk_last_doc_id,
            self.bounds().len() == 0 ==> r == 0,
    {
        if self.blocks.len() == 0 {
            0
        } else {
            self.blocks[self.blocks.len() - 1].chunk_last_doc_id
        }
    }

    /// Whether the iterator stands on a chunk.
    pub fn in_range(&self) -> (r: bool)
        ensures
            r == (self.index() < self.bounds().len()),
    {
        self.block_index < self.blocks.len()
    }
}

} // verus!
