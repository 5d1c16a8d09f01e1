//! Postings and the interchange format of temporary runs: each posting is
//! `u32 doc_id, u32 position_count, u32 positions[]`, all little-endian.
use crate::bytes::{
    le32, le32_seq, lemma_le32_seq_index, lemma_le32_seq_len, lemma_u32_at_le32, push_u32_le,
    read_u32_le, u32_at,
};
use vstd::multiset::Multiset;
use vstd::prelude::*;

verus! {

/// One document of a term's posting list, with the positions of the term in it.
#[derive(Debug, Clone, PartialEq, Eq)]
pub struct Posting {
    pub doc_id: u32,
    pub positions: Vec<u32>,
}

/// A posting as plain values: its document and its positions.
pub type PostingModel = (u32, Seq<u32>);

impl View for Posting {
    type V = PostingModel;

    open spec fn view(&self) -> PostingModel {
        (self.doc_id, self.positions@)
    }
}

/// The models of a sequence of postings.
pub open spec fn postings_view(s: Seq<Posting>) -> Seq<PostingModel> {
    s.map_values(|p: Posting| p@)
}

impl Posting {
    pub fn new(doc_id: u32, positions: Vec<u32>) -> (r: Self)
        ensures
            r.doc_id == doc_id,
            r.positions@ == positions@,
    {
        Self { doc_id, positions }
    }
}

/// Whether every posting's position count fits the `u32` count field.
pub open spec fn counts_fit(s: Seq<PostingModel>) -> bool {
    forall|i: int| 0 <= i < s.len() ==> s[i].1.len() <= u32::MAX
}

/// The bytes of one posting in a run.
pub open spec fn posting_record(p: PostingModel) -> Seq<u8> {
    le32(p.0) + le32(p.1.len() as u32) + le32_seq(p.1)
}

/// The bytes of a posting list in a run: its records one after another.
pub open spec fn run_postings_bytes(s: Seq<PostingModel>) -> Seq<u8>
    decreases s.len(),
{
    if s.len() == 0 {
        Seq::empty()
    } else {
        posting_record(s[0]) + run_postings_bytes(s.drop_first())
    }
}

/// Parses the bytes of a posting list in a run; `None` where a record is cut short.
pub open spec fn parse_run_postings(b: Seq<u8>) -> Option<Seq<PostingModel>>
    decreases b.len(),
{
    if b.len() == 0 {
        Some(Seq::empty())
    } else if b.len() < 8 {
        None
    } else {
        let n = u32_at(b, 4) as int;
        if b.len() < 8 + 4 * n {
            None
        } else {
            let p = (u32_at(b, 0), Seq::new(n as nat, |i: int| u32_at(b, 8 + 4 * i)));
            match parse_run_postings(b.subrange(8 + 4 * n, b.len() as int)) {
                Some(rest) => Some(seq![p] + rest),
                None => None,
            }
        }
    }
}

/// `perm` lists each index below `n` exactly once.
pub open spec fn is_index_permutation(perm: Seq<int>, n: int) -> bool {
    &&& perm.len() == n
    &&& forall|i: int| 0 <= i < n ==> 0 <= #[trigger] perm[i] < n
    &&& forall|i: int, j: int| 0 <= i < j < n ==> perm[i] != perm[j]
}

/// `s` reordered by `perm`.
pub open spec fn permuted(s: Seq<PostingModel>, perm: Seq<int>) -> Seq<PostingModel> {
    perm.map_values(|k: int| s[k])
}

/// Doc ids never decrease along `s`.
pub open spec fn doc_ids_ascending(s: Seq<PostingModel>) -> bool {
    forall|i: int, j: int| 0 <= i < j < s.len() ==> s[i].0 <= s[j].0
}

/// Appending a posting appends its record.
pub proof fn lemma_run_postings_bytes_push(s: Seq<PostingModel>, p: PostingModel)
    ensures
        run_postings_bytes(s.push(p)) == run_postings_bytes(s) + posting_record(p),
    decreases s.len(),
{
    if s.len() == 0 {
        assert(s.push(p).drop_first() =~= Seq::<PostingModel>::empty());
        assert(run_postings_bytes(s.push(p).drop_first()) =~= Seq::<u8>::empty());
        assert(run_postings_bytes(s) =~= Seq::<u8>::empty());
        assert(run_postings_bytes(s.push(p)) =~= run_postings_bytes(s) + posting_record(p));
    } else {
        assert(s.push(p).drop_first() =~= s.drop_first().push(p));
        lemma_run_postings_bytes_push(s.drop_first(), p);
        assert(run_postings_bytes(s.push(p)) =~= run_postings_bytes(s) + posting_record(p));
    }
}

/// The run format is lossless: parsing the bytes of a posting list gives the
/// list back.
pub proof fn lemma_run_postings_round_trip(s: Seq<PostingModel>)
    requires
        counts_fit(s),
    ensures
        parse_run_postings(run_postings_bytes(s)) == Some(s),
    decreases s.len(),
{
    if s.len() == 0 {
        assert(run_postings_bytes(s) =~= Seq::<u8>::empty());
    } else {
        let p = s[0];
        let n = p.1.len() as int;
        let pos = le32_seq(p.1);
        let rest = run_postings_bytes(s.drop_first());
        let b = run_postings_bytes(s);
        lemma_le32_seq_len(p.1);
        assert(b =~= le32(p.0) + le32(n as u32) + pos + rest);
        lemma_u32_at_le32(Seq::empty(), p.0, le32(n as u32) + pos + rest);
        assert(b =~= Seq::<u8>::empty() + le32(p.0) + (le32(n as u32) + pos + rest));
        lemma_u32_at_le32(le32(p.0), n as u32, pos + rest);
        assert(b =~= le32(p.0) + le32(n as u32) + (pos + rest));
        assert(u32_at(b, 4) as int == n);
        let parsed = Seq::new(n as nat, |i: int| u32_at(b, 8 + 4 * i));
        assert forall|i: int| 0 <= i < n implies #[trigger] parsed[i] == p.1[i] by {
            lemma_le32_seq_index(p.1, i);
            let w = pos.subrange(4 * i, 4 * i + 4);
            assert(b[8 + 4 * i] == w[0]);
            assert(b[8 + 4 * i + 1] == w[1]);
            assert(b[8 + 4 * i + 2] == w[2]);
            assert(b[8 + 4 * i + 3] == w[3]);
            crate::bytes::lemma_le32_round_trip(p.1[i]);
        }
        assert(parsed =~= p.1);
        assert(b.subrange(8 + 4 * n, b.len() as int) =~= rest);
        assert(counts_fit(s.drop_first()));
        lemma_run_postings_round_trip(s.drop_first());
        assert(seq![p] + s.drop_first() =~= s);
    }
}

/// Sorts the indices of `list` by doc id, keeping equal doc ids in their order.
fn doc_id_order(list: &Vec<Posting>) -> (idx: Vec<usize>)
    ensures
        is_index_permutation(idx@.map_values(|k: usize| k as int), list@.len() as int),
        doc_ids_ascending(permuted(postings_view(list@), idx@.map_values(|k: usize| k as int))),
{
    let n = list.len();
    let mut idx: Vec<usize> = Vec::new();
    let mut k: usize = 0;
    while k < n
        invariant
            k <= n,
            n == list@.len(),
            idx@.len() == k,
            forall|a: int| 0 <= a < k ==> idx@[a] == a,
        decreases n - k,
    {
        idx.push(k);
        k = k + 1;
    }
    let mut i: usize = 1;
    while i < n
        invariant
            n == list@.len(),
            idx@.len() == n,
            forall|a: int| 0 <= a < n ==> #[trigger] idx@[a] < n,
            forall|a: int, b: int| 0 <= a < b < n ==> idx@[a] != idx@[b],
            forall|a: int, b: int|
                0 <= a < b < i && i <= n ==> list@[idx@[a] as int].doc_id <= list@[idx@[b] as int].doc_id,
            n == 0 || (1 <= i <= n),
        decreases n - i,
    {
        let mut j: usize = i;
        while j > 0 && list[idx[j - 1]].doc_id > list[idx[j]].doc_id
            invariant
                n == list@.len(),
                idx@.len() == n,
                0 <= j <= i < n,
                forall|a: int| 0 <= a < n ==> #[trigger] idx@[a] < n,
                forall|a: int, b: int| 0 <= a < b < n ==> idx@[a] != idx@[b],
                forall|a: int, b: int|
                    0 <= a < b < j ==> list@[idx@[a] as int].doc_id <= list@[idx@[b] as int].doc_id,
                forall|a: int, b: int|
                    j <= a < b <= i ==> list@[idx@[a] as int].doc_id <= list@[idx@[b] as int].doc_id,
                forall|a: int, b: int|
                    0 <= a < j && j < b <= i ==> list@[idx@[a] as int].doc_id
                        <= list@[idx@[b] as int].doc_id,
            decreases j,
        {
            let x = idx[j];
            let y = idx[j - 1];
            idx.set(j, y);
            idx.set(j - 1, x);
            j = j - 1;
        }
        i = i + 1;
    }
    let ghost perm = idx@.map_values(|k: usize| k as int);
    assert forall|a: int, b: int| 0 <= a < b < n implies perm[a] != perm[b] by {
        assert(idx@[a] != idx@[b]);
    }
    let ghost sv = permuted(postings_view(list@), perm);
    assert forall|a: int, b: int| 0 <= a < b < sv.len() implies sv[a].0 <= sv[b].0 by {
        assert(sv[a] == list@[idx@[a] as int]@);
        assert(sv[b] == list@[idx@[b] as int]@);
        assert(list@[idx@[a] as int].doc_id <= list@[idx@[b] as int].doc_id);
    }
    idx
}

/// Appends the run record of `p`.
fn push_posting_record(out: &mut Vec<u8>, p: &Posting)
    requires
        p.positions@.len() <= u32::MAX,
    ensures
        final(out)@ == old(out)@ + posting_record(p@),
{
    push_u32_le(out, p.doc_id);
    push_u32_le(out, p.positions.len() as u32);
    let ghost start = out@;
    let mut j: usize = 0;
    while j < p.positions.len()
        invariant
            j <= p.positions@.len(),
            out@ == start + le32_seq(p.positions@.take(j as int)),
        decreases p.positions@.len() - j,
    {
        push_u32_le(out, p.positions[j]);
        assert(p.positions@.take(j + 1).drop_last() =~= p.positions@.take(j as int));
        j = j + 1;
    }
    assert(p.positions@.take(j as int) =~= p.positions@);
    assert(out@ =~= old(out)@ + posting_record(p@));
}

/// `e` encodes the postings of `s` reordered by doc id.
pub open spec fn is_run_encoding(e: Seq<u8>, s: Seq<PostingModel>) -> bool {
    exists|perm: Seq<int>|
        {
            &&& is_index_permutation(perm, s.len() as int)
            &&& doc_ids_ascending(#[trigger] permuted(s, perm))
            &&& e == run_postings_bytes(permuted(s, perm))
        }
}

/// Encodes a posting list for a run, ordered by doc id (stable).
pub fn vb_encode_posting_list(posting_list: &Vec<Posting>) -> (r: Vec<u8>)
    requires
        counts_fit(postings_view(posting_list@)),
    ensures
        is_run_encoding(r@, postings_view(posting_list@)),
{
    let idx = doc_id_order(posting_list);
    let ghost perm = idx@.map_values(|k: usize| k as int);
    let ghost s = postings_view(posting_list@);
    let mut out: Vec<u8> = Vec::new();
    let mut k: usize = 0;
    while k < idx.len()
        invariant
            k <= idx@.len(),
            idx@.len() == posting_list@.len(),
            perm == idx@.map_values(|k: usize| k as int),
            s == postings_view(posting_list@),
            is_index_permutation(perm, posting_list@.len() as int),
            counts_fit(s),
            out@ == run_postings_bytes(permuted(s, perm).take(k as int)),
        decreases idx@.len() - k,
    {
        assert(perm[k as int] == idx@[k as int] as int);
        let p = &posting_list[idx[k]];
        assert(s[idx@[k as int] as int] == p@);
        push_posting_record(&mut out, p);
        proof {
            assert(permuted(s, perm).take(k + 1) =~= permuted(s, perm).take(k as int).push(p@));
            lemma_run_postings_bytes_push(permuted(s, perm).take(k as int), p@);
        }
        k = k + 1;
    }
    assert(permuted(s, perm).take(k as int) =~= permuted(s, perm));
    assert(doc_ids_ascending(permuted(s, perm)));
    out
}

/// Decodes a run's posting list; `None` where a record is cut short.
pub fn try_decode_posting_list(encoded_bytes: &[u8]) -> (r: Option<Vec<Posting>>)
    ensures
        r.is_some() == parse_run_postings(encoded_bytes@).is_some(),
        r.is_some() ==> postings_view(r.unwrap()@) == parse_run_postings(encoded_bytes@).unwrap(),
{
    let ghost b = encoded_bytes@;
    let len = encoded_bytes.len();
    let mut out: Vec<Posting> = Vec::new();
    let mut off: usize = 0;
    assert(b.subrange(0, len as int) =~= b);
    assert(postings_view(out@) =~= Seq::<PostingModel>::empty());
    proof {
        if parse_run_postings(b).is_some() {
            assert(Seq::<PostingModel>::empty() + parse_run_postings(b).unwrap()
                =~= parse_run_postings(b).unwrap());
        }
    }
    while off < len
        invariant
            len == b.len(),
            b == encoded_bytes@,
            off <= len,
            parse_run_postings(b.subrange(off as int, len as int)).is_some()
                == parse_run_postings(b).is_some(),
            parse_run_postings(b.subrange(off as int, len as int)).is_some() ==> parse_run_postings(
                b,
            ).unwrap() == postings_view(out@) + parse_run_postings(
                b.subrange(off as int, len as int),
            ).unwrap(),
        decreases len - off,
    {
        let ghost rest = b.subrange(off as int, len as int);
        if len - off < 8 {
            return None;
        }
        let doc_id = read_u32_le(encoded_bytes, off);
        let n = read_u32_le(encoded_bytes, off + 4);
        assert(u32_at(rest, 0) == doc_id);
        assert(u32_at(rest, 4) == n);
        if n as usize > (len - off - 8) / 4 {
            return None;
        }
        let mut positions: Vec<u32> = Vec::new();
        let mut j: usize = 0;
        while j < n as usize
            invariant
                j <= n,
                off + 8 + 4 * (n as int) <= len,
                len == b.len(),
                b == encoded_bytes@,
                positions@ =~= Seq::new(j as nat, |i: int| u32_at(b, off + 8 + 4 * i)),
            decreases n - j,
        {
            let x = read_u32_le(encoded_bytes, off + 8 + 4 * j);
            positions.push(x);
            j = j + 1;
        }
        let ghost p = (doc_id, positions@);
        assert(p.1 =~= Seq::new(n as nat, |i: int| u32_at(rest, 8 + 4 * i)));
        let next = off + 8 + 4 * (n as usize);
        assert(rest.subrange(8 + 4 * n, rest.len() as int) =~= b.subrange(next as int, len as int));
        let ghost old_out = postings_view(out@);
        out.push(Posting { doc_id, positions });
        assert(postings_view(out@) =~= old_out.push(p));
        proof {
            if parse_run_postings(b.subrange(next as int, len as int)).is_some() {
                let tail = parse_run_postings(b.subrange(next as int, len as int)).unwrap();
                assert(old_out.push(p) + tail =~= old_out + (seq![p] + tail));
            }
        }
        off = next;
    }
    assert(b.subrange(len as int, len as int) =~= Seq::<u8>::empty());
    assert(postings_view(out@) + Seq::<PostingModel>::empty() =~= postings_view(out@));
    Some(out)
}

/// Decodes a run's posting list that is known to be well formed.
pub fn vb_decode_posting_list(encoded_bytes: &[u8]) -> (r: Vec<Posting>)
    requires
        parse_run_postings(encoded_bytes@).is_some(),
    ensures
        postings_view(r@) == parse_run_postings(encoded_bytes@).unwrap(),
{
    match try_decode_posting_list(encoded_bytes) {
        Some(v) => v,
        None => Vec::new(),
    }
}

} // verus!

verus! {

/// Every posting of every list, counted with multiplicity.
pub open spec fn lists_multiset(ls: Seq<Seq<PostingModel>>) -> Multiset<PostingModel>
    decreases ls.len(),
{
    if ls.len() == 0 {
        Multiset::empty()
    } else {
        lists_multiset(ls.drop_last()).add(ls.last().to_multiset())
    }
}

/// The models of a sequence of posting lists.
pub open spec fn lists_view(ls: Seq<Vec<Posting>>) -> Seq<Seq<PostingModel>> {
    ls.map_values(|v: Vec<Posting>| postings_view(v@))
}

/// Doc ids never increase along `s`.
pub open spec fn doc_ids_descending(s: Seq<PostingModel>) -> bool {
    forall|i: int, j: int| 0 <= i < j < s.len() ==> s[i].0 >= s[j].0
}

/// Taking the last posting of one list removes it from the lists' multiset.
proof fn lemma_lists_multiset_pop(ls: Seq<Seq<PostingModel>>, k: int)
    requires
        0 <= k < ls.len(),
        ls[k].len() > 0,
    ensures
        lists_multiset(ls.update(k, ls[k].drop_last())) =~= lists_multiset(ls).remove(ls[k].last()),
        lists_multiset(ls).count(ls[k].last()) > 0,
    decreases ls.len(),
{
    broadcast use vstd::seq_lib::group_to_multiset_ensures;
    let x = ls[k].last();
    let nl = ls.update(k, ls[k].drop_last());
    assert(ls[k].drop_last().push(x) =~= ls[k]);
    if k == ls.len() - 1 {
        assert(nl.drop_last() =~= ls.drop_last());
        assert(ls[k].to_multiset() =~= ls[k].drop_last().to_multiset().insert(x));
    } else {
        assert(nl.drop_last() =~= ls.drop_last().update(k, ls[k].drop_last()));
        lemma_lists_multiset_pop(ls.drop_last(), k);
        assert(nl.last() == ls.last());
    }
}

/// Moves the postings of `list` into a new vector, last one first.
pub(crate) fn reversed(list: Vec<Posting>) -> (r: Vec<Posting>)
    ensures
        r@.len() == list@.len(),
        forall|i: int| 0 <= i < r@.len() ==> #[trigger] r@[i] == list@[list@.len() - 1 - i],
        postings_view(r@).to_multiset() =~= postings_view(list@).to_multiset(),
{
    broadcast use vstd::seq_lib::group_to_multiset_ensures;
    let ghost orig = list@;
    let mut list = list;
    let mut r: Vec<Posting> = Vec::new();
    while list.len() > 0
        invariant
            list@ == orig.take(list@.len() as int),
            r@.len() + list@.len() == orig.len(),
            forall|i: int| 0 <= i < r@.len() ==> #[trigger] r@[i] == orig[orig.len() - 1 - i],
            postings_view(list@).to_multiset().add(postings_view(r@).to_multiset())
                =~= postings_view(orig).to_multiset(),
        decreases list@.len(),
    {
        let ghost before = list@;
        let ghost rb = r@;
        let p = list.pop().unwrap();
        assert(before == list@.push(p));
        assert(postings_view(before) =~= postings_view(list@).push(p@));
        proof {
            vstd::seq_lib::to_multiset_build(postings_view(list@), p@);
        }
        r.push(p);
        assert(postings_view(r@) =~= postings_view(rb).push(p@));
        proof {
            vstd::seq_lib::to_multiset_build(postings_view(rb), p@);
        }
        assert(list@ =~= orig.take(list@.len() as int));
    }
    assert(postings_view(list@) =~= Seq::<PostingModel>::empty());
    r
}

/// Merges posting lists into one ordered by doc id, always taking the
/// smallest head next (the first list's on ties).
pub fn merge_all_postings(lists: Vec<Vec<Posting>>) -> (r: Vec<Posting>)
    ensures
        postings_view(r@).to_multiset() =~= lists_multiset(lists_view(lists@)),
        (forall|k: int|
            0 <= k < lists@.len() ==> doc_ids_ascending(#[trigger] lists_view(lists@)[k]))
            ==> doc_ids_ascending(postings_view(r@)),
{
    broadcast use vstd::seq_lib::group_to_multiset_ensures;
    let ghost orig = lists@;
    let ghost all_asc = forall|k: int|
        0 <= k < orig.len() ==> doc_ids_ascending(#[trigger] lists_view(orig)[k]);
    let mut lists = lists;
    let mut stacks: Vec<Vec<Posting>> = Vec::new();
    while lists.len() > 0
        invariant
            lists@.len() <= orig.len(),
            lists@ == orig.take(lists@.len() as int),
            lists_multiset(lists_view(lists@)).add(lists_multiset(lists_view(stacks@)))
                =~= lists_multiset(lists_view(orig)),
            all_asc == forall|k: int|
                0 <= k < orig.len() ==> doc_ids_ascending(#[trigger] lists_view(orig)[k]),
            all_asc ==> forall|k: int|
                0 <= k < stacks@.len() ==> doc_ids_descending(#[trigger] lists_view(stacks@)[k]),
        decreases lists@.len(),
    {
        let ghost before = lists@;
        let ghost sb = stacks@;
        let list = lists.pop().unwrap();
        assert(before == lists@.push(list));
        assert(lists_view(before).drop_last() =~= lists_view(lists@));
        assert(lists_view(before).last() == postings_view(list@));
        let ghost k0 = lists@.len() as int;
        assert(before[k0] == list);
        assert(orig.take(before.len() as int)[k0] == orig[k0]);
        assert(orig[k0] == list);
        let st = reversed(list);
        stacks.push(st);
        assert(lists_view(stacks@) =~= lists_view(sb).push(postings_view(st@)));
        assert(lists_view(stacks@).drop_last() =~= lists_view(sb));
        proof {
            if all_asc {
                assert(doc_ids_ascending(lists_view(orig)[k0]));
                assert forall|i: int, j: int|
                    0 <= i < j < st@.len() implies postings_view(st@)[i].0 >= postings_view(
                        st@,
                    )[j].0 by {
                    assert(st@[i] == list@[list@.len() - 1 - i]);
                    assert(st@[j] == list@[list@.len() - 1 - j]);
                    assert(lists_view(orig)[k0][list@.len() - 1 - j].0 <= lists_view(
                        orig,
                    )[k0][list@.len() - 1 - i].0);
                }
                assert forall|k: int| 0 <= k < stacks@.len() implies doc_ids_descending(
                    #[trigger] lists_view(stacks@)[k],
                ) by {
                    if k < sb.len() {
                        assert(lists_view(stacks@)[k] == lists_view(sb)[k]);
                    }
                }
            }
        }
        assert(lists@ =~= before.drop_last());
        assert(lists@ =~= orig.take(lists@.len() as int));
    }
    assert(lists_view(lists@) =~= Seq::<Seq<PostingModel>>::empty());
    let mut result: Vec<Posting> = Vec::new();
    loop
        invariant
            postings_view(result@).to_multiset().add(lists_multiset(lists_view(stacks@)))
                =~= lists_multiset(lists_view(orig)),
            all_asc == forall|k: int|
                0 <= k < orig.len() ==> doc_ids_ascending(#[trigger] lists_view(orig)[k]),
            all_asc ==> forall|k: int|
                0 <= k < stacks@.len() ==> doc_ids_descending(#[trigger] lists_view(stacks@)[k]),
            all_asc ==> doc_ids_ascending(postings_view(result@)),
            all_asc && result@.len() > 0 ==> forall|k: int, j: int|
                0 <= k < stacks@.len() && 0 <= j < lists_view(stacks@)[k].len()
                    ==> result@.last().doc_id <= #[trigger] lists_view(stacks@)[k][j].0,
        ensures
            postings_view(result@).to_multiset() =~= lists_multiset(lists_view(orig)),
            all_asc ==> doc_ids_ascending(postings_view(result@)),
        decreases lists_multiset(lists_view(stacks@)).len(),
    {
        let mut best: usize = stacks.len();
        let mut k: usize = 0;
        while k < stacks.len()
            invariant
                k <= stacks@.len(),
                best == stacks@.len() || (best < k && stacks@[best as int]@.len() > 0),
                forall|i: int|
                    0 <= i < k && (#[trigger] stacks@[i])@.len() > 0 ==> best < stacks@.len()
                        && stacks@[best as int]@.last().doc_id <= stacks@[i]@.last().doc_id,
            decreases stacks@.len() - k,
        {
            let ghost old_best = best;
            let n = stacks[k].len();
            if n > 0 {
                let top = stacks[k][n - 1].doc_id;
                assert(top == stacks@[k as int]@.last().doc_id);
                if best == stacks.len() {
                    best = k;
                } else {
                    let m = stacks[best].len();
                    let best_top = stacks[best][m - 1].doc_id;
                    assert(best_top == stacks@[best as int]@.last().doc_id);
                    if top < best_top {
                        best = k;
                    }
                }
            }
            assert forall|i: int|
                0 <= i < k + 1 && (#[trigger] stacks@[i])@.len() > 0 implies best < stacks@.len()
                    && stacks@[best as int]@.last().doc_id <= stacks@[i]@.last().doc_id by {
                if i < k {
                    assert(old_best < stacks@.len());
                }
            }
            k = k + 1;
        }
        if best == stacks.len() {
            proof {
                assert forall|i: int| 0 <= i < stacks@.len() implies (#[trigger] lists_view(
                    stacks@,
                )[i]).len() == 0 by {
                    if (#[trigger] stacks@[i])@.len() > 0 {
                        assert(best < stacks@.len());
                    }
                }
                lemma_lists_multiset_empty(lists_view(stacks@));
            }
            break;
        }
        let ghost sv = lists_view(stacks@);
        let ghost rb = result@;
        proof {
            lemma_lists_multiset_pop(sv, best as int);
        }
        let ghost top_stack = stacks@[best as int]@;
        let ghost old_stacks = stacks@;
        assert forall|i: int| 0 <= i < old_stacks.len() && (#[trigger] old_stacks[i])@.len() > 0
            implies top_stack.last().doc_id <= old_stacks[i]@.last().doc_id by {
            assert(stacks@[i]@.len() > 0);
        }
        let p = stacks[best].pop().unwrap();
        assert(p == top_stack.last());
        assert(stacks@[best as int]@ == top_stack.drop_last());
        assert(p@ == sv[best as int].last());
        assert(postings_view(stacks@[best as int]@) =~= sv[best as int].drop_last());
        assert forall|i: int| 0 <= i < stacks@.len() && i != best implies #[trigger] lists_view(stacks@)[i] == sv[i] by {
        }
        assert(lists_view(stacks@) =~= sv.update(best as int, sv[best as int].drop_last()));
        result.push(p);
        assert(postings_view(result@) =~= postings_view(rb).push(p@));
        proof {
            vstd::seq_lib::to_multiset_build(postings_view(rb), p@);
        }
        proof {
            if all_asc {
                assert forall|kk: int, j: int|
                    0 <= kk < stacks@.len() && 0 <= j < lists_view(stacks@)[kk].len() implies p.doc_id
                        <= #[trigger] lists_view(stacks@)[kk][j].0 by {
                    assert(doc_ids_descending(sv[kk]));
                    assert(old_stacks[kk]@.len() > 0);
                    assert(sv[kk].last() == old_stacks[kk]@.last()@);
                    assert(top_stack.last().doc_id <= old_stacks[kk]@.last().doc_id);
                    if kk == best {
                        assert(lists_view(stacks@)[kk][j] == sv[kk][j]);
                    } else {
                        assert(lists_view(stacks@)[kk] == sv[kk]);
                    }
                    assert(sv[kk][j].0 >= sv[kk][sv[kk].len() - 1].0);
                }
                assert forall|kk: int| 0 <= kk < stacks@.len() implies doc_ids_descending(
                    #[trigger] lists_view(stacks@)[kk],
                ) by {
                    assert(doc_ids_descending(sv[kk]));
                }
                assert forall|i: int, j: int|
                    0 <= i < j < result@.len() implies postings_view(result@)[i].0 <= postings_view(
                        result@,
                    )[j].0 by {
                    if j == result@.len() - 1 {
                        assert(postings_view(result@)[j] == p@);
                        if rb.len() > 0 {
                            assert(sv[best as int][sv[best as int].len() - 1] == p@);
                            assert(rb.last().doc_id <= sv[best as int][sv[best as int].len() - 1].0);
                            assert(rb.last().doc_id <= p.doc_id);
                            assert(postings_view(rb)[i].0 <= postings_view(rb)[rb.len() - 1].0 || i
                                == rb.len() - 1);
                            assert(postings_view(result@)[i] == postings_view(rb)[i]);
                        }
                    } else {
                        assert(postings_view(result@)[i] == postings_view(rb)[i]);
                        assert(postings_view(result@)[j] == postings_view(rb)[j]);
                    }
                }
            }
        }
    }
    result
}

/// Empty lists hold no postings.
proof fn lemma_lists_multiset_empty(ls: Seq<Seq<PostingModel>>)
    requires
        forall|i: int| 0 <= i < ls.len() ==> (#[trigger] ls[i]).len() == 0,
    ensures
        lists_multiset(ls) =~= Multiset::empty(),
    decreases ls.len(),
{
    broadcast use vstd::seq_lib::group_to_multiset_ensures;
    if ls.len() > 0 {
        lemma_lists_multiset_empty(ls.drop_last());
        assert(ls.last() =~= Seq::<PostingModel>::empty());
    }
}

} // verus!
