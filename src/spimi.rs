//! The SPIMI builder: an in-memory dictionary from term to postings, capped in
//! distinct terms, kept in byte order of the terms and written out as a sorted
//! run whenever it fills.
//!
//! Run layout: `u32 term_count`, then for each term `u32` byte length, the
//! term's UTF-8 bytes, `u32` byte length of its postings, and the postings in
//! the interchange format of `posting`.
use crate::bytes::{le32, push_u32_le};
use crate::posting::{
    counts_fit, is_run_encoding, postings_view, vb_encode_posting_list, Posting, PostingModel,
};
use vstd::prelude::*;
use vstd::utf8::encode_utf8;

verus! {

/// The most distinct terms the dictionary holds before it is written out.
pub const MAX_DICTIONARY_TERMS: usize = 40000;

/// One occurrence record from the tokenizer: a term and its posting in one document.
#[derive(Debug, Clone)]
pub struct Term {
    pub term: String,
    pub posting: Posting,
}

/// `a` comes before `b` in byte-wise lexicographic order.
pub open spec fn lex_lt(a: Seq<u8>, b: Seq<u8>) -> bool
    decreases a.len(),
{
    if b.len() == 0 {
        false
    } else if a.len() == 0 {
        true
    } else if a[0] != b[0] {
        a[0] < b[0]
    } else {
        lex_lt(a.drop_first(), b.drop_first())
    }
}

/// Byte order is transitive.
pub proof fn lemma_lex_lt_transitive(a: Seq<u8>, b: Seq<u8>, c: Seq<u8>)
    requires
        lex_lt(a, b),
        lex_lt(b, c),
    ensures
        lex_lt(a, c),
    decreases a.len(),
{
    if a.len() > 0 && a[0] == b[0] && b[0] == c[0] {
        lemma_lex_lt_transitive(a.drop_first(), b.drop_first(), c.drop_first());
    }
}

/// Byte order is total, asymmetric and irreflexive.
pub proof fn lemma_lex_lt_total(a: Seq<u8>, b: Seq<u8>)
    ensures
        a != b ==> lex_lt(a, b) || lex_lt(b, a),
        !(lex_lt(a, b) && lex_lt(b, a)),
        !lex_lt(a, a),
    decreases a.len(),
{
    lemma_lex_lt_irreflexive(a);
    if a.len() > 0 && b.len() > 0 && a[0] == b[0] {
        lemma_lex_lt_total(a.drop_first(), b.drop_first());
        if a.drop_first() == b.drop_first() {
            assert(a =~= seq![a[0]] + a.drop_first());
            assert(b =~= seq![b[0]] + b.drop_first());
        }
    } else if a.len() == 0 && b.len() == 0 {
        assert(a =~= b);
    }
}

/// No byte string comes before itself.
proof fn lemma_lex_lt_irreflexive(a: Seq<u8>)
    ensures
        !lex_lt(a, a),
    decreases a.len(),
{
    if a.len() > 0 {
        lemma_lex_lt_irreflexive(a.drop_first());
    }
}

/// A common prefix does not change the order.
proof fn lemma_lex_lt_skip(a: Seq<u8>, b: Seq<u8>, i: int)
    requires
        0 <= i <= a.len(),
        i <= b.len(),
        a.take(i) == b.take(i),
    ensures
        lex_lt(a, b) == lex_lt(a.skip(i), b.skip(i)),
    decreases i,
{
    if i == 0 {
        assert(a.skip(0) =~= a);
        assert(b.skip(0) =~= b);
    } else {
        assert(a.take(i - 1) =~= a.take(i).take(i - 1));
        assert(b.take(i - 1) =~= b.take(i).take(i - 1));
        lemma_lex_lt_skip(a, b, i - 1);
        assert(a.take(i)[i - 1] == a[i - 1]);
        assert(b.take(i)[i - 1] == b[i - 1]);
        assert(a.skip(i - 1).drop_first() =~= a.skip(i));
        assert(b.skip(i - 1).drop_first() =~= b.skip(i));
    }
}

/// Compares two byte strings: negative, zero or positive as `a` comes
/// before, equals or comes after `b`.
pub fn compare_bytes(a: &[u8], b: &[u8]) -> (r: i8)
    ensures
        r < 0 <==> lex_lt(a@, b@),
        r == 0 <==> a@ == b@,
        r > 0 <==> lex_lt(b@, a@),
{
    let mut i: usize = 0;
    while i < a.len() && i < b.len() && a[i] == b[i]
        invariant
            i <= a@.len(),
            i <= b@.len(),
            a@.take(i as int) == b@.take(i as int),
        decreases a@.len() - i,
    {
        assert(a@.take(i + 1) =~= a@.take(i as int).push(a@[i as int]));
        assert(b@.take(i + 1) =~= b@.take(i as int).push(b@[i as int]));
        i = i + 1;
    }
    proof {
        lemma_lex_lt_skip(a@, b@, i as int);
        lemma_lex_lt_skip(b@, a@, i as int);
        lemma_lex_lt_total(a@, b@);
    }
    if i < a.len() && i < b.len() {
        assert(a@.skip(i as int)[0] == a@[i as int]);
        assert(b@.skip(i as int)[0] == b@[i as int]);
        if a[i] < b[i] {
            -1
        } else {
            1
        }
    } else if i == a.len() && i == b.len() {
        assert(a@ =~= a@.take(i as int));
        assert(b@ =~= b@.take(i as int));
        0
    } else if i == a.len() {
        assert(a@.skip(i as int).len() == 0);
        -1
    } else {
        assert(b@.skip(i as int).len() == 0);
        1
    }
}

/// The UTF-8 bytes of a term.
pub open spec fn key_of(s: String) -> Seq<u8> {
    encode_utf8(s@)
}

/// Keys strictly ascending in byte order (hence distinct).
pub open spec fn keys_sorted(keys: Seq<Seq<u8>>) -> bool {
    forall|i: int, j: int| 0 <= i < j < keys.len() ==> lex_lt(keys[i], keys[j])
}

/// A run's bytes: the term count, then each term with its encoded postings.
pub open spec fn run_image(keys: Seq<Seq<u8>>, encs: Seq<Seq<u8>>) -> Seq<u8> {
    le32(keys.len() as u32) + run_records(keys, encs)
}

/// The records of a run, one per term.
pub open spec fn run_records(keys: Seq<Seq<u8>>, encs: Seq<Seq<u8>>) -> Seq<u8>
    decreases keys.len(),
{
    if keys.len() == 0 {
        Seq::empty()
    } else {
        run_records(keys.drop_last(), encs.drop_last()) + le32(keys.last().len() as u32)
            + keys.last() + le32(encs[keys.len() - 1].len() as u32) + encs[keys.len() - 1]
    }
}

/// The current term of each run being merged, `None` for a finished run.
pub open spec fn head_key(heads: Seq<Option<String>>, i: int) -> Seq<u8> {
    key_of(heads[i]->Some_0)
}

/// Picks the next term of a merge of runs: the smallest current term in
/// byte order, with the (ascending) indices of the runs standing on it.
/// `None` once every run is finished.
pub fn smallest_current_term(heads: &Vec<Option<String>>) -> (r: Option<(String, Vec<usize>)>)
    ensures
        r is None <==> forall|i: int| 0 <= i < heads@.len() ==> (#[trigger] heads@[i]) is None,
        r is Some ==> {
            let t = key_of(r->Some_0.0);
            let idx = r->Some_0.1@;
            &&& forall|i: int|
                0 <= i < heads@.len() && (#[trigger] heads@[i]) is Some ==> !lex_lt(head_key(heads@, i), t)
            &&& forall|i: int|
                0 <= i < heads@.len() ==> ((#[trigger] heads@[i]) is Some && head_key(heads@, i) == t
                    <==> idx.contains(i as usize))
            &&& forall|a: int, b: int| 0 <= a < b < idx.len() ==> idx[a] < idx[b]
            &&& idx.len() > 0
        },
{
    let n = heads.len();
    let mut best: usize = n;
    let mut i: usize = 0;
    while i < n
        invariant
            i <= n == heads@.len(),
            best == n || (best < i && heads@[best as int] is Some),
            best == n ==> forall|j: int| 0 <= j < i ==> (#[trigger] heads@[j]) is None,
            best < n ==> forall|j: int|
                0 <= j < i && (#[trigger] heads@[j]) is Some ==> !lex_lt(
                    head_key(heads@, j),
                    head_key(heads@, best as int),
                ),
        decreases n - i,
    {
        match &heads[i] {
            Some(t) => {
                if best == n {
                    best = i;
                    proof {
                        lemma_lex_lt_total(head_key(heads@, i as int), head_key(heads@, i as int));
                    }
                } else {
                    let current_best = match &heads[best] {
                        Some(b) => b,
                        None => {
                            i = i + 1;
                            continue;
                        },
                    };
                    let c = compare_bytes(t.as_str().as_bytes(), current_best.as_str().as_bytes());
                    if c < 0 {
                        proof {
                            let ki = head_key(heads@, i as int);
                            let kb = head_key(heads@, best as int);
                            assert(lex_lt(ki, kb));
                            assert forall|j: int|
                                0 <= j < i + 1 && (#[trigger] heads@[j]) is Some implies !lex_lt(
                                    head_key(heads@, j),
                                    ki,
                                ) by {
                                if j < i && lex_lt(head_key(heads@, j), ki) {
                                    lemma_lex_lt_transitive(head_key(heads@, j), ki, kb);
                                }
                                lemma_lex_lt_total(ki, ki);
                            }
                        }
                        best = i;
                    }
                }
            },
            None => {},
        }
        i = i + 1;
    }
    if best == n {
        return None;
    }
    let t = match &heads[best] {
        Some(b) => b.clone(),
        None => {
            return None;
        },
    };
    let ghost kt = key_of(t);
    assert(kt == head_key(heads@, best as int));
    let mut idx: Vec<usize> = Vec::new();
    let mut k: usize = 0;
    while k < n
        invariant
            k <= n == heads@.len(),
            best < n,
            kt == key_of(t),
            kt == head_key(heads@, best as int),
            heads@[best as int] is Some,
            forall|j: int| 0 <= j < n && (#[trigger] heads@[j]) is Some ==> !lex_lt(head_key(heads@, j), kt),
            forall|j: int|
                0 <= j < k ==> ((#[trigger] heads@[j]) is Some && head_key(heads@, j) == kt <==> idx@.contains(
                    j as usize,
                )),
            forall|j: int| 0 <= j < idx@.len() ==> #[trigger] idx@[j] < k,
            forall|a: int, b: int| 0 <= a < b < idx@.len() ==> idx@[a] < idx@[b],
            k > best ==> idx@.len() > 0,
        decreases n - k,
    {
        let ghost before = idx@;
        match &heads[k] {
            Some(s) => {
                if compare_bytes(s.as_str().as_bytes(), t.as_str().as_bytes()) == 0 {
                    idx.push(k);
                }
            },
            None => {},
        }
        assert forall|j: int|
            0 <= j < k + 1 implies ((#[trigger] heads@[j]) is Some && head_key(heads@, j) == kt
                <==> idx@.contains(j as usize)) by {
            if j < k {
                if before.contains(j as usize) {
                    let w = choose|w: int| 0 <= w < before.len() && before[w] == j as usize;
                    assert(idx@[w] == j as usize);
                }
                if idx@.contains(j as usize) {
                    let w = choose|w: int| 0 <= w < idx@.len() && idx@[w] == j as usize;
                    if w == before.len() {
                        assert(idx@[w] == k);
                    } else {
                        assert(before[w] == j as usize);
                    }
                }
            } else {
                if idx@.len() > before.len() {
                    assert(idx@[before.len() as int] == k);
                }
                if idx@.contains(k) {
                    let w = choose|w: int| 0 <= w < idx@.len() && idx@[w] == k;
                    if w < before.len() {
                        assert(before[w] < k);
                    }
                }
            }
        }
        proof {
            if k == best {
                assert(idx@.len() == before.len() + 1);
            }
        }
        k = k + 1;
    }
    Some((t, idx))
}

/// The keys after adding `k`: unchanged if present, else `k` in its sorted place.
pub open spec fn grown_keys(keys: Seq<Seq<u8>>, k: Seq<u8>) -> Seq<Seq<u8>> {
    if keys.contains(k) {
        keys
    } else {
        keys.insert(insertion_point(keys, k), k)
    }
}

/// The posting lists after adding posting `p` under key `k`.
pub open spec fn grown_lists(
    keys: Seq<Seq<u8>>,
    lists: Seq<Seq<PostingModel>>,
    k: Seq<u8>,
    p: PostingModel,
) -> Seq<Seq<PostingModel>> {
    if keys.contains(k) {
        lists.update(index_of_key(keys, k), lists[index_of_key(keys, k)].push(p))
    } else {
        lists.insert(insertion_point(keys, k), seq![p])
    }
}

/// `b` is the run of these terms and their posting lists.
pub open spec fn is_run_of(b: Seq<u8>, keys: Seq<Seq<u8>>, lists: Seq<Seq<PostingModel>>) -> bool {
    exists|encs: Seq<Seq<u8>>|
        {
            &&& encs.len() == keys.len()
            &&& forall|i: int| 0 <= i < encs.len() ==> is_run_encoding(#[trigger] encs[i], lists[i])
            &&& b == #[trigger] run_image(keys, encs)
        }
}

/// A dictionary as plain values: its keys, their posting lists, and the runs
/// written so far (each as the keys and lists it holds).
pub type DictState = (Seq<Seq<u8>>, Seq<Seq<PostingModel>>, Seq<(Seq<Seq<u8>>, Seq<Seq<PostingModel>>)>);

/// Adding records one after another to a dictionary of capacity `cap`: each
/// record goes in; when the dictionary then holds `cap` terms it becomes a run
/// and the dictionary starts empty.
pub open spec fn indexed(
    keys: Seq<Seq<u8>>,
    lists: Seq<Seq<PostingModel>>,
    records: Seq<(Seq<u8>, PostingModel)>,
    cap: nat,
) -> DictState
    decreases records.len(),
{
    if records.len() == 0 {
        (keys, lists, Seq::empty())
    } else {
        let before = indexed(keys, lists, records.drop_last(), cap);
        let k2 = grown_keys(before.0, records.last().0);
        let l2 = grown_lists(before.0, before.1, records.last().0, records.last().1);
        if k2.len() == cap {
            (Seq::empty(), Seq::empty(), before.2.push((k2, l2)))
        } else {
            (k2, l2, before.2)
        }
    }
}

/// The records of a batch as plain values.
pub open spec fn batch_records(batch: Seq<Term>) -> Seq<(Seq<u8>, PostingModel)> {
    batch.map_values(|t: Term| (key_of(t.term), t.posting@))
}

/// `b` is a run of exactly `cap` terms in byte order.
pub open spec fn is_full_run(b: Seq<u8>, cap: nat) -> bool {
    exists|keys: Seq<Seq<u8>>, encs: Seq<Seq<u8>>|
        {
            &&& keys.len() == cap
            &&& keys_sorted(keys)
            &&& encs.len() == keys.len()
            &&& b == #[trigger] run_image(keys, encs)
        }
}

/// Where `k` goes among sorted keys: the number of keys before it.
pub open spec fn insertion_point(keys: Seq<Seq<u8>>, k: Seq<u8>) -> int {
    keys.filter(|x: Seq<u8>| lex_lt(x, k)).len() as int
}

/// The index of a key present among the keys.
pub open spec fn index_of_key(keys: Seq<Seq<u8>>, k: Seq<u8>) -> int {
    choose|i: int| 0 <= i < keys.len() && keys[i] == k
}

pub struct Spmi {
    terms: Vec<String>,
    postings: Vec<Vec<Posting>>,
    max_terms: usize,
    result_directory_path: String,
}

impl Spmi {
    /// The dictionary's terms, as bytes, in order.
    pub closed spec fn keys(&self) -> Seq<Seq<u8>> {
        self.terms@.map_values(|s: String| key_of(s))
    }

    /// Each term's postings, in arrival order.
    pub closed spec fn lists(&self) -> Seq<Seq<PostingModel>> {
        self.postings@.map_values(|v: Vec<Posting>| postings_view(v@))
    }

    /// The directory the runs go to.
    pub closed spec fn directory(&self) -> Seq<char> {
        self.result_directory_path@
    }

    /// The most distinct terms held before a run is written.
    pub closed spec fn capacity(&self) -> nat {
        self.max_terms as nat
    }

    /// Terms sorted and paired with their postings, within capacity.
    pub closed spec fn wf(&self) -> bool {
        &&& self.terms@.len() == self.postings@.len()
        &&& keys_sorted(self.keys())
        &&& self.terms@.len() <= self.max_terms
        &&& self.max_terms >= 1
    }

    pub fn new(result_directory_path: String) -> (r: Self)
        ensures
            r.wf(),
            r.keys().len() == 0,
            r.capacity() == MAX_DICTIONARY_TERMS,
            r.directory() == result_directory_path@,
    {
        Self {
            terms: Vec::new(),
            postings: Vec::new(),
            max_terms: MAX_DICTIONARY_TERMS,
            result_directory_path,
        }
    }

    /// The directory the runs go to.
    pub fn result_directory_path(&self) -> (r: &String)
        ensures
            r@ == self.directory(),
    {
        &self.result_directory_path
    }

    /// The number of distinct terms held.
    pub fn size(&self) -> (r: usize)
        requires
            self.wf(),
        ensures
            r == self.keys().len(),
            r == self.lists().len(),
    {
        self.terms.len()
    }

    /// Where `key` is, or where it would go to keep the terms sorted.
    fn find(&self, key: &[u8]) -> (r: (bool, usize))
        requires
            self.wf(),
        ensures
            r.1 <= self.keys().len(),
            r.0 ==> r.1 < self.keys().len() && self.keys()[r.1 as int] == key@,
            !r.0 ==> forall|i: int| 0 <= i < r.1 ==> lex_lt(#[trigger] self.keys()[i], key@),
            !r.0 ==> forall|i: int|
                r.1 <= i < self.keys().len() ==> lex_lt(key@, #[trigger] self.keys()[i]),
    {
        let ghost keys = self.keys();
        let mut lo: usize = 0;
        let mut hi: usize = self.terms.len();
        while lo < hi
            invariant
                lo <= hi <= self.terms@.len(),
                keys == self.keys(),
                self.wf(),
                forall|i: int| 0 <= i < lo ==> lex_lt(#[trigger] keys[i], key@),
                forall|i: int| hi <= i < keys.len() ==> lex_lt(key@, #[trigger] keys[i]),
            decreases hi - lo,
        {
            let mid = lo + (hi - lo) / 2;
            let c = compare_bytes(self.terms[mid].as_str().as_bytes(), key);
            assert(keys[mid as int] == key_of(self.terms@[mid as int]));
            if c == 0 {
                return (true, mid);
            } else if c < 0 {
                proof {
                    assert forall|i: int| 0 <= i < mid + 1 implies lex_lt(#[trigger] keys[i], key@) by {
                        if i < mid {
                            assert(lex_lt(keys[i], keys[mid as int]));
                            lemma_lex_lt_transitive(keys[i], keys[mid as int], key@);
                        }
                    }
                }
                lo = mid + 1;
            } else {
                proof {
                    assert forall|i: int| mid <= i < keys.len() implies lex_lt(key@, #[trigger] keys[i]) by {
                        if i > mid {
                            assert(lex_lt(keys[mid as int], keys[i]));
                            lemma_lex_lt_transitive(key@, keys[mid as int], keys[i]);
                        }
                    }
                }
                hi = mid;
            }
        }
        (false, lo)
    }

    /// Appends `posting` to the postings of `term`, adding the term in its
    /// sorted place if it is new. The dictionary must have room for a new term.
    pub fn add_posting(&mut self, term: String, posting: Posting)
        requires
            old(self).wf(),
            old(self).keys().len() < old(self).capacity(),
        ensures
            final(self).wf(),
            final(self).capacity() == old(self).capacity(),
            old(self).keys().contains(key_of(term)) ==> {
                &&& final(self).keys() == old(self).keys()
                &&& exists|i: int|
                    0 <= i < old(self).keys().len() && old(self).keys()[i] == key_of(term)
                        && final(self).lists() == old(self).lists().update(
                        i,
                        #[trigger] old(self).lists()[i].push(posting@),
                    )
            },
            !old(self).keys().contains(key_of(term)) ==> exists|i: int|
                0 <= i <= old(self).keys().len() && final(self).keys() == #[trigger] old(self).keys().insert(
                    i,
                    key_of(term),
                ) && final(self).lists() == old(self).lists().insert(i, seq![posting@]),
    {
        let ghost keys = self.keys();
        let ghost lists = self.lists();
        let (found, idx) = self.find(term.as_str().as_bytes());
        let ghost k = key_of(term);
        if found {
            let ghost before = self.postings@[idx as int];
            let ghost old_postings = self.postings@;
            self.postings[idx].push(posting);
            assert(self.postings@[idx as int]@ == before@.push(posting));
            assert(postings_view(before@.push(posting)) =~= postings_view(before@).push(posting@));
            assert(self.postings@ =~= old_postings.update(idx as int, self.postings@[idx as int]));
            assert(self.keys() =~= keys);
            assert(self.lists() =~= lists.update(idx as int, lists[idx as int].push(posting@)));
        } else {
            self.terms.insert(idx, term);
            let mut fresh: Vec<Posting> = Vec::new();
            fresh.push(posting);
            assert(postings_view(fresh@) =~= seq![posting@]);
            self.postings.insert(idx, fresh);
            assert(self.keys() =~= keys.insert(idx as int, k));
            assert(self.lists() =~= lists.insert(idx as int, seq![posting@]));
            assert forall|i: int, j: int| 0 <= i < j < self.keys().len() implies lex_lt(
                self.keys()[i],
                self.keys()[j],
            ) by {
                if j == idx {
                } else if i == idx {
                } else if i > idx {
                    assert(self.keys()[i] == keys[i - 1]);
                    assert(self.keys()[j] == keys[j - 1]);
                } else if j > idx {
                    assert(self.keys()[j] == keys[j - 1]);
                    if i < idx {
                        assert(lex_lt(keys[i], k));
                        assert(lex_lt(k, keys[j - 1]));
                        lemma_lex_lt_transitive(keys[i], k, keys[j - 1]);
                    }
                }
            }
            proof {
                if keys.contains(k) {
                    let w = choose|w: int| 0 <= w < keys.len() && keys[w] == k;
                    if w < idx {
                        assert(lex_lt(keys[w], k));
                    } else {
                        assert(lex_lt(k, keys[w]));
                    }
                    lemma_lex_lt_total(k, k);
                }
            }
        }
    }

    /// Empties the dictionary.
    pub fn clear(&mut self)
        requires
            old(self).wf(),
        ensures
            final(self).wf(),
            final(self).keys().len() == 0,
            final(self).lists().len() == 0,
            final(self).capacity() == old(self).capacity(),
    {
        self.terms.clear();
        self.postings.clear();
        assert(self.keys() =~= Seq::<Seq<u8>>::empty());
    }

    /// The run for the dictionary's contents: its terms in byte order, each
    /// with its postings encoded in doc-id order.
    pub fn run_bytes(&self) -> (r: Vec<u8>)
        requires
            self.wf(),
            forall|i: int| 0 <= i < self.lists().len() ==> counts_fit(#[trigger] self.lists()[i]),
        ensures
            exists|encs: Seq<Seq<u8>>|
                {
                    &&& encs.len() == self.keys().len()
                    &&& forall|i: int|
                        0 <= i < encs.len() ==> is_run_encoding(#[trigger] encs[i], self.lists()[i])
                    &&& r@ == run_image(self.keys(), encs)
                },
    {
        let ghost keys = self.keys();
        let ghost lists = self.lists();
        let mut out: Vec<u8> = Vec::new();
        push_u32_le(&mut out, self.terms.len() as u32);
        let ghost head = out@;
        let ghost mut encs: Seq<Seq<u8>> = Seq::empty();
        let mut i: usize = 0;
        while i < self.terms.len()
            invariant
                i <= self.terms@.len(),
                self.wf(),
                keys == self.keys(),
                lists == self.lists(),
                forall|k: int| 0 <= k < lists.len() ==> counts_fit(#[trigger] lists[k]),
                encs.len() == i,
                forall|k: int| 0 <= k < i ==> is_run_encoding(#[trigger] encs[k], lists[k]),
                out@ == head + run_records(keys.take(i as int), encs),
            decreases self.terms@.len() - i,
        {
            let bytes = self.terms[i].as_str().as_bytes();
            assert(bytes@ == keys[i as int]);
            push_u32_le(&mut out, bytes.len() as u32);
            out.extend_from_slice(bytes);
            assert(lists[i as int] == postings_view(self.postings@[i as int]@));
            let enc = vb_encode_posting_list(&self.postings[i]);
            push_u32_le(&mut out, enc.len() as u32);
            out.extend_from_slice(enc.as_slice());
            proof {
                let ne = encs.push(enc@);
                assert(keys.take(i + 1).drop_last() =~= keys.take(i as int));
                assert(ne.drop_last() =~= encs);
                assert(out@ =~= head + run_records(keys.take(i + 1), ne));
                encs = ne;
            }
            i = i + 1;
        }
        assert(keys.take(i as int) =~= keys);
        assert(out@ =~= run_image(keys, encs));
        out
    }

    /// Adds one term record. Once the dictionary holds `capacity` terms it is
    /// written out as a run, returned, and emptied.
    pub fn add_term_record(&mut self, record: Term) -> (r: Option<Vec<u8>>)
        requires
            old(self).wf(),
            old(self).keys().len() < old(self).capacity(),
            forall|i: int| 0 <= i < old(self).lists().len() ==> counts_fit(#[trigger] old(self).lists()[i]),
            record.posting.positions@.len() <= u32::MAX,
        ensures
            final(self).wf(),
            final(self).capacity() == old(self).capacity(),
            final(self).keys().len() < final(self).capacity(),
            forall|i: int| 0 <= i < final(self).lists().len() ==> counts_fit(#[trigger] final(self).lists()[i]),
            keys_sorted(grown_keys(old(self).keys(), key_of(record.term))),
            grown_keys(old(self).keys(), key_of(record.term)).len() == old(self).capacity() ==> {
                &&& final(self).keys().len() == 0
                &&& final(self).lists().len() == 0
                &&& r is Some
                &&& is_run_of(
                    r->Some_0@,
                    grown_keys(old(self).keys(), key_of(record.term)),
                    grown_lists(old(self).keys(), old(self).lists(), key_of(record.term), record.posting@),
                )
            },
            grown_keys(old(self).keys(), key_of(record.term)).len() != old(self).capacity() ==> {
                &&& r is None
                &&& final(self).keys() == grown_keys(old(self).keys(), key_of(record.term))
                &&& final(self).lists() == grown_lists(
                    old(self).keys(),
                    old(self).lists(),
                    key_of(record.term),
                    record.posting@,
                )
            },
    {
        let ghost keys = self.keys();
        let ghost lists = self.lists();
        let ghost k = key_of(record.term);
        let ghost p = record.posting@;
        self.add_posting(record.term, record.posting);
        assert(keys_sorted(self.keys()));
        proof {
            let nl = self.lists();
            if keys.contains(k) {
                let i0 = choose|i: int|
                    0 <= i < keys.len() && keys[i] == k && nl == lists.update(
                        i,
                        #[trigger] lists[i].push(p),
                    );
                lemma_sorted_key_index(keys, k, i0);
                assert forall|i: int| 0 <= i < nl.len() implies counts_fit(#[trigger] nl[i]) by {
                    if i == i0 {
                        lemma_counts_fit_push(lists[i], p);
                    }
                }
            } else {
                let i0 = choose|i: int|
                    0 <= i <= keys.len() && self.keys() == #[trigger] keys.insert(i, k) && nl
                        == lists.insert(i, seq![p]);
                lemma_insertion_point_unique(keys, k, i0);
                assert forall|i: int| 0 <= i < nl.len() implies counts_fit(#[trigger] nl[i]) by {
                    if i < i0 {
                        assert(nl[i] == lists[i]);
                    } else if i > i0 {
                        assert(nl[i] == lists[i - 1]);
                    }
                }
            }
        }
        if self.size() >= self.max_terms_exec() {
            let run = self.run_bytes();
            self.clear();
            return Some(run);
        }
        None
    }

    /// Adds a batch of term records in order, writing out the dictionary as
    /// a run each time it fills. Returns those runs, in order: the runs, the
    /// final keys and the final lists are those of `indexed` over the batch.
    /// Each run lists exactly `capacity` terms in byte order.
    pub fn single_pass_in_memory_indexing(&mut self, batch: Vec<Term>) -> (r: Vec<Vec<u8>>)
        requires
            old(self).wf(),
            old(self).keys().len() < old(self).capacity(),
            forall|i: int| 0 <= i < old(self).lists().len() ==> counts_fit(#[trigger] old(self).lists()[i]),
            forall|i: int| 0 <= i < batch@.len() ==> (#[trigger] batch@[i]).posting.positions@.len() <= u32::MAX,
        ensures
            final(self).wf(),
            final(self).capacity() == old(self).capacity(),
            final(self).keys().len() < final(self).capacity(),
            forall|i: int| 0 <= i < final(self).lists().len() ==> counts_fit(#[trigger] final(self).lists()[i]),
            ({
                let res = indexed(old(self).keys(), old(self).lists(), batch_records(batch@), old(self).capacity());
                &&& final(self).keys() == res.0
                &&& final(self).lists() == res.1
                &&& r@.len() == res.2.len()
                &&& forall|i: int| 0 <= i < r@.len() ==> is_run_of((#[trigger] r@[i])@, res.2[i].0, res.2[i].1)
            }),
            forall|i: int| 0 <= i < r@.len() ==> is_full_run((#[trigger] r@[i])@, old(self).capacity()),
    {
        let mut runs: Vec<Vec<u8>> = Vec::new();
        let ghost orig = batch@;
        let ghost recs = batch_records(batch@);
        let ghost total = batch@.len();
        let ghost cap = self.capacity();
        let mut batch = batch;
        let mut stack: Vec<Term> = Vec::new();
        while batch.len() > 0
            invariant
                batch@.len() + stack@.len() == total,
                orig.len() == total,
                batch@ == orig.take(batch@.len() as int),
                forall|i: int| 0 <= i < stack@.len() ==> #[trigger] stack@[i] == orig[total - 1 - i],
                forall|i: int| 0 <= i < orig.len() ==> (#[trigger] orig[i]).posting.positions@.len() <= u32::MAX,
            decreases batch@.len(),
        {
            let ghost before = batch@;
            let t = batch.pop().unwrap();
            assert(before[before.len() - 1] == t);
            stack.push(t);
            assert(batch@ =~= orig.take(batch@.len() as int));
        }
        while stack.len() > 0
            invariant
                self.wf(),
                self.capacity() == cap,
                cap == old(self).capacity(),
                self.keys().len() < self.capacity(),
                forall|i: int| 0 <= i < self.lists().len() ==> counts_fit(#[trigger] self.lists()[i]),
                orig.len() == total,
                recs == batch_records(orig),
                stack@.len() <= total,
                forall|i: int| 0 <= i < stack@.len() ==> #[trigger] stack@[i] == orig[total - 1 - i],
                forall|i: int| 0 <= i < orig.len() ==> (#[trigger] orig[i]).posting.positions@.len() <= u32::MAX,
                ({
                    let res = indexed(old(self).keys(), old(self).lists(), recs.take(total - stack@.len()), cap);
                    &&& self.keys() == res.0
                    &&& self.lists() == res.1
                    &&& runs@.len() == res.2.len()
                    &&& forall|i: int| 0 <= i < runs@.len() ==> is_run_of((#[trigger] runs@[i])@, res.2[i].0, res.2[i].1)
                }),
                forall|i: int| 0 <= i < runs@.len() ==> is_full_run((#[trigger] runs@[i])@, old(self).capacity()),
            decreases stack@.len(),
        {
            let ghost j = total - stack@.len();
            let ghost prev = indexed(old(self).keys(), old(self).lists(), recs.take(j), cap);
            let t = stack.pop().unwrap();
            assert(t == orig[j]);
            let ghost k = key_of(t.term);
            let ghost p = t.posting@;
            assert(recs.take(j + 1).drop_last() =~= recs.take(j));
            assert(recs.take(j + 1).last() == (k, p));
            let ghost keys0 = self.keys();
            let ghost lists0 = self.lists();
            let ghost before = runs@;
            match self.add_term_record(t) {
                Some(run) => {
                    proof {
                        let grown = grown_keys(keys0, k);
                        assert(keys_sorted(grown));
                        assert(grown.len() == cap);
                        let encs = choose|encs: Seq<Seq<u8>>|
                            {
                                &&& encs.len() == grown.len()
                                &&& forall|i: int| 0 <= i < encs.len() ==> is_run_encoding(#[trigger] encs[i], grown_lists(keys0, lists0, k, p)[i])
                                &&& run@ == #[trigger] run_image(grown, encs)
                            };
                        assert(encs.len() == grown.len() && run@ == run_image(grown, encs));
                        assert(is_full_run(run@, cap));
                        assert(self.keys() =~= Seq::<Seq<u8>>::empty());
                        assert(self.lists() =~= Seq::<Seq<PostingModel>>::empty());
                    }
                    runs.push(run);
                    assert forall|i: int| 0 <= i < runs@.len() implies is_full_run((#[trigger] runs@[i])@, old(self).capacity()) by {
                        if i < before.len() {
                            assert(runs@[i] == before[i]);
                        }
                    }
                    proof {
                        let res = indexed(old(self).keys(), old(self).lists(), recs.take(j + 1), cap);
                        assert(res.2 == prev.2.push((grown_keys(keys0, k), grown_lists(keys0, lists0, k, p))));
                        assert forall|i: int| 0 <= i < runs@.len() implies is_run_of((#[trigger] runs@[i])@, res.2[i].0, res.2[i].1) by {
                            if i < before.len() {
                                assert(runs@[i] == before[i]);
                            }
                        }
                    }
                },
                None => {},
            }
        }
        assert(recs.take(total as int) =~= recs);
        runs
    }

    fn max_terms_exec(&self) -> (r: usize)
        ensures
            r == self.capacity(),
    {
        self.max_terms
    }

    /// The run for what is left in the dictionary, if anything, which is then emptied.
    pub fn finish(&mut self) -> (r: Option<Vec<u8>>)
        requires
            old(self).wf(),
            forall|i: int| 0 <= i < old(self).lists().len() ==> counts_fit(#[trigger] old(self).lists()[i]),
        ensures
            final(self).wf(),
            final(self).keys().len() == 0,
            r is None <==> old(self).keys().len() == 0,
            r is Some ==> exists|encs: Seq<Seq<u8>>|
                {
                    &&& encs.len() == old(self).keys().len()
                    &&& forall|i: int|
                        0 <= i < encs.len() ==> is_run_encoding(#[trigger] encs[i], old(self).lists()[i])
                    &&& r->Some_0@ == run_image(old(self).keys(), encs)
                },
    {
        if self.size() == 0 {
            return None;
        }
        let r = self.run_bytes();
        self.clear();
        Some(r)
    }
}

/// In sorted keys a present key has one index.
proof fn lemma_sorted_key_index(keys: Seq<Seq<u8>>, k: Seq<u8>, i0: int)
    requires
        keys_sorted(keys),
        0 <= i0 < keys.len(),
        keys[i0] == k,
    ensures
        index_of_key(keys, k) == i0,
{
    let j = index_of_key(keys, k);
    assert(keys[j] == k);
    if j != i0 {
        if j < i0 {
            assert(lex_lt(keys[j], keys[i0]));
        } else {
            assert(lex_lt(keys[i0], keys[j]));
        }
        lemma_lex_lt_total(k, k);
    }
}

/// The number of keys before `k`, when all before `i0` are smaller and all
/// from `i0` on are larger, is `i0`.
proof fn lemma_insertion_point_unique(keys: Seq<Seq<u8>>, k: Seq<u8>, i0: int)
    requires
        keys_sorted(keys.insert(i0, k)),
        0 <= i0 <= keys.len(),
    ensures
        insertion_point(keys, k) == i0,
    decreases keys.len(),
{
    let f = |x: Seq<u8>| lex_lt(x, k);
    let grown = keys.insert(i0, k);
    assert forall|i: int| 0 <= i < i0 implies lex_lt(#[trigger] keys[i], k) by {
        assert(grown[i] == keys[i]);
        assert(grown[i0] == k);
    }
    assert forall|i: int| i0 <= i < keys.len() implies !lex_lt(#[trigger] keys[i], k) by {
        assert(grown[i + 1] == keys[i]);
        assert(grown[i0] == k);
        assert(lex_lt(k, keys[i]));
        lemma_lex_lt_total(k, keys[i]);
    }
    lemma_filter_prefix(keys, k, i0);
}

/// Filtering keys that are smaller than `k` keeps exactly the first `i0`.
proof fn lemma_filter_prefix(keys: Seq<Seq<u8>>, k: Seq<u8>, i0: int)
    requires
        0 <= i0 <= keys.len(),
        forall|i: int| 0 <= i < i0 ==> lex_lt(#[trigger] keys[i], k),
        forall|i: int| i0 <= i < keys.len() ==> !lex_lt(#[trigger] keys[i], k),
    ensures
        keys.filter(|x: Seq<u8>| lex_lt(x, k)).len() == i0,
    decreases keys.len(),
{
    reveal(Seq::filter);
    if keys.len() > 0 {
        let d = keys.drop_last();
        if i0 == keys.len() {
            assert forall|i: int| 0 <= i < keys.len() - 1 implies lex_lt(#[trigger] d[i], k) by {
                assert(d[i] == keys[i]);
            }
            lemma_filter_prefix(d, k, i0 - 1);
            assert(lex_lt(keys.last(), k));
        } else {
            assert forall|i: int| 0 <= i < i0 implies lex_lt(#[trigger] d[i], k) by {
                assert(d[i] == keys[i]);
            }
            assert forall|i: int| i0 <= i < d.len() implies !lex_lt(#[trigger] d[i], k) by {
                assert(d[i] == keys[i]);
            }
            lemma_filter_prefix(d, k, i0);
            assert(!lex_lt(keys.last(), k));
        }
    }
}

/// Adding a posting whose count fits keeps every count fitting.
proof fn lemma_counts_fit_push(s: Seq<PostingModel>, p: PostingModel)
    requires
        counts_fit(s),
        p.1.len() <= u32::MAX,
    ensures
        counts_fit(s.push(p)),
{
    assert forall|i: int| 0 <= i < s.push(p).len() implies s.push(p)[i].1.len() <= u32::MAX by {
        if i < s.len() {
            assert(s.push(p)[i] == s[i]);
        }
    }
}

} // verus!
