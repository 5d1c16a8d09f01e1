//! Integer list codecs with optional d-gap (successive difference) encoding.
//!
//! The codecs themselves come from `search_engine_compressors`; this module
//! chooses one, pads and cuts where a codec needs it, and applies d-gaps.
use search_engine_compressors::{p_for_delta, rice, simple16, simple9, var_byte};
use vstd::prelude::*;

verus! {

/// The five codecs a list can be stored with.
#[derive(Debug, Clone, Copy, PartialEq, Eq, Structural)]
pub enum CompressionAlgorithm {
    Simple9,
    Simple16,
    PforDelta,
    RiceCoding,
    VarByte,
}

/// Compresses and decompresses `u32` lists with one codec.
#[derive(Debug, Clone, Copy, PartialEq, Eq, Structural)]
pub struct Compressor {
    pub compression_algorithm: CompressionAlgorithm,
}

/// The number of values in one PFor-Delta batch.
pub const PFOR_BATCH: usize = 128;

/// The largest value the Simple9 and Simple16 codecs can hold (28 bits).
pub const SIMPLE_MAX: u32 = 0x0fff_ffff;

/// The Var-Byte bytes of one value: 7-bit groups, low group first, the high
/// bit set on every byte but the last.
pub open spec fn vb_number(n: u32) -> Seq<u8>
    decreases n,
{
    if n < 128 {
        seq![n as u8]
    } else {
        seq![((n % 128) + 128) as u8] + vb_number(n / 128)
    }
}

/// The Var-Byte bytes of a list: each value's bytes in order.
pub open spec fn vb_numbers(s: Seq<u32>) -> Seq<u8>
    decreases s.len(),
{
    if s.len() == 0 {
        Seq::empty()
    } else {
        vb_numbers(s.drop_last()) + vb_number(s.last())
    }
}

/// What `var_byte::decompress` returns for these bytes.
pub uninterp spec fn var_byte_decompressed(b: Seq<u8>) -> Seq<u32>;

/// What `simple9::compress` returns for this list.
pub uninterp spec fn simple9_compressed(s: Seq<u32>) -> Seq<u8>;

/// What `simple9::decompress_from_bytes` returns for these bytes.
pub uninterp spec fn simple9_decompressed(b: Seq<u8>) -> Seq<u32>;

/// What `simple16::compress` returns for this list.
pub uninterp spec fn simple16_compressed(s: Seq<u32>) -> Seq<u8>;

/// What `simple16::decompress_from_bytes` returns for these bytes.
pub uninterp spec fn simple16_decompressed(b: Seq<u8>) -> Seq<u32>;

/// What `p_for_delta::compress` returns for this batch.
pub uninterp spec fn pfor_compressed(s: Seq<u32>) -> Seq<u8>;

/// What `p_for_delta::decompress` returns for these bytes.
pub uninterp spec fn pfor_decompressed(b: Seq<u8>) -> Seq<u32>;

/// What `rice::compress` returns for this list with parameter `Some(k)`.
pub uninterp spec fn rice_compressed(s: Seq<u32>, k: u8) -> Seq<u8>;

/// The sum of a list.
pub open spec fn list_sum(s: Seq<u32>) -> int
    decreases s.len(),
{
    if s.len() == 0 {
        0
    } else {
        list_sum(s.drop_last()) + s.last()
    }
}

/// The first `k` from `k` on, at most 31, at which `lhs * 2^k` (the value
/// passed in for `k`) reaches `target`.
pub open spec fn rice_k_from(lhs: int, target: int, k: nat) -> nat
    decreases 31 - k,
{
    if k >= 31 || lhs >= target {
        k
    } else {
        rice_k_from(2 * lhs, target, k + 1)
    }
}

/// The Rice parameter of a list: the smallest `k` (at most 31) with
/// `2^k >= 0.69 * average`, that is `100 * len * 2^k >= 69 * sum`.
pub open spec fn rice_parameter(s: Seq<u32>) -> u8 {
    rice_k_from(100 * (s.len() as int), 69 * list_sum(s), 0) as u8
}

/// Every value fits the 28 data bits of a Simple9 or Simple16 word.
pub open spec fn fits_28_bits(s: Seq<u32>) -> bool {
    forall|i: int| 0 <= i < s.len() ==> s[i] <= SIMPLE_MAX
}

/// `p` is a prefix of `s`.
pub open spec fn is_prefix(p: Seq<u32>, s: Seq<u32>) -> bool {
    p.len() <= s.len() && s.take(p.len() as int) == p
}

/// No value of `s` is zero.
pub open spec fn zero_free(s: Seq<u32>) -> bool {
    forall|i: int| 0 <= i < s.len() ==> s[i] != 0
}

/// Relies on `var_byte::compress`: each value as 7-bit groups, low group
/// first, the continuation bit set on all but the last byte of a value.
#[verifier::external_body]
fn var_byte_compress(list: &Vec<u32>) -> (r: Vec<u8>)
    ensures
        r@ == vb_numbers(list@),
{
    var_byte::compress(list)
}

/// Relies on `var_byte::decompress`: it reads back every value that
/// `var_byte::compress` wrote; it panics only on a sixth byte of one value.
#[verifier::external_body]
fn var_byte_decompress(b: &[u8]) -> (r: Vec<u32>)
    requires
        (exists|l: Seq<u32>| vb_numbers(l) == b@) || vb_safe(b@),
    ensures
        r@ == var_byte_decompressed(b@),
        forall|l: Seq<u32>| #[trigger] vb_numbers(l) == b@ ==> r@ == l,
{
    var_byte::decompress(b)
}

/// Relies on `simple9::compress`, which panics on a value above 28 bits. It
/// writes 4-byte words, each holding at least one value.
#[verifier::external_body]
fn simple9_compress(list: &Vec<u32>) -> (r: Vec<u8>)
    requires
        fits_28_bits(list@),
    ensures
        r@ == simple9_compressed(list@),
        r@.len() % 4 == 0,
        r@.len() <= 4 * list@.len(),
{
    simple9::compress(list)
}

/// Relies on `simple9::decompress_from_bytes`: it yields the compressed
/// values in order, then the zero fields that fill the last word. It panics
/// only on a partial last word or a selector above 8.
#[verifier::external_body]
fn simple9_decompress(b: &[u8]) -> (r: Vec<u32>)
    requires
        (exists|l: Seq<u32>| fits_28_bits(l) && simple9_compressed(l) == b@) || simple9_safe(b@),
    ensures
        r@ == simple9_decompressed(b@),
        forall|l: Seq<u32>|
            fits_28_bits(l) && #[trigger] simple9_compressed(l) == b@ ==> is_prefix(l, r@),
{
    simple9::decompress_from_bytes(b)
}

/// Relies on `simple16::compress`, which panics on a value above 28 bits. It
/// writes 4-byte words, each holding at least one value.
#[verifier::external_body]
fn simple16_compress(list: &Vec<u32>) -> (r: Vec<u8>)
    requires
        fits_28_bits(list@),
    ensures
        r@ == simple16_compressed(list@),
        r@.len() % 4 == 0,
        r@.len() <= 4 * list@.len(),
{
    simple16::compress(list)
}

/// Relies on `simple16::decompress_from_bytes`: it yields the compressed
/// values in order, then the zero fields that fill the last word. It panics
/// only on a partial last word (all 16 selectors are defined).
#[verifier::external_body]
fn simple16_decompress(b: &[u8]) -> (r: Vec<u32>)
    requires
        (exists|l: Seq<u32>| fits_28_bits(l) && simple16_compressed(l) == b@) || b@.len() % 4 == 0,
    ensures
        r@ == simple16_decompressed(b@),
        forall|l: Seq<u32>|
            fits_28_bits(l) && #[trigger] simple16_compressed(l) == b@ ==> is_prefix(l, r@),
{
    simple16::decompress_from_bytes(b)
}

/// Relies on `p_for_delta::compress`, which asserts a batch of exactly 128 values.
#[verifier::external_body]
fn pfor_compress(values: &Vec<u32>) -> (r: Vec<u8>)
    requires
        values@.len() == PFOR_BATCH,
    ensures
        r@ == pfor_compressed(values@),
{
    p_for_delta::compress(values)
}

/// Relies on `p_for_delta::decompress`: it restores the batch that
/// `p_for_delta::compress` wrote, exceptions included.
#[verifier::external_body]
fn pfor_decompress(b: &[u8]) -> (r: Vec<u32>)
    requires
        exists|l: Seq<u32>| l.len() == PFOR_BATCH && pfor_compressed(l) == b@,
    ensures
        r@ == pfor_decompressed(b@),
        forall|l: Seq<u32>| l.len() == PFOR_BATCH && #[trigger] pfor_compressed(l) == b@ ==> r@ == l,
{
    p_for_delta::decompress(b)
}

/// Relies on `rice::compress` with the parameter given: the bytes depend on
/// the list and `k` alone. It panics on no `k` up to 31.
#[verifier::external_body]
fn rice_compress(list: &Vec<u32>, k: u8) -> (r: Vec<u8>)
    requires
        k <= 31,
    ensures
        r@ == rice_compressed(list@, k),
{
    rice::compress(list, Some(k))
}

/// The d-gaps of `s`: the first value, then each value minus the one before.
pub open spec fn d_gaps(s: Seq<u32>) -> Seq<u32> {
    Seq::new(s.len(), |i: int| if i == 0 { s[0] } else { (s[i] - s[i - 1]) as u32 })
}

/// `a + b` wrapped to 32 bits.
pub open spec fn add_wrap(a: u32, b: u32) -> u32 {
    if a + b > u32::MAX {
        (a + b - 0x1_0000_0000) as u32
    } else {
        (a + b) as u32
    }
}

/// The running sums of `g` (wrapped to 32 bits): the inverse of `d_gaps`.
pub open spec fn running_sums(g: Seq<u32>) -> Seq<u32>
    decreases g.len(),
{
    if g.len() == 0 {
        Seq::empty()
    } else {
        let r = running_sums(g.drop_last());
        if g.len() == 1 {
            r.push(g.last())
        } else {
            r.push(add_wrap(r.last(), g.last()))
        }
    }
}

/// Each value is at least the one before it.
pub open spec fn non_decreasing(s: Seq<u32>) -> bool {
    forall|i: int| 0 < i < s.len() ==> s[i - 1] <= #[trigger] s[i]
}

/// Whether `alg` accepts `s` without panicking.
pub open spec fn can_compress(alg: CompressionAlgorithm, s: Seq<u32>) -> bool {
    match alg {
        CompressionAlgorithm::Simple9 => fits_28_bits(s),
        CompressionAlgorithm::Simple16 => fits_28_bits(s),
        CompressionAlgorithm::PforDelta => s.len() <= PFOR_BATCH,
        _ => true,
    }
}

/// `s` followed by zeros up to a full PFor-Delta batch.
pub open spec fn pad_to_batch(s: Seq<u32>) -> Seq<u32> {
    s + Seq::new((PFOR_BATCH - s.len()) as nat, |i: int| 0u32)
}

/// The bytes `alg` stores for `s`.
pub open spec fn compressed(alg: CompressionAlgorithm, s: Seq<u32>) -> Seq<u8> {
    match alg {
        CompressionAlgorithm::Simple9 => simple9_compressed(s),
        CompressionAlgorithm::Simple16 => simple16_compressed(s),
        CompressionAlgorithm::PforDelta => pfor_compressed(pad_to_batch(s)),
        CompressionAlgorithm::RiceCoding => rice_compressed(s, rice_parameter(s)),
        CompressionAlgorithm::VarByte => vb_numbers(s),
    }
}

/// The values of `s` before its first zero.
pub open spec fn cut_at_zero(s: Seq<u32>) -> Seq<u32>
    decreases s.len(),
{
    if s.len() == 0 || s[0] == 0 {
        Seq::empty()
    } else {
        seq![s[0]] + cut_at_zero(s.drop_first())
    }
}

/// What `alg` reads back from `b`. Rice lists are not read back: the result is empty.
pub open spec fn decompressed(alg: CompressionAlgorithm, b: Seq<u8>) -> Seq<u32> {
    match alg {
        CompressionAlgorithm::Simple9 => simple9_decompressed(b),
        CompressionAlgorithm::Simple16 => simple16_decompressed(b),
        CompressionAlgorithm::PforDelta => cut_at_zero(pfor_decompressed(b)),
        CompressionAlgorithm::RiceCoding => Seq::empty(),
        CompressionAlgorithm::VarByte => var_byte_decompressed(b),
    }
}

/// `b` is what `alg` stores for some list it accepts.
pub open spec fn decodable(alg: CompressionAlgorithm, b: Seq<u8>) -> bool {
    (exists|l: Seq<u32>| can_compress(alg, l) && #[trigger] compressed(alg, l) == b) || bytes_safe(alg, b)
}

/// No five bytes in a row carry the continuation bit before another byte:
/// no value runs past five bytes.
pub open spec fn vb_safe(b: Seq<u8>) -> bool {
    forall|i: int| 0 <= i && i + 5 < b.len() ==> !#[trigger] continuation_run(b, i)
}

/// Bytes `i` to `i + 4` all carry the continuation bit.
pub open spec fn continuation_run(b: Seq<u8>, i: int) -> bool {
    b[i] >= 128 && b[i + 1] >= 128 && b[i + 2] >= 128 && b[i + 3] >= 128 && b[i + 4] >= 128
}

/// Whole 4-byte words, each with a selector (its low four bits) of at most 8.
pub open spec fn simple9_safe(b: Seq<u8>) -> bool {
    b.len() % 4 == 0 && forall|w: int| 0 <= w < b.len() / 4 ==> #[trigger] b[4 * w] % 16 <= 8
}

/// Bytes that `alg`'s decoder reads without failing, checked on the bytes
/// themselves. PFor-Delta bytes cannot be so checked: its exception chain
/// runs through the packed values.
pub open spec fn bytes_safe(alg: CompressionAlgorithm, b: Seq<u8>) -> bool {
    match alg {
        CompressionAlgorithm::VarByte => vb_safe(b),
        CompressionAlgorithm::Simple9 => simple9_safe(b),
        CompressionAlgorithm::Simple16 => b.len() % 4 == 0,
        CompressionAlgorithm::PforDelta => false,
        CompressionAlgorithm::RiceCoding => true,
    }
}

/// What reading back `compressed(alg, l)` gives: `l` itself for Var-Byte, and
/// for PFor-Delta when `l` holds no zero; `l` followed by padding zeros for
/// Simple9 and Simple16; nothing is promised for Rice.
pub open spec fn recovers(alg: CompressionAlgorithm, l: Seq<u32>, r: Seq<u32>) -> bool {
    match alg {
        CompressionAlgorithm::Simple9 => is_prefix(l, r),
        CompressionAlgorithm::Simple16 => is_prefix(l, r),
        CompressionAlgorithm::PforDelta => zero_free(l) ==> r == l,
        CompressionAlgorithm::RiceCoding => true,
        CompressionAlgorithm::VarByte => r == l,
    }
}

/// As `recovers`, for a list stored as d-gaps: PFor-Delta gives `l` back when
/// no gap is zero (`l` strictly increases from a first value above zero).
pub open spec fn recovers_with_gaps(alg: CompressionAlgorithm, l: Seq<u32>, r: Seq<u32>) -> bool {
    match alg {
        CompressionAlgorithm::PforDelta => zero_free(d_gaps(l)) ==> r == l,
        _ => recovers(alg, l, r),
    }
}

/// The running sums of the d-gaps of an ascending list give the list back.
pub proof fn lemma_d_gaps_round_trip(s: Seq<u32>)
    requires
        non_decreasing(s),
    ensures
        running_sums(d_gaps(s)) == s,
    decreases s.len(),
{
    if s.len() > 0 {
        let g = d_gaps(s);
        assert(g.drop_last() =~= d_gaps(s.drop_last()));
        lemma_d_gaps_round_trip(s.drop_last());
        assert(running_sums(g) =~= s);
    }
}

/// Running sums of a longer list start with the running sums of a prefix.
pub proof fn lemma_running_sums_prefix(g: Seq<u32>, k: int)
    requires
        0 <= k <= g.len(),
    ensures
        running_sums(g).len() == g.len(),
        running_sums(g).take(k) == running_sums(g.take(k)),
    decreases g.len(),
{
    if g.len() > 0 {
        lemma_running_sums_prefix(g.drop_last(), if k == g.len() { k - 1 } else { k });
        if k == g.len() {
            assert(g.take(k) =~= g);
            assert(running_sums(g).take(k) =~= running_sums(g));
        } else {
            assert(g.drop_last().take(k) =~= g.take(k));
            assert(running_sums(g).take(k) =~= running_sums(g.drop_last()).take(k));
        }
    }
}

/// Cutting at the first zero keeps exactly the zero-free prefix.
pub proof fn lemma_cut_at_zero_of_zero_free(s: Seq<u32>, n: int)
    requires
        0 <= n <= s.len(),
        zero_free(s.take(n)),
        n == s.len() || s[n] == 0,
    ensures
        cut_at_zero(s) == s.take(n),
    decreases s.len(),
{
    if n == 0 {
        assert(s.take(0) =~= Seq::<u32>::empty());
    } else {
        let t = s.drop_first();
        assert(t.take(n - 1) =~= s.take(n).drop_first());
        assert forall|i: int| 0 <= i < n - 1 implies #[trigger] t.take(n - 1)[i] != 0 by {
            assert(s.take(n)[i + 1] != 0);
        }
        lemma_cut_at_zero_of_zero_free(t, n - 1);
        assert(s.take(n)[0] != 0);
        assert(seq![s[0]] + t.take(n - 1) =~= s.take(n));
    }
}

impl Compressor {
    pub fn new(compression_algorithm: CompressionAlgorithm) -> (r: Self)
        ensures
            r.compression_algorithm == compression_algorithm,
    {
        Self { compression_algorithm }
    }

    /// The d-gaps of an ascending list.
    fn transform_list_for_d_gap_encoding(list: &Vec<u32>) -> (r: Vec<u32>)
        requires
            non_decreasing(list@),
        ensures
            r@ == d_gaps(list@),
    {
        let mut list_with_gaps: Vec<u32> = Vec::new();
        let mut i: usize = 0;
        while i < list.len()
            invariant
                i <= list@.len(),
                non_decreasing(list@),
                list_with_gaps@ =~= d_gaps(list@).take(i as int),
            decreases list@.len() - i,
        {
            if i == 0 {
                list_with_gaps.push(list[0]);
            } else {
                list_with_gaps.push(list[i] - list[i - 1]);
            }
            i = i + 1;
        }
        assert(d_gaps(list@).take(i as int) =~= d_gaps(list@));
        list_with_gaps
    }

    /// The running sums of a list of gaps.
    fn reconstruct_list_from_d_gap_encoding(list_with_gaps: Vec<u32>) -> (r: Vec<u32>)
        ensures
            r@ == running_sums(list_with_gaps@),
    {
        let mut list_without_gaps: Vec<u32> = Vec::new();
        let mut i: usize = 0;
        let ghost g = list_with_gaps@;
        while i < list_with_gaps.len()
            invariant
                i <= g.len(),
                g == list_with_gaps@,
                list_without_gaps@ == running_sums(g.take(i as int)),
                list_without_gaps@.len() == i,
            decreases g.len() - i,
        {
            let ghost before = list_without_gaps@;
            assert(g.take(i + 1).drop_last() =~= g.take(i as int));
            if i == 0 {
                list_without_gaps.push(list_with_gaps[0]);
            } else {
                let last = list_without_gaps[i - 1];
                list_without_gaps.push(last.wrapping_add(list_with_gaps[i]));
            }
            proof {
                lemma_running_sums_prefix(g.take(i + 1), i as int);
            }
            i = i + 1;
        }
        assert(g.take(i as int) =~= g);
        list_without_gaps
    }

    /// The Rice parameter of `list`, in integer arithmetic.
    fn rice_parameter_of(list: &Vec<u32>) -> (k: u8)
        ensures
            k == rice_parameter(list@),
            k <= 31,
    {
        let mut sum: u128 = 0;
        let mut i: usize = 0;
        while i < list.len()
            invariant
                i <= list@.len(),
                sum == list_sum(list@.take(i as int)),
                sum <= i * 0xffff_ffff,
            decreases list@.len() - i,
        {
            assert(list@.take(i + 1).drop_last() =~= list@.take(i as int));
            sum = sum + list[i] as u128;
            i = i + 1;
        }
        assert(list@.take(i as int) =~= list@);
        let target: u128 = 69 * sum;
        let mut lhs: u128 = 100 * (list.len() as u128);
        let mut k: u8 = 0;
        while k < 31 && lhs < target
            invariant
                k <= 31,
                target == 69 * list_sum(list@),
                target <= 69 * 0x1_0000_0000 * 0x1_0000_0000_0000_0000,
                rice_k_from(lhs as int, target as int, k as nat) == rice_k_from(
                    100 * (list@.len() as int),
                    69 * list_sum(list@),
                    0,
                ),
            decreases 31 - k,
        {
            lhs = lhs * 2;
            k = k + 1;
        }
        k
    }

    /// `list` zero-padded to a full PFor-Delta batch.
    fn pad_for_pfor(list: &Vec<u32>) -> (r: Vec<u32>)
        requires
            list@.len() <= PFOR_BATCH,
        ensures
            r@ == pad_to_batch(list@),
    {
        let mut padded: Vec<u32> = Vec::new();
        let mut i: usize = 0;
        while i < PFOR_BATCH
            invariant
                i <= PFOR_BATCH,
                list@.len() <= PFOR_BATCH,
                padded@ =~= pad_to_batch(list@).take(i as int),
            decreases PFOR_BATCH - i,
        {
            if i < list.len() {
                padded.push(list[i]);
            } else {
                padded.push(0);
            }
            i = i + 1;
        }
        assert(pad_to_batch(list@).take(i as int) =~= pad_to_batch(list@));
        padded
    }

    /// The values of `list` before its first zero.
    fn cut_list_at_zero(list: Vec<u32>) -> (r: Vec<u32>)
        ensures
            r@ == cut_at_zero(list@),
    {
        let mut index: usize = 0;
        while index < list.len() && list[index] != 0
            invariant
                index <= list@.len(),
                zero_free(list@.take(index as int)),
            decreases list@.len() - index,
        {
            assert(list@.take(index + 1) =~= list@.take(index as int).push(list@[index as int]));
            index = index + 1;
        }
        proof {
            lemma_cut_at_zero_of_zero_free(list@, index as int);
        }
        let mut r: Vec<u32> = Vec::new();
        let mut k: usize = 0;
        while k < index
            invariant
                k <= index <= list@.len(),
                r@ =~= list@.take(k as int),
            decreases index - k,
        {
            r.push(list[k]);
            k = k + 1;
        }
        r
    }

    pub fn compress_list(&self, list: &Vec<u32>) -> (r: Vec<u8>)
        requires
            can_compress(self.compression_algorithm, list@),
        ensures
            r@ == compressed(self.compression_algorithm, list@),
            self.compression_algorithm == CompressionAlgorithm::Simple9 || self.compression_algorithm
                == CompressionAlgorithm::Simple16 ==> r@.len() <= 4 * list@.len(),
    {
        match self.compression_algorithm {
            CompressionAlgorithm::Simple9 => simple9_compress(list),
            CompressionAlgorithm::Simple16 => simple16_compress(list),
            CompressionAlgorithm::PforDelta => {
                let padded = Self::pad_for_pfor(list);
                pfor_compress(&padded)
            },
            CompressionAlgorithm::RiceCoding => {
                let k = Self::rice_parameter_of(list);
                rice_compress(list, k)
            },
            CompressionAlgorithm::VarByte => var_byte_compress(list),
        }
    }

    pub fn decompress_list(&self, list: &Vec<u8>) -> (r: Vec<u32>)
        requires
            decodable(self.compression_algorithm, list@),
        ensures
            r@ == decompressed(self.compression_algorithm, list@),
            forall|l: Seq<u32>|
                can_compress(self.compression_algorithm, l) && #[trigger] compressed(
                    self.compression_algorithm,
                    l,
                ) == list@ ==> recovers(self.compression_algorithm, l, r@),
    {
        let alg = self.compression_algorithm;
        let ghost produced = exists|l: Seq<u32>| can_compress(alg, l) && #[trigger] compressed(alg, l) == list@;
        let ghost w = choose|l: Seq<u32>| can_compress(alg, l) && #[trigger] compressed(alg, l) == list@;
        match alg {
            CompressionAlgorithm::Simple9 => {
                proof {
                    if produced {
                        assert(fits_28_bits(w) && simple9_compressed(w) == list@);
                    }
                }
                simple9_decompress(list.as_slice())
            },
            CompressionAlgorithm::Simple16 => {
                proof {
                    if produced {
                        assert(fits_28_bits(w) && simple16_compressed(w) == list@);
                    }
                }
                simple16_decompress(list.as_slice())
            },
            CompressionAlgorithm::PforDelta => {
                assert(pad_to_batch(w).len() == PFOR_BATCH && pfor_compressed(pad_to_batch(w))
                    == list@);
                let batch = pfor_decompress(list.as_slice());
                let r = Self::cut_list_at_zero(batch);
                proof {
                    assert forall|l: Seq<u32>|
                        can_compress(alg, l) && #[trigger] compressed(alg, l) == list@ && zero_free(
                            l,
                        ) implies r@ == l by {
                        let p = pad_to_batch(l);
                        assert(p.len() == PFOR_BATCH);
                        assert(batch@ == p);
                        assert(p.take(l.len() as int) =~= l);
                        lemma_cut_at_zero_of_zero_free(p, l.len() as int);
                    }
                }
                r
            },
            CompressionAlgorithm::RiceCoding => Vec::new(),
            CompressionAlgorithm::VarByte => {
                proof {
                    if produced {
                        assert(vb_numbers(w) == list@);
                    }
                }
                var_byte_decompress(list.as_slice())
            },
        }
    }

    /// Whether `alg`'s decoder can read `list` without failing, judged on
    /// the bytes alone (never for PFor-Delta).
    pub fn can_decode(&self, list: &Vec<u8>) -> (r: bool)
        ensures
            r == bytes_safe(self.compression_algorithm, list@),
    {
        let n = list.len();
        let alg = self.compression_algorithm;
        match alg {
            CompressionAlgorithm::VarByte => {
                if n < 6 {
                    return true;
                }
                let mut i: usize = 0;
                while i < n - 5
                    invariant
                        n == list@.len(),
                        alg == self.compression_algorithm,
                        alg == CompressionAlgorithm::VarByte,
                        n >= 6,
                        i <= n - 5,
                        forall|j: int| 0 <= j < i ==> !#[trigger] continuation_run(list@, j),
                    decreases n - i,
                {
                    if list[i] >= 128 && list[i + 1] >= 128 && list[i + 2] >= 128 && list[i + 3] >= 128
                        && list[i + 4] >= 128 {
                        assert(continuation_run(list@, i as int));
                        assert(0 <= i && i + 5 < list@.len());
                        assert(!vb_safe(list@));
                        assert(!bytes_safe(CompressionAlgorithm::VarByte, list@));
                        return false;
                    }
                    assert(!continuation_run(list@, i as int));
                    i = i + 1;
                }
                true
            },
            CompressionAlgorithm::Simple9 => {
                if n % 4 != 0 {
                    return false;
                }
                let mut w: usize = 0;
                while w < n / 4
                    invariant
                        n == list@.len(),
                        alg == self.compression_algorithm,
                        alg == CompressionAlgorithm::Simple9,
                        n % 4 == 0,
                        forall|v: int| 0 <= v < w ==> #[trigger] list@[4 * v] % 16 <= 8,
                    decreases n / 4 - w,
                {
                    if list[4 * w] % 16 > 8 {
                        let ghost wi = w as int;
                        assert(0 <= wi < list@.len() / 4);
                        assert(list@[4 * wi] % 16 > 8);
                        assert(!simple9_safe(list@));
                        assert(!bytes_safe(CompressionAlgorithm::Simple9, list@));
                        return false;
                    }
                    w = w + 1;
                }
                true
            },
            CompressionAlgorithm::Simple16 => n % 4 == 0,
            CompressionAlgorithm::PforDelta => false,
            CompressionAlgorithm::RiceCoding => true,
        }
    }

    /// Decompresses `list`, or reports it undecodable: `None` exactly where
    /// its bytes fail `can_decode`.
    pub fn try_decompress_list(&self, list: &Vec<u8>) -> (r: Option<Vec<u32>>)
        ensures
            r is Some <==> bytes_safe(self.compression_algorithm, list@),
            r is Some ==> r->Some_0@ == decompressed(self.compression_algorithm, list@),
    {
        if self.can_decode(list) {
            Some(self.decompress_list(list))
        } else {
            None
        }
    }

    /// As `try_decompress_list`, then the running sums of the gaps.
    pub fn try_decompress_list_with_dgaps(&self, list: &Vec<u8>) -> (r: Option<Vec<u32>>)
        ensures
            r is Some <==> bytes_safe(self.compression_algorithm, list@),
            r is Some ==> r->Some_0@ == running_sums(decompressed(self.compression_algorithm, list@)),
    {
        if self.can_decode(list) {
            Some(self.decompress_list_with_dgaps(list))
        } else {
            None
        }
    }

    pub fn compress_list_with_d_gaps(&self, list: &Vec<u32>) -> (r: Vec<u8>)
        requires
            non_decreasing(list@),
            can_compress(self.compression_algorithm, d_gaps(list@)),
        ensures
            r@ == compressed(self.compression_algorithm, d_gaps(list@)),
            self.compression_algorithm == CompressionAlgorithm::Simple9 || self.compression_algorithm
                == CompressionAlgorithm::Simple16 ==> r@.len() <= 4 * list@.len(),
    {
        let gaps = Self::transform_list_for_d_gap_encoding(list);
        self.compress_list(&gaps)
    }

    pub fn decompress_list_with_dgaps(&self, list: &Vec<u8>) -> (r: Vec<u32>)
        requires
            decodable(self.compression_algorithm, list@),
        ensures
            r@ == running_sums(decompressed(self.compression_algorithm, list@)),
            forall|l: Seq<u32>|
                non_decreasing(l) && can_compress(self.compression_algorithm, d_gaps(l)) && #[trigger] compressed(
                    self.compression_algorithm,
                    d_gaps(l),
                ) == list@ ==> recovers_with_gaps(self.compression_algorithm, l, r@),
    {
        let gaps = self.decompress_list(list);
        let r = Self::reconstruct_list_from_d_gap_encoding(gaps);
        proof {
            let alg = self.compression_algorithm;
            assert forall|l: Seq<u32>|
                non_decreasing(l) && can_compress(alg, d_gaps(l)) && #[trigger] compressed(
                    alg,
                    d_gaps(l),
                ) == list@ implies recovers_with_gaps(alg, l, r@) by {
                let g = d_gaps(l);
                assert(recovers(alg, g, gaps@));
                lemma_d_gaps_round_trip(l);
                match alg {
                    CompressionAlgorithm::Simple9 | CompressionAlgorithm::Simple16 => {
                        lemma_running_sums_prefix(gaps@, g.len() as int);
                    },
                    _ => {},
                }
            }
        }
        r
    }
}

} // verus!
