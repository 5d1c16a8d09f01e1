//! Little-endian fixed-width integers inside byte sequences.
use vstd::prelude::*;

verus! {

/// The four little-endian bytes of `x`.
pub open spec fn le32(x: u32) -> Seq<u8> {
    seq![
        (x & 0xff) as u8,
        ((x >> 8u32) & 0xff) as u8,
        ((x >> 16u32) & 0xff) as u8,
        ((x >> 24u32) & 0xff) as u8,
    ]
}

/// The two little-endian bytes of `x`.
pub open spec fn le16(x: u16) -> Seq<u8> {
    seq![(x & 0xff) as u8, ((x >> 8u16) & 0xff) as u8]
}

/// The `u32` whose little-endian bytes are `b0 b1 b2 b3`.
pub open spec fn u32_of(b0: u8, b1: u8, b2: u8, b3: u8) -> u32 {
    (b0 as u32) | ((b1 as u32) << 8u32) | ((b2 as u32) << 16u32) | ((b3 as u32) << 24u32)
}

/// The `u16` whose little-endian bytes are `b0 b1`.
pub open spec fn u16_of(b0: u8, b1: u8) -> u16 {
    (b0 as u16) | ((b1 as u16) << 8u16)
}

/// The `u32` stored little-endian at `off` in `b`.
pub open spec fn u32_at(b: Seq<u8>, off: int) -> u32 {
    u32_of(b[off], b[off + 1], b[off + 2], b[off + 3])
}

/// The `u16` stored little-endian at `off` in `b`.
pub open spec fn u16_at(b: Seq<u8>, off: int) -> u16 {
    u16_of(b[off], b[off + 1])
}

/// The concatenated little-endian bytes of every value of `s`, in order.
pub open spec fn le32_seq(s: Seq<u32>) -> Seq<u8>
    decreases s.len(),
{
    if s.len() == 0 {
        Seq::empty()
    } else {
        le32_seq(s.drop_last()) + le32(s.last())
    }
}

/// The concatenated little-endian bytes of every value of `s`, in order.
pub open spec fn le16_seq(s: Seq<u16>) -> Seq<u8>
    decreases s.len(),
{
    if s.len() == 0 {
        Seq::empty()
    } else {
        le16_seq(s.drop_last()) + le16(s.last())
    }
}

/// Reading the four bytes of a `u32` back gives the value.
pub proof fn lemma_le32_round_trip(x: u32)
    ensures
        u32_of(le32(x)[0], le32(x)[1], le32(x)[2], le32(x)[3]) == x,
{
    let b0 = (x & 0xff) as u8;
    let b1 = ((x >> 8u32) & 0xff) as u8;
    let b2 = ((x >> 16u32) & 0xff) as u8;
    let b3 = ((x >> 24u32) & 0xff) as u8;
    assert(((b0 as u32) | ((b1 as u32) << 8u32) | ((b2 as u32) << 16u32) | ((b3 as u32) << 24u32))
        == x) by (bit_vector)
        requires
            b0 == (x & 0xff) as u8,
            b1 == ((x >> 8u32) & 0xff) as u8,
            b2 == ((x >> 16u32) & 0xff) as u8,
            b3 == ((x >> 24u32) & 0xff) as u8,
    ;
}

/// Reading the two bytes of a `u16` back gives the value.
pub proof fn lemma_le16_round_trip(x: u16)
    ensures
        u16_of(le16(x)[0], le16(x)[1]) == x,
{
    let b0 = (x & 0xff) as u8;
    let b1 = ((x >> 8u16) & 0xff) as u8;
    assert(((b0 as u16) | ((b1 as u16) << 8u16)) == x) by (bit_vector)
        requires
            b0 == (x & 0xff) as u8,
            b1 == ((x >> 8u16) & 0xff) as u8,
    ;
}

/// Reading back a value written at `off`.
pub proof fn lemma_u32_at_le32(pre: Seq<u8>, x: u32, post: Seq<u8>)
    ensures
        u32_at(pre + le32(x) + post, pre.len() as int) == x,
{
    lemma_le32_round_trip(x);
    let b = pre + le32(x) + post;
    let o = pre.len() as int;
    assert(b[o] == le32(x)[0]);
    assert(b[o + 1] == le32(x)[1]);
    assert(b[o + 2] == le32(x)[2]);
    assert(b[o + 3] == le32(x)[3]);
}

/// Reading back a value written at `off`.
pub proof fn lemma_u16_at_le16(pre: Seq<u8>, x: u16, post: Seq<u8>)
    ensures
        u16_at(pre + le16(x) + post, pre.len() as int) == x,
{
    lemma_le16_round_trip(x);
    let b = pre + le16(x) + post;
    let o = pre.len() as int;
    assert(b[o] == le16(x)[0]);
    assert(b[o + 1] == le16(x)[1]);
}

/// Each value takes four bytes.
pub proof fn lemma_le32_seq_len(s: Seq<u32>)
    ensures
        le32_seq(s).len() == 4 * s.len(),
    decreases s.len(),
{
    if s.len() > 0 {
        lemma_le32_seq_len(s.drop_last());
    }
}

/// Each value takes two bytes.
pub proof fn lemma_le16_seq_len(s: Seq<u16>)
    ensures
        le16_seq(s).len() == 2 * s.len(),
    decreases s.len(),
{
    if s.len() > 0 {
        lemma_le16_seq_len(s.drop_last());
    }
}

/// The `i`-th value of `s` stands at byte `4 * i` of its encoding.
pub proof fn lemma_le32_seq_index(s: Seq<u32>, i: int)
    requires
        0 <= i < s.len(),
    ensures
        le32_seq(s).len() == 4 * s.len(),
        le32_seq(s).subrange(4 * i, 4 * i + 4) == le32(s[i]),
    decreases s.len(),
{
    lemma_le32_seq_len(s);
    lemma_le32_seq_len(s.drop_last());
    if i < s.len() - 1 {
        lemma_le32_seq_index(s.drop_last(), i);
        assert(le32_seq(s).subrange(4 * i, 4 * i + 4) =~= le32_seq(s.drop_last()).subrange(
            4 * i,
            4 * i + 4,
        ));
    } else {
        assert(le32_seq(s).subrange(4 * i, 4 * i + 4) =~= le32(s[i]));
    }
}

/// The `i`-th value of `s` stands at byte `2 * i` of its encoding.
pub proof fn lemma_le16_seq_index(s: Seq<u16>, i: int)
    requires
        0 <= i < s.len(),
    ensures
        le16_seq(s).len() == 2 * s.len(),
        le16_seq(s).subrange(2 * i, 2 * i + 2) == le16(s[i]),
    decreases s.len(),
{
    lemma_le16_seq_len(s);
    lemma_le16_seq_len(s.drop_last());
    if i < s.len() - 1 {
        lemma_le16_seq_index(s.drop_last(), i);
        assert(le16_seq(s).subrange(2 * i, 2 * i + 2) =~= le16_seq(s.drop_last()).subrange(
            2 * i,
            2 * i + 2,
        ));
    } else {
        assert(le16_seq(s).subrange(2 * i, 2 * i + 2) =~= le16(s[i]));
    }
}

/// Appends the little-endian bytes of `x`.
pub fn push_u32_le(out: &mut Vec<u8>, x: u32)
    ensures
        final(out)@ == old(out)@ + le32(x),
{
    out.push((x & 0xff) as u8);
    out.push(((x >> 8u32) & 0xff) as u8);
    out.push(((x >> 16u32) & 0xff) as u8);
    out.push(((x >> 24u32) & 0xff) as u8);
    assert(final(out)@ =~= old(out)@ + le32(x));
}

/// Appends the little-endian bytes of `x`.
pub fn push_u16_le(out: &mut Vec<u8>, x: u16)
    ensures
        final(out)@ == old(out)@ + le16(x),
{
    out.push((x & 0xff) as u8);
    out.push(((x >> 8u16) & 0xff) as u8);
    assert(final(out)@ =~= old(out)@ + le16(x));
}

/// Reads the `u32` stored little-endian at `off`.
pub fn read_u32_le(b: &[u8], off: usize) -> (r: u32)
    requires
        off + 4 <= b@.len(),
    ensures
        r == u32_at(b@, off as int),
{
    (b[off] as u32) | ((b[off + 1] as u32) << 8u32) | ((b[off + 2] as u32) << 16u32) | ((
    b[off + 3] as u32) << 24u32)
}

/// Reads the `u16` stored little-endian at `off`.
pub fn read_u16_le(b: &[u8], off: usize) -> (r: u16)
    requires
        off + 2 <= b@.len(),
    ensures
        r == u16_at(b@, off as int),
{
    (b[off] as u16) | ((b[off + 1] as u16) << 8u16)
}

} // verus!
