//! The bit buffer: an append-only sequence of bits with byte packing.
//!
//! The container itself is `bit_vec::BitVec`; this module gives it a
//! mathematical face.  A `BitVec` is modelled as a `Seq<bool>`, bit index
//! `i` of the sequence lives in byte `i / 8` at position `7 - (i % 8)`
//! (most significant bit first).  On top of the trusted operations stand
//! verified routines that write and read whole bytes and little-endian
//! words at a bit position.

use vstd::prelude::*;

verus! {

/// The container for a growing sequence of bits, from `bit_vec`.
#[verifier::external_type_specification]
#[verifier::external_body]
#[verifier::reject_recursive_types(B)]
pub struct ExBitVec<B>(bit_vec::BitVec<B>);

/// The sequence of bits a `bit_vec::BitVec` holds, in index order.
pub uninterp spec fn stream(bv: bit_vec::BitVec) -> Seq<bool>;

/// Bit `i` of byte `b`, counting the most significant bit as bit 0.
pub open spec fn bit_of_byte(b: u8, i: int) -> bool {
    ((b >> ((7 - i) as u32)) & 1) == 1
}

/// The eight bits of one byte, most significant first.
pub open spec fn byte_bits(b: u8) -> Seq<bool> {
    Seq::new(8, |i: int| bit_of_byte(b, i))
}

/// The bits of a byte sequence: each byte contributes eight bits, most
/// significant first.
pub open spec fn bytes_bits(bs: Seq<u8>) -> Seq<bool> {
    Seq::new(bs.len() * 8, |i: int| bit_of_byte(bs[i / 8], i % 8))
}

/// The byte whose bits (most significant first) are the eight booleans of
/// `s`.  Meaningful when `s.len() == 8`.
pub open spec fn bits_to_byte(s: Seq<bool>) -> u8 {
    (bit_val(s[0]) * 128 + bit_val(s[1]) * 64 + bit_val(s[2]) * 32 + bit_val(s[3]) * 16
        + bit_val(s[4]) * 8 + bit_val(s[5]) * 4 + bit_val(s[6]) * 2 + bit_val(s[7])) as u8
}

pub open spec fn bit_val(b: bool) -> u8 {
    if b {
        1
    } else {
        0
    }
}

/// The four bytes of a 32-bit word, least significant byte first.
pub open spec fn u32_le_bytes(v: u32) -> Seq<u8> {
    seq![v as u8, (v >> 8u32) as u8, (v >> 16u32) as u8, (v >> 24u32) as u8]
}

/// A 32-bit word as bits: little-endian bytes, each byte most significant
/// bit first.
pub open spec fn u32_le_bits(v: u32) -> Seq<bool> {
    bytes_bits(u32_le_bytes(v))
}

/// The eight bytes of a 64-bit word, least significant byte first.
pub open spec fn u64_le_bytes(v: u64) -> Seq<u8> {
    seq![
        v as u8,
        (v >> 8u64) as u8,
        (v >> 16u64) as u8,
        (v >> 24u64) as u8,
        (v >> 32u64) as u8,
        (v >> 40u64) as u8,
        (v >> 48u64) as u8,
        (v >> 56u64) as u8,
    ]
}

/// A 64-bit word as bits, in the same order as `u32_le_bits`.
pub open spec fn u64_le_bits(v: u64) -> Seq<bool> {
    bytes_bits(u64_le_bytes(v))
}

/// The 32-bit word whose bit image is `s`.  Meaningful when `s.len() == 32`.
pub open spec fn le_u32_of(s: Seq<bool>) -> u32 {
    (bits_to_byte(s.subrange(0, 8)) as u32) | ((bits_to_byte(s.subrange(8, 16)) as u32) << 8u32)
        | ((bits_to_byte(s.subrange(16, 24)) as u32) << 16u32) | ((bits_to_byte(
        s.subrange(24, 32),
    ) as u32) << 24u32)
}

/// The 64-bit word whose bit image is `s`.  Meaningful when `s.len() == 64`.
pub open spec fn le_u64_of(s: Seq<bool>) -> u64 {
    (bits_to_byte(s.subrange(0, 8)) as u64) | ((bits_to_byte(s.subrange(8, 16)) as u64) << 8u64)
        | ((bits_to_byte(s.subrange(16, 24)) as u64) << 16u64) | ((bits_to_byte(
        s.subrange(24, 32),
    ) as u64) << 24u64) | ((bits_to_byte(s.subrange(32, 40)) as u64) << 32u64) | ((bits_to_byte(
        s.subrange(40, 48),
    ) as u64) << 40u64) | ((bits_to_byte(s.subrange(48, 56)) as u64) << 48u64) | ((bits_to_byte(
        s.subrange(56, 64),
    ) as u64) << 56u64)
}

/// How many zero bits pad a stream of length `n` to a byte boundary.
pub open spec fn pad_len(n: int) -> int {
    (8 - n % 8) % 8
}

/// `n` cleared bits.
pub open spec fn zero_bits(n: int) -> Seq<bool> {
    Seq::new(n as nat, |i: int| false)
}

// ---------------------------------------------------------------------
// Trusted operations on the container.
// ---------------------------------------------------------------------

/// Relies on `bit_vec::BitVec::new`: an empty container.
#[verifier::external_body]
pub fn bv_new() -> (r: bit_vec::BitVec)
    ensures
        stream(r) =~= Seq::<bool>::empty(),
{
    bit_vec::BitVec::new()
}

/// Relies on `bit_vec::BitVec::len`: the number of bits held.
#[verifier::external_body]
pub fn bv_len(bv: &bit_vec::BitVec) -> (r: usize)
    ensures
        r == stream(*bv).len(),
{
    bv.len()
}

/// Relies on `bit_vec::BitVec::push`: appends one bit.
#[verifier::external_body]
pub fn bv_push(bv: &mut bit_vec::BitVec, b: bool)
    requires
        stream(*old(bv)).len() < usize::MAX,
    ensures
        stream(*final(bv)) =~= stream(*old(bv)).push(b),
{
    bv.push(b)
}

/// Relies on `bit_vec::BitVec::get`: the bit at an in-range index.
#[verifier::external_body]
pub fn bv_get(bv: &bit_vec::BitVec, i: usize) -> (r: bool)
    requires
        i < stream(*bv).len(),
    ensures
        r == stream(*bv)[i as int],
{
    bv.get(i).unwrap()
}

/// Relies on `bit_vec::BitVec::to_bytes`: packs the bits into bytes, most
/// significant bit first within each byte, clearing the tail of the last
/// byte.
#[verifier::external_body]
pub fn bv_to_bytes(bv: &bit_vec::BitVec) -> (r: Vec<u8>)
    ensures
        bytes_bits(r@) =~= stream(*bv) + zero_bits(pad_len(stream(*bv).len() as int)),
{
    bv.to_bytes()
}

/// Relies on `bit_vec::BitVec::from_bytes`: each byte becomes eight bits,
/// most significant first.
#[verifier::external_body]
pub fn bv_from_bytes(bytes: &[u8]) -> (r: bit_vec::BitVec)
    requires
        bytes@.len() * 8 <= usize::MAX,
    ensures
        stream(r) =~= bytes_bits(bytes@),
{
    bit_vec::BitVec::from_bytes(bytes)
}

// ---------------------------------------------------------------------
// Verified operations built on the trusted ones.
// ---------------------------------------------------------------------

/// A fresh container holding the same bits.
pub fn bv_copy(src: &bit_vec::BitVec) -> (r: bit_vec::BitVec)
    ensures
        stream(r) == stream(*src),
{
    let n: usize = bv_len(src);
    let mut out: bit_vec::BitVec = bv_new();
    let mut i: usize = 0;
    while i < n
        invariant
            i <= n,
            n == stream(*src).len(),
            stream(out) =~= stream(*src).subrange(0, i as int),
        decreases n - i,
    {
        bv_push(&mut out, bv_get(src, i));
        i += 1;
    }
    assert(stream(out) =~= stream(*src));
    out
}

/// Appends every bit of `src` to `dst`.
pub fn bv_append(dst: &mut bit_vec::BitVec, src: &bit_vec::BitVec)
    requires
        stream(*old(dst)).len() + stream(*src).len() <= usize::MAX,
    ensures
        stream(*final(dst)) == stream(*old(dst)) + stream(*src),
{
    let n: usize = bv_len(src);
    let mut i: usize = 0;
    while i < n
        invariant
            i <= n,
            n == stream(*src).len(),
            stream(*old(dst)).len() + n <= usize::MAX,
            stream(*dst) =~= stream(*old(dst)) + stream(*src).subrange(0, i as int),
        decreases n - i,
    {
        bv_push(dst, bv_get(src, i));
        i += 1;
    }
    assert(stream(*dst) =~= stream(*old(dst)) + stream(*src));
}

/// A fresh container holding `count` bits of `src` starting at `pos`.
pub fn extract(src: &bit_vec::BitVec, pos: usize, count: usize) -> (r: bit_vec::BitVec)
    requires
        pos + count <= stream(*src).len(),
        stream(*src).len() <= usize::MAX,
    ensures
        stream(r) == stream(*src).subrange(pos as int, pos + count),
{
    let mut out: bit_vec::BitVec = bv_new();
    let mut i: usize = 0;
    while i < count
        invariant
            i <= count,
            pos + count <= stream(*src).len(),
            stream(*src).len() <= usize::MAX,
            stream(out) =~= stream(*src).subrange(pos as int, pos + i),
        decreases count - i,
    {
        bv_push(&mut out, bv_get(src, pos + i));
        i += 1;
    }
    assert(stream(out) =~= stream(*src).subrange(pos as int, pos + count));
    out
}

/// A container whose bits are the booleans of `v`, in order.
pub fn bv_from_bools(v: &Vec<bool>) -> (r: bit_vec::BitVec)
    ensures
        stream(r) == v@,
{
    let mut out: bit_vec::BitVec = bv_new();
    let mut i: usize = 0;
    let n: usize = v.len();
    while i < n
        invariant
            i <= n,
            n == v@.len(),
            stream(out) =~= v@.subrange(0, i as int),
        decreases n - i,
    {
        bv_push(&mut out, v[i]);
        i += 1;
    }
    assert(stream(out) =~= v@);
    out
}

/// The bits of `src` as a vector of booleans.
pub fn bv_to_bools(src: &bit_vec::BitVec) -> (r: Vec<bool>)
    ensures
        r@ == stream(*src),
{
    let n: usize = bv_len(src);
    let mut out: Vec<bool> = Vec::new();
    let mut i: usize = 0;
    while i < n
        invariant
            i <= n,
            n == stream(*src).len(),
            out@ =~= stream(*src).subrange(0, i as int),
        decreases n - i,
    {
        out.push(bv_get(src, i));
        i += 1;
    }
    assert(out@ =~= stream(*src));
    out
}

/// Appends the eight bits of `b`, most significant first.
pub fn push_byte(bv: &mut bit_vec::BitVec, b: u8)
    requires
        stream(*old(bv)).len() + 8 <= usize::MAX,
    ensures
        stream(*final(bv)) == stream(*old(bv)) + byte_bits(b),
{
    let mut k: u32 = 0;
    while k < 8
        invariant
            k <= 8,
            stream(*old(bv)).len() + 8 <= usize::MAX,
            stream(*bv) =~= stream(*old(bv)) + byte_bits(b).subrange(0, k as int),
        decreases 8 - k,
    {
        let bit: bool = ((b >> (7 - k)) & 1) == 1;
        assert(bit == bit_of_byte(b, k as int));
        bv_push(bv, bit);
        k += 1;
    }
    assert(stream(*bv) =~= stream(*old(bv)) + byte_bits(b));
}

/// How the bits of an assembled byte relate to its eight weighted parts.
proof fn lemma_byte_from_parts(
    v: u8,
    d0: u8,
    d1: u8,
    d2: u8,
    d3: u8,
    d4: u8,
    d5: u8,
    d6: u8,
    d7: u8,
    sh: u32,
)
    by (bit_vector)
    requires
        sh < 8,
        d0 < 2,
        d1 < 2,
        d2 < 2,
        d3 < 2,
        d4 < 2,
        d5 < 2,
        d6 < 2,
        d7 < 2,
        v == d0 * 128 + d1 * 64 + d2 * 32 + d3 * 16 + d4 * 8 + d5 * 4 + d6 * 2 + d7,
    ensures
        ((v >> sh) & 1) == (if sh == 7 {
            d0
        } else if sh == 6 {
            d1
        } else if sh == 5 {
            d2
        } else if sh == 4 {
            d3
        } else if sh == 3 {
            d4
        } else if sh == 2 {
            d5
        } else if sh == 1 {
            d6
        } else {
            d7
        }),
{
}

/// Reads the eight bits at `pos` as one byte, most significant first.
pub fn read_byte(bv: &bit_vec::BitVec, pos: usize) -> (r: u8)
    requires
        pos + 8 <= stream(*bv).len(),
        stream(*bv).len() <= usize::MAX,
    ensures
        byte_bits(r) == stream(*bv).subrange(pos as int, pos + 8),
{
    let d0: u8 = if bv_get(bv, pos) { 1 } else { 0 };
    let d1: u8 = if bv_get(bv, pos + 1) { 1 } else { 0 };
    let d2: u8 = if bv_get(bv, pos + 2) { 1 } else { 0 };
    let d3: u8 = if bv_get(bv, pos + 3) { 1 } else { 0 };
    let d4: u8 = if bv_get(bv, pos + 4) { 1 } else { 0 };
    let d5: u8 = if bv_get(bv, pos + 5) { 1 } else { 0 };
    let d6: u8 = if bv_get(bv, pos + 6) { 1 } else { 0 };
    let d7: u8 = if bv_get(bv, pos + 7) { 1 } else { 0 };
    let v: u8 = d0 * 128 + d1 * 64 + d2 * 32 + d3 * 16 + d4 * 8 + d5 * 4 + d6 * 2 + d7;
    proof {
        assert forall|i: int| 0 <= i < 8 implies byte_bits(v)[i] == stream(*bv)[pos + i] by {
            lemma_byte_from_parts(v, d0, d1, d2, d3, d4, d5, d6, d7, (7 - i) as u32);
        }
        assert(byte_bits(v) =~= stream(*bv).subrange(pos as int, pos + 8));
    }
    v
}

/// The byte read back is the byte whose bits were written.
pub proof fn lemma_bits_to_byte_of_byte_bits(b: u8)
    ensures
        bits_to_byte(byte_bits(b)) == b,
{
    assert(b == ((b >> 7u32) & 1) * 128 + ((b >> 6u32) & 1) * 64 + ((b >> 5u32) & 1) * 32 + ((b
        >> 4u32) & 1) * 16 + ((b >> 3u32) & 1) * 8 + ((b >> 2u32) & 1) * 4 + ((b >> 1u32) & 1) * 2
        + ((b >> 0u32) & 1)) by (bit_vector);
    assert(((b >> 7u32) & 1) <= 1 && ((b >> 6u32) & 1) <= 1 && ((b >> 5u32) & 1) <= 1 && ((b
        >> 4u32) & 1) <= 1 && ((b >> 3u32) & 1) <= 1 && ((b >> 2u32) & 1) <= 1 && ((b >> 1u32) & 1)
        <= 1 && ((b >> 0u32) & 1) <= 1) by (bit_vector);
    assert(byte_bits(b)[0] == (((b >> 7u32) & 1) == 1));
    assert(byte_bits(b)[1] == (((b >> 6u32) & 1) == 1));
    assert(byte_bits(b)[2] == (((b >> 5u32) & 1) == 1));
    assert(byte_bits(b)[3] == (((b >> 4u32) & 1) == 1));
    assert(byte_bits(b)[4] == (((b >> 3u32) & 1) == 1));
    assert(byte_bits(b)[5] == (((b >> 2u32) & 1) == 1));
    assert(byte_bits(b)[6] == (((b >> 1u32) & 1) == 1));
    assert(byte_bits(b)[7] == (((b >> 0u32) & 1) == 1));
}

/// Every eight booleans are the bits of exactly one byte.
pub proof fn lemma_byte_bits_of_bits_to_byte(s: Seq<bool>)
    requires
        s.len() == 8,
    ensures
        byte_bits(bits_to_byte(s)) =~= s,
{
    let v = bits_to_byte(s);
    let d0 = bit_val(s[0]);
    let d1 = bit_val(s[1]);
    let d2 = bit_val(s[2]);
    let d3 = bit_val(s[3]);
    let d4 = bit_val(s[4]);
    let d5 = bit_val(s[5]);
    let d6 = bit_val(s[6]);
    let d7 = bit_val(s[7]);
    assert forall|i: int| 0 <= i < 8 implies byte_bits(v)[i] == s[i] by {
        lemma_byte_from_parts(v, d0, d1, d2, d3, d4, d5, d6, d7, (7 - i) as u32);
    }
}

/// Appending one byte to a byte sequence appends its eight bits.
pub proof fn lemma_bytes_bits_push(bs: Seq<u8>, b: u8)
    ensures
        bytes_bits(bs.push(b)) =~= bytes_bits(bs) + byte_bits(b),
{
    let n = bs.len() as int;
    assert forall|i: int| 0 <= i < (n + 1) * 8 implies bytes_bits(bs.push(b))[i] == (bytes_bits(bs)
        + byte_bits(b))[i] by {
        if i < n * 8 {
            assert(i / 8 < n) by (nonlinear_arith)
                requires
                    0 <= i,
                    i < n * 8,
            ;
            assert(bs.push(b)[i / 8] == bs[i / 8]);
        } else {
            assert(i / 8 == n && i % 8 == i - n * 8) by (nonlinear_arith)
                requires
                    n * 8 <= i,
                    i < (n + 1) * 8,
                    0 <= n,
            ;
            assert(bs.push(b)[i / 8] == b);
        }
    }
}

/// A 32-bit word's bit image is its four bytes' bits in order.
pub proof fn lemma_u32_le_bits_decomp(v: u32)
    ensures
        u32_le_bits(v) =~= byte_bits(v as u8) + byte_bits((v >> 8u32) as u8) + byte_bits(
            (v >> 16u32) as u8,
        ) + byte_bits((v >> 24u32) as u8),
{
    let s0 = Seq::<u8>::empty();
    let s1 = s0.push(v as u8);
    let s2 = s1.push((v >> 8u32) as u8);
    let s3 = s2.push((v >> 16u32) as u8);
    let s4 = s3.push((v >> 24u32) as u8);
    lemma_bytes_bits_push(s0, v as u8);
    lemma_bytes_bits_push(s1, (v >> 8u32) as u8);
    lemma_bytes_bits_push(s2, (v >> 16u32) as u8);
    lemma_bytes_bits_push(s3, (v >> 24u32) as u8);
    assert(s4 =~= u32_le_bytes(v));
    assert(bytes_bits(s0) =~= Seq::<bool>::empty());
}

/// A 64-bit word's bit image is its eight bytes' bits in order.
pub proof fn lemma_u64_le_bits_decomp(v: u64)
    ensures
        u64_le_bits(v) =~= byte_bits(v as u8) + byte_bits((v >> 8u64) as u8) + byte_bits(
            (v >> 16u64) as u8,
        ) + byte_bits((v >> 24u64) as u8) + byte_bits((v >> 32u64) as u8) + byte_bits(
            (v >> 40u64) as u8,
        ) + byte_bits((v >> 48u64) as u8) + byte_bits((v >> 56u64) as u8),
{
    let s0 = Seq::<u8>::empty();
    let s1 = s0.push(v as u8);
    let s2 = s1.push((v >> 8u64) as u8);
    let s3 = s2.push((v >> 16u64) as u8);
    let s4 = s3.push((v >> 24u64) as u8);
    let s5 = s4.push((v >> 32u64) as u8);
    let s6 = s5.push((v >> 40u64) as u8);
    let s7 = s6.push((v >> 48u64) as u8);
    let s8 = s7.push((v >> 56u64) as u8);
    lemma_bytes_bits_push(s0, v as u8);
    lemma_bytes_bits_push(s1, (v >> 8u64) as u8);
    lemma_bytes_bits_push(s2, (v >> 16u64) as u8);
    lemma_bytes_bits_push(s3, (v >> 24u64) as u8);
    lemma_bytes_bits_push(s4, (v >> 32u64) as u8);
    lemma_bytes_bits_push(s5, (v >> 40u64) as u8);
    lemma_bytes_bits_push(s6, (v >> 48u64) as u8);
    lemma_bytes_bits_push(s7, (v >> 56u64) as u8);
    assert(s8 =~= u64_le_bytes(v));
    assert(bytes_bits(s0) =~= Seq::<bool>::empty());
}

/// Appends the 32 bits of `v`: little-endian bytes, each most significant
/// bit first.
pub fn push_u32_le(bv: &mut bit_vec::BitVec, v: u32)
    requires
        stream(*old(bv)).len() + 32 <= usize::MAX,
    ensures
        stream(*final(bv)) == stream(*old(bv)) + u32_le_bits(v),
{
    push_byte(bv, v as u8);
    push_byte(bv, (v >> 8) as u8);
    push_byte(bv, (v >> 16) as u8);
    push_byte(bv, (v >> 24) as u8);
    proof {
        lemma_u32_le_bits_decomp(v);
        assert(stream(*bv) =~= stream(*old(bv)) + u32_le_bits(v));
    }
}

/// Appends the 64 bits of `v`, in the same layout as `push_u32_le`.
pub fn push_u64_le(bv: &mut bit_vec::BitVec, v: u64)
    requires
        stream(*old(bv)).len() + 64 <= usize::MAX,
    ensures
        stream(*final(bv)) == stream(*old(bv)) + u64_le_bits(v),
{
    push_byte(bv, v as u8);
    push_byte(bv, (v >> 8) as u8);
    push_byte(bv, (v >> 16) as u8);
    push_byte(bv, (v >> 24) as u8);
    push_byte(bv, (v >> 32) as u8);
    push_byte(bv, (v >> 40) as u8);
    push_byte(bv, (v >> 48) as u8);
    push_byte(bv, (v >> 56) as u8);
    proof {
        lemma_u64_le_bits_decomp(v);
        assert(stream(*bv) =~= stream(*old(bv)) + u64_le_bits(v));
    }
}

/// Reads the 32 bits at `pos` as one little-endian word.
pub fn read_u32_le(bv: &bit_vec::BitVec, pos: usize) -> (r: u32)
    requires
        pos + 32 <= stream(*bv).len(),
        stream(*bv).len() <= usize::MAX,
    ensures
        u32_le_bits(r) == stream(*bv).subrange(pos as int, pos + 32),
{
    let b0: u8 = read_byte(bv, pos);
    let b1: u8 = read_byte(bv, pos + 8);
    let b2: u8 = read_byte(bv, pos + 16);
    let b3: u8 = read_byte(bv, pos + 24);
    let v: u32 = (b0 as u32) | ((b1 as u32) << 8) | ((b2 as u32) << 16) | ((b3 as u32) << 24);
    proof {
        assert(v as u8 == b0 && (v >> 8u32) as u8 == b1 && (v >> 16u32) as u8 == b2 && (v
            >> 24u32) as u8 == b3) by (bit_vector)
            requires
                v == (b0 as u32) | ((b1 as u32) << 8u32) | ((b2 as u32) << 16u32) | ((
                b3 as u32) << 24u32),
        ;
        lemma_u32_le_bits_decomp(v);
        assert(u32_le_bits(v) =~= stream(*bv).subrange(pos as int, pos + 32));
    }
    v
}

/// Reads the 64 bits at `pos` as one little-endian word.
pub fn read_u64_le(bv: &bit_vec::BitVec, pos: usize) -> (r: u64)
    requires
        pos + 64 <= stream(*bv).len(),
        stream(*bv).len() <= usize::MAX,
    ensures
        u64_le_bits(r) == stream(*bv).subrange(pos as int, pos + 64),
{
    let b0: u8 = read_byte(bv, pos);
    let b1: u8 = read_byte(bv, pos + 8);
    let b2: u8 = read_byte(bv, pos + 16);
    let b3: u8 = read_byte(bv, pos + 24);
    let b4: u8 = read_byte(bv, pos + 32);
    let b5: u8 = read_byte(bv, pos + 40);
    let b6: u8 = read_byte(bv, pos + 48);
    let b7: u8 = read_byte(bv, pos + 56);
    let v: u64 = (b0 as u64) | ((b1 as u64) << 8) | ((b2 as u64) << 16) | ((b3 as u64) << 24) | ((
    b4 as u64) << 32) | ((b5 as u64) << 40) | ((b6 as u64) << 48) | ((b7 as u64) << 56);
    proof {
        assert(v as u8 == b0 && (v >> 8u64) as u8 == b1 && (v >> 16u64) as u8 == b2 && (v
            >> 24u64) as u8 == b3 && (v >> 32u64) as u8 == b4 && (v >> 40u64) as u8 == b5 && (v
            >> 48u64) as u8 == b6 && (v >> 56u64) as u8 == b7) by (bit_vector)
            requires
                v == (b0 as u64) | ((b1 as u64) << 8u64) | ((b2 as u64) << 16u64) | ((
                b3 as u64) << 24u64) | ((b4 as u64) << 32u64) | ((b5 as u64) << 40u64) | ((
                b6 as u64) << 48u64) | ((b7 as u64) << 56u64),
        ;
        lemma_u64_le_bits_decomp(v);
        assert(u64_le_bits(v) =~= stream(*bv).subrange(pos as int, pos + 64));
    }
    v
}

/// Reading back the bit image of a 32-bit word gives the word.
pub proof fn lemma_le_u32_of_u32_le_bits(v: u32)
    ensures
        le_u32_of(u32_le_bits(v)) == v,
{
    lemma_u32_le_bits_decomp(v);
    assert(u32_le_bits(v).subrange(0, 8) =~= byte_bits(v as u8));
    assert(u32_le_bits(v).subrange(8, 16) =~= byte_bits((v >> 8u32) as u8));
    assert(u32_le_bits(v).subrange(16, 24) =~= byte_bits((v >> 16u32) as u8));
    assert(u32_le_bits(v).subrange(24, 32) =~= byte_bits((v >> 24u32) as u8));
    lemma_bits_to_byte_of_byte_bits(v as u8);
    lemma_bits_to_byte_of_byte_bits((v >> 8u32) as u8);
    lemma_bits_to_byte_of_byte_bits((v >> 16u32) as u8);
    lemma_bits_to_byte_of_byte_bits((v >> 24u32) as u8);
    let b0 = v as u8;
    let b1 = (v >> 8u32) as u8;
    let b2 = (v >> 16u32) as u8;
    let b3 = (v >> 24u32) as u8;
    assert((b0 as u32) | ((b1 as u32) << 8u32) | ((b2 as u32) << 16u32) | ((b3 as u32) << 24u32)
        == v) by (bit_vector)
        requires
            b0 == v as u8,
            b1 == (v >> 8u32) as u8,
            b2 == (v >> 16u32) as u8,
            b3 == (v >> 24u32) as u8,
    ;
}

/// Reading back the bit image of a 64-bit word gives the word.
pub proof fn lemma_le_u64_of_u64_le_bits(v: u64)
    ensures
        le_u64_of(u64_le_bits(v)) == v,
{
    lemma_u64_le_bits_decomp(v);
    assert(u64_le_bits(v).subrange(0, 8) =~= byte_bits(v as u8));
    assert(u64_le_bits(v).subrange(8, 16) =~= byte_bits((v >> 8u64) as u8));
    assert(u64_le_bits(v).subrange(16, 24) =~= byte_bits((v >> 16u64) as u8));
    assert(u64_le_bits(v).subrange(24, 32) =~= byte_bits((v >> 24u64) as u8));
    assert(u64_le_bits(v).subrange(32, 40) =~= byte_bits((v >> 32u64) as u8));
    assert(u64_le_bits(v).subrange(40, 48) =~= byte_bits((v >> 40u64) as u8));
    assert(u64_le_bits(v).subrange(48, 56) =~= byte_bits((v >> 48u64) as u8));
    assert(u64_le_bits(v).subrange(56, 64) =~= byte_bits((v >> 56u64) as u8));
    lemma_bits_to_byte_of_byte_bits(v as u8);
    lemma_bits_to_byte_of_byte_bits((v >> 8u64) as u8);
    lemma_bits_to_byte_of_byte_bits((v >> 16u64) as u8);
    lemma_bits_to_byte_of_byte_bits((v >> 24u64) as u8);
    lemma_bits_to_byte_of_byte_bits((v >> 32u64) as u8);
    lemma_bits_to_byte_of_byte_bits((v >> 40u64) as u8);
    lemma_bits_to_byte_of_byte_bits((v >> 48u64) as u8);
    lemma_bits_to_byte_of_byte_bits((v >> 56u64) as u8);
    let b0 = v as u8;
    let b1 = (v >> 8u64) as u8;
    let b2 = (v >> 16u64) as u8;
    let b3 = (v >> 24u64) as u8;
    let b4 = (v >> 32u64) as u8;
    let b5 = (v >> 40u64) as u8;
    let b6 = (v >> 48u64) as u8;
    let b7 = (v >> 56u64) as u8;
    assert((b0 as u64) | ((b1 as u64) << 8u64) | ((b2 as u64) << 16u64) | ((b3 as u64) << 24u64)
        | ((b4 as u64) << 32u64) | ((b5 as u64) << 40u64) | ((b6 as u64) << 48u64) | ((
    b7 as u64) << 56u64) == v) by (bit_vector)
        requires
            b0 == v as u8,
            b1 == (v >> 8u64) as u8,
            b2 == (v >> 16u64) as u8,
            b3 == (v >> 24u64) as u8,
            b4 == (v >> 32u64) as u8,
            b5 == (v >> 40u64) as u8,
            b6 == (v >> 48u64) as u8,
            b7 == (v >> 56u64) as u8,
    ;
}


} // verus!
