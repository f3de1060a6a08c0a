//! The codec frame and the image envelope.
//!
//! A frame is one bit stream: the code book's bit length as a 64-bit
//! little-endian word, the code book, the coded data's bit length, the
//! coded data, and cleared bits up to the next byte boundary.  The image
//! envelope prepends the width and the height, four little-endian bytes
//! each.

use vstd::prelude::*;

use crate::bits::{
    bits_to_byte, bv_append, bv_from_bytes, bv_get, bv_len, bv_new, bv_to_bytes, byte_bits,
    bytes_bits, extract, le_u64_of, lemma_byte_bits_of_bits_to_byte, lemma_le_u64_of_u64_le_bits,
    pad_len, push_u64_le, stream, u32_le_bytes, u64_le_bits, zero_bits,
};
use crate::codebook::{
    book_prefix_free, codes_nonempty, compress_dictionary, decompress_dictionary, spec_book_bits,
    spec_parse_book, Codebook,
};
use crate::data::{
    all_in_book, book_decodable, book_words_distinct, compress_data, decompress_data, spec_encode,
};
use crate::errors::DecodeError;
use crate::tree::{build_dictionary, lemma_build_book_props, spec_build_book};
use crate::weights::{
    calculate_weights, lemma_spec_weights_props, spec_weights, table_total, table_weight, wcount,
};

verus! {

/// The bytes whose bits are `s`; meaningful when `s.len()` is a multiple
/// of eight.
#[verifier::opaque]
pub open spec fn bits_to_bytes(s: Seq<bool>) -> Seq<u8> {
    Seq::new((s.len() / 8) as nat, |i: int| bits_to_byte(s.subrange(8 * i, 8 * i + 8)))
}

/// Bit images determine their bytes.
pub proof fn lemma_bytes_of_bits(bs: Seq<u8>, s: Seq<bool>)
    requires
        bytes_bits(bs) == s,
    ensures
        bs == bits_to_bytes(s),
{
    reveal(bits_to_bytes);
    assert forall|i: int| 0 <= i < bs.len() implies bs[i] == bits_to_bytes(s)[i] by {
        assert(s.subrange(8 * i, 8 * i + 8) =~= byte_bits(bs[i])) by {
            assert forall|k: int| 0 <= k < 8 implies s.subrange(8 * i, 8 * i + 8)[k] == byte_bits(
                bs[i],
            )[k] by {
                assert(bytes_bits(bs)[8 * i + k] == crate::bits::bit_of_byte(
                    bs[(8 * i + k) / 8],
                    (8 * i + k) % 8,
                ));
                assert((8 * i + k) / 8 == i && (8 * i + k) % 8 == k) by (nonlinear_arith)
                    requires
                        0 <= k < 8,
                        0 <= i,
                ;
            }
        }
        lemma_byte_bits_of_bits_to_byte(byte_bits(bs[i]));
        crate::bits::lemma_bits_to_byte_of_byte_bits(bs[i]);
    }
    assert(bs =~= bits_to_bytes(s));
}

/// The book a pixel sequence determines.
pub open spec fn spec_book_of(data: Seq<u32>) -> Seq<(u32, Seq<bool>)> {
    spec_build_book(spec_weights(data))
}

/// The code-book section: empty for an empty alphabet, else the book's
/// wire form.
pub open spec fn spec_dict_bits(data: Seq<u32>) -> Seq<bool> {
    if spec_book_of(data).len() == 0 {
        Seq::empty()
    } else {
        spec_book_bits(spec_book_of(data))
    }
}

/// The frame's bit stream, before padding.
pub open spec fn spec_frame_bits(data: Seq<u32>) -> Seq<bool> {
    let dict = spec_dict_bits(data);
    let enc = spec_encode(spec_book_of(data), data);
    u64_le_bits(dict.len() as u64) + dict + u64_le_bits(enc.len() as u64) + enc
}

/// The frame's bytes: the bit stream padded with cleared bits to a byte
/// boundary.
pub open spec fn spec_compress(data: Seq<u32>) -> Seq<u8> {
    bits_to_bytes(spec_frame_bits(data) + zero_bits(pad_len(spec_frame_bits(data).len() as int)))
}

/// A compressed image: width, height, then the frame.
pub open spec fn spec_compress_image(width: u32, height: u32, data: Seq<u32>) -> Seq<u8> {
    u32_le_bytes(width) + u32_le_bytes(height) + spec_compress(data)
}

/// Whether the whole frame fits the machine's addressable length.
pub open spec fn compress_fits(data: Seq<u32>) -> bool {
    spec_frame_bits(data).len() + pad_len(spec_frame_bits(data).len() as int) <= usize::MAX
}

/// Every element occurs in the sequence at least once.
proof fn lemma_wcount_present(data: Seq<u32>, i: int)
    requires
        0 <= i < data.len(),
    ensures
        wcount(data, data[i]) >= 1,
    decreases data.len(),
{
    if i + 1 == data.len() {
        assert(data.last() == data[i]);
    } else {
        assert(data.drop_last()[i] == data[i]);
        lemma_wcount_present(data.drop_last(), i);
    }
}

/// A word with a positive count has an entry.
proof fn lemma_weight_entry(entries: Seq<(u32, usize)>, w: u32)
    requires
        table_weight(entries, w) >= 1,
    ensures
        exists|k: int| 0 <= k < entries.len() && (#[trigger] entries[k]).0 == w,
    decreases entries.len(),
{
    if entries.len() > 0 {
        if entries[0].0 == w {
            assert(entries[0].0 == w);
        } else {
            lemma_weight_entry(entries.drop_first(), w);
            let k = choose|k: int|
                0 <= k < entries.drop_first().len() && (#[trigger] entries.drop_first()[k]).0 == w;
            assert(entries[k + 1].0 == w);
        }
    }
}

/// Every word of the input has an entry in the built book.
pub proof fn lemma_data_in_book(data: Seq<u32>)
    requires
        data.len() <= usize::MAX,
    ensures
        all_in_book(spec_book_of(data), data),
{
    lemma_spec_weights_props(data);
    lemma_build_book_props(spec_weights(data));
    assert forall|i: int|
        0 <= i < data.len() implies crate::codebook::book_has_word(
        spec_book_of(data),
        #[trigger] data[i],
    ) by {
        lemma_wcount_present(data, i);
        assert(table_weight(spec_weights(data), data[i]) == wcount(data, data[i]));
        lemma_weight_entry(spec_weights(data), data[i]);
    }
}

/// Compresses a word sequence into a self-describing frame.
pub fn compress(data: &[u32]) -> (r: Vec<u8>)
    requires
        compress_fits(data@),
    ensures
        r@ == spec_compress(data@),
{
    let n_input: usize = data.len();
    proof {
        assert(n_input == data@.len() && data@.len() <= usize::MAX);
        lemma_spec_weights_props(data@);
        lemma_build_book_props(spec_weights(data@));
        lemma_data_in_book(data@);
    }
    let table = calculate_weights(data);
    let book = build_dictionary(&table);
    let ghost bspec = spec_book_of(data@);
    assert(book@ == bspec);
    let dict: bit_vec::BitVec = if book.len() == 0 {
        bv_new()
    } else {
        compress_dictionary(&book)
    };
    assert(stream(dict) == spec_dict_bits(data@));
    let enc = compress_data(&book, data);
    let dict_len: usize = bv_len(&dict);
    let enc_len: usize = bv_len(&enc);
    let mut frame: bit_vec::BitVec = bv_new();
    push_u64_le(&mut frame, dict_len as u64);
    bv_append(&mut frame, &dict);
    push_u64_le(&mut frame, enc_len as u64);
    bv_append(&mut frame, &enc);
    proof {
        assert(stream(frame) =~= spec_frame_bits(data@));
    }
    let out: Vec<u8> = bv_to_bytes(&frame);
    proof {
        lemma_bytes_of_bits(
            out@,
            spec_frame_bits(data@) + zero_bits(pad_len(spec_frame_bits(data@).len() as int)),
        );
    }
    out
}

/// The four little-endian bytes of a 32-bit word, as plain bytes.
pub open spec fn u32_of_le_bytes(bs: Seq<u8>) -> u32 {
    (bs[0] as u32) | ((bs[1] as u32) << 8u32) | ((bs[2] as u32) << 16u32) | ((bs[3] as u32)
        << 24u32)
}

/// Compresses an image: the dimensions, then the compressed pixels.
pub fn compress_image(width: u32, height: u32, pixels: &[u32]) -> (r: Vec<u8>)
    requires
        compress_fits(pixels@),
    ensures
        r@ == spec_compress_image(width, height, pixels@),
{
    let mut out: Vec<u8> = Vec::new();
    out.push(width as u8);
    out.push((width >> 8) as u8);
    out.push((width >> 16) as u8);
    out.push((width >> 24) as u8);
    out.push(height as u8);
    out.push((height >> 8) as u8);
    out.push((height >> 16) as u8);
    out.push((height >> 24) as u8);
    let mut body: Vec<u8> = compress(pixels);
    out.append(&mut body);
    proof {
        assert(out@ =~= spec_compress_image(width, height, pixels@));
    }
    out
}

/// What parsing a frame's bit stream yields: the code book section's
/// entries and the coded-data bits, or the exact failure.
pub open spec fn spec_parse_frame(s: Seq<bool>) -> Result<
    (Seq<(u32, Seq<bool>)>, Seq<bool>),
    DecodeError,
> {
    if s.len() < 64 {
        Err(DecodeError::TruncatedStream)
    } else {
        let dl = le_u64_of(s.subrange(0, 64)) as int;
        if 64 + dl > s.len() {
            Err(DecodeError::TruncatedStream)
        } else {
            match (if dl == 0 {
                Ok(Seq::<(u32, Seq<bool>)>::empty())
            } else {
                spec_parse_book(s.subrange(64, 64 + dl))
            }) {
                Err(e) => Err(e),
                Ok(book) => if 128 + dl > s.len() {
                    Err(DecodeError::TruncatedStream)
                } else {
                    let el = le_u64_of(s.subrange(64 + dl, 128 + dl)) as int;
                    if 128 + dl + el > s.len() {
                        Err(DecodeError::TruncatedStream)
                    } else if s.len() - (128 + dl + el) >= 8 {
                        Err(DecodeError::ResidualData)
                    } else if exists|k: int| 128 + dl + el <= k < s.len() && s[k] {
                        Err(DecodeError::ResidualData)
                    } else {
                        Ok((book, s.subrange(128 + dl, 128 + dl + el)))
                    }
                },
            }
        }
    }
}

/// What a decode step's result must look like, given the parsed frame.
pub open spec fn decompress_post(bytes: Seq<u8>, r: Result<Seq<u32>, DecodeError>) -> bool {
    match spec_parse_frame(bytes_bits(bytes)) {
        Err(e) => r == Err::<Seq<u32>, DecodeError>(e),
        Ok((book, db)) => match r {
            Ok(out) => book_decodable(book) && all_in_book(book, out) && spec_encode(book, out)
                == db,
            Err(e) => match e {
                DecodeError::EmptyCodeSlot => !codes_nonempty(book),
                DecodeError::ConflictingCode => !book_prefix_free(book) || !book_words_distinct(
                    book,
                ),
                DecodeError::PartialCode => book_decodable(book) && !(exists|d: Seq<u32>|
                    all_in_book(book, d) && spec_encode(book, d) == db),
                _ => false,
            },
        },
    }
}

/// Decompresses a frame back into the word sequence.
#[verifier::loop_isolation(false)]
#[verifier::rlimit(100)]
pub fn decompress(data: &[u8]) -> (r: Result<Vec<u32>, DecodeError>)
    requires
        data@.len() * 8 <= usize::MAX,
    ensures
        decompress_post(
            data@,
            match r {
                Ok(out) => Ok(out@),
                Err(e) => Err(e),
            },
        ),
{
    let bv: bit_vec::BitVec = bv_from_bytes(data);
    let ghost s = stream(bv);
    let len: usize = bv_len(&bv);
    if len < 64 {
        return Err(DecodeError::TruncatedStream);
    }
    let dl64: u64 = crate::bits::read_u64_le(&bv, 0);
    proof {
        lemma_le_u64_of_u64_le_bits(dl64);
        assert(le_u64_of(s.subrange(0, 64)) == dl64);
    }
    if dl64 > (len - 64) as u64 {
        return Err(DecodeError::TruncatedStream);
    }
    let dl: usize = dl64 as usize;
    let book: Codebook = if dl == 0 {
        Codebook::new()
    } else {
        let dict_bv: bit_vec::BitVec = extract(&bv, 64, dl);
        match decompress_dictionary(&dict_bv) {
            Ok(book) => book,
            Err(e) => {
                return Err(e);
            },
        }
    };
    if len - 64 - dl < 64 {
        return Err(DecodeError::TruncatedStream);
    }
    let el64: u64 = crate::bits::read_u64_le(&bv, 64 + dl);
    proof {
        lemma_le_u64_of_u64_le_bits(el64);
        assert(le_u64_of(s.subrange(64 + dl, 128 + dl)) == el64);
    }
    if el64 > (len - 128 - dl) as u64 {
        return Err(DecodeError::TruncatedStream);
    }
    let el: usize = el64 as usize;
    if len - 128 - dl - el >= 8 {
        return Err(DecodeError::ResidualData);
    }
    let mut k: usize = 128 + dl + el;
    while k < len
        invariant
            128 + dl + el <= k <= len,
            forall|k2: int| 128 + dl + el <= k2 < k ==> !s[k2],
        decreases len - k,
    {
        if bv_get(&bv, k) {
            return Err(DecodeError::ResidualData);
        }
        k += 1;
    }
    let data_bv: bit_vec::BitVec = extract(&bv, 128 + dl, el);
    let out: Vec<u32> = match decompress_data(&book, &data_bv) {
        Ok(out) => out,
        Err(e) => {
            return Err(e);
        },
    };
    Ok(out)
}

/// What a whole image decode must look like for a given input.
pub open spec fn decompress_image_post(
    bytes: Seq<u8>,
    r: Result<(u32, u32, Seq<u32>), DecodeError>,
) -> bool {
    if bytes.len() < 8 {
        r == Err::<(u32, u32, Seq<u32>), DecodeError>(DecodeError::TruncatedStream)
    } else {
        match r {
            Ok(t) => t.0 == u32_of_le_bytes(bytes.take(4)) && t.1 == u32_of_le_bytes(
                bytes.subrange(4, 8),
            ) && decompress_post(bytes.skip(8), Ok(t.2)),
            Err(e) => decompress_post(bytes.skip(8), Err(e)),
        }
    }
}

/// Decompresses an image: the dimensions, then the pixels.
pub fn decompress_image(compressed_pixels: &[u8]) -> (r: Result<
    (u32, u32, Vec<u32>),
    DecodeError,
>)
    requires
        compressed_pixels@.len() * 8 <= usize::MAX,
    ensures
        decompress_image_post(
            compressed_pixels@,
            match r {
                Ok(t) => Ok((t.0, t.1, t.2@)),
                Err(e) => Err(e),
            },
        ),
{
    let n: usize = compressed_pixels.len();
    if n < 8 {
        return Err(DecodeError::TruncatedStream);
    }
    let width: u32 = (compressed_pixels[0] as u32) | ((compressed_pixels[1] as u32) << 8) | ((
    compressed_pixels[2] as u32) << 16) | ((compressed_pixels[3] as u32) << 24);
    let height: u32 = (compressed_pixels[4] as u32) | ((compressed_pixels[5] as u32) << 8) | ((
    compressed_pixels[6] as u32) << 16) | ((compressed_pixels[7] as u32) << 24);
    proof {
        assert(compressed_pixels@.take(4)[0] == compressed_pixels@[0]);
        assert(compressed_pixels@.take(4)[1] == compressed_pixels@[1]);
        assert(compressed_pixels@.take(4)[2] == compressed_pixels@[2]);
        assert(compressed_pixels@.take(4)[3] == compressed_pixels@[3]);
        assert(compressed_pixels@.subrange(4, 8)[0] == compressed_pixels@[4]);
        assert(compressed_pixels@.subrange(4, 8)[1] == compressed_pixels@[5]);
        assert(compressed_pixels@.subrange(4, 8)[2] == compressed_pixels@[6]);
        assert(compressed_pixels@.subrange(4, 8)[3] == compressed_pixels@[7]);
    }
    let mut tail: Vec<u8> = Vec::new();
    let mut i: usize = 8;
    while i < n
        invariant
            8 <= i <= n,
            n == compressed_pixels@.len(),
            tail@ =~= compressed_pixels@.subrange(8, i as int),
        decreases n - i,
    {
        tail.push(compressed_pixels[i]);
        i += 1;
    }
    proof {
        assert(tail@ =~= compressed_pixels@.skip(8));
    }
    let pixels: Vec<u32> = match decompress(tail.as_slice()) {
        Ok(pixels) => pixels,
        Err(e) => {
            return Err(e);
        },
    };
    Ok((width, height, pixels))
}

} // verus!
