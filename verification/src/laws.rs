//! What the codec guarantees as a whole: the round trip, determinism of
//! the emitted bytes, prefix-freeness of every built code book, the
//! one-bit code of a lone symbol, and the byte-aligned output length.

use vstd::prelude::*;

use crate::bits::{
    byte_bits, bytes_bits, le_u64_of, lemma_byte_bits_of_bits_to_byte,
    lemma_le_u64_of_u64_le_bits, pad_len, u32_le_bytes, u64_le_bits, zero_bits,
};
use crate::codebook::{
    book_prefix_free, book_sorted, codes_fit, codes_nonempty, lemma_parse_book_round,
    lemma_subrange_split, spec_book_bits, spec_parse_book,
};
use crate::codec::{
    bits_to_bytes, compress_fits, decompress_image_post, decompress_post, lemma_data_in_book,
    spec_book_of, spec_compress, spec_compress_image, spec_dict_bits, spec_frame_bits,
    spec_parse_frame, u32_of_le_bytes,
};
use crate::data::{
    all_in_book, book_decodable, book_words_distinct, lemma_encode_injective, spec_encode,
};
use crate::errors::DecodeError;
use crate::tree::{lemma_build_book_props, spec_build_book};
use crate::weights::{lemma_spec_weights_props, spec_add_word, spec_weights};

verus! {

/// Packing bits into bytes and reading them out again is the identity on
/// byte-aligned streams.
pub proof fn lemma_bits_of_bytes_of_bits(s: Seq<bool>)
    requires
        s.len() % 8 == 0,
    ensures
        bytes_bits(bits_to_bytes(s)) =~= s,
{
    reveal(bits_to_bytes);
    let bs = bits_to_bytes(s);
    assert(bs.len() * 8 == s.len()) by (nonlinear_arith)
        requires
            s.len() % 8 == 0,
            bs.len() == s.len() / 8,
    ;
    assert forall|i: int| 0 <= i < s.len() implies bytes_bits(bs)[i] == s[i] by {
        assert(0 <= i / 8 < bs.len() && i % 8 == i - 8 * (i / 8) && 0 <= i % 8 < 8) by (
        nonlinear_arith)
            requires
                0 <= i < bs.len() * 8,
        ;
        let w = s.subrange(8 * (i / 8), 8 * (i / 8) + 8);
        lemma_byte_bits_of_bits_to_byte(w);
        assert(byte_bits(bs[i / 8]) =~= w);
        assert(byte_bits(bs[i / 8])[i % 8] == w[i % 8]);
        assert(w[i % 8] == s[8 * (i / 8) + i % 8]);
    }
}

/// Sorted books carry distinct words.
proof fn lemma_sorted_distinct(b: Seq<(u32, Seq<bool>)>)
    requires
        book_sorted(b),
    ensures
        book_words_distinct(b),
{
    assert forall|i: int, j: int|
        0 <= i < b.len() && 0 <= j < b.len() && i != j implies (#[trigger] b[i]).0 != (
    #[trigger] b[j]).0 by {
        if i < j {
            assert(b[i].0 < b[j].0);
        } else {
            assert(b[j].0 < b[i].0);
        }
    }
}

/// The compressed stream carved into its fields: both length words, the
/// book section, the data section, and a clear pad.
#[verifier::rlimit(100)]
proof fn lemma_frame_fields(dict: Seq<bool>, enc: Seq<bool>)
    requires
        128 + dict.len() + enc.len() + pad_len((128 + dict.len() + enc.len()) as int)
            <= usize::MAX,
    ensures
        ({
            let dl = dict.len() as int;
            let el = enc.len() as int;
            let f = u64_le_bits(dict.len() as u64) + dict + u64_le_bits(enc.len() as u64) + enc;
            let s = bytes_bits(bits_to_bytes(f + zero_bits(pad_len(f.len() as int))));
            &&& s.len() == 128 + dl + el + pad_len((128 + dl + el) as int)
            &&& s.len() - (128 + dl + el) < 8
            &&& s.subrange(0, 64) == u64_le_bits(dict.len() as u64)
            &&& s.subrange(64, 64 + dl) == dict
            &&& s.subrange(64 + dl, 128 + dl) == u64_le_bits(enc.len() as u64)
            &&& s.subrange(128 + dl, 128 + dl + el) == enc
            &&& !(exists|k: int| 128 + dl + el <= k < s.len() && s[k])
        }),
{
    let f = u64_le_bits(dict.len() as u64) + dict + u64_le_bits(enc.len() as u64) + enc;
    let padded = f + zero_bits(pad_len(f.len() as int));
    assert(padded.len() % 8 == 0) by (nonlinear_arith)
        requires
            padded.len() == f.len() + ((8 - f.len() % 8) % 8),
    ;
    let s = padded;
    assert(bytes_bits(bits_to_bytes(f + zero_bits(pad_len(f.len() as int)))) == s) by {
        lemma_bits_of_bytes_of_bits(padded);
    }
    let dl = dict.len() as int;
    let el = enc.len() as int;
    assert(f.len() == 128 + dl + el);
    assert(pad_len(f.len() as int) < 8);
    assert(s =~= u64_le_bits(dict.len() as u64) + (dict + (u64_le_bits(enc.len() as u64) + (enc
        + zero_bits(pad_len(f.len() as int))))));
    assert(s.subrange(0, s.len() as int) =~= s);
    lemma_subrange_split(
        s,
        0,
        u64_le_bits(dict.len() as u64),
        dict + (u64_le_bits(enc.len() as u64) + (enc + zero_bits(pad_len(f.len() as int)))),
    );
    lemma_subrange_split(
        s,
        64,
        dict,
        u64_le_bits(enc.len() as u64) + (enc + zero_bits(pad_len(f.len() as int))),
    );
    lemma_subrange_split(
        s,
        64 + dl,
        u64_le_bits(enc.len() as u64),
        enc + zero_bits(pad_len(f.len() as int)),
    );
    lemma_subrange_split(s, 128 + dl, enc, zero_bits(pad_len(f.len() as int)));
    assert(!(exists|k: int| 128 + dl + el <= k < s.len() && s[k])) by {
        if exists|k: int| 128 + dl + el <= k < s.len() && s[k] {
            let k = choose|k: int| 128 + dl + el <= k < s.len() && s[k];
            assert(s[k] == zero_bits(pad_len(f.len() as int))[k - (128 + dl + el)]);
        }
    }
}

/// Evaluating the frame parser on a stream whose fields are known.
proof fn lemma_parse_frame_eval(
    s: Seq<bool>,
    dict: Seq<bool>,
    enc: Seq<bool>,
    book: Seq<(u32, Seq<bool>)>,
)
    requires
        s.len() >= 128 + dict.len() + enc.len(),
        s.len() - (128 + dict.len() + enc.len()) < 8,
        le_u64_of(s.subrange(0, 64)) == dict.len() as u64,
        dict.len() as u64 == dict.len(),
        le_u64_of(s.subrange(64 + dict.len() as int, 128 + dict.len() as int)) == enc.len() as u64,
        enc.len() as u64 == enc.len(),
        s.subrange(128 + dict.len() as int, 128 + dict.len() as int + enc.len() as int) == enc,
        !(exists|k: int| 128 + dict.len() + enc.len() <= k < s.len() && s[k]),
        dict.len() == 0 ==> book == Seq::<(u32, Seq<bool>)>::empty(),
        dict.len() > 0 ==> spec_parse_book(s.subrange(64, 64 + dict.len() as int)) == Ok::<
            Seq<(u32, Seq<bool>)>,
            DecodeError,
        >(book),
    ensures
        spec_parse_frame(s) == Ok::<(Seq<(u32, Seq<bool>)>, Seq<bool>), DecodeError>((book, enc)),
{
}

/// Parsing a well-formed frame built from any book section and data
/// section gives both back.
#[verifier::rlimit(100)]
proof fn lemma_parse_round_gen(dict: Seq<bool>, enc: Seq<bool>, book: Seq<(u32, Seq<bool>)>)
    requires
        128 + dict.len() + enc.len() + pad_len((128 + dict.len() + enc.len()) as int)
            <= usize::MAX,
        dict.len() == 0 ==> book == Seq::<(u32, Seq<bool>)>::empty(),
        dict.len() > 0 ==> spec_parse_book(dict) == Ok::<Seq<(u32, Seq<bool>)>, DecodeError>(
            book,
        ),
    ensures
        ({
            let f = u64_le_bits(dict.len() as u64) + dict + u64_le_bits(enc.len() as u64) + enc;
            spec_parse_frame(bytes_bits(bits_to_bytes(f + zero_bits(pad_len(f.len() as int)))))
                == Ok::<(Seq<(u32, Seq<bool>)>, Seq<bool>), DecodeError>((book, enc))
        }),
{
    let f = u64_le_bits(dict.len() as u64) + dict + u64_le_bits(enc.len() as u64) + enc;
    let s = bytes_bits(bits_to_bytes(f + zero_bits(pad_len(f.len() as int))));
    lemma_frame_fields(dict, enc);
    let dl = dict.len() as int;
    let el = enc.len() as int;
    assert(le_u64_of(s.subrange(0, 64)) == dict.len() as u64) by {
        lemma_le_u64_of_u64_le_bits(dict.len() as u64);
    }
    assert(le_u64_of(s.subrange(64 + dl, 128 + dl)) == enc.len() as u64) by {
        lemma_le_u64_of_u64_le_bits(enc.len() as u64);
    }
    assert(s.subrange(64, 64 + dl) == dict);
    lemma_parse_frame_eval(s, dict, enc, book);
}

/// Parsing a compressed frame gives back the built book and the coded
/// data bits.
#[verifier::rlimit(100)]
pub proof fn lemma_parse_frame_round(data: Seq<u32>)

    requires
        data.len() <= usize::MAX,
        compress_fits(data),
        codes_fit(spec_book_of(data)),
        spec_book_of(data).len() <= u32::MAX,
    ensures
        spec_parse_frame(bytes_bits(spec_compress(data))) == Ok::<
            (Seq<(u32, Seq<bool>)>, Seq<bool>),
            DecodeError,
        >((spec_book_of(data), spec_encode(spec_book_of(data), data))),
{
    lemma_parse_frame_round_parts(data);
    let book = spec_book_of(data);
    let dict = spec_dict_bits(data);
    let enc = spec_encode(book, data);
    lemma_parse_round_gen(dict, enc, book);
}

/// The side conditions of the generic frame lemma, discharged for the
/// stream a pixel sequence compresses to.
#[verifier::rlimit(100)]
proof fn lemma_parse_frame_round_parts(data: Seq<u32>)
    requires
        data.len() <= usize::MAX,
        compress_fits(data),
        codes_fit(spec_book_of(data)),
        spec_book_of(data).len() <= u32::MAX,
    ensures
        ({
            let book = spec_book_of(data);
            let dict = spec_dict_bits(data);
            let enc = spec_encode(book, data);
            let f0 = u64_le_bits(dict.len() as u64) + dict + u64_le_bits(enc.len() as u64) + enc;
            &&& 128 + dict.len() + enc.len() + pad_len((128 + dict.len() + enc.len()) as int)
                <= usize::MAX
            &&& (dict.len() == 0 ==> book == Seq::<(u32, Seq<bool>)>::empty())
            &&& (dict.len() > 0 ==> spec_parse_book(dict) == Ok::<
                Seq<(u32, Seq<bool>)>,
                DecodeError,
            >(book))
            &&& spec_compress(data) == bits_to_bytes(f0 + zero_bits(pad_len(f0.len() as int)))
        }),
{
    let book = spec_book_of(data);
    let dict = spec_dict_bits(data);
    let enc = spec_encode(book, data);
    let f0 = u64_le_bits(dict.len() as u64) + dict + u64_le_bits(enc.len() as u64) + enc;
    assert(spec_frame_bits(data) == f0);
    assert(dict.len() > 0 ==> spec_parse_book(dict) == Ok::<Seq<(u32, Seq<bool>)>, DecodeError>(
        book,
    )) by {
        if dict.len() > 0 {
            assert(book.len() > 0) by {
                if book.len() == 0 {
                    assert(dict =~= Seq::<bool>::empty());
                }
            }
            lemma_spec_weights_props(data);
            lemma_build_book_props(spec_weights(data));
            lemma_parse_book_round(book);
        }
    }
    assert(dict.len() == 0 ==> book == Seq::<(u32, Seq<bool>)>::empty()) by {
        if dict.len() == 0 {
            if book.len() > 0 {
                crate::codebook::lemma_words_bits_len(book);
            }
            assert(book.len() == 0);
            assert(book =~= Seq::<(u32, Seq<bool>)>::empty());
        }
    }
    assert(spec_compress(data) == bits_to_bytes(f0 + zero_bits(pad_len(f0.len() as int))));
}

/// Whatever a decode of a compressed frame returns, it is exactly the
/// words that went in.
#[verifier::rlimit(100)]
pub proof fn lemma_frame_round_trip(pixels: Seq<u32>, r: Result<Seq<u32>, DecodeError>)
    requires
        pixels.len() <= usize::MAX,
        compress_fits(pixels),
        codes_fit(spec_book_of(pixels)),
        spec_book_of(pixels).len() <= u32::MAX,
        decompress_post(spec_compress(pixels), r),
    ensures
        r == Ok::<Seq<u32>, DecodeError>(pixels),
{
    lemma_parse_frame_round(pixels);
    lemma_spec_weights_props(pixels);
    lemma_build_book_props(spec_weights(pixels));
    lemma_sorted_distinct(spec_book_of(pixels));
    lemma_data_in_book(pixels);
    let book = spec_book_of(pixels);
    let enc = spec_encode(book, pixels);
    assert(book_decodable(book));
    match r {
        Ok(out) => {
            assert(spec_encode(book, out) == enc);
            lemma_encode_injective(book, out, pixels);
        },
        Err(e) => {
            match e {
                DecodeError::EmptyCodeSlot => {
                    assert(false);
                },
                DecodeError::ConflictingCode => {
                    assert(false);
                },
                DecodeError::PartialCode => {
                    assert(all_in_book(book, pixels) && spec_encode(book, pixels) == enc);
                    assert(false);
                },
                _ => {
                    assert(false);
                },
            }
        },
    }
}

/// LAW: round trip.  Whatever a decode of a compressed image
/// returns, it is exactly the width, the height and the pixels that went
/// in.
#[verifier::rlimit(100)]
pub proof fn lemma_image_round_trip(
    width: u32,
    height: u32,
    pixels: Seq<u32>,
    r: Result<(u32, u32, Seq<u32>), DecodeError>,
)
    requires
        pixels.len() <= usize::MAX,
        compress_fits(pixels),
        codes_fit(spec_book_of(pixels)),
        spec_book_of(pixels).len() <= u32::MAX,
        decompress_image_post(spec_compress_image(width, height, pixels), r),
    ensures
        r == Ok::<(u32, u32, Seq<u32>), DecodeError>((width, height, pixels)),
{
    let bytes = spec_compress_image(width, height, pixels);
    lemma_envelope_fields(width, height, spec_compress(pixels));
    lemma_u32_of_le_bytes_round(width);
    lemma_u32_of_le_bytes_round(height);
    match r {
        Ok(t) => {
            lemma_frame_round_trip(pixels, Ok(t.2));
            assert(t.0 == width && t.1 == height);
        },
        Err(e) => {
            lemma_frame_round_trip(pixels, Err(e));
        },
    }
}

/// A byte window equal to a concatenation splits into two windows.
proof fn lemma_subrange_split_bytes(s: Seq<u8>, pos: int, x: Seq<u8>, y: Seq<u8>)
    requires
        0 <= pos,
        pos + x.len() + y.len() <= s.len(),
        s.subrange(pos, pos + x.len() + y.len()) == x + y,
    ensures
        s.subrange(pos, pos + x.len()) == x,
        s.subrange(pos + x.len(), pos + x.len() + y.len()) == y,
{
    let w = s.subrange(pos, pos + x.len() + y.len());
    assert forall|k: int| 0 <= k < x.len() implies s.subrange(pos, pos + x.len())[k] == x[k] by {
        assert(w[k] == (x + y)[k]);
    }
    assert(s.subrange(pos, pos + x.len()) =~= x);
    assert forall|k: int|
        0 <= k < y.len() implies s.subrange(pos + x.len(), pos + x.len() + y.len())[k] == y[k] by {
        assert(w[x.len() + k] == (x + y)[x.len() + k]);
    }
    assert(s.subrange(pos + x.len(), pos + x.len() + y.len()) =~= y);
}

/// The envelope carved into its fields.
proof fn lemma_envelope_fields(width: u32, height: u32, body: Seq<u8>)
    ensures
        ({
            let bytes = u32_le_bytes(width) + u32_le_bytes(height) + body;
            &&& bytes.len() == 8 + body.len()
            &&& bytes.take(4) == u32_le_bytes(width)
            &&& bytes.subrange(4, 8) == u32_le_bytes(height)
            &&& bytes.skip(8) == body
        }),
{
    let bytes = u32_le_bytes(width) + u32_le_bytes(height) + body;
    assert(bytes =~= u32_le_bytes(width) + (u32_le_bytes(height) + body));
    assert(bytes.subrange(0, bytes.len() as int) =~= bytes);
    lemma_subrange_split_bytes(bytes, 0, u32_le_bytes(width), u32_le_bytes(height) + body);
    lemma_subrange_split_bytes(bytes, 4, u32_le_bytes(height), body);
}

/// Reading the four little-endian bytes of a word gives the word.
proof fn lemma_u32_of_le_bytes_round(v: u32)
    ensures
        u32_of_le_bytes(u32_le_bytes(v)) == v,
{
    assert(((v as u8) as u32) | (((v >> 8u32) as u8 as u32) << 8u32) | (((v
        >> 16u32) as u8 as u32) << 16u32) | (((v >> 24u32) as u8 as u32) << 24u32) == v)
        by (bit_vector);
}

/// LAW: determinism.  The emitted bytes are a function of the
/// dimensions and the pixels alone: two compressions of the same image
/// are byte-equal.
pub proof fn lemma_compress_deterministic(
    width: u32,
    height: u32,
    pixels: Seq<u32>,
    r1: Seq<u8>,
    r2: Seq<u8>,
)
    requires
        r1 == spec_compress_image(width, height, pixels),
        r2 == spec_compress_image(width, height, pixels),
    ensures
        r1 == r2,
{
}

/// LAW: prefix-freeness.  No code of a built book is an
/// initial segment of another, and no code is empty.
pub proof fn lemma_codebook_prefix_free(data: Seq<u32>)
    requires
        data.len() <= usize::MAX,
    ensures
        book_prefix_free(spec_book_of(data)),
        codes_nonempty(spec_book_of(data)),
{
    lemma_spec_weights_props(data);
    lemma_build_book_props(spec_weights(data));
}

/// A book over at most 256 words always fits the one-byte code-length
/// field.
pub proof fn lemma_small_alphabet_fits(data: Seq<u32>)
    requires
        data.len() <= usize::MAX,
        spec_weights(data).len() <= 256,
    ensures
        codes_fit(spec_book_of(data)),
        spec_book_of(data).len() <= u32::MAX,
{
    lemma_spec_weights_props(data);
    lemma_build_book_props(spec_weights(data));
}

/// LAW: byte alignment.  The output holds the eight header
/// bytes and then exactly one byte for each eight bits of the frame,
/// rounded up.
pub proof fn lemma_byte_alignment(width: u32, height: u32, pixels: Seq<u32>)
    ensures
        spec_compress_image(width, height, pixels).len() == 8 + (64 + 64 + spec_dict_bits(
            pixels,
        ).len() + spec_encode(spec_book_of(pixels), pixels).len() + 7) / 8,
{
    let f = spec_frame_bits(pixels);
    let n = f.len() as int;
    assert(spec_compress(pixels).len() == (n + pad_len(n)) / 8) by {
        reveal(bits_to_bytes);
    }
    assert((n + (8 - n % 8) % 8) / 8 == (n + 7) / 8) by (nonlinear_arith)
        requires
            n >= 0,
    ;
}

/// LAW: a lone symbol gets the one-bit code `0`.
pub proof fn lemma_single_symbol_code(data: Seq<u32>, k: u32)
    requires
        data.len() >= 1,
        data.len() <= usize::MAX,
        forall|i: int| 0 <= i < data.len() ==> data[i] == k,
    ensures
        spec_book_of(data) == seq![(k, seq![false])],
{
    lemma_constant_weights(data, k);
    assert(spec_build_book(spec_weights(data)) == seq![
        (spec_weights(data)[0].0, seq![false]),
    ]);
}

/// A constant sequence weighs in as one entry carrying its length.
proof fn lemma_constant_weights(data: Seq<u32>, k: u32)
    requires
        1 <= data.len() <= usize::MAX,
        forall|i: int| 0 <= i < data.len() ==> data[i] == k,
    ensures
        spec_weights(data) =~= seq![(k, data.len() as usize)],
    decreases data.len(),
{
    if data.len() == 1 {
        assert(spec_weights(data) == spec_add_word(spec_weights(data.drop_last()), data.last()));
        assert(data.drop_last().len() == 0);
        assert(spec_weights(data.drop_last()) =~= Seq::<(u32, usize)>::empty());
        assert(data.last() == k);
    } else {
        assert(forall|i: int| 0 <= i < data.drop_last().len() ==> data.drop_last()[i] == data[i]);
        lemma_constant_weights(data.drop_last(), k);
        let prev = spec_weights(data.drop_last());
        assert(prev =~= seq![(k, (data.len() - 1) as usize)]);
        assert(data.last() == k);
        assert(spec_weights(data) == spec_add_word(prev, k));
        assert(prev[0].0 == k);
        assert(spec_add_word(prev, k) == seq![(k, (prev[0].1 + 1) as usize)] + prev.drop_first());
        assert(prev.drop_first() =~= Seq::<(u32, usize)>::empty());
    }
}

} // verus!
