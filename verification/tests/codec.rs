use manpack::bits::{bv_from_bools, bv_to_bools, push_u32_le, read_u32_le};
use manpack::codec::{compress, compress_image, decompress, decompress_image};
use manpack::errors::DecodeError;

#[test]
fn test_image_compression_decompression() {
    let image_int = vec![1, 2, 3, 4, 1, 2, 3, 4, 5, 6, 7, 8, 5, 6, 7, 8, 1, 3, 5, 7];
    let image: Vec<u32> = image_int;

    let compressed = compress_image(4, 5, &image);
    let decompressed = decompress_image(&compressed).expect("round trip");

    assert_eq!(decompressed.0, 4); // width
    assert_eq!(decompressed.1, 5); // height
    assert_eq!(decompressed.2, image); // pixels
}

#[test]
fn empty_pixels_round_trip() {
    let compressed = compress_image(9, 11, &[]);
    let decompressed = decompress_image(&compressed).expect("round trip");
    assert_eq!(decompressed, (9, 11, Vec::new()));
}

#[test]
fn empty_frame_is_sixteen_zero_bytes() {
    let frame = compress(&[]);
    assert_eq!(frame, vec![0u8; 16]);
    assert_eq!(decompress(&frame), Ok(Vec::new()));
}

#[test]
fn single_symbol_round_trip() {
    let bytes = compress(&[42, 42, 42, 42]);
    assert_eq!(decompress(&bytes), Ok(vec![42, 42, 42, 42]));
}

#[test]
fn compression_is_deterministic() {
    let image: Vec<u32> = vec![3, 1, 4, 1, 5, 9, 2, 6, 5, 3, 5, 8, 9, 7, 9];
    let a = compress_image(5, 3, &image);
    let b = compress_image(5, 3, &image);
    assert_eq!(a, b);
}

#[test]
fn output_length_is_byte_aligned() {
    // one distinct pixel: 81 dictionary bits, 1 data bit, so the frame is
    // ceil((64 + 64 + 81 + 1) / 8) = 27 bytes behind the 8 header bytes
    let out = compress_image(1, 1, &[7]);
    assert_eq!(out.len(), 8 + 27);
}

#[test]
fn short_input_is_truncated() {
    assert_eq!(
        decompress_image(&[1, 2, 3]),
        Err(DecodeError::TruncatedStream)
    );
    // a header alone leaves no room for the two length words
    assert_eq!(
        decompress_image(&[0u8; 10]),
        Err(DecodeError::TruncatedStream)
    );
}

#[test]
fn wrong_word_size_is_rejected() {
    let mut bytes = compress(&[1, 2, 3, 1]);
    // the word-size field sits right after the 64-bit dictionary length
    // and the 32-bit word count, at byte 12 of the frame
    assert_eq!(bytes[12], 4);
    bytes[12] = 2;
    assert_eq!(decompress(&bytes), Err(DecodeError::UnsupportedWordSize));
}

#[test]
fn trailing_garbage_is_residual() {
    let mut bytes = compress(&[5, 6, 5, 6]);
    bytes.push(0xff);
    assert_eq!(decompress(&bytes), Err(DecodeError::ResidualData));
}

#[test]
fn set_pad_bit_is_residual() {
    // the empty frame ends byte-aligned with no pad; an extra byte with a
    // set bit is residue, a 16-byte prefix of zeroes plus one zero byte too
    let mut bytes = compress(&[]);
    bytes.push(0b0000_0001);
    assert_eq!(decompress(&bytes), Err(DecodeError::ResidualData));
}

#[test]
fn empty_code_slot_is_rejected() {
    let mut book = manpack::codebook::Codebook::new();
    book.insert(9, bit_vec::BitVec::new());
    let dict_bits = manpack::codebook::compress_dictionary(&book);
    let r = manpack::codebook::decompress_dictionary(&dict_bits);
    match r {
        Err(e) => assert_eq!(e, DecodeError::EmptyCodeSlot),
        Ok(_) => panic!("empty code slot accepted"),
    }
}

#[test]
fn words_survive_bit_packing() {
    let mut bv = bit_vec::BitVec::new();
    push_u32_le(&mut bv, 0xdeadbeef);
    push_u32_le(&mut bv, 7);
    assert_eq!(read_u32_le(&bv, 0), 0xdeadbeef);
    assert_eq!(read_u32_le(&bv, 32), 7);
    // little-endian bytes, each most significant bit first
    assert_eq!(bv.to_bytes()[0..4], [0xef, 0xbe, 0xad, 0xde]);
}

#[test]
fn bools_survive_the_container() {
    let pattern = vec![true, false, true, true, false, false, true, false, true];
    let bv = bv_from_bools(&pattern);
    assert_eq!(bv_to_bools(&bv), pattern);
    assert_eq!(bv.to_bytes(), vec![0b10110010, 0b10000000]);
}

#[test]
fn larger_image_round_trip() {
    let mut image: Vec<u32> = Vec::new();
    for i in 0..400u32 {
        image.push(i % 97 * 1000 + i % 13);
    }
    let compressed = compress_image(20, 20, &image);
    let decompressed = decompress_image(&compressed).expect("round trip");
    assert_eq!(decompressed.0, 20);
    assert_eq!(decompressed.1, 20);
    assert_eq!(decompressed.2, image);
}
