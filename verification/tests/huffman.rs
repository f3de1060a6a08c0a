use bit_vec::BitVec;

use manpack::codebook::Codebook;
use manpack::data::{compress_data, decompress_data, SearchTree};
use manpack::tree::build_dictionary;
use manpack::weights::{calculate_weights, WeightTable};

/// A weight table with the given counts, built through the public API by
/// repeating each word.
fn table_of(pairs: &[(u32, usize)]) -> WeightTable {
    let mut data: Vec<u32> = Vec::new();
    for &(w, c) in pairs {
        for _ in 0..c {
            data.push(w);
        }
    }
    calculate_weights(&data)
}

fn code_len_of(book: &Codebook, w: u32) -> usize {
    let i = book.find(w).expect("word missing from dictionary");
    book.code_len_at(i)
}

fn books_equal(a: &Codebook, b: &Codebook) -> bool {
    if a.len() != b.len() {
        return false;
    }
    for i in 0..a.len() {
        if a.word_at(i) != b.word_at(i) {
            return false;
        }
        if a.code_bools_at(i) != b.code_bools_at(i) {
            return false;
        }
    }
    true
}

#[test]
fn test_build_dictionary() {
    let words = table_of(&[
        (0, 30),
        (1, 100),
        (2, 20),
        (3, 10),
        (4, 70),
        (5, 90),
        (6, 60),
        (7, 80),
        (8, 50),
        (9, 40),
    ]);

    let dictionary = build_dictionary(&words);
    let expected_order = vec![1, 5, 7, 4, 6, 8, 9, 0, 2, 3];

    for i in 0..9 {
        let l = expected_order[i];
        let r = expected_order[i + 1];

        assert!(code_len_of(&dictionary, l) <= code_len_of(&dictionary, r));
    }
}

#[test]
fn test_dictionary_build_is_stable() {
    let words = table_of(&[
        (0, 30),
        (1, 100),
        (2, 20),
        (3, 10),
        (4, 10),
        (5, 50),
        (6, 25),
        (7, 50),
        (8, 25),
        (9, 10),
    ]);

    let dictionary = build_dictionary(&words);

    for _ in 0..5 {
        let dictionary2 = build_dictionary(&words);

        assert!(books_equal(&dictionary, &dictionary2));
    }
}

#[test]
fn test_build_empty_dictionary() {
    let words = table_of(&[]);
    let dictionary = build_dictionary(&words);

    assert_eq!(dictionary.len(), 0);
}

#[test]
fn test_dictionary_compression_decompression() {
    let mut dictionary = Codebook::new();
    dictionary.insert(1, BitVec::from_bytes(&[0b01011111, 0b10100000]));
    dictionary.insert(2, BitVec::from_fn(11, |i| i % 2 == 0));
    dictionary.insert(3, BitVec::from_bytes(&[0b01011111, 0b10100000]));
    dictionary.insert(4, BitVec::from_fn(13, |i| i % 3 == 0));
    dictionary.insert(5, BitVec::from_bytes(&[0b11001100, 0b11110000]));
    dictionary.insert(6, BitVec::from_fn(17, |i| i % 5 == 0));

    let compressed_dict = manpack::codebook::compress_dictionary(&dictionary);
    let decompressed_dict =
        manpack::codebook::decompress_dictionary(&compressed_dict).expect("dictionary parse");

    assert!(books_equal(&dictionary, &decompressed_dict));
}

#[test]
fn test_data_compression_decompression() {
    let mut dictionary = Codebook::new();
    dictionary.insert(1, BitVec::from_bytes(&[0b10000000]));
    dictionary.insert(2, BitVec::from_bytes(&[0b01000000]));
    dictionary.insert(3, BitVec::from_bytes(&[0b00100000]));
    dictionary.insert(4, BitVec::from_bytes(&[0b00010000]));
    dictionary.insert(5, BitVec::from_bytes(&[0b00001000]));
    dictionary.insert(6, BitVec::from_bytes(&[0b00000100]));
    dictionary.insert(7, BitVec::from_bytes(&[0b00000010]));
    dictionary.insert(8, BitVec::from_bytes(&[0b00000001]));

    let data = vec![1, 1, 6, 5, 4, 3, 2, 6, 5, 4, 3, 2, 1, 1, 5];

    let compressed_data = compress_data(&dictionary, &data[..]);
    let decompressed_data = decompress_data(&dictionary, &compressed_data).expect("data decode");

    assert_eq!(data, decompressed_data);
}

#[test]
fn test_search_tree_() {
    let words = table_of(&[
        (0, 30),
        (1, 100),
        (2, 20),
        (3, 10),
        (4, 10),
        (5, 50),
        (6, 25),
        (7, 50),
        (8, 25),
        (9, 10),
    ]);

    let dictionary = build_dictionary(&words);
    let mut search_tree = SearchTree::new();

    for i in 0..dictionary.len() {
        let code = manpack::bits::bv_from_bools(&dictionary.code_bools_at(i));
        search_tree.insert(&code, dictionary.word_at(i));
    }
}

#[test]
fn frequent_words_get_no_longer_codes() {
    // the seed image weighs {1,3,5,7} at three occurrences each and
    // {2,4,6,8} at two, and its tree gives every pixel a 3-bit code, so
    // the more frequent pixels' codes are never longer
    let pixels: Vec<u32> = vec![1, 2, 3, 4, 1, 2, 3, 4, 5, 6, 7, 8, 5, 6, 7, 8, 1, 3, 5, 7];
    let book = build_dictionary(&calculate_weights(&pixels));
    for frequent in [1u32, 3, 5, 7] {
        for rare in [2u32, 4, 6, 8] {
            assert!(code_len_of(&book, frequent) <= code_len_of(&book, rare));
        }
    }
}

#[test]
fn single_symbol_gets_one_bit_code() {
    let book = build_dictionary(&calculate_weights(&[42u32, 42, 42, 42]));
    assert_eq!(book.len(), 1);
    assert_eq!(book.word_at(0), 42);
    assert_eq!(book.code_bools_at(0), vec![false]);
}

#[test]
fn decode_rejects_prefix_conflict() {
    let mut book = Codebook::new();
    book.insert(1, BitVec::from_fn(1, |_| false));
    book.insert(2, BitVec::from_fn(2, |i| i == 1));
    let bits = BitVec::from_fn(2, |_| false);
    assert_eq!(
        decompress_data(&book, &bits),
        Err(manpack::errors::DecodeError::ConflictingCode)
    );
}

#[test]
fn decode_rejects_dangling_path() {
    // codes 00 and 01: a stream ending inside the right subtree dangles
    let mut book = Codebook::new();
    book.insert(1, BitVec::from_fn(2, |_| false));
    book.insert(2, BitVec::from_fn(2, |i| i == 1));
    let bits = BitVec::from_fn(1, |_| true);
    assert_eq!(
        decompress_data(&book, &bits),
        Err(manpack::errors::DecodeError::PartialCode)
    );
}

#[test]
fn dictionary_bytes_are_reproducible() {
    let words = table_of(&[(0, 30), (1, 100), (2, 20), (3, 10), (4, 10), (5, 50)]);
    let a = manpack::codebook::compress_dictionary(&build_dictionary(&words)).to_bytes();
    let b = manpack::codebook::compress_dictionary(&build_dictionary(&words)).to_bytes();
    assert_eq!(a, b);
}
