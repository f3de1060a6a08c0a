//! The code book: a finite mapping from words to prefix-free codes, and
//! its bit-level wire form.
//!
//! On the wire a code book is `words_count (32-bit LE)`, `word_size
//! (8 bits)`, then every word (32 bits each), then for every word in the
//! same order its code length (8 bits) and the code itself.  The encoder
//! keeps entries sorted ascending by word so the emitted bytes are a
//! function of the mapping alone.

use vstd::prelude::*;

use crate::bits::{
    bits_to_byte, bv_copy, bv_len, bv_new, byte_bits, extract, lemma_byte_bits_of_bits_to_byte,
    lemma_bits_to_byte_of_byte_bits, lemma_le_u32_of_u32_le_bits, le_u32_of, push_byte,
    push_u32_le, read_byte, read_u32_le, stream, u32_le_bits, bv_append, bv_to_bools,
};
use crate::errors::DecodeError;

verus! {

/// One code-book entry: a word and its code.
pub struct CodeEntry {
    pub word: u32,
    pub code: bit_vec::BitVec,
}

/// The mapping from words to codes, ordered ascending by word.
pub struct Codebook {
    pub entries: Vec<CodeEntry>,
}

impl View for Codebook {
    type V = Seq<(u32, Seq<bool>)>;

    open spec fn view(&self) -> Seq<(u32, Seq<bool>)> {
        self.entries@.map(|i: int, e: CodeEntry| (e.word, stream(e.code)))
    }
}

/// Entries strictly ascending by word: each word appears once.
pub open spec fn book_sorted(b: Seq<(u32, Seq<bool>)>) -> bool {
    forall|i: int, j: int| 0 <= i < j < b.len() ==> b[i].0 < b[j].0
}

/// Whether some entry carries `w`.
pub open spec fn book_has_word(b: Seq<(u32, Seq<bool>)>, w: u32) -> bool {
    exists|i: int| 0 <= i < b.len() && b[i].0 == w
}

/// The code of the first entry carrying `w`; empty where `w` is absent.
pub open spec fn book_code(b: Seq<(u32, Seq<bool>)>, w: u32) -> Seq<bool>
    decreases b.len(),
{
    if b.len() == 0 {
        Seq::empty()
    } else if b[0].0 == w {
        b[0].1
    } else {
        book_code(b.drop_first(), w)
    }
}

/// `p` is an initial segment of `s`.
pub open spec fn is_prefix(p: Seq<bool>, s: Seq<bool>) -> bool {
    p.len() <= s.len() && s.subrange(0, p.len() as int) == p
}

/// No entry's code is an initial segment of another entry's code; in
/// particular no two entries share a code.
pub open spec fn book_prefix_free(b: Seq<(u32, Seq<bool>)>) -> bool {
    forall|i: int, j: int|
        0 <= i < b.len() && 0 <= j < b.len() && i != j ==> !is_prefix(#[trigger] b[i].1, #[trigger] b[j].1)
}

/// Every code has at least one bit.
pub open spec fn codes_nonempty(b: Seq<(u32, Seq<bool>)>) -> bool {
    forall|i: int| 0 <= i < b.len() ==> (#[trigger] b[i].1).len() >= 1
}

/// Every code fits the one-byte length field of the wire form.
pub open spec fn codes_fit(b: Seq<(u32, Seq<bool>)>) -> bool {
    forall|i: int| 0 <= i < b.len() ==> (#[trigger] b[i].1).len() <= 255
}

/// A book that every part of the codec accepts.
pub open spec fn book_wf(b: Seq<(u32, Seq<bool>)>) -> bool {
    &&& book_sorted(b)
    &&& book_prefix_free(b)
    &&& codes_nonempty(b)
    &&& codes_fit(b)
    &&& b.len() <= u32::MAX
}

/// Insert `e` at the ordered position of its word; an entry already
/// carrying the word is replaced.
pub open spec fn spec_insert_sorted(b: Seq<(u32, Seq<bool>)>, e: (u32, Seq<bool>)) -> Seq<
    (u32, Seq<bool>),
>
    decreases b.len(),
{
    if b.len() == 0 {
        seq![e]
    } else if e.0 == b[0].0 {
        seq![e] + b.drop_first()
    } else if e.0 < b[0].0 {
        seq![e] + b
    } else {
        seq![b[0]] + spec_insert_sorted(b.drop_first(), e)
    }
}

/// `spec_insert_sorted` acts at the first position whose word is not
/// below the inserted word.
pub proof fn lemma_insert_sorted_at(b: Seq<(u32, Seq<bool>)>, e: (u32, Seq<bool>), idx: int)
    requires
        0 <= idx <= b.len(),
        forall|j: int| 0 <= j < idx ==> (#[trigger] b[j]).0 < e.0,
        idx < b.len() ==> b[idx].0 >= e.0,
    ensures
        spec_insert_sorted(b, e) == if idx < b.len() && b[idx].0 == e.0 {
            b.update(idx, e)
        } else {
            b.insert(idx, e)
        },
    decreases b.len(),
{
    let r = spec_insert_sorted(b, e);
    if b.len() == 0 {
        assert(r =~= b.insert(0, e));
    } else if e.0 == b[0].0 {
        assert(idx == 0);
        assert(r =~= b.update(0, e));
    } else if e.0 < b[0].0 {
        assert(idx == 0);
        assert(r =~= b.insert(0, e));
    } else {
        assert(idx >= 1);
        lemma_insert_sorted_at(b.drop_first(), e, idx - 1);
        if idx < b.len() && b[idx].0 == e.0 {
            assert(b.drop_first()[idx - 1] == b[idx]);
            assert(r =~= b.update(idx, e));
        } else {
            assert(r =~= b.insert(idx, e));
        }
    }
}

impl Codebook {
    /// An empty mapping.
    pub fn new() -> (r: Codebook)
        ensures
            r@ =~= Seq::<(u32, Seq<bool>)>::empty(),
    {
        Codebook { entries: Vec::new() }
    }

    /// The number of entries.
    pub fn len(&self) -> (r: usize)
        ensures
            r == self@.len(),
    {
        self.entries.len()
    }

    /// The word of the entry at `i`.
    pub fn word_at(&self, i: usize) -> (r: u32)
        requires
            i < self@.len(),
        ensures
            r == self@[i as int].0,
    {
        self.entries[i].word
    }

    /// The length in bits of the code of the entry at `i`.
    pub fn code_len_at(&self, i: usize) -> (r: usize)
        requires
            i < self@.len(),
        ensures
            r == self@[i as int].1.len(),
    {
        bv_len(&self.entries[i].code)
    }

    /// The code of the entry at `i`, bit by bit.
    pub fn code_bools_at(&self, i: usize) -> (r: Vec<bool>)
        requires
            i < self@.len(),
        ensures
            r@ == self@[i as int].1,
    {
        bv_to_bools(&self.entries[i].code)
    }

    /// Takes `code` as the code of `word`, keeping entries ordered.
    pub fn insert(&mut self, word: u32, code: bit_vec::BitVec)
        ensures
            final(self)@ == spec_insert_sorted(old(self)@, (word, stream(code))),
    {
        let n: usize = self.entries.len();
        let mut idx: usize = 0;
        while idx < n && self.entries[idx].word < word
            invariant
                idx <= n,
                n == self@.len(),
                *self == *old(self),
                forall|j: int| 0 <= j < idx ==> (#[trigger] self@[j]).0 < word,
            decreases n - idx,
        {
            idx += 1;
        }
        proof {
            lemma_insert_sorted_at(self@, (word, stream(code)), idx as int);
        }
        if idx < n && self.entries[idx].word == word {
            self.entries[idx] = CodeEntry { word, code };
            assert(final(self)@ =~= old(self)@.update(idx as int, (word, stream(code))));
        } else {
            self.entries.insert(idx, CodeEntry { word, code });
            assert(final(self)@ =~= old(self)@.insert(idx as int, (word, stream(code))));
        }
    }

    /// The position of the entry carrying `w`, if any.
    pub fn find(&self, w: u32) -> (r: Option<usize>)
        ensures
            match r {
                Some(i) => i < self@.len() && self@[i as int].0 == w && forall|j: int|
                    0 <= j < i ==> (#[trigger] self@[j]).0 != w,
                None => !book_has_word(self@, w),
            },
    {
        let n: usize = self.entries.len();
        let mut i: usize = 0;
        while i < n
            invariant
                i <= n,
                n == self@.len(),
                forall|j: int| 0 <= j < i ==> (#[trigger] self@[j]).0 != w,
            decreases n - i,
        {
            if self.entries[i].word == w {
                return Some(i);
            }
            i += 1;
        }
        None
    }
}

// ---------------------------------------------------------------------
// Wire form.
// ---------------------------------------------------------------------

/// The bits of all words, 32 bits each, in entry order.
pub open spec fn words_bits(b: Seq<(u32, Seq<bool>)>) -> Seq<bool>
    decreases b.len(),
{
    if b.len() == 0 {
        Seq::empty()
    } else {
        u32_le_bits(b[0].0) + words_bits(b.drop_first())
    }
}

/// The bits of one code record: its length in one byte, then the code.
pub open spec fn code_seg(e: (u32, Seq<bool>)) -> Seq<bool> {
    byte_bits(e.1.len() as u8) + e.1
}

/// The bits of all code records, in entry order.
pub open spec fn codes_bits(b: Seq<(u32, Seq<bool>)>) -> Seq<bool>
    decreases b.len(),
{
    if b.len() == 0 {
        Seq::empty()
    } else {
        code_seg(b[0]) + codes_bits(b.drop_first())
    }
}

/// The whole wire form of a code book.
pub open spec fn spec_book_bits(b: Seq<(u32, Seq<bool>)>) -> Seq<bool> {
    u32_le_bits(b.len() as u32) + byte_bits(4u8) + words_bits(b) + codes_bits(b)
}

/// `words_bits` distributes over concatenation.
pub proof fn lemma_words_bits_app(x: Seq<(u32, Seq<bool>)>, y: Seq<(u32, Seq<bool>)>)
    ensures
        words_bits(x + y) == words_bits(x) + words_bits(y),
    decreases x.len(),
{
    if x.len() == 0 {
        assert(x + y =~= y);
        assert(words_bits(x) + words_bits(y) =~= words_bits(y));
    } else {
        lemma_words_bits_app(x.drop_first(), y);
        assert((x + y).drop_first() =~= x.drop_first() + y);
        assert((x + y)[0] == x[0]);
        assert(u32_le_bits(x[0].0) + (words_bits(x.drop_first()) + words_bits(y)) =~= (u32_le_bits(
            x[0].0,
        ) + words_bits(x.drop_first())) + words_bits(y));
    }
}

/// `codes_bits` distributes over concatenation.
pub proof fn lemma_codes_bits_app(x: Seq<(u32, Seq<bool>)>, y: Seq<(u32, Seq<bool>)>)
    ensures
        codes_bits(x + y) == codes_bits(x) + codes_bits(y),
    decreases x.len(),
{
    if x.len() == 0 {
        assert(x + y =~= y);
        assert(codes_bits(x) + codes_bits(y) =~= codes_bits(y));
    } else {
        lemma_codes_bits_app(x.drop_first(), y);
        assert((x + y).drop_first() =~= x.drop_first() + y);
        assert((x + y)[0] == x[0]);
        assert(code_seg(x[0]) + (codes_bits(x.drop_first()) + codes_bits(y)) =~= (code_seg(x[0])
            + codes_bits(x.drop_first())) + codes_bits(y));
    }
}

/// Taking one more entry appends its 32 word bits.
pub proof fn lemma_words_bits_take_succ(b: Seq<(u32, Seq<bool>)>, i: int)
    requires
        0 <= i < b.len(),
    ensures
        words_bits(b.take(i + 1)) == words_bits(b.take(i)) + u32_le_bits(b[i].0),
{
    assert(b.take(i + 1) =~= b.take(i) + seq![b[i]]);
    lemma_words_bits_app(b.take(i), seq![b[i]]);
    let s1 = seq![b[i]];
    assert(s1.len() == 1 && s1[0] == b[i]);
    assert(s1.drop_first() =~= Seq::<(u32, Seq<bool>)>::empty());
    assert(words_bits(s1) == u32_le_bits(s1[0].0) + words_bits(s1.drop_first()));
    assert(words_bits(s1) =~= u32_le_bits(b[i].0));
}

/// Taking one more entry appends its code record.
pub proof fn lemma_codes_bits_take_succ(b: Seq<(u32, Seq<bool>)>, i: int)
    requires
        0 <= i < b.len(),
    ensures
        codes_bits(b.take(i + 1)) == codes_bits(b.take(i)) + code_seg(b[i]),
{
    assert(b.take(i + 1) =~= b.take(i) + seq![b[i]]);
    lemma_codes_bits_app(b.take(i), seq![b[i]]);
    let s1 = seq![b[i]];
    assert(s1.len() == 1 && s1[0] == b[i]);
    assert(s1.drop_first() =~= Seq::<(u32, Seq<bool>)>::empty());
    assert(codes_bits(s1) == code_seg(s1[0]) + codes_bits(s1.drop_first()));
    assert(codes_bits(s1) =~= code_seg(b[i]));
}

/// Serializes the code book.
///
/// Entries are emitted in stored order; the book keeps them sorted by
/// word, so the output is a function of the mapping alone.
pub fn compress_dictionary(book: &Codebook) -> (r: bit_vec::BitVec)
    requires
        spec_book_bits(book@).len() <= usize::MAX,
    ensures
        stream(r) == spec_book_bits(book@),
{
    let ghost b = book@;
    let mut out: bit_vec::BitVec = bv_new();
    let n: usize = book.len();
    proof {
        assert(words_bits(b).len() >= 0);
    }
    push_u32_le(&mut out, n as u32);
    push_byte(&mut out, 4);
    let ghost head = u32_le_bits(b.len() as u32) + byte_bits(4u8);
    assert(stream(out) =~= head);
    let mut i: usize = 0;
    while i < n
        invariant
            i <= n,
            n == b.len(),
            book@ == b,
            head == u32_le_bits(b.len() as u32) + byte_bits(4u8),
            spec_book_bits(b).len() <= usize::MAX,
            stream(out) =~= head + words_bits(b.take(i as int)),
        decreases n - i,
    {
        proof {
            lemma_words_bits_take_succ(b, i as int);
            lemma_book_bits_words_prefix(b, i as int);
        }
        push_u32_le(&mut out, book.word_at(i));
        assert(stream(out) =~= head + words_bits(b.take(i + 1)));
        i += 1;
    }
    assert(b.take(n as int) =~= b);
    let mut i: usize = 0;
    while i < n
        invariant
            i <= n,
            n == b.len(),
            book@ == b,
            head == u32_le_bits(b.len() as u32) + byte_bits(4u8),
            spec_book_bits(b).len() <= usize::MAX,
            stream(out) =~= head + words_bits(b) + codes_bits(b.take(i as int)),
        decreases n - i,
    {
        proof {
            lemma_codes_bits_take_succ(b, i as int);
            lemma_book_bits_codes_prefix(b, i as int);
        }
        let len: usize = book.code_len_at(i);
        push_byte(&mut out, len as u8);
        bv_append(&mut out, &book.entries[i].code);
        proof {
            assert(stream(book.entries@[i as int].code) == b[i as int].1);
            assert(byte_bits(len as u8) + b[i as int].1 =~= code_seg(b[i as int]));
            assert(stream(out) =~= head + words_bits(b) + codes_bits(b.take(i + 1)));
        }
        i += 1;
    }
    assert(b.take(n as int) =~= b);
    assert(stream(out) =~= spec_book_bits(b));
    out
}

/// The wire form up to word `i` is no longer than the whole wire form.
proof fn lemma_book_bits_words_prefix(b: Seq<(u32, Seq<bool>)>, i: int)
    requires
        0 <= i < b.len(),
    ensures
        40 + words_bits(b.take(i)).len() + 32 <= spec_book_bits(b).len(),
    decreases b.len() - i,
{
    lemma_words_bits_take_succ(b, i);
    if i + 1 == b.len() {
        assert(b.take(i + 1) =~= b);
    } else {
        lemma_book_bits_words_prefix(b, i + 1);
    }
}

/// The wire form up to code record `i` is no longer than the whole wire
/// form.
proof fn lemma_book_bits_codes_prefix(b: Seq<(u32, Seq<bool>)>, i: int)
    requires
        0 <= i < b.len(),
    ensures
        40 + words_bits(b).len() + codes_bits(b.take(i)).len() + code_seg(b[i]).len()
            <= spec_book_bits(b).len(),
    decreases b.len() - i,
{
    lemma_codes_bits_take_succ(b, i);
    if i + 1 == b.len() {
        assert(b.take(i + 1) =~= b);
    } else {
        lemma_book_bits_codes_prefix(b, i + 1);
    }
}

// ---------------------------------------------------------------------
// Parsing the wire form.
// ---------------------------------------------------------------------

/// A window of `s` equal to a concatenation splits into two windows.
pub proof fn lemma_subrange_split(s: Seq<bool>, pos: int, x: Seq<bool>, y: Seq<bool>)
    requires
        0 <= pos,
        pos + x.len() + y.len() <= s.len(),
        s.subrange(pos, pos + x.len() + y.len()) == x + y,
    ensures
        s.subrange(pos, pos + x.len()) == x,
        s.subrange(pos + x.len(), pos + x.len() + y.len()) == y,
{
    let w = s.subrange(pos, pos + x.len() + y.len());
    assert forall|k: int| 0 <= k < x.len() implies s.subrange(pos, pos + x.len())[k] == x[k] by {
        assert(w[k] == (x + y)[k]);
    }
    assert(s.subrange(pos, pos + x.len()) =~= x);
    assert forall|k: int|
        0 <= k < y.len() implies s.subrange(pos + x.len(), pos + x.len() + y.len())[k] == y[k] by {
        assert(w[x.len() + k] == (x + y)[x.len() + k]);
    }
    assert(s.subrange(pos + x.len(), pos + x.len() + y.len()) =~= y);
}

/// Parses `k` words of 32 bits each at `pos`.
pub open spec fn spec_parse_words(s: Seq<bool>, pos: int, k: nat) -> Result<Seq<u32>, DecodeError>
    decreases k,
{
    if k == 0 {
        Ok(Seq::empty())
    } else if pos + 32 > s.len() {
        Err(DecodeError::TruncatedStream)
    } else {
        match spec_parse_words(s, pos + 32, (k - 1) as nat) {
            Ok(rest) => Ok(seq![le_u32_of(s.subrange(pos, pos + 32))] + rest),
            Err(e) => Err(e),
        }
    }
}

/// Parses one code record per word at `pos`: a one-byte length, then that
/// many bits.  Returns the entries and the position after the last record.
pub open spec fn spec_parse_codes(s: Seq<bool>, pos: int, words: Seq<u32>) -> Result<
    (Seq<(u32, Seq<bool>)>, int),
    DecodeError,
>
    decreases words.len(),
{
    if words.len() == 0 {
        Ok((Seq::empty(), pos))
    } else if pos + 8 > s.len() {
        Err(DecodeError::TruncatedStream)
    } else {
        let l = bits_to_byte(s.subrange(pos, pos + 8)) as int;
        if l == 0 {
            Err(DecodeError::EmptyCodeSlot)
        } else if pos + 8 + l > s.len() {
            Err(DecodeError::TruncatedStream)
        } else {
            match spec_parse_codes(s, pos + 8 + l, words.drop_first()) {
                Ok(pr) => Ok((seq![(words[0], s.subrange(pos + 8, pos + 8 + l))] + pr.0, pr.1)),
                Err(e) => Err(e),
            }
        }
    }
}

/// Parses a whole code-book section.  It must be consumed exactly.
pub open spec fn spec_parse_book(s: Seq<bool>) -> Result<Seq<(u32, Seq<bool>)>, DecodeError> {
    if s.len() < 40 {
        Err(DecodeError::TruncatedStream)
    } else {
        let n = le_u32_of(s.subrange(0, 32));
        let ws = bits_to_byte(s.subrange(32, 40));
        if ws != 4 {
            Err(DecodeError::UnsupportedWordSize)
        } else {
            match spec_parse_words(s, 40, n as nat) {
                Err(e) => Err(e),
                Ok(words) => match spec_parse_codes(s, 40 + 32 * (n as int), words) {
                    Err(e) => Err(e),
                    Ok(pr) => if pr.1 == s.len() {
                        Ok(pr.0)
                    } else {
                        Err(DecodeError::ResidualData)
                    },
                },
            }
        }
    }
}

/// Deserializes a code-book section, in wire order.
#[verifier::loop_isolation(false)]
pub fn decompress_dictionary(bv: &bit_vec::BitVec) -> (r: Result<Codebook, DecodeError>)
    ensures
        match r {
            Ok(book) => spec_parse_book(stream(*bv)) == Ok::<
                Seq<(u32, Seq<bool>)>,
                DecodeError,
            >(book@),
            Err(e) => spec_parse_book(stream(*bv)) == Err::<Seq<(u32, Seq<bool>)>, DecodeError>(e),
        },
{
    let ghost s = stream(*bv);
    let s_len: usize = bv_len(bv);
    if s_len < 40 {
        return Err(DecodeError::TruncatedStream);
    }
    let n_words: u32 = read_u32_le(bv, 0);
    proof {
        lemma_le_u32_of_u32_le_bits(n_words);
    }
    let word_size: u8 = read_byte(bv, 32);
    proof {
        lemma_bits_to_byte_of_byte_bits(word_size);
    }
    if word_size != 4 {
        return Err(DecodeError::UnsupportedWordSize);
    }
    let ghost n_spec = n_words as nat;
    let mut words: Vec<u32> = Vec::new();
    let mut pos: usize = 40;
    let mut i: u32 = 0;
    while i < n_words
        invariant
            i <= n_words,
            40 <= pos <= s_len,
            s == stream(*bv),
            s_len == s.len(),
            pos == 40 + 32 * (i as int),
            words@.len() == i as nat,
            spec_parse_words(s, 40, n_spec) == match spec_parse_words(
                s,
                pos as int,
                (n_words - i) as nat,
            ) {
                Ok(rest) => Ok::<Seq<u32>, DecodeError>(words@ + rest),
                Err(e) => Err::<Seq<u32>, DecodeError>(e),
            },
        decreases n_words - i,
    {
        if s_len - pos < 32 {
            proof {
                assert(spec_parse_words(s, pos as int, (n_words - i) as nat)
                    == Err::<Seq<u32>, DecodeError>(DecodeError::TruncatedStream));
            }
            return Err(DecodeError::TruncatedStream);
        }
        let v: u32 = read_u32_le(bv, pos);
        proof {
            lemma_le_u32_of_u32_le_bits(v);
            assert(le_u32_of(s.subrange(pos as int, pos + 32)) == v);
            let rest_r = spec_parse_words(s, pos + 32, (n_words - i - 1) as nat);
            match rest_r {
                Ok(rest) => {
                    assert(words@ + (seq![v] + rest) =~= (words@.push(v)) + rest);
                },
                Err(_) => {},
            }
        }
        words.push(v);
        pos += 32;
        i += 1;
    }
    assert(spec_parse_words(s, 40, n_spec) == Ok::<Seq<u32>, DecodeError>(words@));
    let ghost all_words = words@;
    let n_usize: usize = words.len();
    let mut book = Codebook { entries: Vec::new() };
    proof {
        assert(book@ =~= Seq::<(u32, Seq<bool>)>::empty());
        assert(all_words.skip(0) =~= all_words);
        match spec_parse_codes(s, pos as int, all_words) {
            Ok(pr) => {
                assert(book@ + pr.0 =~= pr.0);
            },
            Err(_) => {},
        }
    }
    let mut j: usize = 0;
    while j < n_usize
        invariant
            j <= n_usize,
            40 <= pos <= s_len,
            s == stream(*bv),
            s_len == s.len(),
            n_usize == all_words.len(),
            words@ == all_words,
            book@.len() == j as nat,
            spec_parse_codes(s, 40 + 32 * (all_words.len() as int), all_words) == match
                spec_parse_codes(s, pos as int, all_words.skip(j as int)) {
                Ok(pr) => Ok::<(Seq<(u32, Seq<bool>)>, int), DecodeError>((book@ + pr.0, pr.1)),
                Err(e) => Err::<(Seq<(u32, Seq<bool>)>, int), DecodeError>(e),
            },
        decreases n_usize - j,
    {
        let ghost rem = all_words.skip(j as int);
        proof {
            assert(rem.len() == n_usize - j);
            assert(rem[0] == all_words[j as int]);
            assert(rem.drop_first() =~= all_words.skip(j + 1));
        }
        if s_len - pos < 8 {
            return Err(DecodeError::TruncatedStream);
        }
        let len_byte: u8 = read_byte(bv, pos);
        proof {
            lemma_bits_to_byte_of_byte_bits(len_byte);
            assert(bits_to_byte(s.subrange(pos as int, pos + 8)) == len_byte);
        }
        if len_byte == 0 {
            return Err(DecodeError::EmptyCodeSlot);
        }
        let clen: usize = len_byte as usize;
        if s_len - pos - 8 < clen {
            return Err(DecodeError::TruncatedStream);
        }
        let code: bit_vec::BitVec = extract(bv, pos + 8, clen);
        proof {
            let inner = spec_parse_codes(s, pos + 8 + clen, rem.drop_first());
            match inner {
                Ok(pr) => {
                    assert(book@ + (seq![(rem[0], s.subrange(pos + 8, pos + 8 + clen))] + pr.0)
                        =~= (book@.push((rem[0], s.subrange(pos + 8, pos + 8 + clen)))) + pr.0);
                },
                Err(_) => {},
            }
        }
        let w: u32 = words[j];
        let ghost prev_book = book@;
        book.entries.push(CodeEntry { word: w, code });
        proof {
            assert(book@ =~= prev_book.push((w, s.subrange(pos + 8, pos + 8 + clen))));
        }
        pos = pos + 8 + clen;
        j += 1;
    }
    proof {
        assert(all_words.skip(n_usize as int) =~= Seq::<u32>::empty());
    }
    if pos != s_len {
        return Err(DecodeError::ResidualData);
    }
    Ok(book)
}

// ---------------------------------------------------------------------
// Round trip: parsing what was serialized gives the entries back.
// ---------------------------------------------------------------------

/// The word section is 32 bits per entry.
pub proof fn lemma_words_bits_len(b: Seq<(u32, Seq<bool>)>)
    ensures
        words_bits(b).len() == 32 * b.len(),
    decreases b.len(),
{
    if b.len() > 0 {
        lemma_words_bits_len(b.drop_first());
    }
}

/// The words of the entries, in order.
pub open spec fn book_words(b: Seq<(u32, Seq<bool>)>) -> Seq<u32> {
    b.map(|i: int, e: (u32, Seq<bool>)| e.0)
}

proof fn lemma_parse_words_round(s: Seq<bool>, pos: int, b: Seq<(u32, Seq<bool>)>)
    requires
        0 <= pos,
        pos + 32 * b.len() <= s.len(),
        s.subrange(pos, pos + 32 * b.len()) == words_bits(b),
    ensures
        spec_parse_words(s, pos, b.len()) == Ok::<Seq<u32>, DecodeError>(book_words(b)),
    decreases b.len(),
{
    if b.len() == 0 {
        assert(book_words(b) =~= Seq::<u32>::empty());
    } else {
        let tail = b.drop_first();
        lemma_words_bits_len(tail);
        assert(words_bits(b) == u32_le_bits(b[0].0) + words_bits(tail));
        lemma_subrange_split(s, pos, u32_le_bits(b[0].0), words_bits(tail));
        lemma_le_u32_of_u32_le_bits(b[0].0);
        lemma_parse_words_round(s, pos + 32, tail);
        assert(book_words(b) =~= seq![b[0].0] + book_words(tail));
    }
}

proof fn lemma_parse_codes_round(s: Seq<bool>, pos: int, b: Seq<(u32, Seq<bool>)>)
    requires
        0 <= pos,
        pos + codes_bits(b).len() <= s.len(),
        s.subrange(pos, pos + codes_bits(b).len()) == codes_bits(b),
        codes_nonempty(b),
        codes_fit(b),
    ensures
        spec_parse_codes(s, pos, book_words(b)) == Ok::<
            (Seq<(u32, Seq<bool>)>, int),
            DecodeError,
        >((b, pos + codes_bits(b).len())),
    decreases b.len(),
{
    if b.len() == 0 {
        assert(book_words(b) =~= Seq::<u32>::empty());
        assert(b =~= Seq::<(u32, Seq<bool>)>::empty());
    } else {
        let tail = b.drop_first();
        let l = b[0].1.len() as int;
        assert(codes_bits(b) == code_seg(b[0]) + codes_bits(tail));
        assert(code_seg(b[0]).len() == 8 + l);
        let ws = book_words(b);
        assert(ws.len() == b.len());
        assert(ws[0] == b[0].0);
        assert(ws.drop_first() =~= book_words(tail));
        assert(codes_bits(b) =~= byte_bits(b[0].1.len() as u8) + (b[0].1 + codes_bits(tail)));
        assert((b[0].1 + codes_bits(tail)).len() == l + codes_bits(tail).len());
        lemma_subrange_split(s, pos, byte_bits(b[0].1.len() as u8), b[0].1 + codes_bits(tail));
        lemma_subrange_split(s, pos + 8, b[0].1, codes_bits(tail));
        lemma_bits_to_byte_of_byte_bits(b[0].1.len() as u8);
        assert(bits_to_byte(s.subrange(pos, pos + 8)) as int == l);
        lemma_parse_codes_round(s, pos + 8 + l, tail);
        assert(b[0].1.len() >= 1);
        let l_spec = bits_to_byte(s.subrange(pos, pos + 8)) as int;
        assert(l_spec == l);
        assert(spec_parse_codes(s, pos + 8 + l, ws.drop_first()) == Ok::<
            (Seq<(u32, Seq<bool>)>, int),
            DecodeError,
        >((tail, pos + 8 + l + codes_bits(tail).len())));
        assert(spec_parse_codes(s, pos, ws) == Ok::<(Seq<(u32, Seq<bool>)>, int), DecodeError>((
            seq![(ws[0], s.subrange(pos + 8, pos + 8 + l))] + tail,
            pos + 8 + l + codes_bits(tail).len(),
        )));
        assert((b[0].0, b[0].1) == b[0]);
        assert(s.subrange(pos + 8, pos + 8 + l) == b[0].1);
        assert(seq![(ws[0], s.subrange(pos + 8, pos + 8 + l))] + tail =~~= b);
        assert(pos + 8 + l + codes_bits(tail).len() == pos + codes_bits(b).len());
    }
}

/// Parsing the serialized form of a book yields its entries, in order.
#[verifier::rlimit(100)]
pub proof fn lemma_parse_book_round(b: Seq<(u32, Seq<bool>)>)
    requires
        b.len() <= u32::MAX,
        codes_nonempty(b),
        codes_fit(b),
    ensures
        spec_parse_book(spec_book_bits(b)) == Ok::<Seq<(u32, Seq<bool>)>, DecodeError>(b),
{
    let s = spec_book_bits(b);
    lemma_words_bits_len(b);
    let wlen: int = 32 * b.len() as int;
    let clen = codes_bits(b).len() as int;
    assert(s.len() == 40 + wlen + clen);
    assert(s.subrange(0, s.len() as int) =~= s);
    assert(s =~= u32_le_bits(b.len() as u32) + (byte_bits(4u8) + words_bits(b) + codes_bits(b)));
    lemma_subrange_split(s, 0, u32_le_bits(b.len() as u32), byte_bits(4u8) + words_bits(b)
        + codes_bits(b));
    assert(byte_bits(4u8) + words_bits(b) + codes_bits(b) =~= byte_bits(4u8) + (words_bits(b)
        + codes_bits(b)));
    lemma_subrange_split(s, 32, byte_bits(4u8), words_bits(b) + codes_bits(b));
    lemma_subrange_split(s, 40, words_bits(b), codes_bits(b));
    lemma_le_u32_of_u32_le_bits(b.len() as u32);
    lemma_bits_to_byte_of_byte_bits(4u8);
    let n = le_u32_of(s.subrange(0, 32));
    assert(n == b.len() as u32);
    assert(n as int == b.len());
    lemma_parse_words_round(s, 40, b);
    lemma_parse_codes_round(s, 40 + wlen, b);
}

} // verus!
