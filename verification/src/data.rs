//! The data codec: emitting the code of every input word, and decoding a
//! bit stream by walking a binary search tree built from the code book.
//!
//! The search tree is built fresh from the code book — never shared with
//! the encoder's Huffman tree — so decoding costs one tree step per bit.
//! A book whose codes collide (a repeated word, or one code a prefix of
//! another) admits no such tree and is rejected as malformed.

use vstd::prelude::*;

use crate::bits::{bv_append, bv_get, bv_len, bv_new, stream};
use crate::codebook::{
    book_code, book_has_word, book_prefix_free, codes_nonempty, is_prefix, Codebook,
};
use crate::errors::DecodeError;

verus! {

/// A node of the decoding tree: empty, a decoded word, or two subtrees
/// picked by the next bit.
pub enum SearchNode {
    Empty,
    Leaf { value: u32 },
    Node { left: Box<SearchNode>, right: Box<SearchNode> },
}

/// The decoding tree.
pub struct SearchTree {
    pub root: SearchNode,
}

/// The word at the end of path `p`, if a leaf sits exactly there.
pub open spec fn lookup(n: SearchNode, p: Seq<bool>) -> Option<u32>
    decreases p.len(),
{
    match n {
        SearchNode::Empty => None,
        SearchNode::Leaf { value } => if p.len() == 0 {
            Some(value)
        } else {
            None
        },
        SearchNode::Node { left, right } => if p.len() == 0 {
            None
        } else if p[0] {
            lookup(*right, p.drop_first())
        } else {
            lookup(*left, p.drop_first())
        },
    }
}

/// Whether a leaf can be placed at the end of path `p` without crossing
/// or landing on anything.
pub open spec fn node_free(n: SearchNode, p: Seq<bool>) -> bool
    decreases p.len(),
{
    match n {
        SearchNode::Empty => true,
        SearchNode::Leaf { .. } => false,
        SearchNode::Node { left, right } => if p.len() == 0 {
            false
        } else if p[0] {
            node_free(*right, p.drop_first())
        } else {
            node_free(*left, p.drop_first())
        },
    }
}

/// Whether some leaf sits below the node.
pub open spec fn has_leaf(n: SearchNode) -> bool
    decreases n,
{
    match n {
        SearchNode::Empty => false,
        SearchNode::Leaf { .. } => true,
        SearchNode::Node { left, right } => has_leaf(*left) || has_leaf(*right),
    }
}

/// Every inner node leads to some leaf: what repeated inserts produce.
pub open spec fn tidy(n: SearchNode) -> bool
    decreases n,
{
    match n {
        SearchNode::Empty => true,
        SearchNode::Leaf { .. } => true,
        SearchNode::Node { left, right } => tidy(*left) && tidy(*right) && (has_leaf(*left)
            || has_leaf(*right)),
    }
}

/// A found word means a leaf below.
proof fn lemma_lookup_has_leaf(n: SearchNode, p: Seq<bool>)
    requires
        lookup(n, p) is Some,
    ensures
        has_leaf(n),
    decreases p.len(),
{
    match n {
        SearchNode::Empty => {},
        SearchNode::Leaf { .. } => {},
        SearchNode::Node { left, right } => {
            if p.len() > 0 {
                if p[0] {
                    lemma_lookup_has_leaf(*right, p.drop_first());
                } else {
                    lemma_lookup_has_leaf(*left, p.drop_first());
                }
            }
        },
    }
}

/// A leaf below means some path finds a word.
proof fn lemma_has_leaf_lookup(n: SearchNode)
    requires
        has_leaf(n),
    ensures
        exists|p: Seq<bool>| (#[trigger] lookup(n, p)) is Some,
    decreases n,
{
    match n {
        SearchNode::Empty => {},
        SearchNode::Leaf { value } => {
            assert(lookup(n, Seq::<bool>::empty()) is Some);
        },
        SearchNode::Node { left, right } => {
            if has_leaf(*left) {
                lemma_has_leaf_lookup(*left);
                let p = choose|p: Seq<bool>| (#[trigger] lookup(*left, p)) is Some;
                let q = seq![false] + p;
                assert(q.drop_first() =~= p);
                assert(lookup(n, q) is Some);
            } else {
                lemma_has_leaf_lookup(*right);
                let p = choose|p: Seq<bool>| (#[trigger] lookup(*right, p)) is Some;
                let q = seq![true] + p;
                assert(q.drop_first() =~= p);
                assert(lookup(n, q) is Some);
            }
        },
    }
}

/// A path no found word is prefix-entangled with is free.
proof fn lemma_free_of_unrelated(n: SearchNode, c: Seq<bool>)
    requires
        tidy(n),
        forall|p: Seq<bool>|
            (#[trigger] lookup(n, p)) is Some ==> !is_prefix(p, c) && !is_prefix(c, p),
    ensures
        node_free(n, c),
    decreases c.len(),
{
    match n {
        SearchNode::Empty => {},
        SearchNode::Leaf { value } => {
            assert(lookup(n, Seq::<bool>::empty()) is Some);
            assert(c.subrange(0, 0) =~= Seq::<bool>::empty());
            assert(is_prefix(Seq::<bool>::empty(), c));
        },
        SearchNode::Node { left, right } => {
            if c.len() == 0 {
                lemma_has_leaf_lookup(n);
                let p = choose|p: Seq<bool>| (#[trigger] lookup(n, p)) is Some;
                assert(p.subrange(0, 0) =~= Seq::<bool>::empty());
                assert(c =~= Seq::<bool>::empty());
                assert(is_prefix(c, p));
            } else {
                let child = if c[0] {
                    *right
                } else {
                    *left
                };
                assert forall|p: Seq<bool>| (#[trigger] lookup(child, p)) is Some implies !is_prefix(
                    p,
                    c.drop_first(),
                ) && !is_prefix(c.drop_first(), p) by {
                    let q = seq![c[0]] + p;
                    assert(q.drop_first() =~= p);
                    assert(lookup(n, q) is Some);
                    if is_prefix(p, c.drop_first()) {
                        assert(c.subrange(0, q.len() as int) =~= q) by {
                            assert(c.drop_first().subrange(0, p.len() as int) == p);
                            assert forall|k: int|
                                0 <= k < q.len() implies c.subrange(0, q.len() as int)[k]
                                == q[k] by {
                                if k > 0 {
                                    assert(c.drop_first().subrange(0, p.len() as int)[k - 1] == p[k
                                        - 1]);
                                }
                            }
                        }
                        assert(is_prefix(q, c));
                    }
                    if is_prefix(c.drop_first(), p) {
                        assert(q.subrange(0, c.len() as int) =~= c) by {
                            assert(p.subrange(0, c.drop_first().len() as int) == c.drop_first());
                            assert forall|k: int|
                                0 <= k < c.len() implies q.subrange(0, c.len() as int)[k]
                                == c[k] by {
                                if k > 0 {
                                    assert(p.subrange(0, c.drop_first().len() as int)[k - 1] == c
                                        .drop_first()[k - 1]);
                                }
                            }
                        }
                        assert(is_prefix(c, q));
                    }
                }
                lemma_free_of_unrelated(child, c.drop_first());
            }
        },
    }
}

/// Places `value` at the end of the path `code[pos..]`.
fn insert_at(n: &mut SearchNode, code: &bit_vec::BitVec, pos: usize, value: u32)
    requires
        pos <= stream(*code).len(),
        stream(*code).len() <= usize::MAX,
        node_free(*old(n), stream(*code).skip(pos as int)),
    ensures
        lookup(*final(n), stream(*code).skip(pos as int)) == Some(value),
        forall|p: Seq<bool>|
            p != stream(*code).skip(pos as int) ==> (#[trigger] lookup(*final(n), p)) == lookup(
                *old(n),
                p,
            ),
        tidy(*old(n)) ==> tidy(*final(n)),
        has_leaf(*final(n)),
    decreases stream(*code).len() - pos,
{
    let ghost suffix = stream(*code).skip(pos as int);
    let len: usize = bv_len(code);
    if pos == len {
        assert(suffix.len() == 0);
        *n = SearchNode::Leaf { value };
        assert(lookup(*n, suffix) == Some(value));
        assert forall|p: Seq<bool>| p != suffix implies (#[trigger] lookup(*n, p)) == lookup(
            *old(n),
            p,
        ) by {
            assert(p.len() != 0) by {
                if p.len() == 0 {
                    assert(p =~= suffix);
                }
            }
        }
        return ;
    }
    let bit: bool = bv_get(code, pos);
    assert(suffix.len() > 0 && suffix[0] == bit);
    assert(suffix.drop_first() =~= stream(*code).skip(pos + 1));
    let mut cur = SearchNode::Empty;
    core::mem::swap(n, &mut cur);
    let (mut left, mut right): (Box<SearchNode>, Box<SearchNode>) = match cur {
        SearchNode::Empty => (Box::new(SearchNode::Empty), Box::new(SearchNode::Empty)),
        SearchNode::Node { left, right } => (left, right),
        SearchNode::Leaf { .. } => {
            proof {
                assert(false);
            }
            (Box::new(SearchNode::Empty), Box::new(SearchNode::Empty))
        },
    };
    let ghost old_left = *left;
    let ghost old_right = *right;
    if bit {
        insert_at(&mut *right, code, pos + 1, value);
    } else {
        insert_at(&mut *left, code, pos + 1, value);
    }
    let rebuilt = SearchNode::Node { left, right };
    *n = rebuilt;
    proof {
        let fin = *n;
        let fl = *rebuilt->Node_left;
        let fr = *rebuilt->Node_right;
        assert(lookup(fin, suffix) == if suffix[0] {
            lookup(fr, suffix.drop_first())
        } else {
            lookup(fl, suffix.drop_first())
        });
        assert(lookup(fin, suffix) == Some(value));
        assert forall|p: Seq<bool>| p != suffix implies (#[trigger] lookup(fin, p)) == lookup(
            *old(n),
            p,
        ) by {
            if p.len() == 0 {
                assert(lookup(fin, p) is None);
                match *old(n) {
                    SearchNode::Empty => {},
                    SearchNode::Node { .. } => {},
                    SearchNode::Leaf { .. } => {
                        assert(false);
                    },
                }
            } else {
                let pt = p.drop_first();
                if p[0] == bit {
                    assert(pt != suffix.drop_first()) by {
                        if pt == suffix.drop_first() {
                            assert(p.len() == suffix.len());
                            assert forall|k: int| 0 <= k < p.len() implies p[k] == suffix[k] by {
                                if k > 0 {
                                    assert(p[k] == pt[k - 1]);
                                    assert(suffix[k] == suffix.drop_first()[k - 1]);
                                }
                            }
                            assert(p =~= suffix);
                        }
                    }
                    let touched_fin = if bit {
                        fr
                    } else {
                        fl
                    };
                    let touched_old = if bit {
                        old_right
                    } else {
                        old_left
                    };
                    assert(lookup(fin, p) == lookup(touched_fin, pt));
                    assert(lookup(touched_fin, pt) == lookup(touched_old, pt));
                    match *old(n) {
                        SearchNode::Empty => {
                            assert(touched_old is Empty);
                            assert(lookup(touched_old, pt) is None);
                            assert(lookup(*old(n), p) is None);
                        },
                        SearchNode::Node { left: ol, right: or_ } => {
                            assert(lookup(*old(n), p) == if p[0] {
                                lookup(*or_, pt)
                            } else {
                                lookup(*ol, pt)
                            });
                            assert(touched_old == if bit {
                                *or_
                            } else {
                                *ol
                            });
                        },
                        SearchNode::Leaf { .. } => {
                            assert(false);
                        },
                    }
                } else {
                    let untouched = if p[0] {
                        fr
                    } else {
                        fl
                    };
                    assert(lookup(fin, p) == lookup(untouched, pt));
                    match *old(n) {
                        SearchNode::Empty => {
                            assert(untouched is Empty);
                            assert(lookup(*old(n), p) is None);
                            assert(lookup(untouched, pt) is None);
                        },
                        SearchNode::Node { left: ol, right: or_ } => {
                            assert(untouched == if p[0] {
                                *or_
                            } else {
                                *ol
                            });
                            assert(lookup(*old(n), p) == lookup(untouched, pt));
                        },
                        SearchNode::Leaf { .. } => {
                            assert(false);
                        },
                    }
                }
            }
        }
        match *old(n) {
            SearchNode::Empty => {
                assert(tidy(fin)) by {
                    if bit {
                        assert(tidy(fl) && has_leaf(fr));
                    } else {
                        assert(tidy(fr) && has_leaf(fl));
                    }
                }
            },
            SearchNode::Node { left: ol, right: or_ } => {
                if tidy(*old(n)) {
                    assert(tidy(*ol) && tidy(*or_));
                    assert(tidy(fin));
                }
            },
            SearchNode::Leaf { .. } => {
                assert(false);
            },
        }
        assert(has_leaf(fin));
    }
}

impl SearchTree {
    /// An empty decoding tree.
    pub fn new() -> (r: SearchTree)
        ensures
            r.root == SearchNode::Empty,
    {
        SearchTree { root: SearchNode::Empty }
    }

    /// Places `value` at the end of the path `code`.
    pub fn insert(&mut self, code: &bit_vec::BitVec, value: u32)
        requires
            stream(*code).len() <= usize::MAX,
            node_free(old(self).root, stream(*code)),
        ensures
            lookup(final(self).root, stream(*code)) == Some(value),
            forall|p: Seq<bool>|
                p != stream(*code) ==> (#[trigger] lookup(final(self).root, p)) == lookup(
                    old(self).root,
                    p,
                ),
            tidy(old(self).root) ==> tidy(final(self).root),
            has_leaf(final(self).root),
    {
        proof {
            assert(stream(*code).skip(0) =~= stream(*code));
        }
        insert_at(&mut self.root, code, 0, value);
    }
}

/// One decoding step: the word of the first leaf on the path `s`, and how
/// many bits the path took.
pub open spec fn spec_decode_sym(n: SearchNode, s: Seq<bool>) -> Option<(u32, int)>
    decreases n,
{
    match n {
        SearchNode::Empty => None,
        SearchNode::Leaf { value } => Some((value, 0)),
        SearchNode::Node { left, right } => if s.len() == 0 {
            None
        } else {
            match spec_decode_sym(
                if s[0] {
                    *right
                } else {
                    *left
                },
                s.drop_first(),
            ) {
                Some(p) => Some((p.0, p.1 + 1)),
                None => None,
            }
        },
    }
}

/// A decoding step never takes more bits than there are.
proof fn lemma_decode_sym_bound(n: SearchNode, s: Seq<bool>)
    ensures
        spec_decode_sym(n, s) matches Some(p) ==> 0 <= p.1 <= s.len(),
    decreases n,
{
    match n {
        SearchNode::Empty => {},
        SearchNode::Leaf { .. } => {},
        SearchNode::Node { left, right } => {
            if s.len() > 0 {
                if s[0] {
                    lemma_decode_sym_bound(*right, s.drop_first());
                } else {
                    lemma_decode_sym_bound(*left, s.drop_first());
                }
            }
        },
    }
}

/// A step on a stream that begins with a stored path finds exactly that
/// path's word, consuming exactly the path.
proof fn lemma_decode_sym_of_code(n: SearchNode, c: Seq<bool>, rest: Seq<bool>)
    requires
        lookup(n, c) == Some::<u32>(lookup(n, c)->Some_0),
        lookup(n, c) is Some,
    ensures
        spec_decode_sym(n, c + rest) == Some((lookup(n, c)->Some_0, c.len() as int)),
    decreases c.len(),
{
    match n {
        SearchNode::Empty => {},
        SearchNode::Leaf { value } => {
            assert(c.len() == 0);
            assert(c + rest =~= rest);
        },
        SearchNode::Node { left, right } => {
            assert(c.len() > 0);
            assert((c + rest).len() > 0);
            assert((c + rest)[0] == c[0]);
            assert((c + rest).drop_first() =~= c.drop_first() + rest);
            if c[0] {
                lemma_decode_sym_of_code(*right, c.drop_first(), rest);
            } else {
                lemma_decode_sym_of_code(*left, c.drop_first(), rest);
            }
        },
    }
}

/// The consumed window of a successful step is a stored path.
proof fn lemma_decode_sym_window(n: SearchNode, s: Seq<bool>)
    requires
        spec_decode_sym(n, s) is Some,
    ensures
        0 <= spec_decode_sym(n, s)->Some_0.1 <= s.len(),
        lookup(n, s.subrange(0, spec_decode_sym(n, s)->Some_0.1)) == Some(
            spec_decode_sym(n, s)->Some_0.0,
        ),
    decreases n,
{
    lemma_decode_sym_bound(n, s);
    match n {
        SearchNode::Empty => {},
        SearchNode::Leaf { value } => {
            assert(s.subrange(0, 0) =~= Seq::<bool>::empty());
        },
        SearchNode::Node { left, right } => {
            let child = if s[0] {
                *right
            } else {
                *left
            };
            lemma_decode_sym_window(child, s.drop_first());
            let k = spec_decode_sym(n, s)->Some_0.1;
            assert(s.subrange(0, k).drop_first() =~= s.drop_first().subrange(0, k - 1));
            assert(s.subrange(0, k)[0] == s[0]);
            assert(s.subrange(0, k).len() > 0);
        },
    }
}

/// One decoding step, walking the tree bit by bit from `pos`.
fn decode_sym(n: &SearchNode, bv: &bit_vec::BitVec, pos: usize) -> (r: Option<(u32, usize)>)
    requires
        pos <= stream(*bv).len(),
        stream(*bv).len() <= usize::MAX,
    ensures
        match r {
            Some(p) => spec_decode_sym(*n, stream(*bv).skip(pos as int)) == Some(
                (p.0, p.1 as int),
            ) && pos + p.1 <= stream(*bv).len(),
            None => spec_decode_sym(*n, stream(*bv).skip(pos as int)) is None,
        },
    decreases *n,
{
    let ghost s = stream(*bv).skip(pos as int);
    match n {
        SearchNode::Empty => None,
        SearchNode::Leaf { value } => Some((*value, 0)),
        SearchNode::Node { left, right } => {
            let len: usize = bv_len(bv);
            if pos == len {
                assert(s.len() == 0);
                None
            } else {
                let bit: bool = bv_get(bv, pos);
                assert(s.len() > 0 && s[0] == bit);
                assert(s.drop_first() =~= stream(*bv).skip(pos + 1));
                let child: &SearchNode = if bit {
                    &**right
                } else {
                    &**left
                };
                match decode_sym(child, bv, pos + 1) {
                    Some(p) => Some((p.0, p.1 + 1)),
                    None => None,
                }
            }
        },
    }
}

// ---------------------------------------------------------------------
// Encoding.
// ---------------------------------------------------------------------

/// Every word of `data` has an entry in the book.
pub open spec fn all_in_book(b: Seq<(u32, Seq<bool>)>, data: Seq<u32>) -> bool {
    forall|i: int| 0 <= i < data.len() ==> book_has_word(b, #[trigger] data[i])
}

/// No two entries share a word.
pub open spec fn book_words_distinct(b: Seq<(u32, Seq<bool>)>) -> bool {
    forall|i: int, j: int|
        0 <= i < b.len() && 0 <= j < b.len() && i != j ==> (#[trigger] b[i]).0 != (
        #[trigger] b[j]).0
}

/// A book the decoder can build a search tree from.
pub open spec fn book_decodable(b: Seq<(u32, Seq<bool>)>) -> bool {
    &&& codes_nonempty(b)
    &&& book_prefix_free(b)
    &&& book_words_distinct(b)
}

/// The concatenation of the codes of `data`, in order.
pub open spec fn spec_encode(b: Seq<(u32, Seq<bool>)>, data: Seq<u32>) -> Seq<bool>
    decreases data.len(),
{
    if data.len() == 0 {
        Seq::empty()
    } else {
        book_code(b, data[0]) + spec_encode(b, data.drop_first())
    }
}

/// Encoding distributes over concatenation.
pub proof fn lemma_encode_app(b: Seq<(u32, Seq<bool>)>, x: Seq<u32>, y: Seq<u32>)
    ensures
        spec_encode(b, x + y) == spec_encode(b, x) + spec_encode(b, y),
    decreases x.len(),
{
    if x.len() == 0 {
        assert(x + y =~= y);
        assert(spec_encode(b, x) + spec_encode(b, y) =~= spec_encode(b, y));
    } else {
        lemma_encode_app(b, x.drop_first(), y);
        assert((x + y).drop_first() =~= x.drop_first() + y);
        assert((x + y)[0] == x[0]);
        assert(book_code(b, x[0]) + (spec_encode(b, x.drop_first()) + spec_encode(b, y)) =~= (
        book_code(b, x[0]) + spec_encode(b, x.drop_first())) + spec_encode(b, y));
    }
}

/// Taking one more word appends its code.
pub proof fn lemma_encode_take_succ(b: Seq<(u32, Seq<bool>)>, data: Seq<u32>, i: int)
    requires
        0 <= i < data.len(),
    ensures
        spec_encode(b, data.take(i + 1)) == spec_encode(b, data.take(i)) + book_code(b, data[i]),
{
    assert(data.take(i + 1) =~= data.take(i) + seq![data[i]]);
    lemma_encode_app(b, data.take(i), seq![data[i]]);
    let s1 = seq![data[i]];
    assert(s1.drop_first() =~= Seq::<u32>::empty());
    assert(spec_encode(b, s1) == book_code(b, s1[0]) + spec_encode(b, s1.drop_first()));
    assert(spec_encode(b, s1) =~= book_code(b, data[i]));
}

/// An encoded prefix and the next code fit within the whole encoding.
proof fn lemma_encode_prefix_bound(b: Seq<(u32, Seq<bool>)>, data: Seq<u32>, i: int)
    requires
        0 <= i < data.len(),
    ensures
        spec_encode(b, data.take(i)).len() + book_code(b, data[i]).len() <= spec_encode(
            b,
            data,
        ).len(),
    decreases data.len() - i,
{
    lemma_encode_take_succ(b, data, i);
    if i + 1 == data.len() {
        assert(data.take(i + 1) =~= data);
    } else {
        lemma_encode_prefix_bound(b, data, i + 1);
    }
}

/// The first entry carrying `w` holds exactly `book_code(b, w)`.
pub proof fn lemma_book_code_at(b: Seq<(u32, Seq<bool>)>, w: u32, i: int)
    requires
        0 <= i < b.len(),
        b[i].0 == w,
        forall|j: int| 0 <= j < i ==> (#[trigger] b[j]).0 != w,
    ensures
        book_code(b, w) == b[i].1,
    decreases b.len(),
{
    if i > 0 {
        assert(b.drop_first()[i - 1] == b[i]);
        assert forall|j: int| 0 <= j < i - 1 implies (#[trigger] b.drop_first()[j]).0 != w by {
            assert(b[j + 1] == b.drop_first()[j]);
        }
        lemma_book_code_at(b.drop_first(), w, i - 1);
    }
}

/// A present word's code is the code of one of the entries.
pub proof fn lemma_book_code_entry(b: Seq<(u32, Seq<bool>)>, w: u32)
    requires
        book_has_word(b, w),
    ensures
        exists|i: int|
            0 <= i < b.len() && (#[trigger] b[i]).0 == w && b[i].1 == book_code(b, w),
    decreases b.len(),
{
    if b[0].0 == w {
        assert(b[0].0 == w && b[0].1 == book_code(b, w));
    } else {
        assert(book_has_word(b.drop_first(), w)) by {
            let i = choose|i: int| 0 <= i < b.len() && b[i].0 == w;
            assert(b.drop_first()[i - 1].0 == w);
        }
        lemma_book_code_entry(b.drop_first(), w);
        let i = choose|i: int|
            0 <= i < b.drop_first().len() && (#[trigger] b.drop_first()[i]).0 == w
                && b.drop_first()[i].1 == book_code(b.drop_first(), w);
        assert(b[i + 1].0 == w && b[i + 1].1 == book_code(b, w));
    }
}

/// Emits the code of every word of `data`, in order.
pub fn compress_data(book: &Codebook, data: &[u32]) -> (r: bit_vec::BitVec)
    requires
        all_in_book(book@, data@),
        spec_encode(book@, data@).len() <= usize::MAX,
    ensures
        stream(r) == spec_encode(book@, data@),
{
    let ghost b = book@;
    let mut out: bit_vec::BitVec = bv_new();
    let n: usize = data.len();
    let mut i: usize = 0;
    while i < n
        invariant
            i <= n,
            n == data@.len(),
            book@ == b,
            all_in_book(b, data@),
            spec_encode(b, data@).len() <= usize::MAX,
            stream(out) =~= spec_encode(b, data@.take(i as int)),
        decreases n - i,
    {
        let w: u32 = data[i];
        let idx: usize = match book.find(w) {
            Some(idx) => idx,
            None => {
                proof {
                    assert(book_has_word(b, data@[i as int]));
                    assert(false);
                }
                0
            },
        };
        proof {
            lemma_book_code_at(b, w, idx as int);
            lemma_encode_take_succ(b, data@, i as int);
            lemma_encode_prefix_bound(b, data@, i as int);
        }
        bv_append(&mut out, &book.entries[idx].code);
        proof {
            assert(stream(book.entries@[idx as int].code) == b[idx as int].1);
            assert(stream(out) =~= spec_encode(b, data@.take(i + 1)));
        }
        i += 1;
    }
    proof {
        assert(data@.take(n as int) =~= data@);
    }
    out
}

/// Two initial segments of one stream: the shorter is a segment of the
/// longer.
proof fn lemma_prefix_of_same(a: Seq<bool>, c: Seq<bool>, s: Seq<bool>)
    requires
        is_prefix(a, s),
        is_prefix(c, s),
        a.len() <= c.len(),
    ensures
        is_prefix(a, c),
{
    assert forall|k: int| 0 <= k < a.len() implies c.subrange(0, a.len() as int)[k] == a[k] by {
        assert(s.subrange(0, a.len() as int)[k] == a[k]);
        assert(s.subrange(0, c.len() as int)[k] == c[k]);
    }
    assert(c.subrange(0, a.len() as int) =~= a);
}

/// Under a decodable book, equal encodings come from equal inputs.
pub proof fn lemma_encode_injective(b: Seq<(u32, Seq<bool>)>, x: Seq<u32>, y: Seq<u32>)
    requires
        book_decodable(b),
        all_in_book(b, x),
        all_in_book(b, y),
        spec_encode(b, x) == spec_encode(b, y),
    ensures
        x == y,
    decreases x.len(),
{
    if x.len() == 0 {
        if y.len() > 0 {
            assert(book_has_word(b, y[0]));
            lemma_book_code_entry(b, y[0]);
            assert(spec_encode(b, y).len() >= book_code(b, y[0]).len());
            let i = choose|i: int|
                0 <= i < b.len() && (#[trigger] b[i]).0 == y[0] && b[i].1 == book_code(b, y[0]);
            assert(book_code(b, y[0]).len() >= 1);
        }
        assert(y =~= x);
    } else if y.len() == 0 {
        assert(book_has_word(b, x[0]));
        lemma_book_code_entry(b, x[0]);
        let i = choose|i: int|
            0 <= i < b.len() && (#[trigger] b[i]).0 == x[0] && b[i].1 == book_code(b, x[0]);
        assert(book_code(b, x[0]).len() >= 1);
        assert(spec_encode(b, x).len() >= book_code(b, x[0]).len());
    } else {
        let cx = book_code(b, x[0]);
        let cy = book_code(b, y[0]);
        lemma_book_code_entry(b, x[0]);
        lemma_book_code_entry(b, y[0]);
        let ix = choose|i: int|
            0 <= i < b.len() && (#[trigger] b[i]).0 == x[0] && b[i].1 == cx;
        let iy = choose|i: int|
            0 <= i < b.len() && (#[trigger] b[i]).0 == y[0] && b[i].1 == cy;
        let s = spec_encode(b, x);
        assert(is_prefix(cx, s)) by {
            assert(s.subrange(0, cx.len() as int) =~= cx);
        }
        assert(is_prefix(cy, s)) by {
            assert(spec_encode(b, y).subrange(0, cy.len() as int) =~= cy);
        }
        if cx.len() <= cy.len() {
            lemma_prefix_of_same(cx, cy, s);
            assert(ix == iy) by {
                if ix != iy {
                    assert(is_prefix(b[ix].1, b[iy].1));
                }
            }
        } else {
            lemma_prefix_of_same(cy, cx, s);
            assert(ix == iy) by {
                if ix != iy {
                    assert(is_prefix(b[iy].1, b[ix].1));
                }
            }
        }
        assert(x[0] == y[0]);
        assert(spec_encode(b, x.drop_first()) =~= spec_encode(b, y.drop_first())) by {
            assert forall|k: int|
                0 <= k < spec_encode(b, x.drop_first()).len() implies spec_encode(
                b,
                x.drop_first(),
            )[k] == spec_encode(b, y.drop_first())[k] by {
                assert(s[cx.len() + k] == spec_encode(b, x.drop_first())[k]);
                assert(spec_encode(b, y)[cy.len() + k] == spec_encode(b, y.drop_first())[k]);
            }
        }
        assert(all_in_book(b, x.drop_first())) by {
            assert forall|i: int|
                0 <= i < x.drop_first().len() implies book_has_word(
                b,
                #[trigger] x.drop_first()[i],
            ) by {
                assert(x.drop_first()[i] == x[i + 1]);
            }
        }
        assert(all_in_book(b, y.drop_first())) by {
            assert forall|i: int|
                0 <= i < y.drop_first().len() implies book_has_word(
                b,
                #[trigger] y.drop_first()[i],
            ) by {
                assert(y.drop_first()[i] == y[i + 1]);
            }
        }
        lemma_encode_injective(b, x.drop_first(), y.drop_first());
        assert(x =~= seq![x[0]] + x.drop_first());
        assert(y =~= seq![y[0]] + y.drop_first());
    }
}

/// Whether the bits of `a` are an initial segment of the bits of `b`.
fn bv_is_prefix(a: &bit_vec::BitVec, b: &bit_vec::BitVec) -> (r: bool)
    ensures
        r == is_prefix(stream(*a), stream(*b)),
{
    let la: usize = bv_len(a);
    let lb: usize = bv_len(b);
    if la > lb {
        return false;
    }
    let mut i: usize = 0;
    while i < la
        invariant
            i <= la,
            la == stream(*a).len(),
            lb == stream(*b).len(),
            la <= lb,
            forall|k: int| 0 <= k < i ==> stream(*a)[k] == stream(*b)[k],
        decreases la - i,
    {
        if bv_get(a, i) != bv_get(b, i) {
            proof {
                assert(stream(*b).subrange(0, la as int)[i as int] != stream(*a)[i as int]);
            }
            return false;
        }
        i += 1;
    }
    proof {
        assert(stream(*b).subrange(0, la as int) =~= stream(*a));
    }
    true
}

/// Checks that the book admits a decoding tree: no empty code, no
/// repeated word, no code an initial segment of another.
fn validate_book(book: &Codebook) -> (r: Option<DecodeError>)
    ensures
        match r {
            None => book_decodable(book@),
            Some(e) => match e {
                DecodeError::EmptyCodeSlot => !codes_nonempty(book@),
                DecodeError::ConflictingCode => !book_prefix_free(book@) || !book_words_distinct(
                    book@,
                ),
                _ => false,
            },
        },
{
    let ghost b = book@;
    let n: usize = book.len();
    let mut i: usize = 0;
    while i < n
        invariant
            i <= n,
            n == b.len(),
            book@ == b,
            forall|k: int| 0 <= k < i ==> (#[trigger] b[k]).1.len() >= 1,
        decreases n - i,
    {
        if book.code_len_at(i) == 0 {
            return Some(DecodeError::EmptyCodeSlot);
        }
        i += 1;
    }
    let mut i: usize = 0;
    while i < n
        invariant
            i <= n,
            n == b.len(),
            book@ == b,
            forall|k1: int, k2: int|
                0 <= k1 < i && 0 <= k2 < n && k1 != k2 ==> (#[trigger] b[k1]).0 != (
                #[trigger] b[k2]).0 && !is_prefix(b[k1].1, b[k2].1) && !is_prefix(
                    b[k2].1,
                    b[k1].1,
                ),
        decreases n - i,
    {
        let mut j: usize = 0;
        while j < n
            invariant
                i < n,
                j <= n,
                n == b.len(),
                book@ == b,
                forall|k2: int|
                    0 <= k2 < j && k2 != i ==> (#[trigger] b[i as int]).0 != (#[trigger] b[k2]).0
                        && !is_prefix(b[i as int].1, b[k2].1) && !is_prefix(
                        b[k2].1,
                        b[i as int].1,
                    ),
            decreases n - j,
        {
            if j != i {
                if book.word_at(i) == book.word_at(j) {
                    return Some(DecodeError::ConflictingCode);
                }
                proof {
                    assert(stream(book.entries@[i as int].code) == b[i as int].1);
                    assert(stream(book.entries@[j as int].code) == b[j as int].1);
                }
                if bv_is_prefix(&book.entries[i].code, &book.entries[j].code) {
                    proof {
                        assert(is_prefix(b[i as int].1, b[j as int].1));
                    }
                    return Some(DecodeError::ConflictingCode);
                }
                if bv_is_prefix(&book.entries[j].code, &book.entries[i].code) {
                    proof {
                        assert(is_prefix(b[j as int].1, b[i as int].1));
                    }
                    return Some(DecodeError::ConflictingCode);
                }
            }
            j += 1;
        }
        i += 1;
    }
    None
}

/// Two encodings, one extending the other: the shorter input is an
/// initial segment of the longer, which encodes the leftover bits.
pub proof fn lemma_encode_cancel(
    b: Seq<(u32, Seq<bool>)>,
    d: Seq<u32>,
    out: Seq<u32>,
    rest: Seq<bool>,
)
    requires
        book_decodable(b),
        all_in_book(b, d),
        all_in_book(b, out),
        spec_encode(b, d) == spec_encode(b, out) + rest,
    ensures
        out.len() <= d.len(),
        out == d.take(out.len() as int),
        rest == spec_encode(b, d.skip(out.len() as int)),
    decreases out.len(),
{
    if out.len() == 0 {
        assert(out =~= d.take(0));
        assert(spec_encode(b, out) + rest =~= rest);
        assert(d.skip(0) =~= d);
    } else {
        assert(book_has_word(b, out[0]));
        lemma_book_code_entry(b, out[0]);
        let io = choose|i: int|
            0 <= i < b.len() && (#[trigger] b[i]).0 == out[0] && b[i].1 == book_code(b, out[0]);
        let co = book_code(b, out[0]);
        assert(co.len() >= 1);
        if d.len() == 0 {
            assert(spec_encode(b, d).len() == 0);
            assert(spec_encode(b, out).len() >= co.len());
        }
        assert(d.len() > 0);
        assert(book_has_word(b, d[0]));
        lemma_book_code_entry(b, d[0]);
        let id = choose|i: int|
            0 <= i < b.len() && (#[trigger] b[i]).0 == d[0] && b[i].1 == book_code(b, d[0]);
        let cd = book_code(b, d[0]);
        assert(cd.len() >= 1);
        let s = spec_encode(b, d);
        assert(is_prefix(cd, s)) by {
            assert(s.subrange(0, cd.len() as int) =~= cd);
        }
        assert(is_prefix(co, s)) by {
            assert forall|k: int| 0 <= k < co.len() implies s.subrange(0, co.len() as int)[k]
                == co[k] by {
                assert(s[k] == (spec_encode(b, out) + rest)[k]);
                assert(spec_encode(b, out)[k] == co[k]);
            }
            assert(s.subrange(0, co.len() as int) =~= co);
        }
        if co.len() <= cd.len() {
            lemma_prefix_of_same(co, cd, s);
            assert(io == id) by {
                if io != id {
                    assert(is_prefix(b[io].1, b[id].1));
                }
            }
        } else {
            lemma_prefix_of_same(cd, co, s);
            assert(io == id) by {
                if io != id {
                    assert(is_prefix(b[id].1, b[io].1));
                }
            }
        }
        assert(out[0] == d[0] && co == cd);
        assert(spec_encode(b, d.drop_first()) =~= spec_encode(b, out.drop_first()) + rest) by {
            assert forall|k: int|
                0 <= k < spec_encode(b, d.drop_first()).len() implies spec_encode(
                b,
                d.drop_first(),
            )[k] == (spec_encode(b, out.drop_first()) + rest)[k] by {
                assert(s[cd.len() + k] == spec_encode(b, d.drop_first())[k]);
                assert(s[cd.len() + k] == (spec_encode(b, out) + rest)[cd.len() + k]);
                if cd.len() + k < spec_encode(b, out).len() {
                    assert(spec_encode(b, out)[cd.len() + k] == spec_encode(
                        b,
                        out.drop_first(),
                    )[k]);
                }
            }
        }
        assert(all_in_book(b, d.drop_first())) by {
            assert forall|i: int|
                0 <= i < d.drop_first().len() implies book_has_word(
                b,
                #[trigger] d.drop_first()[i],
            ) by {
                assert(d.drop_first()[i] == d[i + 1]);
            }
        }
        assert(all_in_book(b, out.drop_first())) by {
            assert forall|i: int|
                0 <= i < out.drop_first().len() implies book_has_word(
                b,
                #[trigger] out.drop_first()[i],
            ) by {
                assert(out.drop_first()[i] == out[i + 1]);
            }
        }
        lemma_encode_cancel(b, d.drop_first(), out.drop_first(), rest);
        assert(out =~= d.take(out.len() as int)) by {
            assert(out.drop_first() == d.drop_first().take(out.len() - 1));
            assert forall|k: int| 0 <= k < out.len() implies out[k] == d.take(
                out.len() as int,
            )[k] by {
                if k > 0 {
                    assert(out.drop_first()[k - 1] == d.drop_first().take(out.len() - 1)[k - 1]);
                    assert(d.drop_first().take(out.len() - 1)[k - 1] == d[k]);
                }
            }
        }
        assert(d.drop_first().skip(out.len() - 1) =~= d.skip(out.len() as int));
    }
}

/// Decodes a bit stream against the book: build the search tree, then
/// walk it bit by bit, emitting a word at each leaf.
///
/// Succeeds exactly on streams that are a concatenation of codes of a
/// decodable book, and then returns the unique word sequence with that
/// encoding.
pub fn decompress_data(book: &Codebook, bv: &bit_vec::BitVec) -> (r: Result<
    Vec<u32>,
    DecodeError,
>)
    ensures
        match r {
            Ok(out) => book_decodable(book@) && all_in_book(book@, out@) && spec_encode(
                book@,
                out@,
            ) == stream(*bv),
            Err(e) => match e {
                DecodeError::EmptyCodeSlot => !codes_nonempty(book@),
                DecodeError::ConflictingCode => !book_prefix_free(book@)
                    || !book_words_distinct(book@),
                DecodeError::PartialCode => book_decodable(book@) && !(exists|d: Seq<u32>|
                    all_in_book(book@, d) && spec_encode(book@, d) == stream(*bv)),
                _ => false,
            },
        },
{
    let ghost b = book@;
    match validate_book(book) {
        Some(e) => {
            return Err(e);
        },
        None => {},
    }
    let n: usize = book.len();
    let mut st = SearchTree::new();
    let mut i: usize = 0;
    while i < n
        invariant
            i <= n,
            n == b.len(),
            book@ == b,
            book_decodable(b),
            tidy(st.root),
            forall|p: Seq<bool>|
                ((#[trigger] lookup(st.root, p)) is Some <==> exists|j: int|
                    0 <= j < i && (#[trigger] b[j]).1 == p),
            forall|j: int|
                0 <= j < i ==> lookup(st.root, (#[trigger] b[j]).1) == Some(b[j].0),
        decreases n - i,
    {
        let ghost code_i = b[i as int].1;
        proof {
            assert forall|p: Seq<bool>|
                (#[trigger] lookup(st.root, p)) is Some implies !is_prefix(p, code_i)
                && !is_prefix(code_i, p) by {
                let j = choose|j: int| 0 <= j < i && (#[trigger] b[j]).1 == p;
                assert(!is_prefix(b[j].1, b[i as int].1));
                assert(!is_prefix(b[i as int].1, b[j].1));
            }
            lemma_free_of_unrelated(st.root, code_i);
        }
        let w: u32 = book.word_at(i);
        let cl: usize = book.code_len_at(i);
        proof {
            assert(stream(book.entries@[i as int].code) == b[i as int].1);
            assert(stream(book.entries@[i as int].code).len() == cl);
        }
        let ghost prev_root = st.root;
        st.insert(&book.entries[i].code, w);
        proof {
            assert(stream(book.entries@[i as int].code) == code_i);
            assert forall|p: Seq<bool>|
                ((#[trigger] lookup(st.root, p)) is Some <==> exists|j: int|
                    0 <= j < i + 1 && (#[trigger] b[j]).1 == p) by {
                if p == code_i {
                    assert(b[i as int].1 == p);
                } else {
                    assert(lookup(st.root, p) == lookup(prev_root, p));
                    if exists|j: int| 0 <= j < i + 1 && (#[trigger] b[j]).1 == p {
                        let j = choose|j: int| 0 <= j < i + 1 && (#[trigger] b[j]).1 == p;
                        assert(j < i);
                        assert(0 <= j < i && b[j].1 == p);
                    }
                }
            }
            assert forall|j: int|
                0 <= j < i + 1 implies lookup(st.root, (#[trigger] b[j]).1) == Some(b[j].0) by {
                if j < i {
                    assert(b[j].1 != code_i) by {
                        assert(!is_prefix(b[j].1, b[i as int].1));
                        assert(b[i as int].1.subrange(0, b[i as int].1.len() as int) =~= b[
                            i as int
                        ].1);
                    }
                    assert(lookup(st.root, b[j].1) == lookup(prev_root, b[j].1));
                }
            }
        }
        i += 1;
    }
    let len: usize = bv_len(bv);
    let mut out: Vec<u32> = Vec::new();
    let mut pos: usize = 0;
    while pos < len
        invariant
            pos <= len,
            len == stream(*bv).len(),
            n == b.len(),
            book@ == b,
            book_decodable(b),
            tidy(st.root),
            forall|p: Seq<bool>|
                ((#[trigger] lookup(st.root, p)) is Some <==> exists|j: int|
                    0 <= j < n && (#[trigger] b[j]).1 == p),
            forall|j: int| 0 <= j < n ==> lookup(st.root, (#[trigger] b[j]).1) == Some(b[j].0),
            all_in_book(b, out@),
            spec_encode(b, out@) =~= stream(*bv).subrange(0, pos as int),
        decreases len - pos,
    {
        let step = decode_sym(&st.root, bv, pos);
        let (w, k): (u32, usize) = match step {
            Some(p) => p,
            None => {
                proof {
                    lemma_no_encoding_left(b, st.root, bv, pos as int, out@);
                }
                return Err(DecodeError::PartialCode);
            },
        };
        if k == 0 {
            proof {
                let s = stream(*bv).skip(pos as int);
                lemma_decode_sym_window(st.root, s);
                let j = choose|j: int| 0 <= j < n && (#[trigger] b[j]).1 == s.subrange(0, 0);
                assert(b[j].1.len() >= 1);
                assert(false);
            }
            return Err(DecodeError::PartialCode);
        }
        proof {
            let s = stream(*bv).skip(pos as int);
            lemma_decode_sym_window(st.root, s);
            let window = s.subrange(0, k as int);
            assert(lookup(st.root, window) == Some(w));
            let j = choose|j: int| 0 <= j < n && (#[trigger] b[j]).1 == window;
            assert(b[j].0 == w) by {
                assert(lookup(st.root, b[j].1) == Some(b[j].0));
            }
            assert(book_has_word(b, w)) by {
                assert(b[j].0 == w);
            }
            assert(book_code(b, w) == window) by {
                assert forall|j2: int| 0 <= j2 < j implies (#[trigger] b[j2]).0 != w by {
                    if b[j2].0 == w {
                        assert(b[j2].0 != b[j].0);
                    }
                }
                lemma_book_code_at(b, w, j);
            }
            assert(out@.push(w) =~= out@ + seq![w]);
            lemma_encode_app(b, out@, seq![w]);
            let s1 = seq![w];
            assert(s1.drop_first() =~= Seq::<u32>::empty());
            assert(spec_encode(b, s1) == book_code(b, s1[0]) + spec_encode(b, s1.drop_first()));
            assert(spec_encode(b, s1) =~= book_code(b, w));
            assert(window =~= stream(*bv).subrange(pos as int, pos + k));
            assert(spec_encode(b, out@.push(w)) =~= stream(*bv).subrange(0, pos + k));
            assert forall|i2: int|
                0 <= i2 < out@.push(w).len() implies book_has_word(
                b,
                #[trigger] out@.push(w)[i2],
            ) by {
                if i2 < out@.len() {
                    assert(out@.push(w)[i2] == out@[i2]);
                }
            }
        }
        out.push(w);
        pos = pos + k;
    }
    proof {
        assert(stream(*bv).subrange(0, len as int) =~= stream(*bv));
    }
    Ok(out)
}

/// At a stuck decoding step no word sequence encodes to the stream.
proof fn lemma_no_encoding_left(
    b: Seq<(u32, Seq<bool>)>,
    root: SearchNode,
    bv: &bit_vec::BitVec,
    pos: int,
    out: Seq<u32>,
)
    requires
        book_decodable(b),
        0 <= pos < stream(*bv).len(),
        forall|j: int| 0 <= j < b.len() ==> lookup(root, (#[trigger] b[j]).1) == Some(b[j].0),
        all_in_book(b, out),
        spec_encode(b, out) == stream(*bv).subrange(0, pos),
        spec_decode_sym(root, stream(*bv).skip(pos)) is None,
    ensures
        !(exists|d: Seq<u32>|
            all_in_book(b, d) && spec_encode(b, d) == stream(*bv)),
{
    let s = stream(*bv);
    assert forall|d: Seq<u32>|
        !(all_in_book(b, d) && (#[trigger] spec_encode(b, d)) == s) by {
        if all_in_book(b, d) && spec_encode(b, d) == s {
            assert(spec_encode(b, d) == spec_encode(b, out) + s.skip(pos)) by {
                assert(spec_encode(b, out) + s.skip(pos) =~= s);
            }
            lemma_encode_cancel(b, d, out, s.skip(pos));
            let d_rest = d.skip(out.len() as int);
            assert(s.skip(pos) == spec_encode(b, d_rest));
            assert(d_rest.len() > 0) by {
                if d_rest.len() == 0 {
                    assert(spec_encode(b, d_rest).len() == 0);
                    assert(s.skip(pos).len() == s.len() - pos);
                }
            }
            assert(all_in_book(b, d_rest)) by {
                assert forall|i: int|
                    0 <= i < d_rest.len() implies book_has_word(b, #[trigger] d_rest[i]) by {
                    assert(d_rest[i] == d[out.len() + i]);
                }
            }
            let w0 = d_rest[0];
            assert(book_has_word(b, w0));
            lemma_book_code_entry(b, w0);
            let j = choose|i: int|
                0 <= i < b.len() && (#[trigger] b[i]).0 == w0 && b[i].1 == book_code(b, w0);
            let c0 = book_code(b, w0);
            assert(lookup(root, c0) == Some(w0));
            assert(s.skip(pos) == c0 + spec_encode(b, d_rest.drop_first()));
            lemma_decode_sym_of_code(root, c0, spec_encode(b, d_rest.drop_first()));
            assert(spec_decode_sym(root, s.skip(pos)) is Some);
        }
    }
}

} // verus!
