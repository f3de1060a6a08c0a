//! The Huffman tree builder and the code extractor.
//!
//! Every `(word, weight)` pair of the weight table seeds a queue as a
//! one-leaf tree.  While more than one tree remains, the two least trees
//! are merged under a fresh branch whose weight is their sum.  Ties are
//! broken by the least word below each tree, so the built tree — and with
//! it the code book — is a function of the weight table alone.  Codes are
//! then read off the tree: left is a cleared bit, right a set bit.

use vstd::prelude::*;

use crate::bits::{bv_copy, bv_new, bv_push, stream};
use crate::codebook::{spec_insert_sorted, Codebook};
use crate::weights::{table_total, WeightTable};

verus! {

/// A node of the Huffman tree: a leaf carries one word, a branch owns two
/// subtrees.
pub enum HuffNode {
    Leaf(u32),
    Branch(Box<HuffNode>, Box<HuffNode>),
}

/// The words at the leaves, left to right.
pub open spec fn leaves(n: HuffNode) -> Seq<u32>
    decreases n,
{
    match n {
        HuffNode::Leaf(v) => seq![v],
        HuffNode::Branch(l, r) => leaves(*l) + leaves(*r),
    }
}

/// The least word below the node: the tiebreaker of the queue.
pub open spec fn min_leaf(n: HuffNode) -> u32
    decreases n,
{
    match n {
        HuffNode::Leaf(v) => v,
        HuffNode::Branch(l, r) => if min_leaf(*l) <= min_leaf(*r) {
            min_leaf(*l)
        } else {
            min_leaf(*r)
        },
    }
}

/// The number of leaves.
pub open spec fn leaf_count(n: HuffNode) -> nat
    decreases n,
{
    match n {
        HuffNode::Leaf(_) => 1,
        HuffNode::Branch(l, r) => leaf_count(*l) + leaf_count(*r),
    }
}

/// The longest root-to-leaf path, in edges.
pub open spec fn height(n: HuffNode) -> nat
    decreases n,
{
    match n {
        HuffNode::Leaf(_) => 0,
        HuffNode::Branch(l, r) => 1 + if height(*l) >= height(*r) {
            height(*l)
        } else {
            height(*r)
        },
    }
}

/// A tree paired with its weight and its cached least word.
pub struct WTree {
    pub weight: usize,
    pub low: u32,
    pub node: HuffNode,
}

/// The queue's strict order: by weight, then by least word.
pub open spec fn wt_lt(a: WTree, b: WTree) -> bool {
    a.weight < b.weight || (a.weight == b.weight && a.low < b.low)
}

/// The position of the least tree; the earliest on a tie.
pub open spec fn min_idx(q: Seq<WTree>) -> int
    decreases q.len(),
{
    if q.len() <= 1 {
        0
    } else {
        let m = min_idx(q.drop_last());
        if wt_lt(q.last(), q[m]) {
            q.len() - 1
        } else {
            m
        }
    }
}

pub proof fn lemma_min_idx_range(q: Seq<WTree>)
    requires
        q.len() >= 1,
    ensures
        0 <= min_idx(q) < q.len(),
    decreases q.len(),
{
    if q.len() > 1 {
        lemma_min_idx_range(q.drop_last());
    }
}

/// Two trees under one branch: weights add, the least word is the lesser
/// of the two.
pub open spec fn spec_merge(a: WTree, b: WTree) -> WTree {
    WTree {
        weight: (a.weight + b.weight) as usize,
        low: if a.low <= b.low {
            a.low
        } else {
            b.low
        },
        node: HuffNode::Branch(Box::new(a.node), Box::new(b.node)),
    }
}

/// One round: take out the two least trees, put back their merge.
pub open spec fn spec_step(q: Seq<WTree>) -> Seq<WTree> {
    let i1 = min_idx(q);
    let a = q[i1];
    let q1 = q.remove(i1);
    let i2 = min_idx(q1);
    let b = q1[i2];
    let q2 = q1.remove(i2);
    q2.push(spec_merge(a, b))
}

/// Rounds until one tree remains.
pub open spec fn spec_run(q: Seq<WTree>) -> Seq<WTree>
    decreases q.len(),
    via spec_run_decreases
{
    if q.len() <= 1 {
        q
    } else {
        spec_run(spec_step(q))
    }
}

#[via_fn]
proof fn spec_run_decreases(q: Seq<WTree>) {
    if q.len() > 1 {
        lemma_min_idx_range(q);
        lemma_min_idx_range(q.remove(min_idx(q)));
    }
}

/// One one-leaf tree per table entry, in table order.
pub open spec fn init_queue(entries: Seq<(u32, usize)>) -> Seq<WTree> {
    entries.map(
        |i: int, e: (u32, usize)| WTree { weight: e.1, low: e.0, node: HuffNode::Leaf(e.0) },
    )
}

/// Every leaf's code: the path from `p` down to it, left as a cleared bit.
pub open spec fn tree_codes(n: HuffNode, p: Seq<bool>) -> Seq<(u32, Seq<bool>)>
    decreases n,
{
    match n {
        HuffNode::Leaf(v) => seq![(v, p)],
        HuffNode::Branch(l, r) => tree_codes(*l, p.push(false)) + tree_codes(*r, p.push(true)),
    }
}

/// Folding the leaf codes into a book, depth first, each at its ordered
/// position.
pub open spec fn spec_parse_node(
    acc: Seq<(u32, Seq<bool>)>,
    n: HuffNode,
    p: Seq<bool>,
) -> Seq<(u32, Seq<bool>)>
    decreases n,
{
    match n {
        HuffNode::Leaf(v) => spec_insert_sorted(acc, (v, p)),
        HuffNode::Branch(l, r) => spec_parse_node(
            spec_parse_node(acc, *l, p.push(false)),
            *r,
            p.push(true),
        ),
    }
}

/// The code book a weight table determines.  A lone word is promoted to
/// the one-bit code `0`; an empty table gives an empty book.
pub open spec fn spec_build_book(entries: Seq<(u32, usize)>) -> Seq<(u32, Seq<bool>)> {
    if entries.len() == 0 {
        Seq::empty()
    } else if entries.len() == 1 {
        seq![(entries[0].0, seq![false])]
    } else {
        spec_parse_node(Seq::empty(), spec_run(init_queue(entries))[0].node, Seq::empty())
    }
}

/// The sum of the queue's weights.
pub open spec fn queue_weight(q: Seq<WTree>) -> int
    decreases q.len(),
{
    if q.len() == 0 {
        0
    } else {
        q[0].weight + queue_weight(q.drop_first())
    }
}

/// Removing an element takes exactly its weight out of the sum.
pub proof fn lemma_queue_weight_remove(q: Seq<WTree>, i: int)
    requires
        0 <= i < q.len(),
    ensures
        queue_weight(q.remove(i)) == queue_weight(q) - q[i].weight,
    decreases q.len(),
{
    if i == 0 {
        assert(q.remove(0) =~= q.drop_first());
    } else {
        assert(q.remove(i).drop_first() =~= q.drop_first().remove(i - 1));
        assert(q.remove(i)[0] == q[0]);
        assert(q.drop_first()[i - 1] == q[i]);
        lemma_queue_weight_remove(q.drop_first(), i - 1);
    }
}

/// Appending an element adds exactly its weight.
pub proof fn lemma_queue_weight_push(q: Seq<WTree>, t: WTree)
    ensures
        queue_weight(q.push(t)) == queue_weight(q) + t.weight,
    decreases q.len(),
{
    assert(q.push(t).len() == q.len() + 1);
    assert(queue_weight(q.push(t)) == q.push(t)[0].weight + queue_weight(q.push(t).drop_first()));
    if q.len() == 0 {
        assert(q.push(t)[0] == t);
        assert(q.push(t).drop_first() =~= Seq::<WTree>::empty());
        assert(queue_weight(q.push(t).drop_first()) == 0);
    } else {
        assert(q.push(t).drop_first() =~= q.drop_first().push(t));
        assert(q.push(t)[0] == q[0]);
        lemma_queue_weight_push(q.drop_first(), t);
    }
}

/// No element outweighs the whole queue.
pub proof fn lemma_queue_weight_bound(q: Seq<WTree>, i: int)
    requires
        0 <= i < q.len(),
    ensures
        q[i].weight <= queue_weight(q),
    decreases q.len(),
{
    if i > 0 {
        assert(q.drop_first()[i - 1] == q[i]);
        lemma_queue_weight_bound(q.drop_first(), i - 1);
    } else {
        lemma_queue_weight_nonneg(q.drop_first());
    }
}

pub proof fn lemma_queue_weight_nonneg(q: Seq<WTree>)
    ensures
        queue_weight(q) >= 0,
    decreases q.len(),
{
    if q.len() > 0 {
        lemma_queue_weight_nonneg(q.drop_first());
    }
}

/// The queue of a weight table carries the table's total weight.
pub proof fn lemma_init_queue_weight(entries: Seq<(u32, usize)>)
    ensures
        queue_weight(init_queue(entries)) == table_total(entries),
    decreases entries.len(),
{
    if entries.len() > 0 {
        lemma_init_queue_weight(entries.drop_first());
        assert(init_queue(entries).drop_first() =~= init_queue(entries.drop_first()));
    }
}

/// A merge round keeps the total weight.
pub proof fn lemma_step_weight(q: Seq<WTree>)
    requires
        q.len() >= 2,
        queue_weight(q) <= usize::MAX,
    ensures
        queue_weight(spec_step(q)) == queue_weight(q),
{
    let i1 = min_idx(q);
    lemma_min_idx_range(q);
    let q1 = q.remove(i1);
    let i2 = min_idx(q1);
    lemma_min_idx_range(q1);
    let q2 = q1.remove(i2);
    lemma_queue_weight_remove(q, i1);
    lemma_queue_weight_remove(q1, i2);
    lemma_queue_weight_bound(q1, i2);
    lemma_queue_weight_remove(q1, i2);
    lemma_queue_weight_nonneg(q2);
    assert(q[i1].weight + q1[i2].weight <= queue_weight(q));
    assert(spec_merge(q[i1], q1[i2]).weight == q[i1].weight + q1[i2].weight);
    lemma_queue_weight_push(q2, spec_merge(q[i1], q1[i2]));
}

/// The position of the least tree.
fn find_min(q: &Vec<WTree>) -> (r: usize)
    requires
        q@.len() >= 1,
    ensures
        r == min_idx(q@),
        r < q@.len(),
{
    let n: usize = q.len();
    let mut best: usize = 0;
    let mut j: usize = 1;
    assert(q@.take(1).len() == 1);
    while j < n
        invariant
            1 <= j <= n,
            n == q@.len(),
            best < j,
            best == min_idx(q@.take(j as int)),
        decreases n - j,
    {
        proof {
            assert(q@.take(j + 1).drop_last() =~= q@.take(j as int));
            assert(q@.take(j + 1).last() == q@[j as int]);
            assert(q@.take(j + 1)[best as int] == q@[best as int]);
        }
        let cand = &q[j];
        let cur = &q[best];
        if cand.weight < cur.weight || (cand.weight == cur.weight && cand.low < cur.low) {
            best = j;
        }
        j += 1;
    }
    proof {
        assert(q@.take(n as int) =~= q@);
    }
    best
}

/// Reads the code of every leaf below `node` into `book`, each at its
/// ordered position.  `prefix` is the path already walked.
fn parse_node(node: &HuffNode, book: &mut Codebook, prefix: bit_vec::BitVec)
    requires
        stream(prefix).len() + height(*node) < usize::MAX,
    ensures
        final(book)@ == spec_parse_node(old(book)@, *node, stream(prefix)),
    decreases *node,
{
    match node {
        HuffNode::Leaf(v) => {
            book.insert(*v, prefix);
        },
        HuffNode::Branch(l, r) => {
            let mut lc = bv_copy(&prefix);
            bv_push(&mut lc, false);
            let mut rc = prefix;
            bv_push(&mut rc, true);
            parse_node(l, book, lc);
            parse_node(r, book, rc);
        },
    }
}

/// Builds the code book of a weight table.
///
/// Entries seed a queue as one-leaf trees in table order; rounds of
/// merging the two least trees leave a single tree whose leaf paths are
/// the codes.  A lone word gets the one-bit code `0`.
pub fn build_dictionary(table: &WeightTable) -> (book: Codebook)
    requires
        table_total(table@) <= usize::MAX,
        table@.len() <= usize::MAX,
    ensures
        book@ == spec_build_book(table@),
{
    let n: usize = table.len();
    if n == 0 {
        let book = Codebook::new();
        assert(book@ =~= spec_build_book(table@));
        return book;
    }
    if n == 1 {
        let mut book = Codebook::new();
        let e: (u32, usize) = table.entry_at(0);
        let mut code: bit_vec::BitVec = bv_new();
        bv_push(&mut code, false);
        assert(stream(code) =~= seq![false]);
        book.insert(e.0, code);
        assert(book@ =~= spec_build_book(table@));
        return book;
    }
    let ghost q0 = init_queue(table@);
    let mut q: Vec<WTree> = Vec::new();
    let mut i: usize = 0;
    while i < n
        invariant
            i <= n,
            n == table@.len(),
            q@ =~= init_queue(table@.take(i as int)),
        decreases n - i,
    {
        let e: (u32, usize) = table.entry_at(i);
        q.push(WTree { weight: e.1, low: e.0, node: HuffNode::Leaf(e.0) });
        proof {
            assert(q@ =~= init_queue(table@.take(i + 1)));
        }
        i += 1;
    }
    proof {
        assert(table@.take(n as int) =~= table@);
        lemma_init_queue_weight(table@);
    }
    while q.len() > 1
        invariant
            q@.len() >= 1,
            spec_run(q@) == spec_run(q0),
            queue_weight(q@) == table_total(table@),
            table_total(table@) <= usize::MAX,
        decreases q@.len(),
    {
        let ghost q_before = q@;
        let i1: usize = find_min(&q);
        let a: WTree = q.remove(i1);
        let i2: usize = find_min(&q);
        let b: WTree = q.remove(i2);
        proof {
            lemma_queue_weight_remove(q_before, i1 as int);
            lemma_queue_weight_remove(q_before.remove(i1 as int), i2 as int);
            lemma_queue_weight_nonneg(q@);
            lemma_step_weight(q_before);
        }
        let low: u32 = if a.low <= b.low {
            a.low
        } else {
            b.low
        };
        let merged = WTree {
            weight: a.weight + b.weight,
            low,
            node: HuffNode::Branch(Box::new(a.node), Box::new(b.node)),
        };
        q.push(merged);
        proof {
            assert(q@ =~= spec_step(q_before));
            assert(spec_run(q_before) == spec_run(q@));
        }
    }
    let ghost root_tree = spec_run(q0)[0];
    proof {
        assert(spec_run(q@) == q@);
        assert(q@[0] == root_tree);
    }
    let wt: WTree = match q.pop() {
        Some(wt) => wt,
        None => {
            proof {
                assert(false);
            }
            WTree { weight: 0, low: 0, node: HuffNode::Leaf(0) }
        },
    };
    assert(wt == root_tree);
    let mut book = Codebook::new();
    let prefix: bit_vec::BitVec = bv_new();
    proof {
        lemma_height_le_leaf_count(wt.node);
        lemma_run_leaf_count(q0);
        lemma_init_queue_leaf_count(table@);
        assert(queue_leaf_count(spec_run(q0)) == leaf_count(root_tree.node) + queue_leaf_count(
            spec_run(q0).drop_first(),
        ));
        assert(spec_run(q0).drop_first() =~= Seq::<WTree>::empty());
    }
    parse_node(&wt.node, &mut book, prefix);
    proof {
        assert(stream(prefix) =~= Seq::<bool>::empty());
        assert(book@ == spec_build_book(table@));
    }
    book
}

/// The number of leaves across the queue.
pub open spec fn queue_leaf_count(q: Seq<WTree>) -> nat
    decreases q.len(),
{
    if q.len() == 0 {
        0
    } else {
        leaf_count(q[0].node) + queue_leaf_count(q.drop_first())
    }
}

pub proof fn lemma_queue_leaf_count_remove(q: Seq<WTree>, i: int)
    requires
        0 <= i < q.len(),
    ensures
        queue_leaf_count(q.remove(i)) == queue_leaf_count(q) - leaf_count(q[i].node),
    decreases q.len(),
{
    if i == 0 {
        assert(q.remove(0) =~= q.drop_first());
    } else {
        assert(q.remove(i).drop_first() =~= q.drop_first().remove(i - 1));
        assert(q.remove(i)[0] == q[0]);
        assert(q.drop_first()[i - 1] == q[i]);
        lemma_queue_leaf_count_remove(q.drop_first(), i - 1);
    }
}

pub proof fn lemma_queue_leaf_count_push(q: Seq<WTree>, t: WTree)
    ensures
        queue_leaf_count(q.push(t)) == queue_leaf_count(q) + leaf_count(t.node),
    decreases q.len(),
{
    assert(q.push(t).len() == q.len() + 1);
    assert(queue_leaf_count(q.push(t)) == leaf_count(q.push(t)[0].node) + queue_leaf_count(
        q.push(t).drop_first(),
    ));
    if q.len() == 0 {
        assert(q.push(t)[0] == t);
        assert(q.push(t).drop_first() =~= Seq::<WTree>::empty());
        assert(queue_leaf_count(q.push(t).drop_first()) == 0);
    } else {
        assert(q.push(t).drop_first() =~= q.drop_first().push(t));
        assert(q.push(t)[0] == q[0]);
        lemma_queue_leaf_count_push(q.drop_first(), t);
    }
}

/// Merging keeps the leaf count of the queue.
pub proof fn lemma_run_leaf_count(q: Seq<WTree>)
    ensures
        queue_leaf_count(spec_run(q)) == queue_leaf_count(q),
    decreases q.len(),
{
    if q.len() > 1 {
        let i1 = min_idx(q);
        lemma_min_idx_range(q);
        let q1 = q.remove(i1);
        let i2 = min_idx(q1);
        lemma_min_idx_range(q1);
        let q2 = q1.remove(i2);
        lemma_queue_leaf_count_remove(q, i1);
        lemma_queue_leaf_count_remove(q1, i2);
        lemma_queue_leaf_count_push(q2, spec_merge(q[i1], q1[i2]));
        lemma_run_leaf_count(spec_step(q));
    }
}

/// A table's queue has one leaf per entry.
pub proof fn lemma_init_queue_leaf_count(entries: Seq<(u32, usize)>)
    ensures
        queue_leaf_count(init_queue(entries)) == entries.len(),
    decreases entries.len(),
{
    if entries.len() > 0 {
        lemma_init_queue_leaf_count(entries.drop_first());
        assert(init_queue(entries).drop_first() =~= init_queue(entries.drop_first()));
    }
}

/// A path to a leaf is shorter than the number of leaves.
pub proof fn lemma_height_le_leaf_count(n: HuffNode)
    ensures
        height(n) < leaf_count(n),
    decreases n,
{
    match n {
        HuffNode::Leaf(_) => {},
        HuffNode::Branch(l, r) => {
            lemma_height_le_leaf_count(*l);
            lemma_height_le_leaf_count(*r);
        },
    }
}

// ---------------------------------------------------------------------
// What the built book satisfies.
// ---------------------------------------------------------------------

/// The set of words at the leaves.
pub open spec fn leaf_set(n: HuffNode) -> Set<u32>
    decreases n,
{
    match n {
        HuffNode::Leaf(v) => Set::empty().insert(v),
        HuffNode::Branch(l, r) => leaf_set(*l).union(leaf_set(*r)),
    }
}

/// The words at the leaves of every tree in the queue.
pub open spec fn queue_words(q: Seq<WTree>) -> Set<u32>
    decreases q.len(),
{
    if q.len() == 0 {
        Set::empty()
    } else {
        leaf_set(q[0].node).union(queue_words(q.drop_first()))
    }
}

pub proof fn lemma_queue_words_remove(q: Seq<WTree>, i: int)
    requires
        0 <= i < q.len(),
    ensures
        queue_words(q) =~= queue_words(q.remove(i)).union(leaf_set(q[i].node)),
    decreases q.len(),
{
    if i == 0 {
        assert(q.remove(0) =~= q.drop_first());
    } else {
        assert(q.remove(i).drop_first() =~= q.drop_first().remove(i - 1));
        assert(q.remove(i)[0] == q[0]);
        assert(q.drop_first()[i - 1] == q[i]);
        lemma_queue_words_remove(q.drop_first(), i - 1);
    }
}

pub proof fn lemma_queue_words_push(q: Seq<WTree>, t: WTree)
    ensures
        queue_words(q.push(t)) =~= queue_words(q).union(leaf_set(t.node)),
    decreases q.len(),
{
    assert(q.push(t).len() == q.len() + 1);
    assert(queue_words(q.push(t)) == leaf_set(q.push(t)[0].node).union(
        queue_words(q.push(t).drop_first()),
    ));
    if q.len() == 0 {
        assert(q.push(t)[0] == t);
        assert(q.push(t).drop_first() =~= Seq::<WTree>::empty());
        assert(queue_words(q.push(t).drop_first()) =~= Set::<u32>::empty());
    } else {
        assert(q.push(t).drop_first() =~= q.drop_first().push(t));
        assert(q.push(t)[0] == q[0]);
        lemma_queue_words_push(q.drop_first(), t);
    }
}

/// Merging keeps the queue's word set.
pub proof fn lemma_run_words(q: Seq<WTree>)
    ensures
        queue_words(spec_run(q)) =~= queue_words(q),
    decreases q.len(),
{
    if q.len() > 1 {
        let i1 = min_idx(q);
        lemma_min_idx_range(q);
        let q1 = q.remove(i1);
        let i2 = min_idx(q1);
        lemma_min_idx_range(q1);
        let q2 = q1.remove(i2);
        lemma_queue_words_remove(q, i1);
        lemma_queue_words_remove(q1, i2);
        lemma_queue_words_push(q2, spec_merge(q[i1], q1[i2]));
        lemma_run_words(spec_step(q));
    }
}

/// The set of a table's words.
pub open spec fn table_word_set(entries: Seq<(u32, usize)>) -> Set<u32>
    decreases entries.len(),
{
    if entries.len() == 0 {
        Set::empty()
    } else {
        Set::empty().insert(entries[0].0).union(table_word_set(entries.drop_first()))
    }
}

/// A table's queue carries exactly the table's words.
pub proof fn lemma_init_queue_words(entries: Seq<(u32, usize)>)
    ensures
        queue_words(init_queue(entries)) =~= table_word_set(entries),
    decreases entries.len(),
{
    if entries.len() > 0 {
        lemma_init_queue_words(entries.drop_first());
        assert(init_queue(entries).drop_first() =~= init_queue(entries.drop_first()));
        assert(init_queue(entries)[0].node == HuffNode::Leaf(entries[0].0));
        assert(leaf_set(init_queue(entries)[0].node) =~= Set::empty().insert(entries[0].0));
    }
}

/// Membership in a table's word set is having an entry.
pub proof fn lemma_table_word_set_contains(entries: Seq<(u32, usize)>, w: u32)
    ensures
        table_word_set(entries).contains(w) <==> exists|k: int|
            0 <= k < entries.len() && (#[trigger] entries[k]).0 == w,
    decreases entries.len(),
{
    if entries.len() > 0 {
        lemma_table_word_set_contains(entries.drop_first(), w);
        if table_word_set(entries).contains(w) {
            if w != entries[0].0 {
                let k = choose|k: int|
                    0 <= k < entries.drop_first().len() && (#[trigger] entries.drop_first()[k]).0
                        == w;
                assert(entries[k + 1].0 == w);
            } else {
                assert(entries[0].0 == w);
            }
        }
        if exists|k: int| 0 <= k < entries.len() && (#[trigger] entries[k]).0 == w {
            let k = choose|k: int| 0 <= k < entries.len() && (#[trigger] entries[k]).0 == w;
            if k > 0 {
                assert(entries.drop_first()[k - 1].0 == w);
            }
        }
    }
}

/// Membership in a concatenation is membership in either part.
pub proof fn lemma_concat_contains<A>(x: Seq<A>, y: Seq<A>, e: A)
    ensures
        (x + y).contains(e) <==> x.contains(e) || y.contains(e),
{
    if x.contains(e) {
        let i = choose|i: int| 0 <= i < x.len() && x[i] == e;
        assert((x + y)[i] == e);
    }
    if y.contains(e) {
        let i = choose|i: int| 0 <= i < y.len() && y[i] == e;
        assert((x + y)[x.len() + i] == e);
    }
    if (x + y).contains(e) {
        let i = choose|i: int| 0 <= i < (x + y).len() && (x + y)[i] == e;
        if i < x.len() {
            assert(x[i] == e);
        } else {
            assert(y[i - x.len()] == e);
        }
    }
}

/// A tree has as many leaf words as leaves.
pub proof fn lemma_leaves_count(n: HuffNode)
    ensures
        leaves(n).len() == leaf_count(n),
    decreases n,
{
    match n {
        HuffNode::Leaf(_) => {},
        HuffNode::Branch(l, r) => {
            lemma_leaves_count(*l);
            lemma_leaves_count(*r);
        },
    }
}

/// What the leaf codes of a subtree look like from `p`: every code
/// extends `p`, stays within the tree's height, words are the leaves in
/// order, and no code is a prefix of another.
pub proof fn lemma_tree_codes_props(n: HuffNode, p: Seq<bool>)
    ensures
        tree_codes(n, p).len() == leaf_count(n),
        forall|k: int|
            0 <= k < tree_codes(n, p).len() ==> is_prefix(p, (#[trigger] tree_codes(n, p)[k]).1),
        forall|k: int|
            0 <= k < tree_codes(n, p).len() ==> p.len() <= (#[trigger] tree_codes(n, p)[k]).1.len()
                <= p.len() + height(n),
        n is Branch ==> forall|k: int|
            0 <= k < tree_codes(n, p).len() ==> (#[trigger] tree_codes(n, p)[k]).1.len() > p.len(),
        forall|k: int|
            0 <= k < tree_codes(n, p).len() ==> (#[trigger] tree_codes(n, p)[k]).0 == leaves(n)[k],
        crate::codebook::book_prefix_free(tree_codes(n, p)),
    decreases n,
{
    let tc = tree_codes(n, p);
    match n {
        HuffNode::Leaf(v) => {
            assert(tc.len() == 1 && tc[0] == (v, p));
            assert(leaves(n)[0] == v);
            assert(is_prefix(p, p)) by {
                assert(p.subrange(0, p.len() as int) =~= p);
            }
        },
        HuffNode::Branch(l, r) => {
            let pl = p.push(false);
            let pr = p.push(true);
            lemma_tree_codes_props(*l, pl);
            lemma_tree_codes_props(*r, pr);
            let a = tree_codes(*l, pl);
            let b = tree_codes(*r, pr);
            assert(tc == a + b);
            assert(leaves(n) == leaves(*l) + leaves(*r));
            lemma_leaves_count(*l);
            lemma_leaves_count(*r);
            assert forall|k: int| 0 <= k < tc.len() implies is_prefix(p, (#[trigger] tc[k]).1)
                && p.len() <= tc[k].1.len() <= p.len() + height(n) && tc[k].1.len() > p.len()
                && tc[k].0 == leaves(n)[k] by {
                if k < a.len() {
                    assert(tc[k] == a[k]);
                    assert(leaves(n)[k] == leaves(*l)[k]);
                    lemma_prefix_step(p, false, a[k].1);
                } else {
                    assert(tc[k] == b[k - a.len()]);
                    assert(leaves(n)[k] == leaves(*r)[k - a.len()]);
                    lemma_prefix_step(p, true, b[k - a.len()].1);
                }
            }
            assert forall|i: int, j: int|
                0 <= i < tc.len() && 0 <= j < tc.len() && i != j implies !is_prefix(
                (#[trigger] tc[i]).1,
                (#[trigger] tc[j]).1,
            ) by {
                if i < a.len() && j < a.len() {
                    assert(tc[i] == a[i] && tc[j] == a[j]);
                } else if i >= a.len() && j >= a.len() {
                    assert(tc[i] == b[i - a.len()] && tc[j] == b[j - a.len()]);
                } else if i < a.len() {
                    assert(tc[i] == a[i] && tc[j] == b[j - a.len()]);
                    lemma_sides_not_prefix(p, a[i].1, b[j - a.len()].1);
                } else {
                    assert(tc[j] == a[j] && tc[i] == b[i - a.len()]);
                    lemma_sides_not_prefix(p, a[j].1, b[i - a.len()].1);
                }
            }
        },
    }
}

/// A code extending `p ++ [bit]` extends `p`, is longer than `p`, and
/// carries `bit` at position `p.len()`.
proof fn lemma_prefix_step(p: Seq<bool>, bit: bool, c: Seq<bool>)
    requires
        is_prefix(p.push(bit), c),
    ensures
        is_prefix(p, c),
        c.len() > p.len(),
        c[p.len() as int] == bit,
{
    assert(c.subrange(0, p.len() as int + 1) == p.push(bit));
    assert(c[p.len() as int] == c.subrange(0, p.len() as int + 1)[p.len() as int]);
    assert(c.subrange(0, p.len() as int) =~= p) by {
        assert forall|k: int| 0 <= k < p.len() implies c.subrange(0, p.len() as int)[k]
            == p[k] by {
            assert(c.subrange(0, p.len() as int + 1)[k] == p.push(bit)[k]);
        }
    }
}

/// A code through the left child is never a prefix of one through the
/// right child, nor the other way round.
proof fn lemma_sides_not_prefix(p: Seq<bool>, cl: Seq<bool>, cr: Seq<bool>)
    requires
        is_prefix(p.push(false), cl),
        is_prefix(p.push(true), cr),
    ensures
        !is_prefix(cl, cr),
        !is_prefix(cr, cl),
{
    lemma_prefix_step(p, false, cl);
    lemma_prefix_step(p, true, cr);
    if is_prefix(cl, cr) {
        assert(cr.subrange(0, cl.len() as int)[p.len() as int] == cl[p.len() as int]);
    }
    if is_prefix(cr, cl) {
        assert(cl.subrange(0, cr.len() as int)[p.len() as int] == cr[p.len() as int]);
    }
}

use crate::codebook::{book_has_word, book_prefix_free, book_sorted, codes_nonempty, is_prefix};

/// What one ordered insert guarantees.
pub proof fn lemma_insert_sorted_props(b: Seq<(u32, Seq<bool>)>, e: (u32, Seq<bool>))
    requires
        book_sorted(b),
    ensures
        book_sorted(spec_insert_sorted(b, e)),
        spec_insert_sorted(b, e).len() <= b.len() + 1,
        forall|x: (u32, Seq<bool>)|
            (#[trigger] spec_insert_sorted(b, e).contains(x)) ==> b.contains(x) || x == e,
        forall|w: u32|
            book_has_word(spec_insert_sorted(b, e), w) <==> book_has_word(b, w) || w == e.0,
        book_has_word(spec_insert_sorted(b, e), e.0),
    decreases b.len(),
{
    let r = spec_insert_sorted(b, e);
    if b.len() == 0 {
        assert(r =~= seq![e]);
        assert(r[0] == e);
        assert forall|x: (u32, Seq<bool>)| (#[trigger] r.contains(x)) implies b.contains(x) || x
            == e by {
            let i = choose|i: int| 0 <= i < r.len() && r[i] == x;
            assert(r[0] == x);
        }
        assert forall|w: u32| book_has_word(r, w) <==> book_has_word(b, w) || w == e.0 by {
            if w == e.0 {
                assert(r[0].0 == w);
            }
        }
    } else if e.0 == b[0].0 {
        assert(r == seq![e] + b.drop_first());
        lemma_concat_contains(seq![e], b.drop_first(), e);
        assert forall|x: (u32, Seq<bool>)| (#[trigger] r.contains(x)) implies b.contains(x) || x
            == e by {
            lemma_concat_contains(seq![e], b.drop_first(), x);
            if b.drop_first().contains(x) {
                let i = choose|i: int| 0 <= i < b.drop_first().len() && b.drop_first()[i] == x;
                assert(b[i + 1] == x);
            } else {
                assert(seq![e][0] == e);
            }
        }
        assert forall|w: u32| book_has_word(r, w) <==> book_has_word(b, w) || w == e.0 by {
            if book_has_word(r, w) {
                let i = choose|i: int| 0 <= i < r.len() && r[i].0 == w;
                if i > 0 {
                    assert(b[i] == r[i]);
                }
            }
            if book_has_word(b, w) {
                let i = choose|i: int| 0 <= i < b.len() && b[i].0 == w;
                if i > 0 {
                    assert(r[i] == b[i]);
                    assert(r[i].0 == w);
                } else {
                    assert(r[0].0 == w);
                }
            }
            if w == e.0 {
                assert(r[0].0 == w);
            }
        }
    } else if e.0 < b[0].0 {
        assert(r == seq![e] + b);
        assert forall|x: (u32, Seq<bool>)| (#[trigger] r.contains(x)) implies b.contains(x) || x
            == e by {
            lemma_concat_contains(seq![e], b, x);
            if seq![e].contains(x) {
                let i = choose|i: int| 0 <= i < seq![e].len() && seq![e][i] == x;
                assert(seq![e][0] == e);
            }
        }
        assert forall|w: u32| book_has_word(r, w) <==> book_has_word(b, w) || w == e.0 by {
            if book_has_word(r, w) {
                let i = choose|i: int| 0 <= i < r.len() && r[i].0 == w;
                if i > 0 {
                    assert(b[i - 1] == r[i]);
                }
            }
            if book_has_word(b, w) {
                let i = choose|i: int| 0 <= i < b.len() && b[i].0 == w;
                assert(r[i + 1] == b[i]);
                assert(r[i + 1].0 == w);
            }
            if w == e.0 {
                assert(r[0].0 == w);
            }
        }
        assert forall|i: int, j: int| 0 <= i < j < r.len() implies r[i].0 < r[j].0 by {
            if i > 0 {
                assert(r[i] == b[i - 1] && r[j] == b[j - 1]);
            } else {
                assert(r[j] == b[j - 1]);
            }
        }
    } else {
        let tail = b.drop_first();
        lemma_insert_sorted_props(tail, e);
        let rt = spec_insert_sorted(tail, e);
        assert(r == seq![b[0]] + rt);
        assert(r[0] == b[0]);
        assert(book_has_word(r, e.0)) by {
            let k = choose|k: int| 0 <= k < rt.len() && rt[k].0 == e.0;
            assert(r[k + 1].0 == e.0);
        }
        assert forall|x: (u32, Seq<bool>)| (#[trigger] r.contains(x)) implies b.contains(x) || x
            == e by {
            lemma_concat_contains(seq![b[0]], rt, x);
            if seq![b[0]].contains(x) {
                let i = choose|i: int| 0 <= i < seq![b[0]].len() && seq![b[0]][i] == x;
                assert(seq![b[0]][0] == b[0]);
                assert(b[0] == x);
            } else {
                assert(rt.contains(x));
                if tail.contains(x) {
                    let i = choose|i: int| 0 <= i < tail.len() && tail[i] == x;
                    assert(b[i + 1] == x);
                }
            }
        }
        assert forall|w: u32| book_has_word(r, w) <==> book_has_word(b, w) || w == e.0 by {
            if book_has_word(r, w) {
                let i = choose|i: int| 0 <= i < r.len() && r[i].0 == w;
                if i == 0 {
                    assert(b[0].0 == w);
                } else {
                    assert(rt[i - 1].0 == w);
                    assert(book_has_word(spec_insert_sorted(tail, e), w));
                    if book_has_word(tail, w) {
                        let k = choose|k: int| 0 <= k < tail.len() && tail[k].0 == w;
                        assert(b[k + 1].0 == w);
                    }
                }
            }
            if book_has_word(b, w) {
                let i = choose|i: int| 0 <= i < b.len() && b[i].0 == w;
                if i == 0 {
                    assert(r[0].0 == w);
                } else {
                    assert(tail[i - 1].0 == w);
                    assert(book_has_word(tail, w));
                    assert(book_has_word(spec_insert_sorted(tail, e), w));
                    let k = choose|k: int| 0 <= k < rt.len() && rt[k].0 == w;
                    assert(r[k + 1].0 == w);
                }
            }
            if w == e.0 {
                let k = choose|k: int| 0 <= k < rt.len() && rt[k].0 == w;
                assert(r[k + 1].0 == w);
            }
        }
        assert forall|i: int, j: int| 0 <= i < j < r.len() implies r[i].0 < r[j].0 by {
            if i > 0 {
                assert(r[i] == rt[i - 1] && r[j] == rt[j - 1]);
            } else {
                assert(r[j] == rt[j - 1]);
                assert(rt.contains(rt[j - 1]));
                assert(0 <= j - 1 < rt.len() && rt[j - 1].0 == rt[j - 1].0);
                assert(book_has_word(spec_insert_sorted(tail, e), rt[j - 1].0));
                if book_has_word(tail, rt[j - 1].0) {
                    let k = choose|k: int| 0 <= k < tail.len() && tail[k].0 == rt[j - 1].0;
                    assert(b[k + 1].0 == rt[j - 1].0);
                }
            }
        }
    }
}

/// What folding a subtree's codes into a sorted book guarantees.
pub proof fn lemma_parse_node_props(acc: Seq<(u32, Seq<bool>)>, n: HuffNode, p: Seq<bool>)
    requires
        book_sorted(acc),
    ensures
        book_sorted(spec_parse_node(acc, n, p)),
        spec_parse_node(acc, n, p).len() <= acc.len() + leaf_count(n),
        forall|x: (u32, Seq<bool>)|
            (#[trigger] spec_parse_node(acc, n, p).contains(x)) ==> acc.contains(x) || tree_codes(
                n,
                p,
            ).contains(x),
        forall|w: u32|
            book_has_word(spec_parse_node(acc, n, p), w) <==> book_has_word(acc, w) || leaf_set(
                n,
            ).contains(w),
    decreases n,
{
    let r = spec_parse_node(acc, n, p);
    match n {
        HuffNode::Leaf(v) => {
            lemma_insert_sorted_props(acc, (v, p));
            assert(tree_codes(n, p)[0] == (v, p));
            assert(tree_codes(n, p).contains((v, p)));
            assert(leaf_set(n).contains(v));
            assert forall|w: u32|
                book_has_word(r, w) <==> book_has_word(acc, w) || leaf_set(n).contains(w) by {
                assert(leaf_set(n) =~= Set::empty().insert(v));
            }
        },
        HuffNode::Branch(l, r2) => {
            let pl = p.push(false);
            let pr = p.push(true);
            let mid = spec_parse_node(acc, *l, pl);
            lemma_parse_node_props(acc, *l, pl);
            lemma_parse_node_props(mid, *r2, pr);
            assert forall|x: (u32, Seq<bool>)|
                (#[trigger] r.contains(x)) implies acc.contains(x) || tree_codes(n, p).contains(
                x,
            ) by {
                if r.contains(x) {
                    lemma_concat_contains(tree_codes(*l, pl), tree_codes(*r2, pr), x);
                }
            }
            assert forall|w: u32|
                book_has_word(r, w) <==> book_has_word(acc, w) || leaf_set(n).contains(w) by {
                assert(leaf_set(n) =~= leaf_set(*l).union(leaf_set(*r2)));
            }
        },
    }
}

/// Merging always ends with exactly one tree.
pub proof fn lemma_run_len(q: Seq<WTree>)
    requires
        q.len() >= 1,
    ensures
        spec_run(q).len() == 1,
    decreases q.len(),
{
    if q.len() > 1 {
        lemma_min_idx_range(q);
        lemma_min_idx_range(q.remove(min_idx(q)));
        lemma_run_len(spec_step(q));
    }
}

/// What the book built from a weight table satisfies: entries sorted by
/// word, every code non-empty and shorter than the number of entries, no
/// code a prefix of another, and exactly the table's words present.
pub proof fn lemma_build_book_props(entries: Seq<(u32, usize)>)
    ensures
        book_sorted(spec_build_book(entries)),
        codes_nonempty(spec_build_book(entries)),
        book_prefix_free(spec_build_book(entries)),
        spec_build_book(entries).len() <= entries.len(),
        forall|w: u32|
            book_has_word(spec_build_book(entries), w) <==> exists|k: int|
                0 <= k < entries.len() && (#[trigger] entries[k]).0 == w,
        forall|k: int|
            0 <= k < spec_build_book(entries).len() ==> (#[trigger] spec_build_book(
                entries,
            )[k]).1.len() <= if entries.len() <= 1 {
                1int
            } else {
                entries.len() - 1
            },
{
    let bb = spec_build_book(entries);
    if entries.len() == 0 {
        assert(bb.len() == 0);
    } else if entries.len() == 1 {
        assert(bb.len() == 1 && bb[0] == (entries[0].0, seq![false]));
        assert(bb[0].1.len() == 1);
        assert forall|w: u32|
            book_has_word(bb, w) <==> exists|k: int|
                0 <= k < entries.len() && (#[trigger] entries[k]).0 == w by {
            if book_has_word(bb, w) {
                assert(entries[0].0 == w);
            }
            if exists|k: int| 0 <= k < entries.len() && (#[trigger] entries[k]).0 == w {
                assert(bb[0].0 == w);
            }
        }
    } else {
        let q0 = init_queue(entries);
        assert(q0.len() == entries.len());
        lemma_run_len(q0);
        let run = spec_run(q0);
        let root = run[0].node;
        lemma_parse_node_props(Seq::empty(), root, Seq::empty());
        assert(bb == spec_parse_node(Seq::empty(), root, Seq::empty()));

        // the root has one leaf per table entry
        lemma_run_leaf_count(q0);
        lemma_init_queue_leaf_count(entries);
        assert(queue_leaf_count(run) == leaf_count(root) + queue_leaf_count(run.drop_first()));
        assert(run.drop_first() =~= Seq::<WTree>::empty());
        assert(leaf_count(root) == entries.len());

        // so it is a branch, and every code is a non-empty path within its
        // height
        lemma_tree_codes_props(root, Seq::empty());
        lemma_height_le_leaf_count(root);
        let tc = tree_codes(root, Seq::empty());
        assert(root is Branch) by {
            if root is Leaf {
                assert(leaf_count(root) == 1);
            }
        }
        assert forall|k: int| 0 <= k < bb.len() implies (#[trigger] bb[k]).1.len() >= 1 && bb[
            k
        ].1.len() <= entries.len() - 1 by {
            assert(bb.contains(bb[k]));
            assert(tc.contains(bb[k]));
            let m = choose|m: int| 0 <= m < tc.len() && tc[m] == bb[k];
            assert(tc[m].1.len() > 0);
            assert(tc[m].1.len() <= height(root));
        }

        // no code is a prefix of another: distinct book entries are
        // distinct leaf codes
        assert forall|i: int, j: int|
            0 <= i < bb.len() && 0 <= j < bb.len() && i != j implies !is_prefix(
            (#[trigger] bb[i]).1,
            (#[trigger] bb[j]).1,
        ) by {
            assert(bb.contains(bb[i]));
            assert(bb.contains(bb[j]));
            assert(tc.contains(bb[i]));
            assert(tc.contains(bb[j]));
            let m1 = choose|m: int| 0 <= m < tc.len() && tc[m] == bb[i];
            let m2 = choose|m: int| 0 <= m < tc.len() && tc[m] == bb[j];
            assert(bb[i].0 != bb[j].0) by {
                if i < j {
                    assert(bb[i].0 < bb[j].0);
                } else {
                    assert(bb[j].0 < bb[i].0);
                }
            }
            assert(m1 != m2);
            assert(!is_prefix(tc[m1].1, tc[m2].1));
        }

        // the words are the table's words
        lemma_run_words(q0);
        lemma_init_queue_words(entries);
        assert(queue_words(run) =~= leaf_set(root).union(queue_words(run.drop_first())));
        assert(queue_words(run.drop_first()) =~= Set::<u32>::empty());
        assert(leaf_set(root).union(Set::<u32>::empty()) =~= leaf_set(root));
        assert(leaf_set(root) =~= table_word_set(entries));
        assert forall|w: u32|
            book_has_word(bb, w) <==> exists|k: int|
                0 <= k < entries.len() && (#[trigger] entries[k]).0 == w by {
            lemma_table_word_set_contains(entries, w);
            assert(book_has_word(spec_parse_node(Seq::empty(), root, Seq::empty()), w)
                <==> book_has_word(Seq::empty(), w) || leaf_set(root).contains(w));
            assert(!book_has_word(Seq::<(u32, Seq<bool>)>::empty(), w));
            assert(leaf_set(root).contains(w) <==> table_word_set(entries).contains(w));
        }
    }
}

} // verus!
