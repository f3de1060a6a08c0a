//! The weight table: how often each word occurs in the input.
//!
//! The table is kept as a vector of `(word, count)` pairs, strictly
//! ascending by word, so that everything downstream — the order the
//! builder's queue is seeded in, the order the code book is emitted in —
//! is a function of the input alone.

use vstd::prelude::*;

verus! {

/// A finite map from words to their number of occurrences, ordered by word.
pub struct WeightTable {
    pub entries: Vec<(u32, usize)>,
}

impl View for WeightTable {
    type V = Seq<(u32, usize)>;

    open spec fn view(&self) -> Seq<(u32, usize)> {
        self.entries@
    }
}

/// How often `w` occurs in `data`.
pub open spec fn wcount(data: Seq<u32>, w: u32) -> nat
    decreases data.len(),
{
    if data.len() == 0 {
        0
    } else {
        wcount(data.drop_last(), w) + if data.last() == w {
            1nat
        } else {
            0nat
        }
    }
}

/// Entries are strictly ascending by word; in particular no word repeats.
pub open spec fn table_sorted(entries: Seq<(u32, usize)>) -> bool {
    forall|i: int, j: int| 0 <= i < j < entries.len() ==> entries[i].0 < entries[j].0
}

/// The count recorded for `w`, or zero where `w` has no entry.
pub open spec fn table_weight(entries: Seq<(u32, usize)>, w: u32) -> nat
    decreases entries.len(),
{
    if entries.len() == 0 {
        0
    } else if entries[0].0 == w {
        entries[0].1 as nat
    } else {
        table_weight(entries.drop_first(), w)
    }
}

/// The sum of all recorded counts.
pub open spec fn table_total(entries: Seq<(u32, usize)>) -> int
    decreases entries.len(),
{
    if entries.len() == 0 {
        0
    } else {
        entries[0].1 + table_total(entries.drop_first())
    }
}

/// One more occurrence of `w`: bump its entry, or insert `(w, 1)` at the
/// ordered position.
pub open spec fn spec_add_word(entries: Seq<(u32, usize)>, w: u32) -> Seq<(u32, usize)>
    decreases entries.len(),
{
    if entries.len() == 0 {
        seq![(w, 1usize)]
    } else if entries[0].0 == w {
        seq![(entries[0].0, (entries[0].1 + 1) as usize)] + entries.drop_first()
    } else if w < entries[0].0 {
        seq![(w, 1usize)] + entries
    } else {
        seq![entries[0]] + spec_add_word(entries.drop_first(), w)
    }
}

/// The weight table of `data`: fold the words in, in input order.
pub open spec fn spec_weights(data: Seq<u32>) -> Seq<(u32, usize)>
    decreases data.len(),
{
    if data.len() == 0 {
        Seq::empty()
    } else {
        spec_add_word(spec_weights(data.drop_last()), data.last())
    }
}

proof fn lemma_add_word_props(entries: Seq<(u32, usize)>, w: u32, bound: int)
    requires
        0 <= bound < usize::MAX,
        table_sorted(entries),
        forall|k: int| 0 <= k < entries.len() ==> #[trigger] entries[k].1 <= bound,
    ensures
        table_sorted(spec_add_word(entries, w)),
        forall|k: int|
            0 <= k < spec_add_word(entries, w).len() ==> #[trigger] spec_add_word(entries, w)[k].1
                <= bound + 1,
        table_total(spec_add_word(entries, w)) == table_total(entries) + 1,
        forall|x: u32|
            #[trigger] table_weight(spec_add_word(entries, w), x) == table_weight(entries, x) + (
            if x == w {
                1int
            } else {
                0int
            }),
        spec_add_word(entries, w).len() >= 1,
        spec_add_word(entries, w).len() <= entries.len() + 1,
    decreases entries.len(),
{
    let r = spec_add_word(entries, w);
    if entries.len() == 0 {
        assert(r.len() == 1 && r[0] == (w, 1usize));
        assert(r.drop_first() =~= Seq::empty());
        assert(table_total(r) == 1 + table_total(r.drop_first()));
        assert(table_total(r.drop_first()) == 0);
        assert forall|x: u32| #[trigger] table_weight(r, x) == table_weight(entries, x) + (if x == w
        {
            1int
        } else {
            0int
        }) by {
            assert(r.drop_first() =~= Seq::empty());
            if x == w {
                assert(table_weight(r, x) == 1);
            } else {
                assert(table_weight(r, x) == table_weight(r.drop_first(), x));
            }
        }
    } else if entries[0].0 == w {
        assert(r[0] == (entries[0].0, (entries[0].1 + 1) as usize));
        assert(entries[0].1 + 1 <= usize::MAX);
        assert(r.drop_first() =~= entries.drop_first());
        assert(table_total(r) == table_total(entries) + 1);
        assert forall|x: u32| #[trigger] table_weight(r, x) == table_weight(entries, x) + (if x == w
        {
            1int
        } else {
            0int
        }) by {}
    } else if w < entries[0].0 {
        assert(r[0] == (w, 1usize));
        assert(r.drop_first() =~= entries);
        assert(table_total(r) == 1 + table_total(entries));
        assert forall|x: u32| #[trigger] table_weight(r, x) == table_weight(entries, x) + (if x == w
        {
            1int
        } else {
            0int
        }) by {
            if x != w {
                assert(table_weight(r, x) == table_weight(entries, x));
            } else {
                lemma_table_weight_absent(entries, w);
            }
        }
    } else {
        let tail = entries.drop_first();
        lemma_add_word_props(tail, w, bound);
        assert(r[0] == entries[0]);
        assert(r.drop_first() =~= spec_add_word(tail, w));
        assert forall|i: int, j: int| 0 <= i < j < r.len() implies r[i].0 < r[j].0 by {
            if i == 0 {
                // every word in the rebuilt tail is either a tail word or w,
                // all above entries[0].0
                if r[j].0 != w {
                    lemma_add_word_words(tail, w, j - 1);
                }
            }
        }
        assert(table_total(r) == entries[0].1 + table_total(spec_add_word(tail, w)));
        assert forall|x: u32| #[trigger] table_weight(r, x) == table_weight(entries, x) + (if x == w
        {
            1int
        } else {
            0int
        }) by {
            if x == entries[0].0 {
                assert(table_weight(r, x) == entries[0].1 as nat);
                assert(table_weight(entries, x) == entries[0].1 as nat);
            } else {
                assert(table_weight(r, x) == table_weight(spec_add_word(tail, w), x));
                assert(table_weight(entries, x) == table_weight(tail, x));
            }
        }
    }
}

/// A word below every recorded word has no entry.
proof fn lemma_table_weight_absent(entries: Seq<(u32, usize)>, w: u32)
    requires
        forall|k: int| 0 <= k < entries.len() ==> w < #[trigger] entries[k].0,
    ensures
        table_weight(entries, w) == 0,
    decreases entries.len(),
{
    if entries.len() > 0 {
        assert(forall|k: int|
            0 <= k < entries.drop_first().len() ==> w < #[trigger] entries.drop_first()[k].0);
        lemma_table_weight_absent(entries.drop_first(), w);
    }
}

/// Every entry of the sum is an old entry's word or the new word.
proof fn lemma_add_word_words(entries: Seq<(u32, usize)>, w: u32, k: int)
    requires
        0 <= k < spec_add_word(entries, w).len(),
        spec_add_word(entries, w)[k].0 != w,
    ensures
        exists|i: int|
            0 <= i < entries.len() && entries[i].0 == spec_add_word(entries, w)[k].0,
    decreases entries.len(),
{
    let r = spec_add_word(entries, w);
    if entries.len() == 0 {
    } else if entries[0].0 == w {
        assert(r.drop_first() =~= entries.drop_first());
        assert(entries[k].0 == r[k].0);
    } else if w < entries[0].0 {
        assert(r.drop_first() =~= entries);
        assert(entries[k - 1].0 == r[k].0);
    } else {
        if k > 0 {
            assert(r.drop_first() =~= spec_add_word(entries.drop_first(), w));
            lemma_add_word_words(entries.drop_first(), w, k - 1);
            let i = choose|i: int|
                0 <= i < entries.drop_first().len() && entries.drop_first()[i].0 == r[k].0;
            assert(entries[i + 1].0 == r[k].0);
        }
    }
}

/// What the fold guarantees: the table is sorted, counts are occurrence
/// counts, each count is at most the input length, and the counts sum to
/// the input length.
pub proof fn lemma_spec_weights_props(data: Seq<u32>)
    requires
        data.len() <= usize::MAX,
    ensures
        table_sorted(spec_weights(data)),
        forall|k: int|
            0 <= k < spec_weights(data).len() ==> #[trigger] spec_weights(data)[k].1 <= data.len(),
        table_total(spec_weights(data)) == data.len(),
        forall|x: u32| #[trigger] table_weight(spec_weights(data), x) == wcount(data, x),
        spec_weights(data).len() <= data.len(),
    decreases data.len(),
{
    if data.len() == 0 {
    } else {
        let prev = spec_weights(data.drop_last());
        lemma_spec_weights_props(data.drop_last());
        lemma_add_word_props(prev, data.last(), data.len() - 1);
        assert forall|x: u32| #[trigger] table_weight(spec_weights(data), x) == wcount(data, x) by {
            assert(table_weight(prev, x) == wcount(data.drop_last(), x));
        }
        if prev.len() == 0 {
            assert(spec_weights(data).len() <= data.len());
        }
    }
}

impl WeightTable {
    /// The number of distinct words recorded.
    pub fn len(&self) -> (r: usize)
        ensures
            r == self@.len(),
    {
        self.entries.len()
    }

    /// Records one more occurrence of `w`.
    fn add_word(&mut self, w: u32)
        requires
            table_sorted(old(self)@),
            forall|k: int| 0 <= k < old(self)@.len() ==> #[trigger] old(self)@[k].1 < usize::MAX,
        ensures
            final(self)@ == spec_add_word(old(self)@, w),
    {
        let n: usize = self.entries.len();
        let mut idx: usize = 0;
        while idx < n && self.entries[idx].0 < w
            invariant
                idx <= n,
                n == self@.len(),
                *self == *old(self),
                forall|j: int| 0 <= j < idx ==> #[trigger] self@[j].0 < w,
            decreases n - idx,
        {
            idx += 1;
        }
        proof {
            lemma_add_word_at(self@, w, idx as int);
        }
        if idx < n && self.entries[idx].0 == w {
            let c: usize = self.entries[idx].1;
            self.entries[idx] = (w, c + 1);
        } else {
            self.entries.insert(idx, (w, 1));
        }
    }

    /// The entry at a position, for callers that walk the table.
    pub fn entry_at(&self, i: usize) -> (r: (u32, usize))
        requires
            i < self@.len(),
        ensures
            r == self@[i as int],
    {
        self.entries[i]
    }
}

/// `spec_add_word` acts at the first position whose word is not below `w`.
proof fn lemma_add_word_at(entries: Seq<(u32, usize)>, w: u32, idx: int)
    requires
        0 <= idx <= entries.len(),
        forall|j: int| 0 <= j < idx ==> #[trigger] entries[j].0 < w,
        idx < entries.len() ==> entries[idx].0 >= w,
    ensures
        spec_add_word(entries, w) == if idx < entries.len() && entries[idx].0 == w {
            entries.update(idx, (w, (entries[idx].1 + 1) as usize))
        } else {
            entries.insert(idx, (w, 1usize))
        },
    decreases entries.len(),
{
    let r = spec_add_word(entries, w);
    if entries.len() == 0 {
        assert(r =~= entries.insert(0, (w, 1usize)));
    } else if entries[0].0 == w {
        assert(idx == 0);
        assert(r =~= entries.update(0, (w, (entries[0].1 + 1) as usize)));
    } else if w < entries[0].0 {
        assert(idx == 0);
        assert(r =~= entries.insert(0, (w, 1usize)));
    } else {
        assert(idx >= 1);
        lemma_add_word_at(entries.drop_first(), w, idx - 1);
        if idx < entries.len() && entries[idx].0 == w {
            assert(entries.drop_first()[idx - 1] == entries[idx]);
            assert(r =~= entries.update(idx, (w, (entries[idx].1 + 1) as usize)));
        } else {
            assert(r =~= entries.insert(idx, (w, 1usize)));
        }
    }
}

/// Tabulates how often each word occurs in `data`.
pub fn calculate_weights(data: &[u32]) -> (t: WeightTable)
    ensures
        t@ == spec_weights(data@),
        table_sorted(t@),
    decreases data@.len(),
{
    let mut t = WeightTable { entries: Vec::new() };
    let n: usize = data.len();
    let mut i: usize = 0;
    while i < n
        invariant
            i <= n,
            n == data@.len(),
            t@ == spec_weights(data@.subrange(0, i as int)),
        decreases n - i,
    {
        proof {
            let prefix = data@.subrange(0, i as int);
            lemma_spec_weights_props(prefix);
            assert(forall|k: int| 0 <= k < t@.len() ==> #[trigger] t@[k].1 <= i);
            assert(data@.subrange(0, i + 1).drop_last() =~= prefix);
            assert(data@.subrange(0, i + 1).last() == data@[i as int]);
        }
        t.add_word(data[i]);
        i += 1;
    }
    proof {
        assert(data@.subrange(0, n as int) =~= data@);
        lemma_spec_weights_props(data@);
    }
    t
}

} // verus!
