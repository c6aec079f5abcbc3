//! Scoring and ranking of indexed files against a query bitmap.

use vstd::prelude::*;
use crate::bitmap::WordBitMapRow;
use crate::bitmap::and_bytes;
use crate::bitmap::spec_get_bit;

verus! {

/// How many of the first `n` bits of a packed byte sequence are set.
pub open spec fn count_bits_upto(bytes: Seq<u8>, n: int) -> int
    decreases n,
{
    if n <= 0 {
        0
    } else {
        count_bits_upto(bytes, n - 1) + if spec_get_bit(bytes, n - 1) {
            1int
        } else {
            0int
        }
    }
}

/// Bits that are clear in one operand contribute nothing to the count:
/// when every bit from `d` on is clear in `a`, counting the AND's set
/// bits over all `n` positions counts exactly the positions below `d`.
/// A query bitmap built against the dictionary has every padding bit
/// clear, so a match count never includes padding.
pub proof fn lemma_count_restricted(a: Seq<u8>, b: Seq<u8>, d: int, n: int)
    requires
        a.len() == b.len(),
        0 <= d <= n <= a.len() * 8,
        forall|j: int| d <= j < a.len() * 8 ==> !spec_get_bit(a, j),
    ensures
        count_bits_upto(and_bytes(a, b), n) == count_bits_upto(and_bytes(a, b), d),
    decreases n - d,
{
    if n > d {
        crate::bitmap::lemma_and_bytes_bit(a, b, n - 1);
        lemma_count_restricted(a, b, d, n - 1);
    }
}

/// Compares bitmaps for matching bits.
///
/// Returns the number of matching bits and which bits matched.
pub fn matches(bm1: &WordBitMapRow, bm2: &WordBitMapRow) -> (r: (usize, WordBitMapRow))
    requires
        bm1@.len() == bm2@.len(),
        bm1@.len() * 8 <= usize::MAX,
    ensures
        r.1@ == and_bytes(bm1@, bm2@),
        r.0 == count_bits_upto(and_bytes(bm1@, bm2@), bm1@.len() * 8 as int),
{
    let bm_match = WordBitMapRow::and(bm1, bm2).unwrap();
    let total = bm_match.bytes.len() * 8;
    let mut sum: usize = 0;
    for index in 0..total
        invariant
            bm_match@ == and_bytes(bm1@, bm2@),
            total == bm_match@.len() * 8,
            sum == count_bits_upto(bm_match@, index as int),
            sum <= index,
    {
        let b = bm_match.get_bit(index).unwrap();
        if b {
            sum = sum + 1;
        }
    }
    (sum, bm_match)
}

/// Scores every (name, bitmap) pair against a query bitmap, in the order
/// given: each result keeps the name and holds the AND bitmap and the count
/// of its set bits.
pub fn score_files(search_bm: &WordBitMapRow, cache: &Vec<(String, WordBitMapRow)>) -> (r: Vec<
    (String, usize, WordBitMapRow),
>)
    requires
        search_bm@.len() * 8 <= usize::MAX,
        forall|i: int| 0 <= i < cache@.len() ==> (#[trigger] cache@[i].1)@.len() == search_bm@.len(),
    ensures
        r@.len() == cache@.len(),
        forall|i: int|
            0 <= i < cache@.len() ==> {
                let e = #[trigger] r@[i];
                &&& e.0 == cache@[i].0
                &&& e.2@ == and_bytes(cache@[i].1@, search_bm@)
                &&& e.1 == count_bits_upto(and_bytes(cache@[i].1@, search_bm@), search_bm@.len() * 8 as int)
            },
{
    let n = cache.len();
    let mut out: Vec<(String, usize, WordBitMapRow)> = Vec::new();
    for i in 0..n
        invariant
            n == cache@.len(),
            search_bm@.len() * 8 <= usize::MAX,
            forall|k: int|
                0 <= k < cache@.len() ==> (#[trigger] cache@[k].1)@.len() == search_bm@.len(),
            out@.len() == i,
            forall|k: int|
                0 <= k < i ==> {
                    let e = #[trigger] out@[k];
                    &&& e.0 == cache@[k].0
                    &&& e.2@ == and_bytes(cache@[k].1@, search_bm@)
                    &&& e.1 == count_bits_upto(
                        and_bytes(cache@[k].1@, search_bm@),
                        search_bm@.len() * 8 as int,
                    )
                },
    {
        let entry = &cache[i];
        let (m, match_bm) = matches(&entry.1, search_bm);
        out.push((entry.0.clone(), m, match_bm));
    }
    out
}

impl crate::cache::Cache {
    /// Scores every indexed file against a query bitmap, in build order:
    /// each result holds the file's name, the count of shared set bits and
    /// the bitmap of the shared bits.
    pub fn score_files(&self, search_bm: &WordBitMapRow) -> (r: Vec<(String, usize, WordBitMapRow)>)
        requires
            search_bm@.len() * 8 <= usize::MAX,
            forall|i: int|
                0 <= i < self@.entries.len() ==> (#[trigger] self@.entries[i]).bitmap.len()
                    == search_bm@.len(),
        ensures
            r@.len() == self@.entries.len(),
            forall|i: int|
                0 <= i < r@.len() ==> {
                    let e = #[trigger] r@[i];
                    &&& e.0@ == self@.entries[i].name
                    &&& e.2@ == and_bytes(self@.entries[i].bitmap, search_bm@)
                    &&& e.1 == count_bits_upto(
                        and_bytes(self@.entries[i].bitmap, search_bm@),
                        search_bm@.len() * 8 as int,
                    )
                },
    {
        let n = self.entries.len();
        let mut pairs: Vec<(String, WordBitMapRow)> = Vec::new();
        for i in 0..n
            invariant
                n == self.entries@.len(),
                pairs@.len() == i,
                forall|k: int|
                    0 <= k < i ==> (#[trigger] pairs@[k]).0 == self.entries@[k].name && pairs@[k].1@
                        == self@.entries[k].bitmap,
        {
            let e = &self.entries[i];
            pairs.push((e.name.clone(), e.bitmap.duplicate()));
        }
        let r = score_files(search_bm, &pairs);
        proof {
            assert forall|i: int| 0 <= i < r@.len() implies {
                let e = #[trigger] r@[i];
                &&& e.0@ == self@.entries[i].name
                &&& e.2@ == and_bytes(self@.entries[i].bitmap, search_bm@)
                &&& e.1 == count_bits_upto(
                    and_bytes(self@.entries[i].bitmap, search_bm@),
                    search_bm@.len() * 8 as int,
                )
            } by {
                assert(pairs@[i].1@ == self@.entries[i].bitmap);
                assert(r@[i].0 == pairs@[i].0);
            }
        }
        r
    }
}

/// The least score the majority filter admits: at least half of the
/// query's words, rounded up, must match.
pub fn majority_min_score(query_word_count: usize) -> (r: usize)
    requires
        query_word_count < usize::MAX,
    ensures
        r == (query_word_count + 1) / 2,
{
    (query_word_count + 1) / 2
}

/// Whether the scores run from highest to lowest.
pub open spec fn sorted_desc(s: Seq<(String, usize, WordBitMapRow)>) -> bool {
    forall|i: int, j: int| 0 <= i < j < s.len() ==> (#[trigger] s[i]).1 >= (#[trigger] s[j]).1
}

/// Inserts a result after every result whose score reaches its own, and
/// before every later one: where a stable descending sort places it.
pub open spec fn insert_desc(
    s: Seq<(String, usize, WordBitMapRow)>,
    x: (String, usize, WordBitMapRow),
) -> Seq<(String, usize, WordBitMapRow)>
    decreases s.len(),
{
    if s.len() == 0 {
        seq![x]
    } else if s.last().1 < x.1 {
        insert_desc(s.drop_last(), x).push(s.last())
    } else {
        s.push(x)
    }
}

/// Sorts results by score, highest first; results of equal score keep
/// their relative order.
pub open spec fn sort_desc(s: Seq<(String, usize, WordBitMapRow)>) -> Seq<
    (String, usize, WordBitMapRow),
>
    decreases s.len(),
{
    if s.len() == 0 {
        Seq::empty()
    } else {
        insert_desc(sort_desc(s.drop_last()), s.last())
    }
}

/// What ranking returns: the results whose score reaches `min_score`,
/// stably sorted by score, highest first.
pub open spec fn spec_rank(
    s: Seq<(String, usize, WordBitMapRow)>,
    min_score: usize,
) -> Seq<(String, usize, WordBitMapRow)> {
    sort_desc(s.filter(|e: (String, usize, WordBitMapRow)| e.1 >= min_score))
}

/// A stable descending insertion at the position `p` that splits the
/// results into those scoring at least `x.1` and those scoring below it.
proof fn lemma_insert_desc_at(
    s: Seq<(String, usize, WordBitMapRow)>,
    x: (String, usize, WordBitMapRow),
    p: int,
)
    requires
        0 <= p <= s.len(),
        forall|k: int| 0 <= k < p ==> (#[trigger] s[k]).1 >= x.1,
        forall|k: int| p <= k < s.len() ==> (#[trigger] s[k]).1 < x.1,
    ensures
        insert_desc(s, x) == s.subrange(0, p) + seq![x] + s.subrange(p, s.len() as int),
    decreases s.len(),
{
    if s.len() == 0 {
        assert(insert_desc(s, x) =~= s.subrange(0, p) + seq![x] + s.subrange(p, s.len() as int));
    } else if s.last().1 < x.1 {
        assert(p <= s.len() - 1);
        lemma_insert_desc_at(s.drop_last(), x, p);
        assert(s.drop_last().subrange(0, p) =~= s.subrange(0, p));
        assert(s.drop_last().subrange(p, s.len() - 1) =~= s.subrange(p, s.len() - 1));
        assert((s.subrange(0, p) + seq![x] + s.subrange(p, s.len() - 1)).push(s.last()) =~= s
            .subrange(0, p) + seq![x] + s.subrange(p, s.len() as int));
    } else {
        assert(p == s.len());
        assert(s.subrange(0, p) =~= s);
        assert(insert_desc(s, x) =~= s.subrange(0, p) + seq![x] + s.subrange(p, s.len() as int));
    }
}

/// Keeps the results whose score reaches `min_score` and sorts them by
/// score, highest first; results of equal score keep the order they came
/// in.
pub fn rank_matches(scores: Vec<(String, usize, WordBitMapRow)>, min_score: usize) -> (r: Vec<
    (String, usize, WordBitMapRow),
>)
    ensures
        r@ == spec_rank(scores@, min_score),
        sorted_desc(r@),
{
    let ghost f = |e: (String, usize, WordBitMapRow)| e.1 >= min_score;
    let ghost orig = scores@;
    let mut rest = scores;
    let ghost mut done: int = 0;
    let mut out: Vec<(String, usize, WordBitMapRow)> = Vec::new();
    while rest.len() > 0
        invariant
            0 <= done <= orig.len(),
            rest@ == orig.skip(done),
            out@ == sort_desc(orig.take(done).filter(f)),
            sorted_desc(out@),
            f == (|e: (String, usize, WordBitMapRow)| e.1 >= min_score),
        decreases rest@.len(),
    {
        let ghost prerest = rest@;
        let x = rest.remove(0);
        proof {
            assert(prerest[0] == orig[done]);
            assert(rest@ =~= orig.skip(done + 1));
            assert(orig.take(done + 1).drop_last() =~= orig.take(done));
            orig.take(done).lemma_filter_push(orig[done], f);
            assert(orig.take(done + 1) == orig.take(done).push(orig[done]));
        }
        if x.1 >= min_score {
            let mut p = out.len();
            while p > 0 && out[p - 1].1 < x.1
                invariant
                    p <= out@.len(),
                    sorted_desc(out@),
                    forall|k: int| p <= k < out@.len() ==> (#[trigger] out@[k]).1 < x.1,
                decreases p,
            {
                p = p - 1;
            }
            proof {
                if p > 0 {
                    assert(out@[p - 1].1 >= x.1);
                    assert forall|k: int| 0 <= k < p implies (#[trigger] out@[k]).1 >= x.1 by {
                        if k < p - 1 {
                            assert(out@[k].1 >= out@[p - 1].1);
                        }
                    }
                }
            }
            let ghost preout = out@;
            out.insert(p, x);
            proof {
                lemma_insert_desc_at(preout, x, p as int);
                assert(out@ =~= preout.subrange(0, p as int) + seq![x] + preout.subrange(
                    p as int,
                    preout.len() as int,
                ));
                assert(out@ == insert_desc(preout, x));
                let g = orig.take(done).filter(f);
                assert(f(x));
                assert(orig.take(done + 1).filter(f) == g.push(x));
                assert(g.push(x).drop_last() =~= g);
                assert(g.push(x).last() == x);
                assert(sort_desc(g.push(x)) == insert_desc(sort_desc(g), x));
                assert(out@ == sort_desc(orig.take(done + 1).filter(f)));
                assert forall|i: int, j: int| 0 <= i < j < out@.len() implies (#[trigger] out@[i]).1
                    >= (#[trigger] out@[j]).1 by {
                    if j < p {
                        assert(out@[i] == preout[i] && out@[j] == preout[j]);
                    } else if j == p {
                        assert(out@[i] == preout[i]);
                    } else if i < p {
                        assert(out@[i] == preout[i] && out@[j] == preout[j - 1]);
                        assert(preout[j - 1].1 < x.1);
                        assert(preout[i].1 >= x.1);
                    } else if i == p {
                        assert(out@[j] == preout[j - 1]);
                        assert(preout[j - 1].1 < x.1);
                    } else {
                        assert(out@[i] == preout[i - 1] && out@[j] == preout[j - 1]);
                    }
                }
            }
        } else {
            proof {
                assert(out@ == sort_desc(orig.take(done + 1).filter(f)));
            }
        }
        proof {
            done = done + 1;
        }
    }
    proof {
        assert(rest@.len() == 0);
        assert(done == orig.len());
        assert(orig.take(done) =~= orig);
    }
    out
}

} // verus!
