use crate::score_order::{order_key, order_key_spec};
use vstd::prelude::*;

verus! {

/// A bucket that hands out the indices of a list of noisy scores from the
/// highest score down, each index at most once.
///
/// The scores are ranked once, when the bucket is built; a draw then takes the
/// highest of those not yet drawn, so that no softmax has to be computed again
/// between draws. Noisy scores are the bit patterns of doubles and are ranked by
/// [`order_key_spec`], a total order, so that no pattern (a NaN included) can
/// upset the ranking.
#[derive(Clone)]
pub struct GumbelTopBucket {
    /// How many items are left to draw.
    scores_len: usize,
    /// The items left, as (original index, noisy score), ascending by rank:
    /// the next draw takes the last.
    noisy_scores: Vec<(usize, u64)>,
    /// The noisy score of each original index.
    source: Ghost<Seq<u64>>,
    /// Every item, in the order in which the draws hand them out.
    order: Ghost<Seq<(usize, u64)>>,
}

impl GumbelTopBucket {
    /// The noisy scores the bucket was built from, by original index.
    pub closed spec fn source_scores(&self) -> Seq<u64> {
        self.source@
    }

    /// Every item of the bucket, drawn or not, in the order of the draws.
    pub closed spec fn draw_order(&self) -> Seq<(usize, u64)> {
        self.order@
    }

    /// How many items are left to draw.
    pub closed spec fn remaining(&self) -> nat {
        self.noisy_scores@.len()
    }

    /// How many items have been drawn so far.
    pub open spec fn drawn_count(&self) -> nat {
        (self.draw_order().len() - self.remaining()) as nat
    }

    /// What the next draw returns: the first item of the draw order that has
    /// not been drawn, or nothing once every item has been.
    pub open spec fn next_draw(&self) -> Option<(usize, u64)> {
        if self.remaining() > 0 {
            Some(self.draw_order()[self.drawn_count() as int])
        } else {
            None
        }
    }

    /// `after` is this bucket after one draw: the same items in the same order,
    /// one more of them drawn unless none was left.
    pub open spec fn advances_to(&self, after: Self) -> bool {
        &&& after.well_formed()
        &&& after.source_scores() == self.source_scores()
        &&& after.draw_order() == self.draw_order()
        &&& after.remaining() == if self.remaining() > 0 {
            (self.remaining() - 1) as nat
        } else {
            0
        }
    }

    /// Some item of `items` has original index `i`.
    pub open spec fn holds_index(items: Seq<(usize, u64)>, i: int) -> bool {
        exists|k: int| 0 <= k < items.len() && items[k].0 == i
    }

    /// The draw order is a permutation of the original indices, each paired
    /// with its own noisy score, and ranks them from the highest score down.
    pub open spec fn is_ranking(order: Seq<(usize, u64)>, source: Seq<u64>) -> bool {
        &&& order.len() == source.len()
        &&& forall|k: int|
            0 <= k < order.len() ==> (order[k].0 as int) < source.len() && order[k].1
                == source[order[k].0 as int]
        &&& forall|j: int, k: int| 0 <= j < k < order.len() ==> order[j].0 != order[k].0
        &&& forall|i: int| 0 <= i < source.len() ==> #[trigger] Self::holds_index(order, i)
        &&& forall|j: int, k: int|
            0 <= j < k < order.len() ==> order_key_spec(order[j].1) >= order_key_spec(order[k].1)
    }

    /// The bucket's invariant: the items left are the tail of the draw order,
    /// stored in reverse.
    pub closed spec fn well_formed(&self) -> bool {
        let n = self.order@.len();
        let len = self.noisy_scores@.len();
        &&& self.scores_len == len
        &&& len <= n
        &&& Self::is_ranking(self.order@, self.source@)
        &&& forall|k: int| 0 <= k < len ==> self.noisy_scores@[k] == self.order@[n - 1 - k]
    }

    /// Items sorted ascending by rank, each original index below `i` held once
    /// and paired with its noisy score.
    spec fn sorted_prefix(items: Seq<(usize, u64)>, source: Seq<u64>, i: int) -> bool {
        &&& items.len() == i
        &&& forall|k: int|
            0 <= k < items.len() ==> (items[k].0 as int) < i && items[k].1 == source[items[k].0 as int]
        &&& forall|j: int, k: int| 0 <= j < k < items.len() ==> items[j].0 != items[k].0
        &&& forall|j: int| 0 <= j < i ==> #[trigger] Self::holds_index(items, j)
        &&& forall|j: int, k: int|
            0 <= j < k < items.len() ==> order_key_spec(items[j].1) <= order_key_spec(items[k].1)
    }

    /// Builds a bucket from the noisy score of each item, given as the bit
    /// pattern of a double; the item at position `i` gets index `i`. Nothing
    /// has been drawn from the new bucket, and its draw order ranks every item
    /// from the highest noisy score down; equal scores come in no set order.
    pub fn new(noisy_scores: &[u64]) -> (b: Self)
        ensures
            b.well_formed(),
            b.source_scores() == noisy_scores@,
            Self::is_ranking(b.draw_order(), b.source_scores()),
            b.drawn_count() == 0,
            b.remaining() == noisy_scores@.len(),
    {
        let n = noisy_scores.len();
        let mut ranked: Vec<(usize, u64)> = Vec::new();
        let mut i: usize = 0;
        while i < n
            invariant
                i <= n,
                n == noisy_scores@.len(),
                Self::sorted_prefix(ranked@, noisy_scores@, i as int),
            decreases n - i,
        {
            let s = noisy_scores[i];
            let key = order_key(s);
            let mut pos: usize = i;
            while pos > 0 && order_key(ranked[pos - 1].1) > key
                invariant
                    pos <= i,
                    ranked@.len() == i,
                    forall|k: int| pos <= k < i ==> order_key_spec(ranked@[k].1) > key,
                decreases pos,
            {
                pos = pos - 1;
            }
            let ghost old_ranked = ranked@;
            ranked.insert(pos, (i, s));
            proof {
                let new_ranked = ranked@;
                assert forall|j: int| 0 <= j < i + 1 implies #[trigger] Self::holds_index(new_ranked, j) by {
                    if j == i {
                        assert(new_ranked[pos as int].0 == j);
                    } else {
                        assert(Self::holds_index(old_ranked, j));
                        let k = choose|k: int| 0 <= k < old_ranked.len() && old_ranked[k].0 == j;
                        if k < pos {
                            assert(new_ranked[k].0 == j);
                        } else {
                            assert(new_ranked[k + 1].0 == j);
                        }
                    }
                }
                assert forall|j: int, k: int| 0 <= j < k < new_ranked.len() implies order_key_spec(
                    new_ranked[j].1,
                ) <= order_key_spec(new_ranked[k].1) by {
                    if k == pos && j > 0 {
                        assert(order_key_spec(old_ranked[j].1) <= order_key_spec(old_ranked[pos - 1].1));
                    }
                }
            }
            i = i + 1;
        }
        let ghost order = Seq::new(n as nat, |k: int| ranked@[n - 1 - k]);
        proof {
            assert forall|j: int| 0 <= j < n implies #[trigger] Self::holds_index(order, j) by {
                assert(Self::holds_index(ranked@, j));
                let k = choose|k: int| 0 <= k < ranked@.len() && ranked@[k].0 == j;
                assert(order[n - 1 - k].0 == j);
            }
        }
        GumbelTopBucket { scores_len: n, noisy_scores: ranked, source: Ghost(noisy_scores@), order: Ghost(order) }
    }

    /// Draws the item with the highest noisy score among those left: returns its
    /// original index and its noisy score, and removes it so that it is never
    /// drawn again. Returns `None`, and changes nothing, once every item has
    /// been drawn.
    pub fn draw_with_score(&mut self) -> (r: Option<(usize, u64)>)
        requires
            old(self).well_formed(),
        ensures
            r == old(self).next_draw(),
            old(self).advances_to(*final(self)),
    {
        if self.scores_len == 0 {
            return None;
        }
        let top = self.noisy_scores.pop().unwrap();
        self.scores_len = self.scores_len - 1;
        Some(top)
    }

    /// Draws as [`Self::draw_with_score`] does and returns the original index
    /// alone.
    pub fn draw(&mut self) -> (r: Option<usize>)
        requires
            old(self).well_formed(),
        ensures
            r == (match old(self).next_draw() {
                Some(p) => Some(p.0),
                None => None,
            }),
            old(self).advances_to(*final(self)),
    {
        match self.draw_with_score() {
            Some((idx_max, _)) => Some(idx_max),
            None => None,
        }
    }
}

/// `buckets[k + 1]` is `buckets[k]` after a draw that returned `results[k]`:
/// the buckets and results of a run of draws from `buckets[0]`.
pub open spec fn is_run(buckets: Seq<GumbelTopBucket>, results: Seq<Option<(usize, u64)>>) -> bool {
    &&& buckets.len() == results.len() + 1
    &&& buckets[0].well_formed()
    &&& forall|k: int|
        #![trigger results[k]]
        0 <= k < results.len() ==> results[k] == buckets[k].next_draw() && buckets[k].advances_to(
            buckets[k + 1],
        )
}

/// Along a run, the `k`-th bucket has the first one's items in the same order,
/// with `k` more of them drawn, or all of them.
proof fn lemma_run_position(buckets: Seq<GumbelTopBucket>, results: Seq<Option<(usize, u64)>>, k: int)
    requires
        is_run(buckets, results),
        0 <= k <= results.len(),
    ensures
        buckets[k].well_formed(),
        buckets[k].source_scores() == buckets[0].source_scores(),
        buckets[k].draw_order() == buckets[0].draw_order(),
        buckets[k].remaining() == if k <= buckets[0].remaining() {
            buckets[0].remaining() - k
        } else {
            0
        },
    decreases k,
{
    if k > 0 {
        lemma_run_position(buckets, results, k - 1);
        assert(results[k - 1] == buckets[k - 1].next_draw());
    }
}

/// The `k`-th draw of a run returns the item that follows the first bucket's
/// drawn items by `k` places in the draw order, or nothing past its end.
proof fn lemma_run_results(buckets: Seq<GumbelTopBucket>, results: Seq<Option<(usize, u64)>>)
    requires
        is_run(buckets, results),
    ensures
        buckets[0].drawn_count() + buckets[0].remaining() == buckets[0].draw_order().len(),
        buckets[0].draw_order().len() == buckets[0].source_scores().len(),
        GumbelTopBucket::is_ranking(buckets[0].draw_order(), buckets[0].source_scores()),
        forall|k: int|
            #![trigger results[k]]
            0 <= k < results.len() ==> results[k] == if buckets[0].drawn_count() + k
                < buckets[0].draw_order().len() {
                Some(buckets[0].draw_order()[buckets[0].drawn_count() + k])
            } else {
                None
            },
{
    assert forall|k: int| #![trigger results[k]] 0 <= k < results.len() implies results[k] == if buckets[0].drawn_count()
        + k < buckets[0].draw_order().len() {
        Some(buckets[0].draw_order()[buckets[0].drawn_count() + k])
    } else {
        None
    } by {
        lemma_run_position(buckets, results, k);
    }
}

/// No run of draws returns an index twice, and once a draw has returned
/// nothing, every later one returns nothing too. Each index comes with its own
/// noisy score.
pub proof fn lemma_draws_never_repeat(buckets: Seq<GumbelTopBucket>, results: Seq<Option<(usize, u64)>>)
    requires
        is_run(buckets, results),
    ensures
        forall|j: int, k: int|
            0 <= j < k < results.len() && results[j] is Some && results[k] is Some ==> (
            results[j]->0).0 != (results[k]->0).0,
        forall|j: int, k: int| 0 <= j < k < results.len() && results[j] is None ==> results[k] is None,
        forall|k: int|
            0 <= k < results.len() && results[k] is Some ==> (results[k]->0).1
                == buckets[0].source_scores()[(results[k]->0).0 as int],
{
    lemma_run_results(buckets, results);
}

/// Some draw among `results` returned index `i`.
pub open spec fn some_draw_returns(results: Seq<Option<(usize, u64)>>, i: int) -> bool {
    exists|k: int| 0 <= k < results.len() && results[k] is Some && (results[k]->0).0 == i
}

/// Drawing from a fresh bucket of `n` items returns an item on each of the
/// first `n` draws and nothing on the next, and those draws return every index
/// below `n`.
pub proof fn lemma_draws_complete(buckets: Seq<GumbelTopBucket>, results: Seq<Option<(usize, u64)>>)
    requires
        is_run(buckets, results),
        buckets[0].drawn_count() == 0,
        results.len() == buckets[0].source_scores().len() + 1,
    ensures
        forall|k: int| 0 <= k < results.len() - 1 ==> results[k] is Some,
        results[results.len() - 1] is None,
        forall|k: int|
            0 <= k < results.len() - 1 ==> ((results[k]->0).0 as int) < buckets[0].source_scores().len(),
        forall|i: int|
            0 <= i < buckets[0].source_scores().len() ==> #[trigger] some_draw_returns(results, i),
{
    lemma_run_results(buckets, results);
    let order = buckets[0].draw_order();
    assert forall|i: int| 0 <= i < buckets[0].source_scores().len() implies #[trigger] some_draw_returns(
        results,
        i,
    ) by {
        assert(GumbelTopBucket::holds_index(order, i));
        let k = choose|k: int| 0 <= k < order.len() && order[k].0 == i;
        assert(results[k] == Some(order[k]));
    }
}

/// Along a run of draws, the noisy scores returned never rise.
pub proof fn lemma_draw_scores_non_increasing(
    buckets: Seq<GumbelTopBucket>,
    results: Seq<Option<(usize, u64)>>,
)
    requires
        is_run(buckets, results),
    ensures
        forall|j: int, k: int|
            0 <= j < k < results.len() && results[j] is Some && results[k] is Some ==> order_key_spec(
                (results[j]->0).1,
            ) >= order_key_spec((results[k]->0).1),
{
    lemma_run_results(buckets, results);
}

/// Every draw from a bucket built from no items returns nothing.
pub proof fn lemma_empty_bucket_stays_empty(
    buckets: Seq<GumbelTopBucket>,
    results: Seq<Option<(usize, u64)>>,
)
    requires
        is_run(buckets, results),
        buckets[0].source_scores().len() == 0,
    ensures
        forall|k: int| 0 <= k < results.len() ==> results[k] is None,
{
    lemma_run_results(buckets, results);
}

} // verus!
