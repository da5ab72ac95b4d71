use vstd::prelude::*;
use crate::bucket::{BucketView, bucket_of, bucket_values, well_formed};
use crate::similarity::{Ratio, lemma_ratio_order, score};

verus! {

/// The keys of the bucket for `value`, if there is one.
pub open spec fn exact_match(buckets: Seq<BucketView>, value: Seq<char>) -> Option<Seq<Seq<char>>> {
    match bucket_of(buckets, value) {
        Some(at) => Some(buckets[at].keys),
        None => None,
    }
}

/// The score of each bucket's value against `key`, in bucket order.
pub open spec fn bucket_scores(buckets: Seq<BucketView>, key: Seq<char>) -> Seq<Ratio> {
    buckets.map_values(|b: BucketView| score(key, b.value))
}

/// `order`, which lists bucket positions by ascending score, with position
/// `at` added: it goes behind every position whose score is not higher.
pub open spec fn place(order: Seq<int>, scores: Seq<Ratio>, at: int) -> Seq<int>
    decreases order.len(),
{
    if order.len() == 0 {
        seq![at]
    } else if scores[order.last()].at_most(scores[at]) {
        order.push(at)
    } else {
        place(order.drop_last(), scores, at).push(order.last())
    }
}

/// The positions below `upto` whose score reaches `min`, lowest score first;
/// positions of equal score keep their bucket order.
pub open spec fn ranking(scores: Seq<Ratio>, min: Ratio, upto: int) -> Seq<int>
    decreases upto,
{
    if upto <= 0 {
        Seq::empty()
    } else if min.at_most(scores[upto - 1]) {
        place(ranking(scores, min, upto - 1), scores, upto - 1)
    } else {
        ranking(scores, min, upto - 1)
    }
}

/// The keys of the buckets at the positions `order`, bucket after bucket.
pub open spec fn gather(buckets: Seq<BucketView>, order: Seq<int>) -> Seq<Seq<char>> {
    order.map_values(|at: int| buckets[at].keys).flatten()
}

/// The result of a fuzzy lookup, given the score of each bucket: the keys of
/// the buckets that reach `min`, lowest score first, or nothing if no bucket
/// reaches it.
pub open spec fn fuzzy_match(buckets: Seq<BucketView>, scores: Seq<Ratio>, min: Ratio) -> Option<
    Seq<Seq<char>>,
> {
    let order = ranking(scores, min, buckets.len() as int);
    if order.len() == 0 {
        None
    } else {
        Some(gather(buckets, order))
    }
}

/// That position `p` comes before position `q` in a ranking: its score is
/// lower, or it is the same and `p` is the lower position.
pub open spec fn precedes(scores: Seq<Ratio>, p: int, q: int) -> bool {
    scores[p].at_most(scores[q]) && (scores[q].at_most(scores[p]) ==> p < q)
}

/// That `order` lists positions by ascending score, and positions of equal
/// score by ascending position.
pub open spec fn ascending(order: Seq<int>, scores: Seq<Ratio>) -> bool {
    forall|a: int, b: int|
        0 <= a < b < order.len() ==> #[trigger] precedes(scores, order[a], order[b])
}

/// That `order` lists exactly the positions below `upto` whose score reaches
/// `min`, in ascending order.
pub open spec fn ranked(order: Seq<int>, scores: Seq<Ratio>, min: Ratio, upto: int) -> bool {
    &&& forall|a: int|
        0 <= a < order.len() ==> 0 <= #[trigger] order[a] < upto && min.at_most(scores[order[a]])
    &&& forall|at: int|
        0 <= at < upto && min.at_most(#[trigger] scores[at]) ==> order.contains(at)
    &&& ascending(order, scores)
}

/// `place` puts the new position right behind the last listed position whose
/// score is not higher.
pub proof fn lemma_place_at(order: Seq<int>, scores: Seq<Ratio>, at: int, slot: int)
    requires
        0 <= slot <= order.len(),
        slot > 0 ==> scores[order[slot - 1]].at_most(scores[at]),
        forall|q: int| slot <= q < order.len() ==> !scores[#[trigger] order[q]].at_most(scores[at]),
    ensures
        place(order, scores, at) == order.insert(slot, at),
    decreases order.len(),
{
    if order.len() == 0 {
        assert(order.insert(slot, at) =~= seq![at]);
    } else if slot == order.len() {
        assert(order.insert(slot, at) =~= order.push(at));
    } else {
        assert(!scores[order[order.len() - 1]].at_most(scores[at]));
        lemma_place_at(order.drop_last(), scores, at, slot);
        assert(order.insert(slot, at) =~= order.drop_last().insert(slot, at).push(order.last()));
    }
}

/// `place` adds the new position to the listed ones and nothing else.
proof fn lemma_place_members(order: Seq<int>, scores: Seq<Ratio>, at: int)
    ensures
        place(order, scores, at).len() == order.len() + 1,
        forall|p: int|
            #[trigger] place(order, scores, at).contains(p) <==> p == at || order.contains(p),
    decreases order.len(),
{
    let placed = place(order, scores, at);
    if order.len() == 0 {
        assert(placed[0] == at);
    } else if scores[order.last()].at_most(scores[at]) {
        assert(placed[order.len() as int] == at);
        assert forall|p: int| #[trigger] placed.contains(p) <==> p == at || order.contains(p) by {
            if order.contains(p) {
                let a = choose|a: int| 0 <= a < order.len() && order[a] == p;
                assert(placed[a] == p);
            }
        }
    } else {
        let front = order.drop_last();
        let last = order.last();
        let inner = place(front, scores, at);
        lemma_place_members(front, scores, at);
        assert(placed[inner.len() as int] == last);
        assert forall|p: int| #[trigger] placed.contains(p) <==> p == at || order.contains(p) by {
            if order.contains(p) {
                let a = choose|a: int| 0 <= a < order.len() && order[a] == p;
                if a < front.len() {
                    assert(front[a] == p);
                }
            }
            if inner.contains(p) {
                let c = choose|c: int| 0 <= c < inner.len() && inner[c] == p;
                assert(placed[c] == p);
            }
        }
    }
}

/// `place` keeps the list in ascending order when the new position lies
/// above all listed ones.
proof fn lemma_place_ascending(order: Seq<int>, scores: Seq<Ratio>, at: int)
    requires
        0 <= at < scores.len(),
        forall|p: int| 0 <= p < scores.len() ==> (#[trigger] scores[p]).valid(),
        forall|p: int| order.contains(p) ==> 0 <= p < at,
        ascending(order, scores),
    ensures
        ascending(place(order, scores, at), scores),
    decreases order.len(),
{
    let placed = place(order, scores, at);
    if order.len() > 0 {
        let front = order.drop_last();
        let last = order.last();
        assert(order.contains(order[order.len() - 1]));
        if scores[last].at_most(scores[at]) {
            assert forall|a: int, b: int| 0 <= a < b < placed.len() implies #[trigger] precedes(
                scores,
                placed[a],
                placed[b],
            ) by {
                assert(order.contains(order[a]));
                if b == order.len() {
                    if a < order.len() - 1 {
                        assert(precedes(scores, order[a], order[order.len() - 1]));
                    }
                    lemma_ratio_order(scores[order[a]], scores[last], scores[at]);
                } else {
                    assert(precedes(scores, order[a], order[b]));
                }
            }
        } else {
            let inner = place(front, scores, at);
            assert forall|p: int| front.contains(p) implies 0 <= p < at by {
                let o = choose|o: int| 0 <= o < front.len() && front[o] == p;
                assert(order[o] == p);
                assert(order.contains(p));
            }
            assert(ascending(front, scores)) by {
                assert forall|a: int, b: int| 0 <= a < b < front.len() implies #[trigger] precedes(
                    scores,
                    front[a],
                    front[b],
                ) by {
                    assert(precedes(scores, order[a], order[b]));
                }
            }
            lemma_place_ascending(front, scores, at);
            lemma_place_members(front, scores, at);
            lemma_ratio_order(scores[at], scores[last], scores[last]);
            assert forall|a: int, b: int| 0 <= a < b < placed.len() implies #[trigger] precedes(
                scores,
                placed[a],
                placed[b],
            ) by {
                if b == inner.len() {
                    assert(inner.contains(inner[a]));
                    if inner[a] != at {
                        let o = choose|o: int| 0 <= o < front.len() && front[o] == inner[a];
                        assert(precedes(scores, order[o], order[order.len() - 1]));
                    }
                } else {
                    assert(precedes(scores, inner[a], inner[b]));
                }
            }
        }
    }
}

/// The ranking lists exactly the positions that reach the threshold, lowest
/// score first; positions of equal score follow one another in bucket order.
pub proof fn lemma_ranking(scores: Seq<Ratio>, min: Ratio, upto: int)
    requires
        0 <= upto <= scores.len(),
        forall|p: int| 0 <= p < scores.len() ==> (#[trigger] scores[p]).valid(),
    ensures
        ranked(ranking(scores, min, upto), scores, min, upto),
    decreases upto,
{
    if upto > 0 {
        let at = upto - 1;
        let before = ranking(scores, min, at);
        lemma_ranking(scores, min, at);
        if min.at_most(scores[at]) {
            let order = place(before, scores, at);
            lemma_place_members(before, scores, at);
            lemma_place_ascending(before, scores, at);
            assert forall|a: int| 0 <= a < order.len() implies 0 <= #[trigger] order[a] < upto
                && min.at_most(scores[order[a]]) by {
                assert(order.contains(order[a]));
            }
        }
    }
}

/// With a threshold of 1, a fuzzy lookup finds what the exact lookup for the
/// same string finds, provided the scores are 1 for the bucket of that value
/// and for no other (as those of `score_buckets` are).
pub proof fn lemma_threshold_one_is_exact(
    buckets: Seq<BucketView>,
    scores: Seq<Ratio>,
    min: Ratio,
    key: Seq<char>,
)
    requires
        well_formed(buckets),
        min.is_one(),
        scores.len() == buckets.len(),
        forall|at: int| 0 <= at < scores.len() ==> (#[trigger] scores[at]).is_score(),
        forall|at: int|
            0 <= at < scores.len() ==> ((#[trigger] scores[at]).is_one() <==> buckets[at].value
                == key),
    ensures
        fuzzy_match(buckets, scores, min) == exact_match(buckets, key),
{
    let n = buckets.len() as int;
    let values = bucket_values(buckets);
    lemma_ranking_at_one(buckets, scores, min, key, n);
    values.index_of_first_ensures(key);
    match bucket_of(buckets, key) {
        Some(at) => {
            assert(values[at] == key);
            assert(buckets[at].value == key);
            let lists = seq![at].map_values(|p: int| buckets[p].keys);
            assert(lists =~= seq![buckets[at].keys]);
            lists.lemma_flatten_one_element();
        },
        None => {
            assert forall|at: int| 0 <= at < n implies (#[trigger] buckets[at]).value != key by {
                assert(values[at] == buckets[at].value);
                assert(values.contains(values[at]));
            }
        },
    }
}

/// At a threshold of 1 the ranking is the one position whose value is `key`,
/// if there is one below `upto`, and empty otherwise.
proof fn lemma_ranking_at_one(
    buckets: Seq<BucketView>,
    scores: Seq<Ratio>,
    min: Ratio,
    key: Seq<char>,
    upto: int,
)
    requires
        well_formed(buckets),
        min.is_one(),
        scores.len() == buckets.len(),
        0 <= upto <= buckets.len(),
        forall|at: int| 0 <= at < scores.len() ==> (#[trigger] scores[at]).is_score(),
        forall|at: int|
            0 <= at < scores.len() ==> ((#[trigger] scores[at]).is_one() <==> buckets[at].value
                == key),
    ensures
        forall|at: int|
            0 <= at < upto && (#[trigger] buckets[at]).value == key ==> ranking(scores, min, upto)
                == seq![at],
        (forall|at: int| 0 <= at < upto ==> (#[trigger] buckets[at]).value != key) ==> ranking(
            scores,
            min,
            upto,
        ) == Seq::<int>::empty(),
    decreases upto,
{
    if upto > 0 {
        let last = upto - 1;
        lemma_ranking_at_one(buckets, scores, min, key, last);
        assert(min.at_most(scores[last]) <==> scores[last].is_one()) by (nonlinear_arith)
            requires
                min.is_one(),
                scores[last].is_score(),
        ;
    }
}

} // verus!
