use vstd::prelude::*;
use crate::bucket::{Bucket, BucketView, bucket_values, bucket_views, texts, well_formed};
use crate::event::{Event, event_views};
use crate::ranking::{bucket_scores, exact_match, fuzzy_match, gather, lemma_place_at, lemma_ranking, lemma_threshold_one_is_exact, ranked, ranking};
use crate::similarity::{Ratio, Similarity, score, similarity};
use crate::transition::{apply_all, apply_event, enroll, lemma_apply_event_well_formed, lemma_vacate_push, other_than, vacate, without};

verus! {

/// The keys found by a lookup.
#[derive(Debug, PartialEq, Eq)]
pub struct Match {
    pub keys: Vec<String>,
}

impl View for Match {
    type V = Seq<Seq<char>>;

    open spec fn view(&self) -> Seq<Seq<char>> {
        texts(self.keys@)
    }
}

/// The keys of a lookup's result, if it found any.
pub open spec fn found(result: Option<Match>) -> Option<Seq<Seq<char>>> {
    match result {
        Some(m) => Some(m@),
        None => None,
    }
}

/// The models of a run of scores, in order.
pub open spec fn ratios(scores: Seq<Similarity>) -> Seq<Ratio> {
    scores.map_values(|s: Similarity| s@)
}

/// The value-to-keys index that a replica derives from the primary's log.
pub struct InvertedIndex {
    buckets: Vec<Bucket>,
}

impl View for InvertedIndex {
    type V = Seq<BucketView>;

    closed spec fn view(&self) -> Seq<BucketView> {
        bucket_views(self.buckets@)
    }
}

impl InvertedIndex {
    /// An index without buckets.
    pub fn new() -> (index: InvertedIndex)
        ensures
            index@ == Seq::<BucketView>::empty(),
    {
        InvertedIndex { buckets: Vec::new() }
    }

    /// The number of buckets, which is the number of values that have a key.
    pub fn len(&self) -> (n: usize)
        ensures
            n == self@.len(),
    {
        self.buckets.len()
    }

    /// The keys that hold exactly `value`, oldest first, or nothing if no key
    /// holds it.
    pub fn lookup_exact(&self, value: &String) -> (result: Option<Match>)
        ensures
            found(result) == exact_match(self@, value@),
    {
        let ghost values = bucket_values(self@);
        let mut at: usize = 0;
        while at < self.buckets.len()
            invariant
                at <= self.buckets.len(),
                values == bucket_values(self@),
                forall|j: int| 0 <= j < at ==> values[j] != value@,
            decreases self.buckets.len() - at,
        {
            if self.buckets[at].value == *value {
                proof {
                    values.index_of_first_ensures(value@);
                    assert(values[at as int] == value@);
                }
                let keys = copy_keys(&self.buckets[at].keys);
                return Some(Match { keys });
            }
            at += 1;
        }
        proof {
            values.index_of_first_ensures(value@);
        }
        None
    }

    /// Scores the value of every bucket against `key`.
    pub fn score_buckets(&self, key: &String) -> (scores: Vec<Similarity>)
        ensures
            scores.len() == self@.len(),
            ratios(scores@) == bucket_scores(self@, key@),
            forall|at: int| 0 <= at < scores.len() ==> (#[trigger] scores[at])@.is_score(),
            forall|at: int|
                0 <= at < scores.len() ==> ((#[trigger] scores[at])@.is_one() <==> self@[at].value
                    == key@),
    {
        let mut scores: Vec<Similarity> = Vec::new();
        let mut at: usize = 0;
        while at < self.buckets.len()
            invariant
                at <= self.buckets.len(),
                scores.len() == at,
                forall|j: int| 0 <= j < at ==> (#[trigger] scores[j])@ == score(key@, self@[j].value),
                forall|j: int| 0 <= j < at ==> (#[trigger] scores[j])@.is_score(),
                forall|j: int|
                    0 <= j < at ==> ((#[trigger] scores[j])@.is_one() <==> self@[j].value == key@),
            decreases self.buckets.len() - at,
        {
            let s = similarity(key.as_str(), self.buckets[at].value.as_str());
            scores.push(s);
            at += 1;
        }
        scores
    }

    /// The keys of every bucket whose value is similar enough to `key`: whose
    /// score against `key` reaches `min`. The buckets follow one another by
    /// ascending score. Nothing is found if no bucket reaches `min`.
    ///
    /// With a threshold of 1 this is the exact lookup.
    pub fn lookup_fuzzy(&self, key: &String, min: &Similarity) -> (result: Option<Match>)
        ensures
            found(result) == fuzzy_match(self@, bucket_scores(self@, key@), min@),
            ranked(
                ranking(bucket_scores(self@, key@), min@, self@.len() as int),
                bucket_scores(self@, key@),
                min@,
                self@.len() as int,
            ),
            well_formed(self@) && min@.is_one() ==> found(result) == exact_match(self@, key@),
    {
        let scores = self.score_buckets(key);
        proof {
            lemma_ranking(ratios(scores@), min@, scores.len() as int);
            if well_formed(self@) && min@.is_one() {
                lemma_threshold_one_is_exact(self@, ratios(scores@), min@, key@);
            }
        }
        self.select(&scores, min)
    }

    /// The fuzzy lookup proper, for buckets that were scored already: the
    /// keys of every bucket whose score reaches `min`, lowest score first.
    pub fn select(&self, scores: &Vec<Similarity>, min: &Similarity) -> (result: Option<Match>)
        requires
            scores.len() == self@.len(),
        ensures
            found(result) == fuzzy_match(self@, ratios(scores@), min@),
    {
        let ghost rated = ratios(scores@);
        let n = self.buckets.len();
        let mut order: Vec<usize> = Vec::new();
        let mut at: usize = 0;
        while at < n
            invariant
                at <= n,
                n == self.buckets.len(),
                n == scores.len(),
                rated == ratios(scores@),
                order@.map_values(|p: usize| p as int) == ranking(rated, min@, at as int),
                forall|q: int| 0 <= q < order.len() ==> (#[trigger] order[q]) < n,
            decreases n - at,
        {
            if min.at_most(&scores[at]) {
                let ghost listed = order@.map_values(|p: usize| p as int);
                let mut slot: usize = order.len();
                while slot > 0 && !scores[order[slot - 1]].at_most(&scores[at])
                    invariant
                        slot <= order.len(),
                        at < n,
                        n == scores.len(),
                        rated == ratios(scores@),
                        listed == order@.map_values(|p: usize| p as int),
                        forall|q: int| 0 <= q < order.len() ==> (#[trigger] order[q]) < n,
                        forall|q: int|
                            slot <= q < listed.len() ==> !rated[#[trigger] listed[q]].at_most(
                                rated[at as int],
                            ),
                    decreases slot,
                {
                    slot -= 1;
                }
                proof {
                    lemma_place_at(listed, rated, at as int, slot as int);
                }
                order.insert(slot, at);
            }
            at += 1;
        }
        if order.len() == 0 {
            return None;
        }
        let ghost listed = order@.map_values(|p: usize| p as int);
        let mut keys: Vec<String> = Vec::new();
        let mut next: usize = 0;
        while next < order.len()
            invariant
                next <= order.len(),
                listed == order@.map_values(|p: usize| p as int),
                forall|q: int| 0 <= q < order.len() ==> (#[trigger] order[q]) < self.buckets.len(),
                texts(keys@) == gather(self@, listed.take(next as int)),
            decreases order.len() - next,
        {
            let bucket = &self.buckets[order[next]];
            let ghost so_far = texts(keys@);
            let mut k: usize = 0;
            while k < bucket.keys.len()
                invariant
                    k <= bucket.keys.len(),
                    texts(keys@) == so_far + texts(bucket.keys@).take(k as int),
                decreases bucket.keys.len() - k,
            {
                let ghost listed_keys = texts(keys@);
                let key = bucket.keys[k].clone();
                keys.push(key);
                proof {
                    assert(texts(keys@) =~= listed_keys.push(bucket.keys[k as int]@));
                }
                k += 1;
            }
            proof {
                let lists = listed.take(next as int).map_values(|at: int| self@[at].keys);
                assert(listed.take(next + 1).map_values(|at: int| self@[at].keys) =~= lists.push(
                    texts(bucket.keys@),
                ));
                lists.lemma_flatten_push(texts(bucket.keys@));
            }
            next += 1;
        }
        proof {
            assert(listed.take(next as int) =~= listed);
        }
        Some(Match { keys })
    }
}

/// Takes every occurrence of `key` out of `keys`, in place.
fn remove_key(keys: &mut Vec<String>, key: &String)
    ensures
        texts(final(keys)@) == without(texts(old(keys)@), key@),
{
    let ghost before = texts(keys@);
    let ghost mut seen: int = 0;
    let mut at: usize = 0;
    while at < keys.len()
        invariant
            0 <= seen <= before.len(),
            at <= keys.len(),
            keys.len() - at == before.len() - seen,
            texts(keys@).take(at as int) == without(before.take(seen), key@),
            texts(keys@).skip(at as int) == before.skip(seen),
        decreases keys.len() - at,
    {
        let ghost current = texts(keys@);
        proof {
            assert(current[at as int] == current.skip(at as int)[0]);
            before.lemma_take_succ_push(seen);
            before.take(seen).lemma_filter_push(before[seen], other_than(key@));
        }
        if keys[at] == *key {
            keys.remove(at);
            proof {
                assert(texts(keys@).skip(at as int) =~= current.skip(at as int).skip(1));
            }
        } else {
            at += 1;
            proof {
                assert(current.skip(at as int) =~= current.skip(at - 1).skip(1));
            }
        }
        proof {
            seen = seen + 1;
        }
    }
    proof {
        assert(before.take(seen) =~= before);
    }
}

/// Takes `key` out of every bucket and drops the buckets that this empties.
fn vacate_buckets(buckets: &mut Vec<Bucket>, key: &String)
    ensures
        bucket_views(final(buckets)@) == vacate(bucket_views(old(buckets)@), key@),
{
    let ghost before = bucket_views(buckets@);
    let ghost mut seen: int = 0;
    let mut at: usize = 0;
    while at < buckets.len()
        invariant
            0 <= seen <= before.len(),
            at <= buckets.len(),
            buckets.len() - at == before.len() - seen,
            bucket_views(buckets@).take(at as int) == vacate(before.take(seen), key@),
            bucket_views(buckets@).skip(at as int) == before.skip(seen),
        decreases buckets.len() - at,
    {
        let ghost current = bucket_views(buckets@);
        proof {
            assert(current[at as int] == current.skip(at as int)[0]);
            before.lemma_take_succ_push(seen);
            lemma_vacate_push(before.take(seen), before[seen], key@);
        }
        remove_key(&mut buckets[at].keys, key);
        let ghost emptied = bucket_views(buckets@);
        if buckets[at].keys.is_empty() {
            buckets.remove(at);
            proof {
                assert(bucket_views(buckets@).skip(at as int) =~= current.skip(at as int).skip(1));
            }
        } else {
            at += 1;
            proof {
                assert(emptied.skip(at as int) =~= current.skip(at - 1).skip(1));
            }
        }
        proof {
            seen = seen + 1;
        }
    }
    proof {
        assert(before.take(seen) =~= before);
    }
}

/// Puts `key` at the end of the bucket for `value`, or into a new last bucket.
fn enroll_key(buckets: &mut Vec<Bucket>, key: String, value: String)
    ensures
        bucket_views(final(buckets)@) == enroll(bucket_views(old(buckets)@), key@, value@),
{
    let ghost before = bucket_views(buckets@);
    let mut at: usize = 0;
    while at < buckets.len()
        invariant
            at <= buckets.len(),
            before == bucket_views(buckets@),
            forall|j: int| 0 <= j < at ==> bucket_values(before)[j] != value@,
        ensures
            at <= buckets.len(),
            before == bucket_views(buckets@),
            forall|j: int| 0 <= j < at ==> bucket_values(before)[j] != value@,
            at < buckets.len() ==> bucket_values(before)[at as int] == value@,
        decreases buckets.len() - at,
    {
        if buckets[at].value == value {
            break;
        }
        at += 1;
    }
    proof {
        bucket_values(before).index_of_first_ensures(value@);
    }
    if at < buckets.len() {
        let ghost joined = texts(buckets[at as int].keys@).push(key@);
        buckets[at].keys.push(key);
        proof {
            assert(texts(buckets[at as int].keys@) =~= joined);
        }
    } else {
        let mut keys: Vec<String> = Vec::new();
        keys.push(key);
        proof {
            assert(texts(keys@) =~= seq![key@]);
        }
        buckets.push(Bucket { value, keys });
    }
}

/// A copy of `keys`.
fn copy_keys(keys: &Vec<String>) -> (copy: Vec<String>)
    ensures
        texts(copy@) == texts(keys@),
{
    let mut copy: Vec<String> = Vec::new();
    let mut k: usize = 0;
    while k < keys.len()
        invariant
            k <= keys.len(),
            texts(copy@) == texts(keys@).take(k as int),
        decreases keys.len() - k,
    {
        let ghost so_far = texts(copy@);
        let key = keys[k].clone();
        copy.push(key);
        proof {
            assert(texts(copy@) =~= so_far.push(keys[k as int]@));
        }
        k += 1;
    }
    copy
}

/// Applies one event of the primary's log to the index.
pub fn apply(event: Event, state: &mut InvertedIndex)
    ensures
        final(state)@ == apply_event(old(state)@, event@),
        well_formed(old(state)@) ==> well_formed(final(state)@),
{
    proof {
        if well_formed(state@) {
            lemma_apply_event_well_formed(state@, event@);
        }
    }
    match event {
        Event::Put { key, value } => {
            vacate_buckets(&mut state.buckets, &key);
            enroll_key(&mut state.buckets, key, value);
        },
        Event::Delete { key } => {
            vacate_buckets(&mut state.buckets, &key);
        },
    }
}

/// Applies a run of events to the index, one after the other, in order.
pub fn apply_batch(events: Vec<Event>, state: &mut InvertedIndex)
    ensures
        final(state)@ == apply_all(old(state)@, event_views(events@)),
        well_formed(old(state)@) ==> well_formed(final(state)@),
{
    let ghost all = event_views(events@);
    let ghost start = state@;
    for event in it: events
        invariant
            all == event_views(events@),
            it.seq() == events@,
            state@ == apply_all(start, all.take(it.index() as int)),
            well_formed(start) ==> well_formed(state@),
    {
        proof {
            let done = it.index() as int;
            assert(all.take(done + 1).drop_last() =~= all.take(done));
        }
        apply(event, state);
    }
    proof {
        assert(all.take(events@.len() as int) =~= all);
    }
}

} // verus!
