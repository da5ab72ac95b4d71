use vstd::prelude::*;
use crate::bucket::{BucketView, bucket_of, bucket_values, holds, well_formed};
use crate::event::EventView;

verus! {

/// The test that a key is another one than `key`.
pub open spec fn other_than(key: Seq<char>) -> spec_fn(Seq<char>) -> bool {
    |k: Seq<char>| k != key
}

/// `keys` with every occurrence of `key` taken out; the rest keeps its order.
pub open spec fn without(keys: Seq<Seq<char>>, key: Seq<char>) -> Seq<Seq<char>> {
    keys.filter(other_than(key))
}

impl BucketView {
    /// The bucket after `key` left it.
    pub open spec fn vacated(self, key: Seq<char>) -> BucketView {
        BucketView { value: self.value, keys: without(self.keys, key) }
    }
}

/// The step that takes `key` out of one bucket.
pub open spec fn vacating(key: Seq<char>) -> spec_fn(BucketView) -> BucketView {
    |b: BucketView| b.vacated(key)
}

/// The test that a bucket still holds a key.
pub open spec fn occupied() -> spec_fn(BucketView) -> bool {
    |b: BucketView| b.keys.len() > 0
}

/// The buckets after `key` left all of them: each bucket loses `key`, and a
/// bucket that this empties is dropped. The others keep their order.
pub open spec fn vacate(buckets: Seq<BucketView>, key: Seq<char>) -> Seq<BucketView> {
    buckets.map_values(vacating(key)).filter(occupied())
}

/// The buckets after `key` joined the bucket for `value`: it goes to the end
/// of that bucket, or into a new last bucket if `value` has none yet.
pub open spec fn enroll(buckets: Seq<BucketView>, key: Seq<char>, value: Seq<char>) -> Seq<
    BucketView,
> {
    match bucket_of(buckets, value) {
        Some(at) => buckets.update(
            at,
            BucketView { value: buckets[at].value, keys: buckets[at].keys.push(key) },
        ),
        None => buckets.push(BucketView { value, keys: seq![key] }),
    }
}

/// The state transition of the index for one event.
///
/// A `Put` moves the key out of whatever bucket holds it and into the bucket
/// of its new value; a `Delete` only moves it out.
pub open spec fn apply_event(buckets: Seq<BucketView>, event: EventView) -> Seq<BucketView> {
    match event {
        EventView::Put { key, value } => enroll(vacate(buckets, key), key, value),
        EventView::Delete { key } => vacate(buckets, key),
    }
}

/// The index after a run of events, applied one after the other.
pub open spec fn apply_all(buckets: Seq<BucketView>, events: Seq<EventView>) -> Seq<BucketView>
    decreases events.len(),
{
    if events.len() == 0 {
        buckets
    } else {
        apply_event(apply_all(buckets, events.drop_last()), events.last())
    }
}

/// The index that a replica holds after it applied `events` to an empty index.
pub open spec fn replay(events: Seq<EventView>) -> Seq<BucketView> {
    apply_all(Seq::empty(), events)
}

/// `without` keeps exactly the other keys, and introduces no duplicate.
pub proof fn lemma_without(keys: Seq<Seq<char>>, key: Seq<char>)
    ensures
        forall|k: Seq<char>|
            #[trigger] without(keys, key).contains(k) <==> keys.contains(k) && k != key,
        keys.no_duplicates() ==> without(keys, key).no_duplicates(),
    decreases keys.len(),
{
    if keys.len() == 0 {
        reveal(Seq::filter);
        assert(without(keys, key) =~= keys);
    } else {
        let front = keys.drop_last();
        let last = keys.last();
        lemma_without(front, key);
        assert(keys =~= front.push(last));
        front.lemma_filter_push(last, other_than(key));
        assert forall|k: Seq<char>| #[trigger]
            without(keys, key).contains(k) <==> keys.contains(k) && k != key by {
            if keys.contains(k) {
                let i = choose|i: int| 0 <= i < keys.len() && keys[i] == k;
                if i < front.len() {
                    assert(front[i] == k);
                    assert(front.contains(k));
                }
            }
            if front.contains(k) {
                let i = choose|i: int| 0 <= i < front.len() && front[i] == k;
                assert(keys[i] == k);
            }
            if without(front, key).contains(k) && last != key {
                let i = choose|i: int|
                    0 <= i < without(front, key).len() && without(front, key)[i] == k;
                assert(without(front, key).push(last)[i] == k);
            }
            if last != key {
                let kept = without(front, key).push(last);
                assert(kept[kept.len() - 1] == last);
            }
        }
        if keys.no_duplicates() {
            assert(front.no_duplicates());
            if last != key {
                assert(!front.contains(last)) by {
                    if front.contains(last) {
                        let i = choose|i: int| 0 <= i < front.len() && front[i] == last;
                        assert(keys[i] == keys[keys.len() - 1]);
                    }
                }
                assert(!without(front, key).contains(last));
            }
        }
    }
}

/// What `vacate` does to a sequence that grew by one bucket.
pub proof fn lemma_vacate_push(buckets: Seq<BucketView>, last: BucketView, key: Seq<char>)
    ensures
        vacate(buckets.push(last), key) == if last.vacated(key).keys.len() > 0 {
            vacate(buckets, key).push(last.vacated(key))
        } else {
            vacate(buckets, key)
        },
{
    assert(buckets.push(last).map_values(vacating(key)) =~= buckets.map_values(
        vacating(key),
    ).push(last.vacated(key)));
    buckets.map_values(vacating(key)).lemma_filter_push(last.vacated(key), occupied());
}

/// After `vacate`, every bucket is what is left of an earlier bucket, none
/// holds `key`, and a well-formed index is still well-formed.
pub proof fn lemma_vacate(buckets: Seq<BucketView>, key: Seq<char>)
    ensures
        forall|i: int|
            0 <= i < vacate(buckets, key).len() ==> exists|j: int|
                0 <= j < buckets.len() && (#[trigger] vacate(buckets, key)[i])
                    == buckets[j].vacated(key),
        forall|i: int| !holds(vacate(buckets, key), i, key),
        well_formed(buckets) ==> well_formed(vacate(buckets, key)),
    decreases buckets.len(),
{
    let after = vacate(buckets, key);
    if buckets.len() == 0 {
        reveal(Seq::filter);
        assert(buckets.map_values(vacating(key)) =~= Seq::<BucketView>::empty());
        assert(after =~= Seq::<BucketView>::empty());
    } else {
        let front = buckets.drop_last();
        let last = buckets.last();
        let left = last.vacated(key);
        let shorter = vacate(front, key);
        assert(buckets =~= front.push(last));
        lemma_vacate(front, key);
        lemma_vacate_push(front, last, key);
        lemma_without(last.keys, key);
        assert forall|i: int| 0 <= i < after.len() implies exists|j: int|
            0 <= j < buckets.len() && (#[trigger] after[i]) == buckets[j].vacated(key) by {
            if i < shorter.len() {
                let j = choose|j: int| 0 <= j < front.len() && shorter[i] == front[j].vacated(key);
                assert(after[i] == buckets[j].vacated(key));
            } else {
                assert(after[i] == buckets[buckets.len() - 1].vacated(key));
            }
        }
        assert forall|i: int| !holds(after, i, key) by {
            if 0 <= i < after.len() {
                if i < shorter.len() {
                    assert(!holds(shorter, i, key));
                    assert(after[i] == shorter[i]);
                }
            }
        }
        if well_formed(buckets) {
            assert(well_formed(front)) by {
                assert forall|i: int, j: int, k: Seq<char>| #[trigger]
                    holds(front, i, k) && #[trigger] holds(front, j, k) implies i == j by {
                    assert(holds(buckets, i, k) && holds(buckets, j, k));
                }
            }
            if left.keys.len() > 0 {
                let n = shorter.len() as int;
                assert forall|i: int, j: int| 0 <= i < j < after.len() implies (#[trigger] after[i]).value
                    != (#[trigger] after[j]).value by {
                    if j == n {
                        let o = choose|o: int|
                            0 <= o < front.len() && shorter[i] == front[o].vacated(key);
                        assert(after[i] == shorter[i]);
                        assert(buckets[o].value != buckets[buckets.len() - 1].value);
                    } else {
                        assert(after[i] == shorter[i] && after[j] == shorter[j]);
                    }
                }
                assert forall|i: int, j: int, k: Seq<char>| #[trigger]
                    holds(after, i, k) && #[trigger] holds(after, j, k) implies i == j by {
                    if i < n && j < n {
                        assert(after[i] == shorter[i] && after[j] == shorter[j]);
                        assert(holds(shorter, i, k) && holds(shorter, j, k));
                    } else if i < n || j < n {
                        let low = if i < n { i } else { j };
                        assert(after[low] == shorter[low]);
                        let o = choose|o: int|
                            0 <= o < front.len() && shorter[low] == front[o].vacated(key);
                        lemma_without(front[o].keys, key);
                        assert(holds(buckets, o, k));
                        assert(holds(buckets, buckets.len() - 1, k));
                    }
                }
                assert forall|i: int| 0 <= i < after.len() implies (#[trigger] after[i]).keys.len()
                    > 0 && after[i].keys.no_duplicates() by {
                    if i < n {
                        assert(after[i] == shorter[i]);
                    }
                }
            }
        }
    }
}

/// A well-formed index that does not hold `key` is still well-formed after
/// `key` joined the bucket of `value`, and holds `key` in exactly that bucket.
pub proof fn lemma_enroll(buckets: Seq<BucketView>, key: Seq<char>, value: Seq<char>)
    requires
        well_formed(buckets),
        forall|i: int| !holds(buckets, i, key),
    ensures
        well_formed(enroll(buckets, key, value)),
        enroll(buckets, key, value).len() >= buckets.len(),
        forall|i: int|
            0 <= i < buckets.len() ==> (#[trigger] enroll(buckets, key, value)[i]).value
                == buckets[i].value,
        forall|i: int, k: Seq<char>|
            #[trigger] holds(enroll(buckets, key, value), i, k) <==> (holds(buckets, i, k) || (k
                == key && 0 <= i < enroll(buckets, key, value).len() && enroll(
                buckets,
                key,
                value,
            )[i].value == value)),
{
    let after = enroll(buckets, key, value);
    let values = bucket_values(buckets);
    values.index_of_first_ensures(value);
    let at = match bucket_of(buckets, value) {
        Some(at) => at,
        None => buckets.len() as int,
    };
    assert forall|i: int| 0 <= i < buckets.len() && i != at implies buckets[i].value != value by {
        if bucket_of(buckets, value) is Some {
            if i < at {
                assert(buckets[i].value != buckets[at].value);
            } else {
                assert(buckets[at].value != buckets[i].value);
            }
        } else {
            assert(values[i] == buckets[i].value);
            assert(values.contains(values[i]));
        }
    }
    let old_keys = if at < buckets.len() {
        buckets[at].keys
    } else {
        Seq::<Seq<char>>::empty()
    };
    assert forall|k: Seq<char>| #[trigger]
        after[at].keys.contains(k) <==> (k == key || holds(buckets, at, k)) by {
        if holds(buckets, at, k) {
            let i = choose|i: int| 0 <= i < old_keys.len() && old_keys[i] == k;
            assert(after[at].keys[i] == k);
        }
        assert(after[at].keys[after[at].keys.len() - 1] == key);
    }
    assert forall|i: int, k: Seq<char>| #[trigger]
        holds(after, i, k) <==> (holds(buckets, i, k) || (k == key && 0 <= i < after.len()
            && after[i].value == value)) by {}
    assert forall|i: int| 0 <= i < after.len() implies (#[trigger] after[i]).keys.len() > 0
        && after[i].keys.no_duplicates() by {
        if i == at {
            if at < buckets.len() {
                assert(!holds(buckets, at, key));
                assert(after[at].keys =~= buckets[at].keys.push(key));
            } else {
                assert(after[at].keys =~= seq![key]);
            }
        } else {
            assert(after[i] == buckets[i]);
        }
    }
}

/// Applying an event keeps a well-formed index well-formed.
pub proof fn lemma_apply_event_well_formed(buckets: Seq<BucketView>, event: EventView)
    requires
        well_formed(buckets),
    ensures
        well_formed(apply_event(buckets, event)),
{
    lemma_vacate(buckets, event.key());
    match event {
        EventView::Put { key, value } => {
            lemma_enroll(vacate(buckets, key), key, value);
        },
        EventView::Delete { key } => {},
    }
}

/// Applying a run of events in two parts, the second to what the first
/// left, gives the same index as applying the whole run in one pass.
pub proof fn lemma_apply_all_in_parts(
    buckets: Seq<BucketView>,
    first: Seq<EventView>,
    rest: Seq<EventView>,
)
    ensures
        apply_all(apply_all(buckets, first), rest) == apply_all(buckets, first + rest),
    decreases rest.len(),
{
    if rest.len() == 0 {
        assert(first + rest =~= first);
    } else {
        lemma_apply_all_in_parts(buckets, first, rest.drop_last());
        assert((first + rest).drop_last() =~= first + rest.drop_last());
        assert((first + rest).last() == rest.last());
    }
}

/// Replaying a log up to any point `n`, and later the events from `n` on,
/// gives the index that one replay of the whole log gives.
pub proof fn lemma_replay_resumes(events: Seq<EventView>, n: int)
    requires
        0 <= n <= events.len(),
    ensures
        apply_all(replay(events.take(n)), events.skip(n)) == replay(events),
        n < events.len() ==> apply_event(replay(events.take(n)), events[n]) == replay(
            events.take(n + 1),
        ),
{
    lemma_apply_all_in_parts(Seq::empty(), events.take(n), events.skip(n));
    assert(events.take(n) + events.skip(n) =~= events);
    if n < events.len() {
        assert(events.take(n + 1).drop_last() =~= events.take(n));
    }
}

/// Whatever events an index was built from, it is well-formed: in particular
/// no key stands in two buckets.
pub proof fn lemma_replay_well_formed(events: Seq<EventView>)
    ensures
        well_formed(replay(events)),
        forall|i: int, j: int, key: Seq<char>|
            #[trigger] holds(replay(events), i, key) && #[trigger] holds(replay(events), j, key)
                ==> i == j,
    decreases events.len(),
{
    if events.len() > 0 {
        lemma_replay_well_formed(events.drop_last());
        lemma_apply_event_well_formed(replay(events.drop_last()), events.last());
    }
}

} // verus!
