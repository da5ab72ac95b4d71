use vstd::prelude::*;
use crate::bucket::{BucketView, bucket_of, bucket_values, holds, well_formed};
use crate::event::EventView;
use crate::primary::{apply_to_map, replay_map};
use crate::transition::{
    apply_event, enroll, lemma_enroll, lemma_replay_well_formed, lemma_vacate, lemma_without,
    occupied, replay, vacate, vacating,
};

verus! {

/// That the index lists `key` under `value`.
pub open spec fn filed_under(buckets: Seq<BucketView>, key: Seq<char>, value: Seq<char>) -> bool {
    exists|at: int| #[trigger] holds(buckets, at, key) && buckets[at].value == value
}

/// After `vacate` the index lists what it listed before, but for `key`.
proof fn lemma_vacate_listing(buckets: Seq<BucketView>, key: Seq<char>)
    ensures
        forall|k: Seq<char>, v: Seq<char>|
            #[trigger] filed_under(vacate(buckets, key), k, v) <==> filed_under(buckets, k, v)
                && k != key,
{
    let after = vacate(buckets, key);
    let emptied = buckets.map_values(vacating(key));
    lemma_vacate(buckets, key);
    assert forall|k: Seq<char>, v: Seq<char>| #[trigger]
        filed_under(after, k, v) <==> filed_under(buckets, k, v) && k != key by {
        if filed_under(after, k, v) {
            let at = choose|at: int| #[trigger] holds(after, at, k) && after[at].value == v;
            let from = choose|from: int|
                0 <= from < buckets.len() && after[at] == buckets[from].vacated(key);
            lemma_without(buckets[from].keys, key);
            assert(holds(buckets, from, k));
        }
        if filed_under(buckets, k, v) && k != key {
            let from = choose|from: int| #[trigger]
                holds(buckets, from, k) && buckets[from].value == v;
            let left = buckets[from].vacated(key);
            assert(left.keys.contains(k));
            emptied.lemma_filter_contains(occupied(), from);
            let at = choose|at: int| 0 <= at < after.len() && after[at] == left;
            assert(holds(after, at, k));
        }
    }
}

/// After `enroll` the index lists what it listed before, and `key` under `value`.
proof fn lemma_enroll_listing(buckets: Seq<BucketView>, key: Seq<char>, value: Seq<char>)
    requires
        well_formed(buckets),
        forall|at: int| !holds(buckets, at, key),
    ensures
        forall|k: Seq<char>, v: Seq<char>|
            #[trigger] filed_under(enroll(buckets, key, value), k, v) <==> filed_under(
                buckets,
                k,
                v,
            ) || (k == key && v == value),
{
    let after = enroll(buckets, key, value);
    lemma_enroll(buckets, key, value);
    assert forall|k: Seq<char>, v: Seq<char>| #[trigger]
        filed_under(after, k, v) <==> filed_under(buckets, k, v) || (k == key && v == value) by {
        if filed_under(buckets, k, v) {
            let at = choose|at: int| #[trigger] holds(buckets, at, k) && buckets[at].value == v;
            assert(holds(after, at, k));
        }
        if k == key && v == value {
            bucket_values(buckets).index_of_first_ensures(value);
            let at = match bucket_of(buckets, value) {
                Some(at) => at,
                None => buckets.len() as int,
            };
            assert(holds(after, at, key));
        }
    }
}

/// What one event does to the listing of a well-formed index is what it
/// does to the key-to-value mapping.
proof fn lemma_apply_event_listing(
    buckets: Seq<BucketView>,
    map: Map<Seq<char>, Seq<char>>,
    event: EventView,
)
    requires
        well_formed(buckets),
        forall|k: Seq<char>, v: Seq<char>|
            #[trigger] filed_under(buckets, k, v) <==> map.contains_pair(k, v),
    ensures
        forall|k: Seq<char>, v: Seq<char>|
            #[trigger] filed_under(apply_event(buckets, event), k, v)
                <==> apply_to_map(map, event).contains_pair(k, v),
{
    let key = event.key();
    lemma_vacate(buckets, key);
    lemma_vacate_listing(buckets, key);
    match event {
        EventView::Put { key, value } => {
            lemma_enroll_listing(vacate(buckets, key), key, value);
        },
        EventView::Delete { key } => {},
    }
}

/// The index of a replica is the primary's mapping turned round: after any
/// run of events, the index lists a key under a value exactly if the mapping
/// that the same events describe maps the key to the value.
pub proof fn lemma_index_inverts_mapping(log: Seq<EventView>)
    ensures
        forall|key: Seq<char>, value: Seq<char>|
            #[trigger] filed_under(replay(log), key, value) <==> replay_map(log).contains_pair(
                key,
                value,
            ),
    decreases log.len(),
{
    if log.len() == 0 {
        assert forall|key: Seq<char>, value: Seq<char>|
            !#[trigger] filed_under(replay(log), key, value) by {
            if filed_under(replay(log), key, value) {
                let at = choose|at: int| #[trigger] holds(replay(log), at, key);
            }
        }
    } else {
        lemma_index_inverts_mapping(log.drop_last());
        lemma_replay_well_formed(log.drop_last());
        lemma_apply_event_listing(
            replay(log.drop_last()),
            replay_map(log.drop_last()),
            log.last(),
        );
    }
}

} // verus!
