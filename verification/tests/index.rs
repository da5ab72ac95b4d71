use logkv::event::Event;
use logkv::index::{apply, apply_batch, InvertedIndex, Match};
use logkv::primary::{Data, PrimaryStore};
use logkv::similarity::Similarity;

fn text(s: &str) -> String {
    s.to_string()
}

fn put(key: &str, value: &str) -> Event {
    Event::Put { key: text(key), value: text(value) }
}

fn delete(key: &str) -> Event {
    Event::Delete { key: text(key) }
}

fn index_of(events: Vec<Event>) -> InvertedIndex {
    let mut index = InvertedIndex::new();
    apply_batch(events, &mut index);
    index
}

fn exact(index: &InvertedIndex, value: &str) -> Option<Vec<String>> {
    index.lookup_exact(&text(value)).map(|found| found.keys)
}

fn fuzzy(index: &InvertedIndex, key: &str, numer: u64, denom: u64) -> Option<Vec<String>> {
    let min = Similarity::new(numer, denom).unwrap();
    index.lookup_fuzzy(&text(key), &min).map(|found| found.keys)
}

fn keys(list: &[&str]) -> Option<Vec<String>> {
    Some(list.iter().map(|k| k.to_string()).collect())
}

fn sample_events() -> Vec<Event> {
    vec![
        put("a", "x"),
        put("b", "y"),
        put("c", "x"),
        put("a", "y"),
        delete("b"),
        put("d", "z"),
        delete("missing"),
        put("c", "z"),
        put("e", "x"),
        delete("d"),
    ]
}

#[test]
fn new_index_is_empty() {
    let index = InvertedIndex::new();
    assert_eq!(index.len(), 0);
    assert_eq!(exact(&index, "x"), None);
    assert_eq!(exact(&index, ""), None);
}

#[test]
fn set_then_lookup_exact_finds_the_key() {
    let mut index = InvertedIndex::new();
    apply(put("a", "x"), &mut index);
    assert_eq!(index.lookup_exact(&text("x")), Some(Match { keys: vec![text("a")] }));
    assert_eq!(index.len(), 1);
}

#[test]
fn set_to_new_value_vacates_old_bucket() {
    let index = index_of(vec![put("a", "x"), put("a", "y")]);
    assert_eq!(exact(&index, "x"), None);
    assert_eq!(exact(&index, "y"), keys(&["a"]));
    assert_eq!(index.len(), 1);
}

#[test]
fn set_then_delete_removes_the_empty_bucket() {
    let index = index_of(vec![put("a", "x"), delete("a")]);
    assert_eq!(exact(&index, "x"), None);
    assert_eq!(index.len(), 0);
}

#[test]
fn keys_of_one_value_share_a_bucket_oldest_first() {
    let index = index_of(vec![put("a", "x"), put("b", "x"), put("c", "x")]);
    assert_eq!(exact(&index, "x"), keys(&["a", "b", "c"]));
    assert_eq!(index.len(), 1);
}

#[test]
fn set_of_same_pair_again_moves_key_to_the_end() {
    let index = index_of(vec![put("a", "x"), put("b", "x"), put("a", "x")]);
    assert_eq!(exact(&index, "x"), keys(&["b", "a"]));
}

#[test]
fn delete_leaves_other_keys_of_the_bucket() {
    let index = index_of(vec![put("a", "x"), put("b", "x"), delete("a")]);
    assert_eq!(exact(&index, "x"), keys(&["b"]));
}

#[test]
fn delete_of_unknown_key_changes_nothing() {
    let index = index_of(vec![put("a", "x"), delete("zzz")]);
    assert_eq!(exact(&index, "x"), keys(&["a"]));
    assert_eq!(index.len(), 1);
    let empty = index_of(vec![delete("zzz")]);
    assert_eq!(empty.len(), 0);
}

#[test]
fn sample_run_gives_the_expected_buckets() {
    let index = index_of(sample_events());
    assert_eq!(exact(&index, "x"), keys(&["e"]));
    assert_eq!(exact(&index, "y"), keys(&["a"]));
    assert_eq!(exact(&index, "z"), keys(&["c"]));
    assert_eq!(index.len(), 3);
}

#[test]
fn one_at_a_time_equals_batch() {
    let events = sample_events();
    for n in 0..=events.len() {
        let prefix: Vec<Event> = events[..n].to_vec();
        let mut stepwise = InvertedIndex::new();
        for event in prefix.clone() {
            apply(event, &mut stepwise);
        }
        let batch = index_of(prefix);
        assert_eq!(stepwise.len(), batch.len());
        for value in ["x", "y", "z", "missing"] {
            assert_eq!(exact(&stepwise, value), exact(&batch, value));
        }
    }
}

#[test]
fn paused_and_resumed_replay_equals_one_pass() {
    let events = sample_events();
    let whole = index_of(events.clone());
    for pause in 0..=events.len() {
        let mut index = index_of(events[..pause].to_vec());
        apply_batch(events[pause..].to_vec(), &mut index);
        assert_eq!(index.len(), whole.len());
        for value in ["x", "y", "z"] {
            assert_eq!(exact(&index, value), exact(&whole, value));
        }
    }
}

#[test]
fn no_key_stands_in_two_buckets() {
    let events = sample_events();
    for n in 0..=events.len() {
        let index = index_of(events[..n].to_vec());
        let mut seen: Vec<String> = Vec::new();
        let mut buckets = 0;
        for value in ["x", "y", "z"] {
            if let Some(found) = exact(&index, value) {
                assert!(!found.is_empty());
                buckets += 1;
                for key in found {
                    assert!(!seen.contains(&key));
                    seen.push(key);
                }
            }
        }
        assert_eq!(buckets, index.len());
    }
}

#[test]
fn index_is_the_inverse_of_the_primary_mapping() {
    let mut store = PrimaryStore::new();
    store.store(Data { key: text("a"), value: text("x") });
    store.store(Data { key: text("b"), value: text("y") });
    store.store(Data { key: text("c"), value: text("x") });
    store.delete(text("a"));
    store.store(Data { key: text("b"), value: text("x") });
    let index = index_of(store.log(0));
    for key in ["a", "b", "c"] {
        let holders: Vec<&str> = ["x", "y"]
            .into_iter()
            .filter(|value| exact(&index, value).map_or(false, |found| found.contains(&text(key))))
            .collect();
        match store.get(&text(key)) {
            Some(data) => assert_eq!(holders, vec![data.value.as_str()]),
            None => assert!(holders.is_empty()),
        }
    }
    assert_eq!(exact(&index, "x"), keys(&["c", "b"]));
}

#[test]
fn fuzzy_lookup_compares_the_query_with_bucket_values() {
    // "car" against "animal" scores 1/6, against "vehicle" 1/7.
    let index = index_of(vec![put("cat", "animal"), put("car", "vehicle")]);
    assert_eq!(fuzzy(&index, "car", 1, 2), None);
    assert_eq!(fuzzy(&index, "car", 1, 6), keys(&["cat"]));
    assert_eq!(fuzzy(&index, "car", 1, 7), keys(&["car", "cat"]));
    assert_eq!(fuzzy(&index, "vehicle", 1, 2), keys(&["car"]));
    assert_eq!(fuzzy(&index, "vehicel", 1, 2), keys(&["car"]));
    assert_eq!(fuzzy(&index, "animals", 1, 2), keys(&["cat"]));
}

#[test]
fn fuzzy_lookup_lists_lowest_score_first() {
    let index = index_of(vec![
        put("k1", "abcd"),
        put("k2", "abcx"),
        put("k3", "axyz"),
        put("k4", "abxy"),
    ]);
    // scores against "abcd": 4/4, 3/4, 1/4, 2/4
    assert_eq!(fuzzy(&index, "abcd", 0, 1), keys(&["k3", "k4", "k2", "k1"]));
    assert_eq!(fuzzy(&index, "abcd", 1, 2), keys(&["k4", "k2", "k1"]));
    assert_eq!(fuzzy(&index, "abcd", 3, 4), keys(&["k2", "k1"]));
    assert_eq!(fuzzy(&index, "abcd", 4, 5), keys(&["k1"]));
}

#[test]
fn fuzzy_lookup_keeps_bucket_order_among_equal_scores() {
    let index = index_of(vec![
        put("k1", "abcx"),
        put("k2", "abcd"),
        put("k3", "abcy"),
        put("k4", "xbcd"),
        put("k5", "abcx"),
    ]);
    // "abcx", "abcy" and "xbcd" all score 3/4 against "abcd"
    assert_eq!(fuzzy(&index, "abcd", 1, 2), keys(&["k1", "k5", "k3", "k4", "k2"]));
}

#[test]
fn fuzzy_lookup_at_threshold_one_is_the_exact_lookup() {
    let index = index_of(vec![
        put("a", "vehicle"),
        put("b", "vehicles"),
        put("c", "vehicle"),
        put("d", ""),
    ]);
    for query in ["vehicle", "vehicles", "vehicl", "", "x", "Vehicle"] {
        assert_eq!(fuzzy(&index, query, 1, 1), exact(&index, query));
        assert_eq!(fuzzy(&index, query, 9, 9), exact(&index, query));
    }
    assert_eq!(fuzzy(&index, "vehicle", 1, 1), keys(&["a", "c"]));
    assert_eq!(fuzzy(&index, "", 1, 1), keys(&["d"]));
    assert_eq!(fuzzy(&index, "vehicl", 1, 1), None);
}

#[test]
fn fuzzy_lookup_at_threshold_zero_returns_every_key() {
    let index = index_of(vec![put("a", "x"), put("b", "yy"), put("c", "x")]);
    // "x" scores 0/3 against "qqq" and "yy" scores 0/3: bucket order decides
    assert_eq!(fuzzy(&index, "qqq", 0, 1), keys(&["a", "c", "b"]));
}

#[test]
fn fuzzy_lookup_above_one_finds_nothing() {
    let index = index_of(vec![put("a", "x")]);
    assert_eq!(fuzzy(&index, "x", 2, 1), None);
    assert_eq!(fuzzy(&index, "x", 1, 1), keys(&["a"]));
}

#[test]
fn fuzzy_lookup_on_empty_index_finds_nothing() {
    let index = InvertedIndex::new();
    assert_eq!(fuzzy(&index, "x", 0, 1), None);
    assert_eq!(fuzzy(&index, "", 1, 1), None);
}

#[test]
fn score_buckets_scores_each_bucket_in_order() {
    let index = index_of(vec![put("cat", "animal"), put("car", "vehicle"), put("k", "car")]);
    let scores: Vec<(u64, u64)> = index
        .score_buckets(&text("car"))
        .into_iter()
        .map(|s| (s.numer(), s.denom()))
        .collect();
    assert_eq!(scores, vec![(1, 6), (1, 7), (3, 3)]);
}

#[test]
fn select_follows_the_scores_it_is_given() {
    let index = index_of(vec![put("a", "x"), put("b", "y"), put("c", "z"), put("d", "x")]);
    let score = |n: u64, d: u64| Similarity::new(n, d).unwrap();
    let scores = vec![score(3, 4), score(1, 4), score(2, 4)];
    let half = score(1, 2);
    let found = index.select(&scores, &half).map(|m| m.keys);
    assert_eq!(found, keys(&["c", "a", "d"]));
    let all = index.select(&scores, &Similarity::zero()).map(|m| m.keys);
    assert_eq!(all, keys(&["b", "c", "a", "d"]));
    let none = index.select(&scores, &Similarity::one()).map(|m| m.keys);
    assert_eq!(none, None);
    let equal = vec![score(1, 2), score(2, 4), score(3, 6)];
    let tied = index.select(&equal, &half).map(|m| m.keys);
    assert_eq!(tied, keys(&["a", "d", "b", "c"]));
}
