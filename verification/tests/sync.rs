use logkv::address::tail_url;
use logkv::event::Event;
use logkv::primary::{Data, PrimaryStore};
use logkv::sync::{Phase, Replica, SyncAction, SyncInput, POLL_INTERVAL_MS};

fn text(s: &str) -> String {
    s.to_string()
}

fn put(key: &str, value: &str) -> Event {
    Event::Put { key: text(key), value: text(value) }
}

fn exact(replica: &Replica, value: &str) -> Option<Vec<String>> {
    replica.index().lookup_exact(&text(value)).map(|found| found.keys)
}

/// One sync cycle against `primary`, as the driver of the loop runs it.
fn sync(replica: &mut Replica, primary: &PrimaryStore) {
    let from = match replica.step(SyncInput::Tick) {
        SyncAction::Fetch { from } => from,
        other => panic!("expected a fetch, got {:?}", other),
    };
    let events = primary.log(from);
    let action = replica.step(SyncInput::Fetched(events));
    assert_eq!(action, SyncAction::Sleep { millis: 1000 });
}

#[test]
fn new_replica_is_idle_at_cursor_zero() {
    let replica = Replica::new();
    assert_eq!(replica.cursor(), 0);
    assert_eq!(replica.phase(), Phase::Idle);
    assert_eq!(replica.index().len(), 0);
}

#[test]
fn tick_starts_a_fetch_from_the_cursor() {
    let mut replica = Replica::new();
    assert_eq!(replica.step(SyncInput::Tick), SyncAction::Fetch { from: 0 });
    assert_eq!(replica.phase(), Phase::Syncing);
    assert_eq!(replica.cursor(), 0);
}

#[test]
fn fetched_events_are_applied_and_counted() {
    let mut replica = Replica::new();
    replica.step(SyncInput::Tick);
    let action = replica.step(SyncInput::Fetched(vec![put("a", "x"), put("b", "x")]));
    assert_eq!(action, SyncAction::Sleep { millis: POLL_INTERVAL_MS });
    assert_eq!(replica.phase(), Phase::Idle);
    assert_eq!(replica.cursor(), 2);
    assert_eq!(exact(&replica, "x"), Some(vec![text("a"), text("b")]));
    assert_eq!(replica.step(SyncInput::Tick), SyncAction::Fetch { from: 2 });
}

#[test]
fn poll_interval_is_one_second() {
    assert_eq!(POLL_INTERVAL_MS, 1000);
}

#[test]
fn empty_answer_leaves_cursor_and_index() {
    let mut replica = Replica::new();
    replica.step(SyncInput::Tick);
    replica.step(SyncInput::Fetched(vec![put("a", "x")]));
    replica.step(SyncInput::Tick);
    let action = replica.step(SyncInput::Fetched(Vec::new()));
    assert_eq!(action, SyncAction::Sleep { millis: 1000 });
    assert_eq!(replica.cursor(), 1);
    assert_eq!(exact(&replica, "x"), Some(vec![text("a")]));
}

#[test]
fn failed_fetch_stops_the_loop_and_keeps_the_state() {
    let mut replica = Replica::new();
    replica.step(SyncInput::Tick);
    replica.step(SyncInput::Fetched(vec![put("a", "x")]));
    replica.step(SyncInput::Tick);
    assert_eq!(replica.step(SyncInput::Failed), SyncAction::Stop);
    assert_eq!(replica.cursor(), 1);
    assert_eq!(exact(&replica, "x"), Some(vec![text("a")]));
}

#[test]
fn inputs_that_do_not_fit_the_phase_are_dropped() {
    let mut replica = Replica::new();
    assert_eq!(replica.step(SyncInput::Fetched(vec![put("a", "x")])), SyncAction::Ignore);
    assert_eq!(replica.step(SyncInput::Failed), SyncAction::Ignore);
    assert_eq!(replica.cursor(), 0);
    assert_eq!(replica.index().len(), 0);
    assert_eq!(replica.phase(), Phase::Idle);
    replica.step(SyncInput::Tick);
    assert_eq!(replica.step(SyncInput::Tick), SyncAction::Ignore);
    assert_eq!(replica.phase(), Phase::Syncing);
}

#[test]
fn set_then_sync_then_lookup() {
    let mut primary = PrimaryStore::new();
    let mut replica = Replica::new();
    primary.store(Data { key: text("a"), value: text("x") });
    sync(&mut replica, &primary);
    assert_eq!(exact(&replica, "x"), Some(vec![text("a")]));
}

#[test]
fn overwrite_then_sync_moves_the_key() {
    let mut primary = PrimaryStore::new();
    let mut replica = Replica::new();
    primary.store(Data { key: text("a"), value: text("x") });
    primary.store(Data { key: text("a"), value: text("y") });
    sync(&mut replica, &primary);
    assert_eq!(exact(&replica, "x"), None);
    assert_eq!(exact(&replica, "y"), Some(vec![text("a")]));
}

#[test]
fn delete_then_sync_drops_the_bucket() {
    let mut primary = PrimaryStore::new();
    let mut replica = Replica::new();
    primary.store(Data { key: text("a"), value: text("x") });
    primary.delete(text("a"));
    sync(&mut replica, &primary);
    assert_eq!(exact(&replica, "x"), None);
    assert_eq!(replica.index().len(), 0);
}

#[test]
fn cursor_follows_the_log_length_and_never_moves_back() {
    let mut primary = PrimaryStore::new();
    let mut replica = Replica::new();
    let mut last = replica.cursor();
    for round in 0..5 {
        for n in 0..round {
            primary.store(Data { key: format!("k{}", n), value: format!("v{}", round) });
        }
        if round == 3 {
            primary.delete(text("k0"));
        }
        sync(&mut replica, &primary);
        assert_eq!(replica.cursor(), primary.log_len());
        assert!(replica.cursor() >= last);
        last = replica.cursor();
    }
    assert_eq!(replica.cursor(), 11);
    assert_eq!(exact(&replica, "v4"), Some(vec![text("k0"), text("k1"), text("k2"), text("k3")]));
    assert_eq!(exact(&replica, "v3"), None);
}

#[test]
fn sync_in_cycles_equals_sync_at_once() {
    let mut primary = PrimaryStore::new();
    let mut stepwise = Replica::new();
    let writes = [("a", "x"), ("b", "y"), ("a", "y"), ("c", "x"), ("b", "x")];
    for (key, value) in writes {
        primary.store(Data { key: text(key), value: text(value) });
        sync(&mut stepwise, &primary);
    }
    let mut late = Replica::new();
    sync(&mut late, &primary);
    assert_eq!(late.cursor(), stepwise.cursor());
    for value in ["x", "y"] {
        assert_eq!(exact(&late, value), exact(&stepwise, value));
    }
    assert_eq!(exact(&late, "x"), Some(vec![text("c"), text("b")]));
}

#[test]
fn fuzzy_lookup_after_sync() {
    let mut primary = PrimaryStore::new();
    let mut replica = Replica::new();
    primary.store(Data { key: text("cat"), value: text("animal") });
    primary.store(Data { key: text("car"), value: text("vehicle") });
    sync(&mut replica, &primary);
    let half = logkv::similarity::Similarity::new(1, 2).unwrap();
    let found = replica.index().lookup_fuzzy(&text("car"), &half);
    assert_eq!(found, None);
    let close = replica.index().lookup_fuzzy(&text("vehicles"), &half).map(|m| m.keys);
    assert_eq!(close, Some(vec![text("car")]));
}

#[test]
fn tail_url_names_the_offset_in_decimal() {
    assert_eq!(tail_url(0), "http://localhost:8000/log/0");
    assert_eq!(tail_url(7), "http://localhost:8000/log/7");
    assert_eq!(tail_url(10), "http://localhost:8000/log/10");
    assert_eq!(tail_url(1000), "http://localhost:8000/log/1000");
    assert_eq!(tail_url(9_876_543_210), "http://localhost:8000/log/9876543210");
    assert_eq!(tail_url(usize::MAX), format!("http://localhost:8000/log/{}", usize::MAX));
}
