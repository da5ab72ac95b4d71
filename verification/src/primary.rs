use vstd::prelude::*;
use crate::event::{Event, EventView, event_views};

verus! {

/// A key with the value that it maps to.
#[derive(Debug, PartialEq, Eq)]
pub struct Data {
    pub key: String,
    pub value: String,
}

/// Mathematical model of a [`Data`].
pub struct DataView {
    pub key: Seq<char>,
    pub value: Seq<char>,
}

impl View for Data {
    type V = DataView;

    open spec fn view(&self) -> DataView {
        DataView { key: self.key@, value: self.value@ }
    }
}

impl Clone for Data {
    fn clone(&self) -> (copy: Data)
        ensures
            copy == *self,
    {
        Data { key: self.key.clone(), value: self.value.clone() }
    }
}

/// What one event does to a key-to-value mapping.
pub open spec fn apply_to_map(
    map: Map<Seq<char>, Seq<char>>,
    event: EventView,
) -> Map<Seq<char>, Seq<char>> {
    match event {
        EventView::Put { key, value } => map.insert(key, value),
        EventView::Delete { key } => map.remove(key),
    }
}

/// The mapping that a log describes: what its events, applied in order, make
/// of the empty mapping.
pub open spec fn replay_map(log: Seq<EventView>) -> Map<Seq<char>, Seq<char>>
    decreases log.len(),
{
    if log.len() == 0 {
        Map::empty()
    } else {
        apply_to_map(replay_map(log.drop_last()), log.last())
    }
}

/// The events of `log` from offset `from` on; none if `from` lies beyond the
/// end of the log.
pub open spec fn tail(log: Seq<EventView>, from: nat) -> Seq<EventView> {
    if from <= log.len() {
        log.skip(from as int)
    } else {
        Seq::empty()
    }
}

/// The models of a run of entries, in order.
spec fn data_views(entries: Seq<Data>) -> Seq<DataView> {
    entries.map_values(|d: Data| d@)
}

/// That `entries` has an entry for `key`.
spec fn has_key(entries: Seq<DataView>, key: Seq<char>) -> bool {
    exists|i: int| 0 <= i < entries.len() && (#[trigger] entries[i]).key == key
}

/// The position of an entry for `key`.
spec fn position_of(entries: Seq<DataView>, key: Seq<char>) -> int {
    choose|i: int| 0 <= i < entries.len() && (#[trigger] entries[i]).key == key
}

/// That no two entries have the same key.
spec fn distinct_keys(entries: Seq<DataView>) -> bool {
    forall|i: int, j: int|
        0 <= i < j < entries.len() ==> (#[trigger] entries[i]).key != (#[trigger] entries[j]).key
}

/// The mapping that a list of entries with distinct keys stands for.
spec fn entries_map(entries: Seq<DataView>) -> Map<Seq<char>, Seq<char>> {
    Map::new(
        |key: Seq<char>| has_key(entries, key),
        |key: Seq<char>| entries[position_of(entries, key)].value,
    )
}

/// The primary store: the current key-to-value mapping together with the log
/// of every mutation that was accepted. The log is the truth; the mapping is
/// what the log amounts to.
pub struct PrimaryStore {
    db: Vec<Data>,
    log: Vec<Event>,
}

impl PrimaryStore {
    /// The current key-to-value mapping.
    pub closed spec fn contents(&self) -> Map<Seq<char>, Seq<char>> {
        entries_map(data_views(self.db@))
    }

    /// The log: every accepted mutation, oldest first.
    pub closed spec fn history(&self) -> Seq<EventView> {
        event_views(self.log@)
    }

    /// The invariant of the store: each key is kept once, and the mapping is
    /// what the log describes.
    pub closed spec fn wf(&self) -> bool {
        &&& distinct_keys(data_views(self.db@))
        &&& self.contents() == replay_map(self.history())
    }

    /// In a store that satisfies its invariant the mapping is exactly what
    /// replaying the whole log from its first event gives.
    pub proof fn lemma_log_is_truth(&self)
        requires
            self.wf(),
        ensures
            self.contents() == replay_map(self.history()),
    {
    }

    /// An empty store with an empty log.
    pub fn new() -> (store: PrimaryStore)
        ensures
            store.wf(),
            store.contents() == Map::<Seq<char>, Seq<char>>::empty(),
            store.history() == Seq::<EventView>::empty(),
            store.contents() == replay_map(store.history()),
    {
        let store = PrimaryStore { db: Vec::new(), log: Vec::new() };
        proof {
            assert(store.contents() =~= Map::<Seq<char>, Seq<char>>::empty());
        }
        store
    }

    /// Where the entry for `key` stands, if there is one.
    fn find(&self, key: &String) -> (at: Option<usize>)
        ensures
            match at {
                Some(i) => i < self.db.len() && self.db[i as int].key@ == key@,
                None => !has_key(data_views(self.db@), key@),
            },
    {
        let mut i: usize = 0;
        while i < self.db.len()
            invariant
                i <= self.db.len(),
                forall|j: int| 0 <= j < i ==> (#[trigger] data_views(self.db@)[j]).key != key@,
            decreases self.db.len() - i,
        {
            if self.db[i].key == *key {
                return Some(i);
            }
            i += 1;
        }
        None
    }

    /// Maps `data.key` to `data.value`, whether or not the key had a value,
    /// and records the mutation in the log.
    pub fn store(&mut self, data: Data)
        requires
            old(self).wf(),
        ensures
            final(self).wf(),
            final(self).contents() == old(self).contents().insert(data.key@, data.value@),
            final(self).history() == old(self).history().push(
                EventView::Put { key: data.key@, value: data.value@ },
            ),
            final(self).contents() == replay_map(final(self).history()),
    {
        let ghost before = data_views(self.db@);
        let ghost log_before = self.history();
        let event = Event::Put { key: data.key.clone(), value: data.value.clone() };
        match self.find(&data.key) {
            Some(i) => {
                self.db[i].value = data.value;
                proof {
                    let after = data_views(self.db@);
                    assert(after =~= before.update(
                        i as int,
                        DataView { key: data.key@, value: data.value@ },
                    ));
                    lemma_entries_update(before, i as int, data.value@);
                }
            },
            None => {
                self.db.push(data);
                proof {
                    let after = data_views(self.db@);
                    assert(after =~= before.push(data@));
                    lemma_entries_push(before, data@);
                }
            },
        }
        self.log.push(event);
        proof {
            assert(self.history().drop_last() =~= log_before);
        }
    }

    /// Takes `key` out of the mapping, if it is there, and records the
    /// deletion in the log either way.
    pub fn delete(&mut self, key: String)
        requires
            old(self).wf(),
        ensures
            final(self).wf(),
            final(self).contents() == old(self).contents().remove(key@),
            final(self).history() == old(self).history().push(EventView::Delete { key: key@ }),
            final(self).contents() == replay_map(final(self).history()),
    {
        let ghost before = data_views(self.db@);
        let ghost log_before = self.history();
        match self.find(&key) {
            Some(i) => {
                self.db.remove(i);
                proof {
                    let after = data_views(self.db@);
                    assert(after =~= before.remove(i as int));
                    lemma_entries_remove(before, i as int);
                }
            },
            None => {
                proof {
                    assert(entries_map(before).remove(key@) =~= entries_map(before));
                }
            },
        }
        let event = Event::Delete { key };
        self.log.push(event);
        proof {
            assert(self.history().drop_last() =~= log_before);
        }
    }

    /// The entry of `key`, if the key has a value.
    pub fn get(&self, key: &String) -> (found: Option<Data>)
        requires
            self.wf(),
        ensures
            match found {
                Some(data) => self.contents().contains_key(key@) && data.key@ == key@
                    && data.value@ == self.contents()[key@],
                None => !self.contents().contains_key(key@),
            },
    {
        match self.find(key) {
            Some(i) => {
                proof {
                    lemma_entries_at(data_views(self.db@), i as int);
                }
                Some(self.db[i].clone())
            },
            None => None,
        }
    }

    /// The number of events in the log.
    pub fn log_len(&self) -> (n: usize)
        ensures
            n == self.history().len(),
    {
        self.log.len()
    }

    /// The events of the log from offset `from` on, in the order in which
    /// they were appended. An offset at or beyond the end of the log gives no
    /// events; it is not an error.
    pub fn log(&self, from: usize) -> (events: Vec<Event>)
        ensures
            event_views(events@) == tail(self.history(), from as nat),
            from >= self.history().len() ==> events@.len() == 0,
    {
        let mut events: Vec<Event> = Vec::new();
        if self.log.len() < from {
            return events;
        }
        let mut at: usize = from;
        while at < self.log.len()
            invariant
                from <= at <= self.log.len(),
                event_views(events@) == self.history().subrange(from as int, at as int),
            decreases self.log.len() - at,
        {
            let ghost so_far = event_views(events@);
            let event = self.log[at].clone();
            events.push(event);
            proof {
                assert(event_views(events@) =~= so_far.push(self.log[at as int]@));
            }
            at += 1;
        }
        events
    }
}

/// In a list with distinct keys, each entry's key maps to that entry's value.
proof fn lemma_entries_at(entries: Seq<DataView>, i: int)
    requires
        distinct_keys(entries),
        0 <= i < entries.len(),
    ensures
        has_key(entries, entries[i].key),
        position_of(entries, entries[i].key) == i,
        entries_map(entries).contains_key(entries[i].key),
        entries_map(entries)[entries[i].key] == entries[i].value,
{
}

/// A new value for the entry at `i` is an insertion into the mapping.
proof fn lemma_entries_update(entries: Seq<DataView>, i: int, value: Seq<char>)
    requires
        distinct_keys(entries),
        0 <= i < entries.len(),
    ensures
        distinct_keys(entries.update(i, DataView { key: entries[i].key, value })),
        entries_map(entries.update(i, DataView { key: entries[i].key, value })) == entries_map(
            entries,
        ).insert(entries[i].key, value),
{
    let key = entries[i].key;
    let after = entries.update(i, DataView { key, value });
    assert forall|k: Seq<char>| has_key(after, k) <==> has_key(entries, k) by {
        if has_key(entries, k) {
            let p = position_of(entries, k);
            assert(after[p].key == k);
        }
    }
}

/// A new entry with a key that the list lacks is an insertion into the mapping.
proof fn lemma_entries_push(entries: Seq<DataView>, entry: DataView)
    requires
        distinct_keys(entries),
        !has_key(entries, entry.key),
    ensures
        distinct_keys(entries.push(entry)),
        entries_map(entries.push(entry)) == entries_map(entries).insert(entry.key, entry.value),
{
    let after = entries.push(entry);
    assert(after[entries.len() as int].key == entry.key);
    assert forall|k: Seq<char>| has_key(after, k) <==> has_key(entries, k) || k == entry.key by {
        if has_key(entries, k) {
            let p = position_of(entries, k);
            assert(after[p].key == k);
        }
    }
}

/// Taking the entry at `i` out of the list is a removal from the mapping.
proof fn lemma_entries_remove(entries: Seq<DataView>, i: int)
    requires
        distinct_keys(entries),
        0 <= i < entries.len(),
    ensures
        distinct_keys(entries.remove(i)),
        entries_map(entries.remove(i)) == entries_map(entries).remove(entries[i].key),
{
    let key = entries[i].key;
    let after = entries.remove(i);
    assert forall|k: Seq<char>| has_key(after, k) <==> has_key(entries, k) && k != key by {
        if has_key(entries, k) && k != key {
            let p = position_of(entries, k);
            let to_p = if p < i {
                p
            } else {
                p - 1
            };
            assert(after[to_p].key == k);
        }
    }
}

} // verus!
