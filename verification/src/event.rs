use vstd::prelude::*;

verus! {

/// One accepted mutation of the primary store, as recorded in its log.
#[derive(Debug, PartialEq, Eq)]
pub enum Event {
    /// `key` now maps to `value`.
    Put { key: String, value: String },
    /// `key` no longer exists.
    Delete { key: String },
}

/// Mathematical model of an [`Event`]: the same record over character sequences.
pub enum EventView {
    Put { key: Seq<char>, value: Seq<char> },
    Delete { key: Seq<char> },
}

impl View for Event {
    type V = EventView;

    open spec fn view(&self) -> EventView {
        match *self {
            Event::Put { key, value } => EventView::Put { key: key@, value: value@ },
            Event::Delete { key } => EventView::Delete { key: key@ },
        }
    }
}

impl EventView {
    /// The key that the event is about.
    pub open spec fn key(self) -> Seq<char> {
        match self {
            EventView::Put { key, .. } => key,
            EventView::Delete { key } => key,
        }
    }
}

impl Clone for Event {
    fn clone(&self) -> (copy: Event)
        ensures
            copy == *self,
    {
        match self {
            Event::Put { key, value } => Event::Put { key: key.clone(), value: value.clone() },
            Event::Delete { key } => Event::Delete { key: key.clone() },
        }
    }
}

impl Event {
    /// The key that the event is about.
    pub fn key(&self) -> (key: &String)
        ensures
            key@ == self@.key(),
    {
        match self {
            Event::Put { key, .. } => key,
            Event::Delete { key } => key,
        }
    }
}

/// The models of a run of events, in order.
pub open spec fn event_views(events: Seq<Event>) -> Seq<EventView> {
    events.map_values(|e: Event| e@)
}

} // verus!
