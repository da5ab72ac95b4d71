use vstd::prelude::*;
use crate::event::{Event, EventView, event_views};
use crate::bucket::{BucketView, well_formed};
use crate::index::{InvertedIndex, apply_batch};
use crate::primary::tail;
use crate::transition::{apply_all, lemma_apply_all_in_parts, lemma_replay_well_formed, replay};

verus! {

/// The time between two sync cycles, in milliseconds.
pub const POLL_INTERVAL_MS: u64 = 1000;

/// Where the sync loop of a replica stands.
#[derive(Clone, Copy, Debug, PartialEq, Eq, Structural)]
pub enum Phase {
    /// Waiting for the next tick.
    Idle,
    /// A fetch of new events is under way.
    Syncing,
}

/// What the sync loop is told: the outcome of what it last asked for.
#[derive(Debug)]
pub enum SyncInput {
    /// The wait is over.
    Tick,
    /// The primary answered the fetch with these events, in log order.
    Fetched(Vec<Event>),
    /// The fetch failed: the primary was not reached or its answer not understood.
    Failed,
}

/// Mathematical model of a [`SyncInput`].
pub enum SyncInputView {
    Tick,
    Fetched(Seq<EventView>),
    Failed,
}

impl View for SyncInput {
    type V = SyncInputView;

    open spec fn view(&self) -> SyncInputView {
        match *self {
            SyncInput::Tick => SyncInputView::Tick,
            SyncInput::Fetched(events) => SyncInputView::Fetched(event_views(events@)),
            SyncInput::Failed => SyncInputView::Failed,
        }
    }
}

/// What the sync loop asks its driver to do next.
#[derive(Clone, Copy, Debug, PartialEq, Eq, Structural)]
pub enum SyncAction {
    /// Ask the primary for the events of its log from offset `from` on.
    Fetch { from: usize },
    /// Wait `millis` milliseconds, then say that the wait is over.
    Sleep { millis: u64 },
    /// Give up: the loop ends, and the index stays as it is.
    Stop,
    /// Nothing: the input did not fit the phase and was dropped.
    Ignore,
}

/// Mathematical model of a [`Replica`].
pub struct ReplicaView {
    /// The buckets of the derived index.
    pub index: Seq<BucketView>,
    /// The number of log events that were applied: the next fetch offset.
    pub cursor: nat,
    pub phase: Phase,
}

/// The state in which one step of the sync loop leaves a replica.
///
/// A tick starts a cycle. The answer to the fetch is applied event by event,
/// the cursor moves past exactly the events that were applied, and the cycle
/// is over. A failed fetch changes nothing. An input that does not fit the
/// phase changes nothing either.
pub open spec fn next_state(pre: ReplicaView, input: SyncInputView) -> ReplicaView {
    match (pre.phase, input) {
        (Phase::Idle, SyncInputView::Tick) => ReplicaView { phase: Phase::Syncing, ..pre },
        (Phase::Syncing, SyncInputView::Fetched(events)) => ReplicaView {
            index: apply_all(pre.index, events),
            cursor: pre.cursor + events.len(),
            phase: Phase::Idle,
        },
        _ => pre,
    }
}

/// What one step of the sync loop asks for.
pub open spec fn next_action(pre: ReplicaView, input: SyncInputView) -> SyncAction {
    match (pre.phase, input) {
        (Phase::Idle, SyncInputView::Tick) => SyncAction::Fetch { from: pre.cursor as usize },
        (Phase::Syncing, SyncInputView::Fetched(_)) => SyncAction::Sleep {
            millis: POLL_INTERVAL_MS,
        },
        (Phase::Syncing, SyncInputView::Failed) => SyncAction::Stop,
        _ => SyncAction::Ignore,
    }
}

/// That the cursor can move past the events of `input`.
pub open spec fn countable(pre: ReplicaView, input: SyncInputView) -> bool {
    match (pre.phase, input) {
        (Phase::Syncing, SyncInputView::Fetched(events)) => pre.cursor + events.len()
            <= usize::MAX,
        _ => true,
    }
}

/// A replica: the derived index, the cursor into the primary's log, and the
/// phase of its sync loop.
pub struct Replica {
    index: InvertedIndex,
    offset: usize,
    phase: Phase,
}

impl View for Replica {
    type V = ReplicaView;

    closed spec fn view(&self) -> ReplicaView {
        ReplicaView { index: self.index@, cursor: self.offset as nat, phase: self.phase }
    }
}

impl Replica {
    /// A replica that has applied nothing: empty index, cursor 0, idle.
    pub fn new() -> (replica: Replica)
        ensures
            replica@ == (ReplicaView {
                index: Seq::<BucketView>::empty(),
                cursor: 0,
                phase: Phase::Idle,
            }),
    {
        Replica { index: InvertedIndex::new(), offset: 0, phase: Phase::Idle }
    }

    /// The derived index, for lookups.
    pub fn index(&self) -> (index: &InvertedIndex)
        ensures
            index@ == self@.index,
    {
        &self.index
    }

    /// The number of log events applied so far.
    pub fn cursor(&self) -> (cursor: usize)
        ensures
            cursor == self@.cursor,
    {
        self.offset
    }

    /// The phase of the sync loop.
    pub fn phase(&self) -> (phase: Phase)
        ensures
            phase == self@.phase,
    {
        self.phase
    }

    /// One step of the sync loop: takes the outcome of the last action and
    /// says what to do next. The cursor never moves back.
    pub fn step(&mut self, input: SyncInput) -> (action: SyncAction)
        requires
            countable(old(self)@, input@),
        ensures
            final(self)@ == next_state(old(self)@, input@),
            action == next_action(old(self)@, input@),
            final(self)@.cursor >= old(self)@.cursor,
            well_formed(old(self)@.index) ==> well_formed(final(self)@.index),
    {
        match self.phase {
            Phase::Idle => match input {
                SyncInput::Tick => {
                    self.phase = Phase::Syncing;
                    SyncAction::Fetch { from: self.offset }
                },
                _ => SyncAction::Ignore,
            },
            Phase::Syncing => match input {
                SyncInput::Fetched(events) => {
                    let count = events.len();
                    apply_batch(events, &mut self.index);
                    self.offset = self.offset + count;
                    self.phase = Phase::Idle;
                    SyncAction::Sleep { millis: POLL_INTERVAL_MS }
                },
                SyncInput::Failed => SyncAction::Stop,
                SyncInput::Tick => SyncAction::Ignore,
            },
        }
    }
}

/// After a sync cycle the cursor is the length that the log had when the
/// fetch was answered: the cursor of a replica that lies within the log moves
/// past exactly the events from the cursor on.
pub proof fn lemma_cursor_reaches_log_length(log: Seq<EventView>, pre: ReplicaView)
    requires
        pre.phase == Phase::Syncing,
        pre.cursor <= log.len(),
    ensures
        next_state(pre, SyncInputView::Fetched(tail(log, pre.cursor))).cursor == log.len(),
        next_state(pre, SyncInputView::Fetched(tail(log, pre.cursor))).phase == Phase::Idle,
{
}

/// A sync cycle brings a replica level with the log. If the replica holds
/// what the first `cursor` events of `log` amount to, and the fetch is
/// answered with the events from `cursor` on, then afterwards it holds what
/// the whole log amounts to, with no event skipped and none out of order.
pub proof fn lemma_sync_cycle(log: Seq<EventView>, pre: ReplicaView)
    requires
        pre.phase == Phase::Syncing,
        pre.cursor <= log.len(),
        pre.index == replay(log.take(pre.cursor as int)),
    ensures
        next_state(pre, SyncInputView::Fetched(tail(log, pre.cursor))).index == replay(log),
        next_state(pre, SyncInputView::Fetched(tail(log, pre.cursor))).cursor == log.len(),
        well_formed(replay(log)),
{
    let n = pre.cursor as int;
    lemma_apply_all_in_parts(Seq::empty(), log.take(n), log.skip(n));
    assert(log.take(n) + log.skip(n) =~= log);
    lemma_replay_well_formed(log);
}

/// The cursor never moves back, whatever the sync loop is told.
pub proof fn lemma_cursor_monotonic(pre: ReplicaView, input: SyncInputView)
    ensures
        next_state(pre, input).cursor >= pre.cursor,
{
}

} // verus!
