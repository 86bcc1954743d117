//! Book reconstruction from a venue snapshot and a stream of update events.
use vstd::prelude::*;
use crate::book::{self, BookError, Level, OrderBook, SideMap};

verus! {

/// The venue update ids an event covers: `first` (`U`) to `last` (`u`).
#[derive(Clone, Copy, PartialEq, Eq, Structural, Debug)]
pub struct UpdateSpan {
    pub first: u64,
    pub last: u64,
}

impl UpdateSpan {
    pub fn new(first: u64, last: u64) -> (r: UpdateSpan)
        ensures
            r == (UpdateSpan { first, last }),
    {
        UpdateSpan { first, last }
    }
}

/// A venue depth snapshot: the last update id it includes and its levels, best first.
#[derive(Clone, PartialEq, Eq, Debug)]
pub struct BookSnapshot {
    pub last_update_id: u64,
    pub bids: Vec<Level>,
    pub asks: Vec<Level>,
}

/// What became of an event.
#[derive(Clone, Copy, PartialEq, Eq, Structural, Debug)]
pub enum ApplyDecision {
    /// The event continued the sequence and was applied.
    Applied,
    /// The event ended at or before the snapshot and was skipped.
    SkippedBeforeSnapshot,
    /// The event broke the update-id sequence, or the book was already broken.
    Discontinuity,
}

/// The abstract state of a reconstructor.
pub ghost struct ReconState {
    pub bids: SideMap,
    pub asks: SideMap,
    pub snapshot_id: Option<u64>,
    pub last_applied: Option<u64>,
    pub broken: bool,
    pub gaps: u64,
}

/// Whether an event is applied, skipped or rejected in a given state.
///
/// A broken book rejects everything. Once an event has been applied, the next
/// one must start right after it. Before that, with a snapshot loaded, events
/// ending at or before the snapshot id are skipped, and the first applied event
/// must overlap the snapshot (start no later than one past its id). Without a
/// snapshot the first event starts the sequence.
pub open spec fn verdict(s: ReconState, span: UpdateSpan) -> ApplyDecision {
    if s.broken {
        ApplyDecision::Discontinuity
    } else {
        match s.last_applied {
            Some(prev) => if span.first == prev + 1 {
                ApplyDecision::Applied
            } else {
                ApplyDecision::Discontinuity
            },
            None => match s.snapshot_id {
                Some(id) => if span.last <= id {
                    ApplyDecision::SkippedBeforeSnapshot
                } else if span.first <= id + 1 {
                    ApplyDecision::Applied
                } else {
                    ApplyDecision::Discontinuity
                },
                None => ApplyDecision::Applied,
            },
        }
    }
}

/// The state and outcome after an event.
pub open spec fn step(s: ReconState, span: UpdateSpan, bids: Seq<Level>, asks: Seq<Level>) -> (
    ReconState,
    Result<ApplyDecision, BookError>,
) {
    match verdict(s, span) {
        ApplyDecision::SkippedBeforeSnapshot => (s, Ok(ApplyDecision::SkippedBeforeSnapshot)),
        ApplyDecision::Discontinuity => if s.broken {
            (s, Ok(ApplyDecision::Discontinuity))
        } else {
            (
                ReconState {
                    broken: true,
                    gaps: if s.gaps < u64::MAX {
                        (s.gaps + 1) as u64
                    } else {
                        s.gaps
                    },
                    ..s
                },
                Ok(ApplyDecision::Discontinuity),
            )
        },
        ApplyDecision::Applied => {
            let (b, a, error) = book::apply_diff_spec(s.bids, s.asks, bids, asks);
            match error {
                Some(e) => (ReconState { bids: b, asks: a, broken: true, ..s }, Err(e)),
                None => (
                    ReconState { bids: b, asks: a, last_applied: Some(span.last), ..s },
                    Ok(ApplyDecision::Applied),
                ),
            }
        },
    }
}

/// The state after a snapshot is loaded; `None` when one of its levels is refused.
pub open spec fn loaded(s: ReconState, id: u64, bids: Seq<Level>, asks: Seq<Level>) -> Option<
    ReconState,
> {
    let (b, a, error) = book::apply_diff_spec(Map::empty(), Map::empty(), bids, asks);
    match error {
        Some(_) => None,
        None => Some(
            ReconState {
                bids: b,
                asks: a,
                snapshot_id: Some(id),
                last_applied: None,
                broken: false,
                ..s
            },
        ),
    }
}

/// Rebuilds a book from a snapshot and the events that follow it.
pub struct Reconstructor {
    book: OrderBook,
    snapshot_id: Option<u64>,
    last_applied: Option<u64>,
    broken: bool,
    gaps: u64,
}

impl View for Reconstructor {
    type V = ReconState;

    closed spec fn view(&self) -> ReconState {
        ReconState {
            bids: self.book.bids(),
            asks: self.book.asks(),
            snapshot_id: self.snapshot_id,
            last_applied: self.last_applied,
            broken: self.broken,
            gaps: self.gaps,
        }
    }
}

impl Reconstructor {
    /// A reconstructor with an empty book and no snapshot.
    pub fn new() -> (r: Reconstructor)
        ensures
            r@ == (ReconState {
                bids: Map::empty(),
                asks: Map::empty(),
                snapshot_id: None,
                last_applied: None,
                broken: false,
                gaps: 0,
            }),
    {
        Reconstructor {
            book: OrderBook::new(),
            snapshot_id: None,
            last_applied: None,
            broken: false,
            gaps: 0,
        }
    }

    /// Replaces the book with the snapshot's levels and restarts the
    /// update-id sequence from the snapshot; this also repairs a broken book.
    /// A refused level leaves the reconstructor as it was.
    pub fn load_snapshot(&mut self, snapshot: &BookSnapshot) -> (r: Result<(), BookError>)
        ensures
            match loaded(old(self)@, snapshot.last_update_id, snapshot.bids@, snapshot.asks@) {
                Some(s) => r is Ok && final(self)@ == s,
                None => r is Err && final(self)@ == old(self)@ && r->Err_0
                    == book::apply_diff_spec(
                    Map::empty(),
                    Map::empty(),
                    snapshot.bids@,
                    snapshot.asks@,
                ).2->0,
            },
    {
        let mut fresh = OrderBook::new();
        match fresh.apply_levels(&snapshot.bids, &snapshot.asks) {
            Ok(()) => {},
            Err(e) => {
                return Err(e);
            },
        }
        self.book = fresh;
        self.snapshot_id = Some(snapshot.last_update_id);
        self.last_applied = None;
        self.broken = false;
        Ok(())
    }

    /// Decides what to do with an event and, if it continues the sequence,
    /// applies its levels (see `verdict` and `step`).
    pub fn apply_event(&mut self, span: UpdateSpan, diff: &book::BookDiff) -> (r: Result<
        ApplyDecision,
        BookError,
    >)
        ensures
            (final(self)@, r) == step(old(self)@, span, diff.bids@, diff.asks@),
    {
        if self.broken {
            return Ok(ApplyDecision::Discontinuity);
        }
        let decision = match self.last_applied {
            Some(prev) => {
                if prev < u64::MAX && span.first == prev + 1 {
                    ApplyDecision::Applied
                } else {
                    ApplyDecision::Discontinuity
                }
            },
            None => match self.snapshot_id {
                Some(id) => {
                    if span.last <= id {
                        ApplyDecision::SkippedBeforeSnapshot
                    } else if id == u64::MAX || span.first <= id + 1 {
                        ApplyDecision::Applied
                    } else {
                        ApplyDecision::Discontinuity
                    }
                },
                None => ApplyDecision::Applied,
            },
        };
        match decision {
            ApplyDecision::SkippedBeforeSnapshot => Ok(ApplyDecision::SkippedBeforeSnapshot),
            ApplyDecision::Discontinuity => {
                self.broken = true;
                if self.gaps < u64::MAX {
                    self.gaps = self.gaps + 1;
                }
                Ok(ApplyDecision::Discontinuity)
            },
            ApplyDecision::Applied => match self.book.apply_diff(diff) {
                Ok(()) => {
                    self.last_applied = Some(span.last);
                    Ok(ApplyDecision::Applied)
                },
                Err(e) => {
                    self.broken = true;
                    Err(e)
                },
            },
        }
    }

    pub fn book(&self) -> (b: &OrderBook)
        ensures
            b.bids() == self@.bids,
            b.asks() == self@.asks,
    {
        &self.book
    }

    /// Whether the book follows the update-id sequence: not broken since the
    /// last snapshot (or since the start).
    pub fn is_reliable(&self) -> (r: bool)
        ensures
            r == !self@.broken,
    {
        !self.broken
    }

    /// How many discontinuities have been met, over the whole history.
    pub fn gaps(&self) -> (r: u64)
        ensures
            r == self@.gaps,
    {
        self.gaps
    }

    /// The id of the last loaded snapshot.
    pub fn snapshot_id(&self) -> (r: Option<u64>)
        ensures
            r == self@.snapshot_id,
    {
        self.snapshot_id
    }

    /// The last update id applied since the last snapshot.
    pub fn last_applied(&self) -> (r: Option<u64>)
        ensures
            r == self@.last_applied,
    {
        self.last_applied
    }
}


/// The state and outcomes after a run of events; the run ends at the first
/// refused level.
pub open spec fn run_events(s: ReconState, events: Seq<(UpdateSpan, Seq<Level>, Seq<Level>)>) -> (
    ReconState,
    Seq<Result<ApplyDecision, BookError>>,
)
    decreases events.len(),
{
    if events.len() == 0 {
        (s, Seq::empty())
    } else {
        let (s1, out) = step(s, events[0].0, events[0].1, events[0].2);
        if out is Err {
            (s1, seq![out])
        } else {
            let (s2, outs) = run_events(s1, events.drop_first());
            (s2, seq![out] + outs)
        }
    }
}

/// A broken book rejects every event and stays as it is.
pub proof fn lemma_broken_rejects(s: ReconState, span: UpdateSpan, bids: Seq<Level>, asks: Seq<Level>)
    requires
        s.broken,
    ensures
        step(s, span, bids, asks) == (s, Ok::<ApplyDecision, BookError>(ApplyDecision::Discontinuity)),
{
}

/// A broken book never resumes on its own: no run of events repairs it, and
/// every event of the run is rejected.
pub proof fn lemma_broken_stays_broken(
    s: ReconState,
    events: Seq<(UpdateSpan, Seq<Level>, Seq<Level>)>,
)
    requires
        s.broken,
    ensures
        run_events(s, events).0 == s,
        forall|i: int|
            0 <= i < events.len() ==> run_events(s, events).1[i] == Ok::<ApplyDecision, BookError>(
                ApplyDecision::Discontinuity,
            ),
        run_events(s, events).1.len() == events.len(),
    decreases events.len(),
{
    if events.len() > 0 {
        lemma_broken_stays_broken(s, events.drop_first());
        let outs = run_events(s, events.drop_first()).1;
        assert forall|i: int| 0 <= i < events.len() implies run_events(s, events).1[i]
            == Ok::<ApplyDecision, BookError>(ApplyDecision::Discontinuity) by {
            if i > 0 {
                assert(run_events(s, events).1[i] == outs[i - 1]);
            }
        }
    }
}

/// Loading a snapshot repairs a broken book and restarts the sequence at the snapshot.
pub proof fn lemma_snapshot_repairs(s: ReconState, id: u64, bids: Seq<Level>, asks: Seq<Level>)
    requires
        loaded(s, id, bids, asks) is Some,
    ensures
        !loaded(s, id, bids, asks)->0.broken,
        loaded(s, id, bids, asks)->0.snapshot_id == Some(id),
        loaded(s, id, bids, asks)->0.last_applied is None,
        loaded(s, id, bids, asks)->0.gaps == s.gaps,
{
}

/// Right after a snapshot, events that end at or before its id are skipped and
/// change nothing; the first event that overlaps it is applied.
pub proof fn lemma_after_snapshot(
    s: ReconState,
    id: u64,
    bids: Seq<Level>,
    asks: Seq<Level>,
    span: UpdateSpan,
    event_bids: Seq<Level>,
    event_asks: Seq<Level>,
)
    requires
        loaded(s, id, bids, asks) is Some,
    ensures
        ({
            let t = loaded(s, id, bids, asks)->0;
            &&& span.last <= id ==> step(t, span, event_bids, event_asks) == (
                t,
                Ok::<ApplyDecision, BookError>(ApplyDecision::SkippedBeforeSnapshot),
            )
            &&& span.last > id && span.first <= id + 1 ==> verdict(t, span) == ApplyDecision::Applied
            &&& span.last > id && span.first > id + 1 ==> verdict(t, span) == ApplyDecision::Discontinuity
        }),
{
}

/// Applied events chain: after an event is applied, only an event starting
/// right after it can be applied next.
pub proof fn lemma_applied_events_chain(
    s: ReconState,
    span: UpdateSpan,
    bids: Seq<Level>,
    asks: Seq<Level>,
    next: UpdateSpan,
)
    requires
        step(s, span, bids, asks).1 == Ok::<ApplyDecision, BookError>(ApplyDecision::Applied),
    ensures
        step(s, span, bids, asks).0.last_applied == Some(span.last),
        verdict(step(s, span, bids, asks).0, next) == ApplyDecision::Applied <==> next.first
            == span.last + 1,
{
}

} // verus!
