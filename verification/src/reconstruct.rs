//! Rebuilding an order book from the records of a capture.
use vstd::prelude::*;
use crate::book::{self, BookError, Level, OrderBook, SideMap};
use crate::capture::{self, CaptureRecord};
use crate::feed;
use crate::json;

verus! {

/// What a reconstruction found, and the book it ended with.
#[derive(Debug, Default)]
pub struct ReconstructionSummary {
    pub records: u64,
    pub venue_frames: u64,
    pub synthetic_records: u64,
    pub diffs_applied: u64,
    pub frames_without_a_book: u64,
    pub invalid_diffs: u64,
    pub first_error: Option<BookError>,
    pub book: OrderBook,
}

/// A reconstruction's running state in mathematical terms.
pub ghost struct ReplayState {
    pub records: nat,
    pub venue_frames: nat,
    pub synthetic_records: nat,
    pub diffs_applied: nat,
    pub frames_without_a_book: nat,
    pub invalid_diffs: nat,
    pub first_error: Option<BookError>,
    pub bids: SideMap,
    pub asks: SideMap,
}

pub open spec fn replay_start() -> ReplayState {
    ReplayState {
        records: 0,
        venue_frames: 0,
        synthetic_records: 0,
        diffs_applied: 0,
        frames_without_a_book: 0,
        invalid_diffs: 0,
        first_error: None,
        bids: Map::empty(),
        asks: Map::empty(),
    }
}

/// Whether a record is a gap record written by the capture itself.
pub open spec fn is_synthetic(r: CaptureRecord) -> bool {
    r.flags.0 & capture::SYNTHETIC_BIT == capture::SYNTHETIC_BIT
}

/// The level updates `feed::book_diff` reads from a record.
pub open spec fn record_diff(r: CaptureRecord) -> Option<(Seq<Level>, Seq<Level>)> {
    if feed::is_binance_depth(r.instrument@.0, r.channel) {
        match json::json_document(r.payload@) {
            Some(doc) => feed::depth_levels(doc),
            None => None,
        }
    } else {
        None
    }
}

/// What one record does to a reconstruction. Gap records are counted and
/// never reach the book. A venue frame whose level updates cannot be read is
/// counted as a frame without a book. Otherwise its updates are applied; a
/// refused update counts the diff as invalid and keeps the first such error.
pub open spec fn replay_step(s: ReplayState, r: CaptureRecord) -> ReplayState {
    let s1 = ReplayState { records: s.records + 1, ..s };
    if is_synthetic(r) {
        ReplayState { synthetic_records: s1.synthetic_records + 1, ..s1 }
    } else {
        let s2 = ReplayState { venue_frames: s1.venue_frames + 1, ..s1 };
        match record_diff(r) {
            None => ReplayState { frames_without_a_book: s2.frames_without_a_book + 1, ..s2 },
            Some((b, a)) => {
                let (bids, asks, error) = book::apply_diff_spec(s2.bids, s2.asks, b, a);
                match error {
                    None => ReplayState { bids, asks, diffs_applied: s2.diffs_applied + 1, ..s2 },
                    Some(e) => ReplayState {
                        bids,
                        asks,
                        invalid_diffs: s2.invalid_diffs + 1,
                        first_error: if s2.first_error is None {
                            Some(e)
                        } else {
                            s2.first_error
                        },
                        ..s2
                    },
                }
            },
        }
    }
}

/// The reconstruction of records in order.
pub open spec fn replay(records: Seq<CaptureRecord>) -> ReplayState
    decreases records.len(),
{
    if records.len() == 0 {
        replay_start()
    } else {
        replay_step(replay(records.drop_last()), records.last())
    }
}

impl ReconstructionSummary {
    /// Whether this summary holds the state `s`.
    pub open spec fn shows(&self, s: ReplayState) -> bool {
        &&& self.records == s.records
        &&& self.venue_frames == s.venue_frames
        &&& self.synthetic_records == s.synthetic_records
        &&& self.diffs_applied == s.diffs_applied
        &&& self.frames_without_a_book == s.frames_without_a_book
        &&& self.invalid_diffs == s.invalid_diffs
        &&& self.first_error == s.first_error
        &&& self.book.bids() == s.bids
        &&& self.book.asks() == s.asks
    }
}

/// A readable venue frame changes the book only at the prices its diff names:
/// every other price keeps its bid and its ask entry, so the book is carried
/// from frame to frame, never rebuilt from one frame alone. Where the whole
/// diff is accepted, a named price holds what the last level for it wrote.
pub proof fn lemma_frame_changes_only_named_prices(
    records: Seq<CaptureRecord>,
    r: CaptureRecord,
    bids: Seq<Level>,
    asks: Seq<Level>,
    k: i128,
)
    requires
        !is_synthetic(r),
        record_diff(r) == Some((bids, asks)),
    ensures
        (forall|i: int| 0 <= i < bids.len() ==> (#[trigger] bids[i]).price.0 != k) ==> book::entry_at(
            replay(records.push(r)).bids,
            k,
        ) == book::entry_at(replay(records).bids, k),
        (forall|i: int| 0 <= i < asks.len() ==> (#[trigger] asks[i]).price.0 != k) ==> book::entry_at(
            replay(records.push(r)).asks,
            k,
        ) == book::entry_at(replay(records).asks, k),
        replay(records.push(r)).invalid_diffs == replay(records).invalid_diffs ==> ({
            &&& book::entry_at(replay(records.push(r)).bids, k) == match book::last_write(bids, k) {
                Some(x) => x,
                None => book::entry_at(replay(records).bids, k),
            }
            &&& book::entry_at(replay(records.push(r)).asks, k) == match book::last_write(asks, k) {
                Some(x) => x,
                None => book::entry_at(replay(records).asks, k),
            }
        }),
{
    assert(records.push(r).drop_last() =~= records);
    let s = replay(records);
    book::lemma_apply_diff_untouched(s.bids, s.asks, bids, asks, k);
    if book::apply_diff_spec(s.bids, s.asks, bids, asks).2 is None {
        book::lemma_apply_diff_entries(s.bids, s.asks, bids, asks, k);
    }
}

/// Every record is counted once: as a venue frame or a gap record; and every
/// venue frame once: as an applied diff, a frame without a book or an invalid
/// diff.
pub proof fn lemma_replay_counts(records: Seq<CaptureRecord>)
    ensures
        replay(records).records == records.len(),
        replay(records).venue_frames + replay(records).synthetic_records == records.len(),
        replay(records).diffs_applied + replay(records).frames_without_a_book + replay(
            records,
        ).invalid_diffs == replay(records).venue_frames,
    decreases records.len(),
{
    if records.len() > 0 {
        lemma_replay_counts(records.drop_last());
    }
}

/// A gap record never reaches the book, and neither does a frame whose level
/// updates cannot be read.
pub proof fn lemma_unread_records_leave_the_book(records: Seq<CaptureRecord>, r: CaptureRecord)
    requires
        is_synthetic(r) || record_diff(r) is None,
    ensures
        replay(records.push(r)).bids == replay(records).bids,
        replay(records.push(r)).asks == replay(records).asks,
        replay(records.push(r)).first_error == replay(records).first_error,
{
    assert(records.push(r).drop_last() =~= records);
}

/// Once an invalid diff has been seen, its error stays the first error.
pub proof fn lemma_first_error_stays(records: Seq<CaptureRecord>, more: Seq<CaptureRecord>)
    requires
        replay(records).first_error is Some,
    ensures
        replay(records + more).first_error == replay(records).first_error,
    decreases more.len(),
{
    if more.len() > 0 {
        lemma_first_error_stays(records, more.drop_last());
        assert((records + more).drop_last() =~= records + more.drop_last());
    } else {
        assert(records + more =~= records);
    }
}

/// Rebuilds the book from a capture's records (see `replay`).
pub fn reconstruct(records: &[CaptureRecord]) -> (r: ReconstructionSummary)
    ensures
        r.shows(replay(records@)),
{
    let mut summary = ReconstructionSummary {
        records: 0,
        venue_frames: 0,
        synthetic_records: 0,
        diffs_applied: 0,
        frames_without_a_book: 0,
        invalid_diffs: 0,
        first_error: None,
        book: OrderBook::new(),
    };
    let mut i: usize = 0;
    proof {
        assert(records@.take(0) =~= Seq::<CaptureRecord>::empty());
    }
    while i < records.len()
        invariant
            0 <= i <= records@.len(),
            summary.shows(replay(records@.take(i as int))),
            replay(records@.take(i as int)).records == i,
            replay(records@.take(i as int)).venue_frames + replay(
                records@.take(i as int),
            ).synthetic_records == i,
            replay(records@.take(i as int)).diffs_applied + replay(
                records@.take(i as int),
            ).frames_without_a_book + replay(records@.take(i as int)).invalid_diffs == replay(
                records@.take(i as int),
            ).venue_frames,
        decreases records.len() - i,
    {
        let record = &records[i];
        proof {
            assert(records@.take(i + 1).drop_last() =~= records@.take(i as int));
            assert(records@.take(i + 1).last() == *record);
        }
        summary.records = summary.records + 1;
        if record.flags.contains(capture::CaptureFlags::synthetic()) {
            summary.synthetic_records = summary.synthetic_records + 1;
        } else {
            summary.venue_frames = summary.venue_frames + 1;
            match feed::book_diff(record.instrument.venue(), record.channel, record.payload.as_slice()) {
                None => {
                    summary.frames_without_a_book = summary.frames_without_a_book + 1;
                },
                Some(diff) => {
                    match summary.book.apply_diff(&diff) {
                        Ok(()) => {
                            summary.diffs_applied = summary.diffs_applied + 1;
                        },
                        Err(e) => {
                            summary.invalid_diffs = summary.invalid_diffs + 1;
                            if summary.first_error.is_none() {
                                summary.first_error = Some(e);
                            }
                        },
                    }
                },
            }
        }
        i += 1;
    }
    assert(records@.take(records@.len() as int) =~= records@);
    summary
}

} // verus!
