//! Comparing a reconstructed book against venue reference snapshots.
use vstd::prelude::*;
use crate::book::{self, BookDiff, BookError, Level, OrderBook, Side, SideMap};
use crate::fixed;
use crate::reconstructor::{self, ApplyDecision, BookSnapshot, ReconState, Reconstructor, UpdateSpan};
use crate::text;
use crate::audit;
use crate::capture::{CaptureFlags, CaptureRecord};
use crate::feed;
use crate::instrument::{Channel, Venue};
use crate::json;
use crate::reconstruct;

verus! {

pub open spec fn side_label(side: Side) -> Seq<char> {
    match side {
        Side::Bid => "bid"@,
        Side::Ask => "ask"@,
    }
}

/// A level written as `price x quantity`.
pub open spec fn level_text(l: Level) -> Seq<char> {
    fixed::fixed_text(l.price.0 as int) + " x "@ + fixed::fixed_text(l.quantity.0 as int)
}

pub open spec fn depth_message(side: Side, ours: nat, theirs: nat) -> Seq<char> {
    side_label(side) + " depth: book "@ + text::decimal(ours) + ", reference "@ + text::decimal(
        theirs,
    )
}

pub open spec fn level_message(side: Side, i: nat, ours: Level, theirs: Level) -> Seq<char> {
    side_label(side) + " level "@ + text::decimal(i) + ": book "@ + level_text(ours)
        + ", reference "@ + level_text(theirs)
}

/// One message for each of the first `n` positions at which the levels differ.
pub open spec fn level_mismatches(side: Side, ours: Seq<Level>, theirs: Seq<Level>, n: nat) -> Seq<
    Seq<char>,
>
    decreases n,
{
    if n == 0 {
        Seq::empty()
    } else {
        let i = (n - 1) as nat;
        let before = level_mismatches(side, ours, theirs, i);
        if ours[i as int] != theirs[i as int] {
            before.push(level_message(side, i, ours[i as int], theirs[i as int]))
        } else {
            before
        }
    }
}

pub open spec fn min_nat(a: nat, b: nat) -> nat {
    if a < b {
        a
    } else {
        b
    }
}

/// The differences between one side of the book and of the reference: their
/// depths, then each position both have.
pub open spec fn side_mismatches(side: Side, ours: Seq<Level>, theirs: Seq<Level>) -> Seq<Seq<char>> {
    (if ours.len() != theirs.len() {
        seq![depth_message(side, ours.len(), theirs.len())]
    } else {
        Seq::empty()
    }) + level_mismatches(side, ours, theirs, min_nat(ours.len(), theirs.len()))
}

/// The reference's first `limit` levels (it lists them best first).
pub open spec fn reference_top(levels: Seq<Level>, limit: nat) -> Seq<Level> {
    levels.take(min_nat(limit, levels.len()) as int)
}

/// Every difference between the book's `limit` best levels and the reference's,
/// bids first.
pub open spec fn top_mismatches(
    bids: SideMap,
    asks: SideMap,
    reference_bids: Seq<Level>,
    reference_asks: Seq<Level>,
    limit: nat,
) -> Seq<Seq<char>> {
    side_mismatches(
        Side::Bid,
        book::top_levels(bids, Side::Bid, limit),
        reference_top(reference_bids, limit),
    ) + side_mismatches(
        Side::Ask,
        book::top_levels(asks, Side::Ask, limit),
        reference_top(reference_asks, limit),
    )
}

fn push_level_text(out: &mut Vec<char>, l: Level)
    ensures
        final(out)@ == old(out)@ + level_text(l),
{
    let price = l.price.to_string();
    let quantity = l.quantity.to_string();
    text::push_str(out, price.as_str());
    text::push_str(out, " x ");
    text::push_str(out, quantity.as_str());
    assert(final(out)@ =~= old(out)@ + level_text(l));
}

fn push_label(out: &mut Vec<char>, side: Side)
    ensures
        final(out)@ == old(out)@ + side_label(side),
{
    match side {
        Side::Bid => text::push_str(out, "bid"),
        Side::Ask => text::push_str(out, "ask"),
    }
}

fn side_differences(side: Side, ours: &Vec<Level>, theirs: &Vec<Level>, limit: usize, out: &mut Vec<String>)
    ensures
        final(out)@.map_values(|s: String| s@) == old(out)@.map_values(|s: String| s@)
            + side_mismatches(side, ours@, reference_top(theirs@, limit as nat)),
{
    let ghost start = old(out)@.map_values(|s: String| s@);
    let count = if limit < theirs.len() {
        limit
    } else {
        theirs.len()
    };
    let ghost reference = reference_top(theirs@, limit as nat);
    assert(reference.len() == count);
    if ours.len() != count {
        let mut msg: Vec<char> = Vec::new();
        push_label(&mut msg, side);
        text::push_str(&mut msg, " depth: book ");
        text::push_decimal(&mut msg, ours.len() as u128);
        text::push_str(&mut msg, ", reference ");
        text::push_decimal(&mut msg, count as u128);
        assert(msg@ =~= depth_message(side, ours@.len(), count as nat));
        out.push(text::string_from_chars(&msg));
    }
    let ghost header = if ours@.len() != count {
        seq![depth_message(side, ours@.len(), count as nat)]
    } else {
        Seq::<Seq<char>>::empty()
    };
    assert(out@.map_values(|s: String| s@) =~= start + header);
    let both = if ours.len() < count {
        ours.len()
    } else {
        count
    };
    let mut i: usize = 0;
    while i < both
        invariant
            0 <= i <= both <= ours@.len(),
            both <= count == reference.len(),
            reference == reference_top(theirs@, limit as nat),
            count <= theirs@.len(),
            out@.map_values(|s: String| s@) == start + header + level_mismatches(
                side,
                ours@,
                reference,
                i as nat,
            ),
        decreases both - i,
    {
        let a = ours[i];
        let b = theirs[i];
        assert(reference[i as int] == b);
        let ghost before = out@.map_values(|s: String| s@);
        if a != b {
            let mut msg: Vec<char> = Vec::new();
            push_label(&mut msg, side);
            text::push_str(&mut msg, " level ");
            text::push_decimal(&mut msg, i as u128);
            text::push_str(&mut msg, ": book ");
            push_level_text(&mut msg, a);
            text::push_str(&mut msg, ", reference ");
            push_level_text(&mut msg, b);
            assert(msg@ =~= level_message(side, i as nat, a, b));
            out.push(text::string_from_chars(&msg));
            assert(out@.map_values(|s: String| s@) =~= before.push(msg@));
        }
        i += 1;
    }
    assert(out@.map_values(|s: String| s@) =~= start + side_mismatches(side, ours@, reference));
}

/// Compares the book's `levels` best levels on each side with the reference
/// snapshot's first `levels` levels. Returns one message per difference;
/// none means they match.
pub fn compare_top_levels(book: &OrderBook, snapshot: &BookSnapshot, levels: usize) -> (r: Vec<String>)
    ensures
        r@.map_values(|s: String| s@) == top_mismatches(
            book.bids(),
            book.asks(),
            snapshot.bids@,
            snapshot.asks@,
            levels as nat,
        ),
{
    let mut out: Vec<String> = Vec::new();
    let ours_bids = book.levels(Side::Bid, levels);
    let ours_asks = book.levels(Side::Ask, levels);
    assert(out@.map_values(|s: String| s@) =~= Seq::<Seq<char>>::empty());
    side_differences(Side::Bid, &ours_bids, &snapshot.bids, levels, &mut out);
    side_differences(Side::Ask, &ours_asks, &snapshot.asks, levels, &mut out);
    assert(out@.map_values(|s: String| s@) =~= top_mismatches(
        book.bids(),
        book.asks(),
        snapshot.bids@,
        snapshot.asks@,
        levels as nat,
    ));
    out
}


/// The outcome of comparing a reconstruction with reference snapshots.
#[derive(Debug)]
pub struct ComparisonReport {
    pub events: u64,
    pub events_applied: u64,
    pub events_skipped: u64,
    pub events_rejected: u64,
    pub bootstrap_frames: u64,
    pub checked: u64,
    pub matched: u64,
    pub mismatched: u64,
    pub first_mismatch: Option<String>,
}

/// A comparison report in mathematical terms.
pub ghost struct ReportView {
    pub events: nat,
    pub events_applied: nat,
    pub events_skipped: nat,
    pub events_rejected: nat,
    pub bootstrap_frames: nat,
    pub checked: nat,
    pub matched: nat,
    pub mismatched: nat,
    pub first_mismatch: Option<Seq<char>>,
}

impl View for ComparisonReport {
    type V = ReportView;

    open spec fn view(&self) -> ReportView {
        ReportView {
            events: self.events as nat,
            events_applied: self.events_applied as nat,
            events_skipped: self.events_skipped as nat,
            events_rejected: self.events_rejected as nat,
            bootstrap_frames: self.bootstrap_frames as nat,
            checked: self.checked as nat,
            matched: self.matched as nat,
            mismatched: self.mismatched as nat,
            first_mismatch: match self.first_mismatch {
                Some(s) => Some(s@),
                None => None,
            },
        }
    }
}

/// Messages joined with a separator.
pub open spec fn join(parts: Seq<Seq<char>>, sep: Seq<char>) -> Seq<char>
    decreases parts.len(),
{
    if parts.len() == 0 {
        Seq::empty()
    } else if parts.len() == 1 {
        parts[0]
    } else {
        join(parts.drop_last(), sep) + sep + parts.last()
    }
}

/// One event as the reconstructor sees it.
/// An event as the comparison reads it: its span and its level updates.
pub open spec fn event_parts(e: (UpdateSpan, BookDiff)) -> (UpdateSpan, Seq<Level>, Seq<Level>) {
    (e.0, e.1.bids@, e.1.asks@)
}

/// A reference snapshot as the comparison reads it: its update id and levels.
pub open spec fn snapshot_parts(s: BookSnapshot) -> (u64, Seq<Level>, Seq<Level>) {
    (s.last_update_id, s.bids@, s.asks@)
}

pub open spec fn count_decision(r: ReportView, d: ApplyDecision) -> ReportView {
    match d {
        ApplyDecision::Applied => ReportView { events_applied: r.events_applied + 1, ..r },
        ApplyDecision::SkippedBeforeSnapshot => ReportView { events_skipped: r.events_skipped + 1, ..r },
        ApplyDecision::Discontinuity => ReportView { events_rejected: r.events_rejected + 1, ..r },
    }
}

/// Feeds the events from index `i` on that end at or before `limit`, counting
/// what became of each; stops at the first refused level. Returns the state,
/// the report and the index of the first event not fed.
pub open spec fn feed_until(
    s: ReconState,
    r: ReportView,
    events: Seq<(UpdateSpan, Seq<Level>, Seq<Level>)>,
    i: nat,
    limit: u64,
) -> Result<(ReconState, ReportView, nat), BookError>
    decreases events.len() - i,
{
    if i < events.len() && events[i as int].0.last <= limit {
        let (span, bids, asks) = events[i as int];
        let (s1, out) = reconstructor::step(s, span, bids, asks);
        match out {
            Err(e) => Err(e),
            Ok(d) => feed_until(s1, count_decision(r, d), events, i + 1, limit),
        }
    } else {
        Ok((s, r, i))
    }
}

/// Counts one comparison: a match, or a mismatch whose messages become the
/// first mismatch if there was none yet.
pub open spec fn count_check(r: ReportView, mismatches: Seq<Seq<char>>) -> ReportView {
    if mismatches.len() == 0 {
        ReportView { checked: r.checked + 1, matched: r.matched + 1, ..r }
    } else {
        ReportView {
            checked: r.checked + 1,
            mismatched: r.mismatched + 1,
            first_mismatch: match r.first_mismatch {
                Some(m) => Some(m),
                None => Some(join(mismatches, "; "@)),
            },
            ..r
        }
    }
}

/// For each reference from index `k` on: feed the events up to its update id,
/// then compare the book's `limit` best levels with it.
pub open spec fn check_references(
    s: ReconState,
    r: ReportView,
    events: Seq<(UpdateSpan, Seq<Level>, Seq<Level>)>,
    i: nat,
    references: Seq<(u64, Seq<Level>, Seq<Level>)>,
    k: nat,
    limit: nat,
) -> Result<ReportView, BookError>
    decreases references.len() - k,
{
    if k >= references.len() {
        Ok(r)
    } else {
        let (id, reference_bids, reference_asks) = references[k as int];
        match feed_until(s, r, events, i, id) {
            Err(e) => Err(e),
            Ok((s1, r1, i1)) => check_references(
                s1,
                count_check(
                    r1,
                    top_mismatches(s1.bids, s1.asks, reference_bids, reference_asks, limit),
                ),
                events,
                i1,
                references,
                k + 1,
                limit,
            ),
        }
    }
}

pub open spec fn empty_report(events: nat) -> ReportView {
    ReportView {
        events,
        events_applied: 0,
        events_skipped: 0,
        events_rejected: 0,
        bootstrap_frames: 0,
        checked: 0,
        matched: 0,
        mismatched: 0,
        first_mismatch: None,
    }
}

pub open spec fn initial_state() -> ReconState {
    ReconState {
        bids: Map::empty(),
        asks: Map::empty(),
        snapshot_id: None,
        last_applied: None,
        broken: false,
        gaps: 0,
    }
}

/// The comparison of a stream of events with reference snapshots: the first
/// reference bootstraps the book, each later one is compared after the events
/// up to its update id have been fed. A refused level in a snapshot or an
/// event ends the comparison with that error.
pub open spec fn comparison(
    events: Seq<(UpdateSpan, Seq<Level>, Seq<Level>)>,
    references: Seq<(u64, Seq<Level>, Seq<Level>)>,
    limit: nat,
) -> Result<ReportView, BookError> {
    let r0 = empty_report(events.len());
    if references.len() == 0 {
        Ok(r0)
    } else {
        let (id, bids, asks) = references[0];
        match reconstructor::loaded(initial_state(), id, bids, asks) {
            None => Err(book::apply_diff_spec(Map::empty(), Map::empty(), bids, asks).2->0,
            ),
            Some(s) => check_references(
                s,
                ReportView { bootstrap_frames: 1, ..r0 },
                events,
                0,
                references,
                1,
                limit,
            ),
        }
    }
}

fn join_messages(parts: &Vec<String>) -> (s: String)
    ensures
        s@ == join(parts@.map_values(|m: String| m@), "; "@),
{
    let ghost views = parts@.map_values(|m: String| m@);
    let mut out: Vec<char> = Vec::new();
    let mut i: usize = 0;
    while i < parts.len()
        invariant
            0 <= i <= parts@.len(),
            views == parts@.map_values(|m: String| m@),
            out@ == join(views.take(i as int), "; "@),
        decreases parts.len() - i,
    {
        let ghost before = out@;
        if i > 0 {
            text::push_str(&mut out, "; ");
        }
        text::push_str(&mut out, parts[i].as_str());
        proof {
            assert(views.take(i + 1).drop_last() =~= views.take(i as int));
            if i == 0 {
                assert(views.take(1).len() == 1);
                assert(out@ =~= views.take(1)[0]);
            }
        }
        i += 1;
    }
    assert(views.take(parts@.len() as int) =~= views);
    text::string_from_chars(&out)
}

/// Replays `events` against `references`: the first reference bootstraps the
/// book, and each later one is compared with the book once every event up to
/// its update id has been fed (see `comparison`).
pub fn compare_streams(
    events: &[(UpdateSpan, BookDiff)],
    references: &[BookSnapshot],
    levels: usize,
) -> (r: Result<ComparisonReport, BookError>)
    ensures
        match comparison(
            events@.map_values(|e: (UpdateSpan, BookDiff)| event_parts(e)),
            references@.map_values(|s: BookSnapshot| snapshot_parts(s)),
            levels as nat,
        ) {
            Ok(v) => r is Ok && r->Ok_0@ == v,
            Err(e) => r == Err::<ComparisonReport, BookError>(e),
        },
{
    let mut report = ComparisonReport {
        events: events.len() as u64,
        events_applied: 0,
        events_skipped: 0,
        events_rejected: 0,
        bootstrap_frames: 0,
        checked: 0,
        matched: 0,
        mismatched: 0,
        first_mismatch: None,
    };
    let ghost ev = events@.map_values(|e: (UpdateSpan, BookDiff)| event_parts(e));
    let ghost rf = references@.map_values(|s: BookSnapshot| snapshot_parts(s));
    if references.len() == 0 {
        return Ok(report);
    }
    let mut recon = Reconstructor::new();
    match recon.load_snapshot(&references[0]) {
        Ok(()) => {},
        Err(e) => {
            return Err(e);
        },
    }
    report.bootstrap_frames = 1;
    let mut index: usize = 0;
    let mut k: usize = 1;
    while k < references.len()
        invariant
            1 <= k <= references@.len(),
            index <= events@.len(),
            ev == events@.map_values(|e: (UpdateSpan, BookDiff)| event_parts(e)),
            rf == references@.map_values(|s: BookSnapshot| snapshot_parts(s)),
            report.events == events@.len(),
            report.events_applied + report.events_skipped + report.events_rejected <= index,
            report.checked < k,
            report.matched + report.mismatched == report.checked,
            comparison(ev, rf, levels as nat) == check_references(
                recon@,
                report@,
                ev,
                index as nat,
                rf,
                k as nat,
                levels as nat,
            ),
        decreases references.len() - k,
    {
        let snapshot = &references[k];
        let limit = snapshot.last_update_id;
        let ghost s0 = recon@;
        let ghost r0 = report@;
        let ghost i0 = index as nat;
        while index < events.len() && events[index].0.last <= limit
            invariant
                index <= events@.len(),
                ev == events@.map_values(|e: (UpdateSpan, BookDiff)| event_parts(e)),
                rf == references@.map_values(|s: BookSnapshot| snapshot_parts(s)),
                report.events == events@.len(),
                report.events_applied + report.events_skipped + report.events_rejected <= index,
                report.checked < k,
                report.matched + report.mismatched == report.checked,
                1 <= k < references@.len(),
                snapshot == references@[k as int],
                limit == snapshot.last_update_id,
                feed_until(s0, r0, ev, i0, limit) == feed_until(
                    recon@,
                    report@,
                    ev,
                    index as nat,
                    limit,
                ),
                comparison(ev, rf, levels as nat) == check_references(
                    s0,
                    r0,
                    ev,
                    i0,
                    rf,
                    k as nat,
                    levels as nat,
                ),
            decreases events.len() - index,
        {
            let (span, diff) = &events[index];
            index += 1;
            match recon.apply_event(*span, diff) {
                Ok(ApplyDecision::Applied) => report.events_applied += 1,
                Ok(ApplyDecision::SkippedBeforeSnapshot) => report.events_skipped += 1,
                Ok(ApplyDecision::Discontinuity) => report.events_rejected += 1,
                Err(e) => {
                    return Err(e);
                },
            }
        }
        let mismatches = compare_top_levels(recon.book(), snapshot, levels);
        report.checked += 1;
        if mismatches.len() == 0 {
            report.matched += 1;
        } else {
            report.mismatched += 1;
            if report.first_mismatch.is_none() {
                report.first_mismatch = Some(join_messages(&mismatches));
            }
        }
        k += 1;
    }
    Ok(report)
}


/// The event a record contributes to a comparison: a venue frame whose update
/// span and level updates can both be read.
pub open spec fn record_event(r: CaptureRecord) -> Option<(UpdateSpan, Seq<Level>, Seq<Level>)> {
    if reconstruct::is_synthetic(r) {
        None
    } else {
        match (audit::feed_span(r), reconstruct::record_diff(r)) {
            (Some(span), Some((bids, asks))) => Some((span, bids, asks)),
            _ => None,
        }
    }
}

/// The events of records, in record order.
pub open spec fn events_of(records: Seq<CaptureRecord>) -> Seq<(UpdateSpan, Seq<Level>, Seq<Level>)>
    decreases records.len(),
{
    if records.len() == 0 {
        Seq::empty()
    } else {
        let before = events_of(records.drop_last());
        match record_event(records.last()) {
            Some(e) => before.push(e),
            None => before,
        }
    }
}

/// The reference snapshot a record holds: a venue frame on the snapshot
/// channel that `feed::book_snapshot` can read.
pub open spec fn record_reference(r: CaptureRecord) -> Option<(u64, Seq<Level>, Seq<Level>)> {
    if reconstruct::is_synthetic(r) {
        None
    } else if r.instrument@.0 == Venue::Binance && r.channel == Channel::BookSnapshot {
        match json::json_document(r.payload@) {
            Some(doc) => feed::snapshot_parts(doc),
            None => None,
        }
    } else {
        None
    }
}

/// The reference snapshots of records, in record order.
pub open spec fn references_of(records: Seq<CaptureRecord>) -> Seq<(u64, Seq<Level>, Seq<Level>)>
    decreases records.len(),
{
    if records.len() == 0 {
        Seq::empty()
    } else {
        let before = references_of(records.drop_last());
        match record_reference(records.last()) {
            Some(x) => before.push(x),
            None => before,
        }
    }
}

/// Places `x` after every item of `s`'s tail whose update id is not above its own.
pub open spec fn insert_by_id(s: Seq<(u64, Seq<Level>, Seq<Level>)>, x: (u64, Seq<Level>, Seq<Level>)) -> Seq<
    (u64, Seq<Level>, Seq<Level>),
>
    decreases s.len(),
{
    if s.len() == 0 || s.last().0 <= x.0 {
        s.push(x)
    } else {
        insert_by_id(s.drop_last(), x).push(s.last())
    }
}

/// Snapshots ordered by update id; snapshots with equal ids keep their order.
pub open spec fn sort_by_id(s: Seq<(u64, Seq<Level>, Seq<Level>)>) -> Seq<(u64, Seq<Level>, Seq<Level>)>
    decreases s.len(),
{
    if s.len() == 0 {
        s
    } else {
        insert_by_id(sort_by_id(s.drop_last()), s.last())
    }
}

pub open spec fn ordered_by_id(s: Seq<(u64, Seq<Level>, Seq<Level>)>) -> bool {
    forall|a: int, b: int| 0 <= a < b < s.len() ==> s[a].0 <= s[b].0
}

proof fn lemma_insert_at(s: Seq<(u64, Seq<Level>, Seq<Level>)>, x: (u64, Seq<Level>, Seq<Level>), j: int)
    requires
        0 <= j <= s.len(),
        j == 0 || s[j - 1].0 <= x.0,
        forall|k: int| j <= k < s.len() ==> s[k].0 > x.0,
    ensures
        insert_by_id(s, x) == s.insert(j, x),
    decreases s.len(),
{
    if s.len() == j {
        assert(s.insert(j, x) =~= s.push(x));
    } else {
        lemma_insert_at(s.drop_last(), x, j);
        assert(s.insert(j, x) =~= s.drop_last().insert(j, x).push(s.last()));
    }
}

proof fn lemma_insert_keeps_order(s: Seq<(u64, Seq<Level>, Seq<Level>)>, x: (u64, Seq<Level>, Seq<Level>))
    requires
        ordered_by_id(s),
    ensures
        ordered_by_id(insert_by_id(s, x)),
        insert_by_id(s, x).to_multiset() == s.to_multiset().insert(x),
    decreases s.len(),
{
    broadcast use vstd::seq_lib::group_to_multiset_ensures;
    if s.len() == 0 || s.last().0 <= x.0 {
    } else {
        let t = s.drop_last();
        assert(ordered_by_id(t));
        lemma_insert_keeps_order(t, x);
        let u = insert_by_id(t, x);
        assert(s =~= t.push(s.last()));
        assert forall|k: int| 0 <= k < u.len() implies #[trigger] u[k].0 <= s.last().0 by {
            assert(u.to_multiset().count(u[k]) > 0);
            assert(u.to_multiset() == t.to_multiset().insert(x));
            if u[k] != x {
                assert(t.to_multiset().count(u[k]) > 0);
                assert(t.contains(u[k]));
                let m = choose|m: int| 0 <= m < t.len() && t[m] == u[k];
                assert(s[m] == t[m]);
            }
        }
    }
}

/// Sorting by update id yields snapshots in order of their ids, and the
/// same snapshots as many times each as before.
pub proof fn lemma_sort_by_id(s: Seq<(u64, Seq<Level>, Seq<Level>)>)
    ensures
        ordered_by_id(sort_by_id(s)),
        sort_by_id(s).to_multiset() == s.to_multiset(),
    decreases s.len(),
{
    broadcast use vstd::seq_lib::group_to_multiset_ensures;
    if s.len() > 0 {
        lemma_sort_by_id(s.drop_last());
        lemma_insert_keeps_order(sort_by_id(s.drop_last()), s.last());
        assert(s =~= s.drop_last().push(s.last()));
    }
}

/// The events of a capture's records (see `events_of`).
pub fn load_events(records: &[CaptureRecord]) -> (r: Vec<(UpdateSpan, BookDiff)>)
    ensures
        r@.map_values(|e: (UpdateSpan, BookDiff)| event_parts(e)) == events_of(records@),
{
    let mut events: Vec<(UpdateSpan, BookDiff)> = Vec::new();
    let mut i: usize = 0;
    proof {
        assert(records@.take(0) =~= Seq::<CaptureRecord>::empty());
        assert(events@.map_values(|e: (UpdateSpan, BookDiff)| event_parts(e)) =~= Seq::<
            (UpdateSpan, Seq<Level>, Seq<Level>),
        >::empty());
    }
    while i < records.len()
        invariant
            0 <= i <= records@.len(),
            events@.map_values(|e: (UpdateSpan, BookDiff)| event_parts(e)) == events_of(
                records@.take(i as int),
            ),
        decreases records.len() - i,
    {
        let record = &records[i];
        proof {
            assert(records@.take(i + 1).drop_last() =~= records@.take(i as int));
            assert(records@.take(i + 1).last() == *record);
        }
        if !record.flags.contains(CaptureFlags::synthetic()) {
            let venue = record.instrument.venue();
            let span = feed::update_span(venue, record.channel, record.payload.as_slice());
            let diff = feed::book_diff(venue, record.channel, record.payload.as_slice());
            match (span, diff) {
                (Some(sp), Some(d)) => {
                    let ghost before = events@;
                    let ghost parts = event_parts((sp, d));
                    events.push((sp, d));
                    assert(events@.map_values(|e: (UpdateSpan, BookDiff)| event_parts(e))
                        =~= before.map_values(|e: (UpdateSpan, BookDiff)| event_parts(e)).push(
                        parts,
                    ));
                },
                _ => {},
            }
        }
        i += 1;
    }
    assert(records@.take(records@.len() as int) =~= records@);
    events
}

/// The reference snapshots of a capture's records, ordered by update id
/// (see `references_of` and `sort_by_id`).
pub fn load_references(records: &[CaptureRecord]) -> (r: Vec<BookSnapshot>)
    ensures
        r@.map_values(|s: BookSnapshot| snapshot_parts(s)) == sort_by_id(references_of(records@)),
{
    let mut snapshots: Vec<BookSnapshot> = Vec::new();
    let mut i: usize = 0;
    proof {
        assert(records@.take(0) =~= Seq::<CaptureRecord>::empty());
        assert(snapshots@.map_values(|s: BookSnapshot| snapshot_parts(s)) =~= Seq::<
            (u64, Seq<Level>, Seq<Level>),
        >::empty());
    }
    while i < records.len()
        invariant
            0 <= i <= records@.len(),
            snapshots@.map_values(|s: BookSnapshot| snapshot_parts(s)) == sort_by_id(
                references_of(records@.take(i as int)),
            ),
        decreases records.len() - i,
    {
        let record = &records[i];
        proof {
            assert(records@.take(i + 1).drop_last() =~= records@.take(i as int));
            assert(records@.take(i + 1).last() == *record);
        }
        if !record.flags.contains(CaptureFlags::synthetic()) {
            let venue = record.instrument.venue();
            match feed::book_snapshot(venue, record.channel, record.payload.as_slice()) {
                Some(snapshot) => {
                    let ghost views = snapshots@.map_values(|s: BookSnapshot| snapshot_parts(s));
                    let ghost x = snapshot_parts(snapshot);
                    let id = snapshot.last_update_id;
                    let mut j: usize = snapshots.len();
                    while j > 0 && snapshots[j - 1].last_update_id > id
                        invariant
                            0 <= j <= snapshots@.len(),
                            views == snapshots@.map_values(|s: BookSnapshot| snapshot_parts(s)),
                            x.0 == id,
                            forall|k: int| j <= k < views.len() ==> views[k].0 > id,
                        decreases j,
                    {
                        j -= 1;
                    }
                    proof {
                        lemma_insert_at(views, x, j as int);
                    }
                    snapshots.insert(j, snapshot);
                    assert(snapshots@.map_values(|s: BookSnapshot| snapshot_parts(s)) =~= views.insert(
                        j as int,
                        x,
                    ));
                    proof {
                        let t = references_of(records@.take(i as int));
                        assert(record_reference(*record) == Some(x));
                        assert(references_of(records@.take(i + 1)) == t.push(x));
                        assert(t.push(x).drop_last() =~= t);
                        assert(sort_by_id(t.push(x)) == insert_by_id(sort_by_id(t), x));
                    }
                },
                None => {},
            }
        }
        i += 1;
    }
    assert(records@.take(records@.len() as int) =~= records@);
    snapshots
}

/// Compares a capture's events with the reference snapshots of another
/// capture, the book's `levels` best levels at each reference (see
/// `comparison`, `load_events` and `load_references`).
pub fn compare(records: &[CaptureRecord], reference_records: &[CaptureRecord], levels: usize) -> (r:
    Result<ComparisonReport, BookError>)
    ensures
        match comparison(
            events_of(records@),
            sort_by_id(references_of(reference_records@)),
            levels as nat,
        ) {
            Ok(v) => r is Ok && r->Ok_0@ == v,
            Err(e) => r == Err::<ComparisonReport, BookError>(e),
        },
{
    let events = load_events(records);
    let references = load_references(reference_records);
    compare_streams(events.as_slice(), references.as_slice(), levels)
}


/// The reconstructor run over events in order, stopping at the first refused level.
pub open spec fn run_events(s: ReconState, events: Seq<(UpdateSpan, Seq<Level>, Seq<Level>)>) -> Result<
    ReconState,
    BookError,
>
    decreases events.len(),
{
    if events.len() == 0 {
        Ok(s)
    } else {
        let (span, bids, asks) = events[0];
        match reconstructor::step(s, span, bids, asks).1 {
            Err(e) => Err(e),
            Ok(_) => run_events(reconstructor::step(s, span, bids, asks).0, events.drop_first()),
        }
    }
}

/// Before a reference with update id `limit` is compared, the events from `i`
/// on are fed up to the first one that ends past `limit`: every event fed ends
/// at or before it (one ending exactly at `limit` included), the next one not
/// fed ends after it, and the state compared is the reconstructor run over
/// exactly the events fed. A refused level ends the feed with its error.
pub proof fn lemma_feed_until_feeds_through_limit(
    s: ReconState,
    r: ReportView,
    events: Seq<(UpdateSpan, Seq<Level>, Seq<Level>)>,
    i: nat,
    limit: u64,
)
    requires
        i <= events.len(),
    ensures
        match feed_until(s, r, events, i, limit) {
            Ok((s1, r1, i1)) => {
                &&& i <= i1 <= events.len()
                &&& forall|j: int| i <= j < i1 ==> (#[trigger] events[j]).0.last <= limit
                &&& i1 < events.len() ==> events[i1 as int].0.last > limit
                &&& run_events(s, events.subrange(i as int, i1 as int)) == Ok::<
                    ReconState,
                    BookError,
                >(s1)
            },
            Err(e) => exists|j: int|
                i < j <= events.len() && (forall|m: int| i <= m < j ==> (#[trigger] events[m]).0.last
                    <= limit) && run_events(s, #[trigger] events.subrange(i as int, j)) == Err::<
                    ReconState,
                    BookError,
                >(e),
        },
    decreases events.len() - i,
{
    if i < events.len() && events[i as int].0.last <= limit {
        let (span, bids, asks) = events[i as int];
        let (s1, out) = reconstructor::step(s, span, bids, asks);
        match out {
            Err(e) => {
                let sub = events.subrange(i as int, (i + 1) as int);
                assert(sub[0] == events[i as int]);
                assert(sub.drop_first().len() == 0);
                assert(run_events(s, sub) == Err::<ReconState, BookError>(e));
                assert(forall|m: int| i <= m < i + 1 ==> (#[trigger] events[m]).0.last <= limit);
            },
            Ok(d) => {
                lemma_feed_until_feeds_through_limit(s1, count_decision(r, d), events, i + 1, limit);
                match feed_until(s1, count_decision(r, d), events, i + 1, limit) {
                    Ok((s2, r2, i2)) => {
                        let sub = events.subrange(i as int, i2 as int);
                        assert(sub[0] == events[i as int]);
                        assert(sub.drop_first() =~= events.subrange((i + 1) as int, i2 as int));
                    },
                    Err(e) => {
                        let j = choose|j: int|
                            i + 1 < j <= events.len() && (forall|m: int|
                                i + 1 <= m < j ==> (#[trigger] events[m]).0.last <= limit)
                                && run_events(s1, #[trigger] events.subrange((i + 1) as int, j)) == Err::<
                                ReconState,
                                BookError,
                            >(e);
                        let sub = events.subrange(i as int, j);
                        assert(sub[0] == events[i as int]);
                        assert(sub.drop_first() =~= events.subrange((i + 1) as int, j));
                        assert(forall|m: int| i <= m < j ==> (#[trigger] events[m]).0.last <= limit);
                    },
                }
            },
        }
    } else {
        assert(events.subrange(i as int, i as int).len() == 0);
    }
}

proof fn lemma_feed_until_counts(
    s: ReconState,
    r: ReportView,
    events: Seq<(UpdateSpan, Seq<Level>, Seq<Level>)>,
    i: nat,
    limit: u64,
)
    requires
        i <= events.len(),
    ensures
        match feed_until(s, r, events, i, limit) {
            Ok((s1, r1, i1)) => {
                &&& i <= i1 <= events.len()
                &&& r1.events_applied + r1.events_skipped + r1.events_rejected == r.events_applied
                    + r.events_skipped + r.events_rejected + (i1 - i)
                &&& r1.events == r.events
                &&& r1.bootstrap_frames == r.bootstrap_frames
                &&& r1.checked == r.checked
                &&& r1.matched == r.matched
                &&& r1.mismatched == r.mismatched
                &&& r1.first_mismatch == r.first_mismatch
            },
            Err(_) => true,
        },
    decreases events.len() - i,
{
    if i < events.len() && events[i as int].0.last <= limit {
        let (span, bids, asks) = events[i as int];
        let (s1, out) = reconstructor::step(s, span, bids, asks);
        match out {
            Err(_) => {},
            Ok(d) => {
                lemma_feed_until_counts(s1, count_decision(r, d), events, i + 1, limit);
            },
        }
    }
}

proof fn lemma_check_references_counts(
    s: ReconState,
    r: ReportView,
    events: Seq<(UpdateSpan, Seq<Level>, Seq<Level>)>,
    i: nat,
    references: Seq<(u64, Seq<Level>, Seq<Level>)>,
    k: nat,
    limit: nat,
)
    requires
        i <= events.len(),
        k <= references.len(),
        r.events_applied + r.events_skipped + r.events_rejected <= i,
        r.matched + r.mismatched == r.checked,
        r.first_mismatch is Some <==> r.mismatched > 0,
    ensures
        match check_references(s, r, events, i, references, k, limit) {
            Ok(v) => {
                &&& v.checked == r.checked + (references.len() - k)
                &&& v.matched + v.mismatched == v.checked
                &&& (v.first_mismatch is Some <==> v.mismatched > 0)
                &&& v.events_applied + v.events_skipped + v.events_rejected <= events.len()
                &&& v.events == r.events
                &&& v.bootstrap_frames == r.bootstrap_frames
            },
            Err(_) => true,
        },
    decreases references.len() - k,
{
    if k < references.len() {
        let (id, reference_bids, reference_asks) = references[k as int];
        lemma_feed_until_counts(s, r, events, i, id);
        match feed_until(s, r, events, i, id) {
            Err(_) => {},
            Ok((s1, r1, i1)) => {
                let r2 = count_check(
                    r1,
                    top_mismatches(s1.bids, s1.asks, reference_bids, reference_asks, limit),
                );
                lemma_check_references_counts(s1, r2, events, i1, references, k + 1, limit);
            },
        }
    }
}

/// A comparison that runs to the end counts every event once at most, uses
/// the first reference to bootstrap the book and checks every later one,
/// each check a match or a mismatch; a first mismatch is reported exactly
/// when there was a mismatch.
pub proof fn lemma_comparison_counts(
    events: Seq<(UpdateSpan, Seq<Level>, Seq<Level>)>,
    references: Seq<(u64, Seq<Level>, Seq<Level>)>,
    limit: nat,
)
    ensures
        match comparison(events, references, limit) {
            Ok(v) => {
                &&& v.events == events.len()
                &&& v.bootstrap_frames == (if references.len() == 0 { 0nat } else { 1nat })
                &&& v.checked == (if references.len() == 0 { 0 } else { references.len() - 1 })
                &&& v.matched + v.mismatched == v.checked
                &&& (v.first_mismatch is Some <==> v.mismatched > 0)
                &&& v.events_applied + v.events_skipped + v.events_rejected <= events.len()
            },
            Err(_) => true,
        },
{
    if references.len() > 0 {
        let (id, bids, asks) = references[0];
        match reconstructor::loaded(initial_state(), id, bids, asks) {
            None => {},
            Some(s) => {
                let r0 = empty_report(events.len());
                lemma_check_references_counts(
                    s,
                    ReportView { bootstrap_frames: 1, ..r0 },
                    events,
                    0,
                    references,
                    1,
                    limit,
                );
            },
        }
    }
}

/// Once a mismatch has been named, later checks keep it.
proof fn lemma_check_references_keeps_first(
    s: ReconState,
    r: ReportView,
    events: Seq<(UpdateSpan, Seq<Level>, Seq<Level>)>,
    i: nat,
    references: Seq<(u64, Seq<Level>, Seq<Level>)>,
    k: nat,
    limit: nat,
)
    requires
        i <= events.len(),
        r.first_mismatch is Some,
    ensures
        check_references(s, r, events, i, references, k, limit) matches Ok(v) ==> v.first_mismatch
            == r.first_mismatch,
    decreases references.len() - k,
{
    if k < references.len() {
        let (id, reference_bids, reference_asks) = references[k as int];
        lemma_feed_until_counts(s, r, events, i, id);
        match feed_until(s, r, events, i, id) {
            Err(_) => {},
            Ok((s1, r1, i1)) => {
                let r2 = count_check(
                    r1,
                    top_mismatches(s1.bids, s1.asks, reference_bids, reference_asks, limit),
                );
                lemma_check_references_keeps_first(s1, r2, events, i1, references, k + 1, limit);
            },
        }
    }
}

/// The first check of a comparison is made on the book the first reference
/// bootstrapped, run over exactly the events that end at or before the second
/// reference's update id (up to the first that ends after it): where that book
/// differs from the second reference, the first mismatch the comparison names
/// is that book's differences; and where the second reference is the last,
/// a mismatch is named exactly when that book differs from it.
pub proof fn lemma_first_check_sees_events_through_its_id(
    events: Seq<(UpdateSpan, Seq<Level>, Seq<Level>)>,
    references: Seq<(u64, Seq<Level>, Seq<Level>)>,
    limit: nat,
)
    requires
        references.len() >= 2,
    ensures
        comparison(events, references, limit) is Ok ==> reconstructor::loaded(
            initial_state(),
            references[0].0,
            references[0].1,
            references[0].2,
        ) is Some,
        comparison(events, references, limit) is Ok ==> exists|i1: int|
            {
                let s0 = reconstructor::loaded(
                    initial_state(),
                    references[0].0,
                    references[0].1,
                    references[0].2,
                )->0;
                let fed = run_events(s0, #[trigger] events.take(i1));
                &&& 0 <= i1 <= events.len()
                &&& (forall|j: int| 0 <= j < i1 ==> (#[trigger] events[j]).0.last <= references[1].0)
                &&& (i1 < events.len() ==> events[i1].0.last > references[1].0)
                &&& fed is Ok
                &&& ({
                    let mismatches = top_mismatches(
                        fed->Ok_0.bids,
                        fed->Ok_0.asks,
                        references[1].1,
                        references[1].2,
                        limit,
                    );
                    &&& mismatches.len() > 0 ==> comparison(events, references, limit)->Ok_0.first_mismatch
                        == Some(join(mismatches, "; "@))
                    &&& references.len() == 2 ==> (comparison(
                        events,
                        references,
                        limit,
                    )->Ok_0.first_mismatch is None <==> mismatches.len() == 0)
                })
            },
{
    let (id, bids, asks) = references[0];
    match reconstructor::loaded(initial_state(), id, bids, asks) {
        None => {},
        Some(s0) => {
            let r0 = ReportView { bootstrap_frames: 1, ..empty_report(events.len()) };
            let (id1, rb, ra) = references[1];
            lemma_feed_until_feeds_through_limit(s0, r0, events, 0, id1);
            lemma_feed_until_counts(s0, r0, events, 0, id1);
            match feed_until(s0, r0, events, 0, id1) {
                Err(_) => {},
                Ok((s1, r1, i1)) => {
                    let mismatches = top_mismatches(s1.bids, s1.asks, rb, ra, limit);
                    let r2 = count_check(r1, mismatches);
                    assert(events.subrange(0, i1 as int) =~= events.take(i1 as int));
                    lemma_feed_until_counts(s0, r0, events, 0, id1);
                    lemma_check_references_counts(s1, r2, events, i1, references, 2, limit);
                    if mismatches.len() > 0 {
                        lemma_check_references_keeps_first(s1, r2, events, i1, references, 2, limit);
                    }
                    assert(run_events(s0, events.take(i1 as int)) == Ok::<ReconState, BookError>(s1));
                    assert(comparison(events, references, limit) == check_references(
                        s1,
                        r2,
                        events,
                        i1,
                        references,
                        2,
                        limit,
                    ));
                    assert(0 <= i1 as int <= events.len());
                    assert(forall|j: int| 0 <= j < i1 ==> (#[trigger] events[j]).0.last <= references[1].0);
                },
            }
        },
    }
}

} // verus!
