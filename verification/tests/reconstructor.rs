use astra::book::{BookDiff, BookError, Level};
use astra::reconstructor::{ApplyDecision, BookSnapshot, Reconstructor, UpdateSpan};

fn level(price: &str, quantity: &str) -> Level {
    Level {
        price: price.parse().unwrap(),
        quantity: quantity.parse().unwrap(),
    }
}

fn snapshot(id: u64) -> BookSnapshot {
    BookSnapshot {
        last_update_id: id,
        bids: vec![level("100", "1"), level("99", "2")],
        asks: vec![level("101", "1")],
    }
}

fn bid(price: &str, quantity: &str) -> BookDiff {
    BookDiff {
        bids: vec![level(price, quantity)],
        asks: vec![],
    }
}

#[test]
fn events_before_the_snapshot_are_skipped_and_the_overlap_applies() {
    let mut recon = Reconstructor::new();
    recon.load_snapshot(&snapshot(100)).unwrap();
    assert_eq!(recon.snapshot_id(), Some(100));

    assert_eq!(
        recon.apply_event(UpdateSpan::new(90, 100), &bid("50", "1")),
        Ok(ApplyDecision::SkippedBeforeSnapshot)
    );
    assert_eq!(recon.book().bids_len(), 2);
    assert_eq!(
        recon.apply_event(UpdateSpan::new(95, 105), &bid("98", "1")),
        Ok(ApplyDecision::Applied)
    );
    assert_eq!(recon.last_applied(), Some(105));
    assert_eq!(
        recon.apply_event(UpdateSpan::new(106, 110), &bid("97", "1")),
        Ok(ApplyDecision::Applied)
    );
    assert_eq!(recon.book().bids_len(), 4);
    assert!(recon.is_reliable());
}

#[test]
fn a_first_event_past_the_snapshot_breaks_the_book() {
    let mut recon = Reconstructor::new();
    recon.load_snapshot(&snapshot(100)).unwrap();
    assert_eq!(
        recon.apply_event(UpdateSpan::new(102, 110), &bid("98", "1")),
        Ok(ApplyDecision::Discontinuity)
    );
    assert!(!recon.is_reliable());
    assert_eq!(recon.gaps(), 1);
}

#[test]
fn a_broken_book_rejects_everything_until_a_new_snapshot() {
    let mut recon = Reconstructor::new();
    recon.load_snapshot(&snapshot(100)).unwrap();
    recon.apply_event(UpdateSpan::new(101, 105), &bid("98", "1")).unwrap();
    assert_eq!(
        recon.apply_event(UpdateSpan::new(107, 110), &bid("97", "1")),
        Ok(ApplyDecision::Discontinuity)
    );
    // Even the event that would have continued the sequence is rejected.
    assert_eq!(
        recon.apply_event(UpdateSpan::new(106, 106), &bid("96", "1")),
        Ok(ApplyDecision::Discontinuity)
    );
    assert_eq!(recon.gaps(), 1);
    assert_eq!(recon.book().bids_len(), 3);

    recon.load_snapshot(&snapshot(200)).unwrap();
    assert!(recon.is_reliable());
    assert_eq!(recon.gaps(), 1);
    assert_eq!(recon.last_applied(), None);
    assert_eq!(recon.book().bids_len(), 2);
    assert_eq!(
        recon.apply_event(UpdateSpan::new(201, 202), &bid("98", "1")),
        Ok(ApplyDecision::Applied)
    );
}

#[test]
fn a_refused_level_breaks_the_book() {
    let mut recon = Reconstructor::new();
    recon.load_snapshot(&snapshot(100)).unwrap();
    assert_eq!(
        recon.apply_event(UpdateSpan::new(101, 101), &bid("0", "1")),
        Err(BookError::InvalidPrice("0".parse().unwrap()))
    );
    assert!(!recon.is_reliable());
}

#[test]
fn a_refused_snapshot_leaves_the_state_alone() {
    let mut recon = Reconstructor::new();
    recon.load_snapshot(&snapshot(100)).unwrap();
    let bad = BookSnapshot {
        last_update_id: 300,
        bids: vec![level("1", "-1")],
        asks: vec![],
    };
    assert_eq!(
        recon.load_snapshot(&bad),
        Err(BookError::InvalidQuantity("-1".parse().unwrap()))
    );
    assert_eq!(recon.snapshot_id(), Some(100));
    assert_eq!(recon.book().bids_len(), 2);
}

#[test]
fn without_a_snapshot_the_first_event_starts_the_sequence() {
    let mut recon = Reconstructor::new();
    assert_eq!(
        recon.apply_event(UpdateSpan::new(500, 510), &bid("10", "1")),
        Ok(ApplyDecision::Applied)
    );
    assert_eq!(
        recon.apply_event(UpdateSpan::new(511, 512), &bid("11", "1")),
        Ok(ApplyDecision::Applied)
    );
    assert_eq!(recon.book().bids_len(), 2);
}
