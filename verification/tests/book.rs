use astra::book::{BookDiff, BookError, Level, OrderBook, Side};
use astra::fixed::Fixed;

fn level(price: &str, quantity: &str) -> Level {
    Level {
        price: price.parse().unwrap(),
        quantity: quantity.parse().unwrap(),
    }
}

fn diff(bids: Vec<Level>, asks: Vec<Level>) -> BookDiff {
    BookDiff { bids, asks }
}

fn book() -> OrderBook {
    let mut book = OrderBook::new();
    book.apply_diff(&diff(
        vec![level("100.00000000", "1"), level("99.00000000", "2")],
        vec![level("101.00000000", "1"), level("102.00000000", "3")],
    ))
    .unwrap();
    book
}

#[test]
fn a_diff_establishes_both_sides() {
    let book = book();
    assert_eq!(book.best_bid().unwrap(), level("100.00000000", "1"));
    assert_eq!(book.best_ask().unwrap(), level("101.00000000", "1"));
    assert_eq!(book.bids_len(), 2);
    assert_eq!(book.asks_len(), 2);
    assert!(!book.is_crossed());
}

#[test]
fn zero_quantity_removes_a_level() {
    let mut book = book();
    book.apply_diff(&diff(vec![level("100.00000000", "0")], vec![]))
        .unwrap();

    assert_eq!(book.best_bid().unwrap(), level("99.00000000", "2"));
    assert_eq!(book.bids_len(), 1);
}

#[test]
fn a_new_quantity_replaces_the_old_one() {
    let mut book = book();
    book.apply_diff(&diff(vec![level("100.00000000", "7.5")], vec![]))
        .unwrap();

    assert_eq!(book.best_bid().unwrap(), level("100.00000000", "7.5"));
    assert_eq!(book.bids_len(), 2);
}

#[test]
fn levels_are_returned_best_first() {
    let book = book();
    assert_eq!(
        book.levels(Side::Bid, 2),
        vec![level("100.00000000", "1"), level("99.00000000", "2")]
    );
    assert_eq!(book.levels(Side::Ask, 1), vec![level("101.00000000", "1")]);
}

#[test]
fn mid_and_spread_use_both_sides() {
    let book = book();
    assert_eq!(book.mid().unwrap().to_string(), "100.50000000");
    assert_eq!(book.spread().unwrap().to_string(), "1.00000000");
}

#[test]
fn a_crossed_book_is_reported() {
    let mut book = book();
    assert!(!book.is_crossed());

    book.apply_diff(&diff(vec![level("105.00000000", "1")], vec![]))
        .unwrap();
    assert!(book.is_crossed());
}

#[test]
fn applying_a_diff_twice_is_idempotent() {
    let mut once = book();
    let mut twice = book();
    let update = diff(
        vec![level("98.00000000", "4")],
        vec![level("103.00000000", "0")],
    );

    once.apply_diff(&update).unwrap();
    twice.apply_diff(&update).unwrap();
    twice.apply_diff(&update).unwrap();

    assert_eq!(once, twice);
}

#[test]
fn an_empty_diff_changes_nothing() {
    let mut book = book();
    let before = book.clone();
    book.apply_diff(&BookDiff::default()).unwrap();
    assert_eq!(book, before);
}

#[test]
fn invalid_levels_are_refused() {
    let mut book = book();
    assert_eq!(
        book.apply_diff(&diff(vec![level("0.00000000", "1")], vec![])),
        Err(BookError::InvalidPrice("0.00000000".parse().unwrap()))
    );
    assert_eq!(
        book.apply_diff(&diff(vec![], vec![level("1.00000000", "-1")])),
        Err(BookError::InvalidQuantity("-1.00000000".parse().unwrap()))
    );
}

#[test]
fn removing_an_absent_level_is_harmless() {
    let mut book = book();
    book.apply_diff(&diff(vec![level("5.00000000", "0")], vec![]))
        .unwrap();
    assert_eq!(book.bids_len(), 2);
}

#[test]
fn an_empty_book_has_no_top() {
    let book = OrderBook::new();
    assert!(book.is_empty());
    assert_eq!(book.best_bid(), None);
    assert_eq!(book.best_ask(), None);
    assert_eq!(book.mid(), None);
    assert_eq!(book.spread(), None);
    assert!(!book.is_crossed());
    assert_eq!(book.levels(Side::Bid, 5), Vec::<Level>::new());
}

#[test]
fn a_refused_bid_leaves_the_asks_untouched() {
    let mut book = book();
    let result = book.apply_diff(&diff(
        vec![level("98.00000000", "1"), level("-1", "1")],
        vec![level("150.00000000", "1")],
    ));
    assert_eq!(result, Err(BookError::InvalidPrice("-1".parse().unwrap())));
    // The bid before the refused one stays applied; the asks are not touched.
    assert_eq!(book.bids_len(), 3);
    assert_eq!(book.asks_len(), 2);
}

#[test]
fn levels_stop_at_the_book_depth() {
    let book = book();
    assert_eq!(
        book.levels(Side::Ask, 10),
        vec![level("101.00000000", "1"), level("102.00000000", "3")]
    );
    assert_eq!(book.levels(Side::Bid, 0), Vec::<Level>::new());
}

#[test]
fn mid_rounds_half_away_from_zero() {
    let mut book = OrderBook::new();
    book.apply_diff(&diff(
        vec![level("0.00000001", "1")],
        vec![level("0.00000002", "1")],
    ))
    .unwrap();
    assert_eq!(book.mid(), Some(Fixed::from_raw(2)));
    assert_eq!(book.spread(), Some(Fixed::from_raw(1)));
}

#[test]
fn best_levels_follow_each_side() {
    let book = book();
    assert_eq!(book.best(Side::Bid), Some(level("100.00000000", "1")));
    assert_eq!(book.best(Side::Ask), Some(level("101.00000000", "1")));
}

#[test]
fn the_first_refused_ask_ends_the_update() {
    let mut book = book();
    let result = book.apply_diff(&diff(
        vec![level("98.00000000", "1")],
        vec![level("103.00000000", "1"), level("104.00000000", "-1"), level("0", "1")],
    ));
    // The refused quantity comes first, so it decides the error.
    assert_eq!(result, Err(BookError::InvalidQuantity("-1".parse().unwrap())));
    // Every bid and the ask before the refused one are applied; nothing after it.
    assert_eq!(book.bids_len(), 3);
    assert_eq!(book.asks_len(), 3);
    assert_eq!(book.levels(Side::Ask, 5)[2], level("103.00000000", "1"));
}

#[test]
fn a_side_has_a_best_level_exactly_when_it_is_not_empty() {
    let mut book = OrderBook::new();
    book.apply_diff(&diff(vec![level("100.00000000", "1")], vec![])).unwrap();
    assert_eq!(book.bids_len(), 1);
    assert_eq!(book.best(Side::Bid), Some(level("100.00000000", "1")));
    assert_eq!(book.asks_len(), 0);
    assert_eq!(book.best(Side::Ask), None);
    assert_eq!(book.best(Side::Bid), book.levels(Side::Bid, 1).first().copied());
    assert!(!book.is_crossed());
}

#[test]
fn a_locked_book_counts_as_crossed() {
    let mut book = book();
    book.apply_diff(&diff(vec![level("101.00000000", "1")], vec![])).unwrap();
    assert_eq!(book.best_bid().unwrap().price, book.best_ask().unwrap().price);
    assert!(book.is_crossed());
}
