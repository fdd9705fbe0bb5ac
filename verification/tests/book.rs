use pairs_trading::book::{PositionBook, PositionKind};
use pairs_trading::spread::{close_legs, open_legs};

#[test]
fn book_open_and_close_long_position() {
    let mut book = PositionBook::new();
    assert_eq!(book.apply_trade("A1", 10), 10);
    assert_eq!(book.len(), 1);
    assert_eq!(book.size_of("A1"), 10);
    assert_eq!(book.apply_trade("A1", -10), 0);
    assert_eq!(book.len(), 0, "Position map should remove flat position");
    assert_eq!(book.max_concurrent(), 1, "Max concurrent should record peak");
}

#[test]
fn book_open_and_close_short_position() {
    let mut book = PositionBook::new();
    assert_eq!(book.apply_trade("A1", -8), -8);
    assert_eq!(book.len(), 1);
    assert_eq!(book.apply_trade("A1", 8), 0);
    assert_eq!(book.len(), 0);
    assert_eq!(book.size_of("A1"), 0);
    assert_eq!(book.max_concurrent(), 1);
}

#[test]
fn book_tracks_max_concurrent_positions() {
    let mut book = PositionBook::new();
    book.apply_trade("A1", 5);
    book.apply_trade("B1", 10);
    assert_eq!(book.len(), 2);
    assert_eq!(book.max_concurrent(), 2);
    book.apply_trade("A1", -5);
    assert_eq!(book.len(), 1);
    assert_eq!(book.max_concurrent(), 2, "Peak should remain recorded");
    // partial trades accumulate, flipping sides keeps the symbol
    book.apply_trade("B1", -25);
    assert_eq!(book.size_of("B1"), -15);
    assert_eq!(book.apply_trade("C1", 0), 0);
    assert_eq!(book.len(), 1);
}

#[test]
fn book_spread_round_trip_restores_sizes() {
    for kind in [PositionKind::Long, PositionKind::Short] {
        let mut book = PositionBook::new();
        book.apply_trade("cu2405", 3);
        book.apply_trade("fu2405", -2);
        let (oa, ob) = open_legs(kind, 4, 7);
        book.apply_trade("cu2405", oa);
        book.apply_trade("fu2405", ob);
        let (ca, cb) = close_legs(kind, 4, 7);
        book.apply_trade("cu2405", ca);
        book.apply_trade("fu2405", cb);
        assert_eq!(book.size_of("cu2405"), 3);
        assert_eq!(book.size_of("fu2405"), -2);
        assert_eq!(book.len(), 2);
    }
}
