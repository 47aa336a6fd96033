use bid_allocator::{AllocationLedger, Bid, BidBook, BidError, MatchingEngine};

fn name(s: &str) -> String {
    s.to_string()
}

#[test]
fn higher_price_served_first_low_submitted_first() {
    let mut e = MatchingEngine::new();
    assert_eq!(e.submit_bid(name("low"), 10, 5), Ok(0));
    assert_eq!(e.submit_bid(name("high"), 20, 5), Ok(1));
    e.absorb_supply(5);
    assert_eq!(e.get_allocation(&name("high")), Some(5));
    assert_eq!(e.get_allocation(&name("low")), None);
    assert_eq!(e.unmet_supply(), 0);
}

#[test]
fn higher_price_served_first_high_submitted_first() {
    let mut e = MatchingEngine::new();
    assert_eq!(e.submit_bid(name("high"), 20, 5), Ok(0));
    assert_eq!(e.submit_bid(name("low"), 10, 5), Ok(1));
    e.absorb_supply(5);
    assert_eq!(e.get_allocation(&name("high")), Some(5));
    assert_eq!(e.get_allocation(&name("low")), None);
}

#[test]
fn earlier_arrival_served_first_at_equal_price() {
    let mut e = MatchingEngine::new();
    e.submit_bid(name("A"), 10, 3).unwrap();
    e.submit_bid(name("B"), 10, 3).unwrap();
    e.absorb_supply(4);
    assert_eq!(e.get_allocation(&name("A")), Some(3));
    assert_eq!(e.get_allocation(&name("B")), Some(1));
    assert_eq!(e.open_bid_count(), 1);
}

#[test]
fn partially_filled_bid_stays_for_later_supply() {
    let mut e = MatchingEngine::new();
    e.submit_bid(name("A"), 7, 5).unwrap();
    e.absorb_supply(3);
    assert_eq!(e.get_allocation(&name("A")), Some(3));
    assert_eq!(e.open_bid_count(), 1);
    e.submit_bid(name("B"), 7, 4).unwrap();
    e.absorb_supply(3);
    // The remaining 2 of A come before B, which arrived later at the same price.
    assert_eq!(e.get_allocation(&name("A")), Some(5));
    assert_eq!(e.get_allocation(&name("B")), Some(1));
    assert_eq!(e.open_bid_count(), 1);
}

#[test]
fn exhausted_bid_is_not_matched_again() {
    let mut e = MatchingEngine::new();
    e.submit_bid(name("A"), 30, 2).unwrap();
    e.submit_bid(name("B"), 10, 2).unwrap();
    e.absorb_supply(2);
    assert_eq!(e.open_bid_count(), 1);
    e.absorb_supply(5);
    assert_eq!(e.get_allocation(&name("A")), Some(2));
    assert_eq!(e.get_allocation(&name("B")), Some(2));
    assert_eq!(e.open_bid_count(), 0);
    assert_eq!(e.unmet_supply(), 3);
}

#[test]
fn unmet_supply_is_not_applied_to_later_bids() {
    let mut e = MatchingEngine::new();
    e.absorb_supply(10);
    assert_eq!(e.unmet_supply(), 10);
    e.submit_bid(name("A"), 4, 3).unwrap();
    assert_eq!(e.get_allocation(&name("A")), None);
    assert_eq!(e.open_bid_count(), 1);
    e.absorb_supply(2);
    assert_eq!(e.get_allocation(&name("A")), Some(2));
    assert_eq!(e.open_bid_count(), 1);
    assert_eq!(e.unmet_supply(), 10);
}

#[test]
fn unmet_supply_accumulates_across_absorbs() {
    let mut e = MatchingEngine::new();
    e.absorb_supply(10);
    e.absorb_supply(2);
    assert_eq!(e.unmet_supply(), 12);
    e.submit_bid(name("A"), 5, 3).unwrap();
    assert_eq!(e.unmet_supply(), 12);
    assert_eq!(e.get_allocation(&name("A")), None);
    assert_eq!(e.open_bid_count(), 1);
}

#[test]
fn unknown_requester_is_not_found() {
    let mut e = MatchingEngine::new();
    assert_eq!(e.get_allocation(&name("nobody")), None);
    e.submit_bid(name("A"), 1, 1).unwrap();
    assert_eq!(e.get_allocation(&name("A")), None);
    e.absorb_supply(1);
    assert_eq!(e.get_allocation(&name("A")), Some(1));
    assert_eq!(e.get_allocation(&name("nobody")), None);
}

#[test]
fn serialized_absorbs_do_not_overfill_a_bid() {
    let mut e = MatchingEngine::new();
    e.submit_bid(name("A"), 10, 5).unwrap();
    e.absorb_supply(3);
    e.absorb_supply(3);
    assert_eq!(e.get_allocation(&name("A")), Some(5));
    assert_eq!(e.unmet_supply(), 1);
    assert_eq!(e.open_bid_count(), 0);
}

#[test]
fn zero_volume_bid_is_rejected() {
    let mut e = MatchingEngine::new();
    assert_eq!(e.submit_bid(name("A"), 10, 0), Err(BidError::InvalidVolume));
    assert_eq!(e.open_bid_count(), 0);
    assert_eq!(e.submitted_volume(), 0);
    // The rejected bid consumed no sequence number.
    assert_eq!(e.submit_bid(name("A"), 10, 1), Ok(0));
}

#[test]
fn zero_supply_changes_nothing() {
    let mut e = MatchingEngine::new();
    e.submit_bid(name("A"), 10, 5).unwrap();
    e.absorb_supply(0);
    assert_eq!(e.get_allocation(&name("A")), None);
    assert_eq!(e.unmet_supply(), 0);
    assert_eq!(e.open_bid_count(), 1);
}

#[test]
fn exact_supply_empties_book_without_unmet() {
    let mut e = MatchingEngine::new();
    e.submit_bid(name("A"), 10, 2).unwrap();
    e.submit_bid(name("B"), 3, 4).unwrap();
    e.submit_bid(name("A"), 3, 1).unwrap();
    e.absorb_supply(7);
    assert_eq!(e.get_allocation(&name("A")), Some(3));
    assert_eq!(e.get_allocation(&name("B")), Some(4));
    assert_eq!(e.open_bid_count(), 0);
    assert_eq!(e.unmet_supply(), 0);
}

#[test]
fn sequence_numbers_follow_admission_order() {
    let mut e = MatchingEngine::new();
    assert_eq!(e.submit_bid(name("A"), 5, 1), Ok(0));
    assert_eq!(e.submit_bid(name("B"), 9, 1), Ok(1));
    assert_eq!(e.submit_bid(name("C"), 0, 1), Ok(2));
}

#[test]
fn totals_are_conserved() {
    let mut e = MatchingEngine::new();
    e.submit_bid(name("A"), 10, 4).unwrap();
    e.submit_bid(name("B"), 20, 6).unwrap();
    e.absorb_supply(7);
    e.submit_bid(name("C"), 15, 5).unwrap();
    e.absorb_supply(20);
    let a = e.get_allocation(&name("A")).unwrap();
    let b = e.get_allocation(&name("B")).unwrap();
    let c = e.get_allocation(&name("C")).unwrap();
    assert_eq!((a, b, c), (4, 6, 5));
    assert_eq!(e.submitted_volume(), 15);
    assert_eq!(e.absorbed_volume(), 27);
    assert_eq!(a + b + c + e.unmet_supply(), e.absorbed_volume());
    assert_eq!(e.unmet_supply(), 12);
}

#[test]
fn book_groups_by_price_in_arrival_order() {
    let mut book = BidBook::new();
    book.insert(Bid { requester: name("a"), price: 5, volume: 1, sequence: 0 });
    book.insert(Bid { requester: name("b"), price: 9, volume: 1, sequence: 1 });
    book.insert(Bid { requester: name("c"), price: 5, volume: 1, sequence: 2 });
    book.insert(Bid { requester: name("d"), price: 0, volume: 1, sequence: 3 });
    assert_eq!(book.len(), 4);
    let mut order = Vec::new();
    while let Some(b) = book.pop_best() {
        order.push(b.requester);
    }
    assert_eq!(order, vec![name("b"), name("a"), name("c"), name("d")]);
    assert!(book.is_empty());
}

#[test]
fn ledger_accumulates_per_requester() {
    let mut ledger = AllocationLedger::new();
    assert_eq!(ledger.get(&name("x")), None);
    ledger.credit(&name("x"), 4);
    ledger.credit(&name("y"), 1);
    ledger.credit(&name("x"), 3);
    assert_eq!(ledger.get(&name("x")), Some(7));
    assert_eq!(ledger.get(&name("y")), Some(1));
    assert_eq!(ledger.get(&name("z")), None);
}
