//! The ledger and the bid stack exercised directly, against their own
//! contracts: reserve fails exactly on insufficient free funds, unreserve
//! clamps, transfer moves free funds, and the stack keeps its sentinel-led
//! LIFO shape.

use task_auction::{BidStack, Ledger};

#[test]
fn ledger_reserve_unreserve_transfer() {
    let mut l = Ledger::new();
    assert!(l.endow(1, 1000));
    assert!(l.endow(2, 50));
    // an account can be endowed only once
    assert!(!l.endow(1, 5));
    assert_eq!(l.free_balance(1), 1000);
    assert_eq!(l.reserved_balance(1), 0);

    // reserve moves free funds into the reserved bucket
    assert!(l.try_reserve(1, 400));
    assert_eq!(l.free_balance(1), 600);
    assert_eq!(l.reserved_balance(1), 400);
    // and fails, changing nothing, when free funds fall short
    assert!(!l.try_reserve(2, 51));
    assert_eq!(l.free_balance(2), 50);
    assert_eq!(l.reserved_balance(2), 0);

    // unreserve is clamped at the reserved amount
    l.unreserve(1, 1000);
    assert_eq!(l.free_balance(1), 1000);
    assert_eq!(l.reserved_balance(1), 0);
    // unreserve of an untouched account is a no-op
    l.unreserve(2, 10);
    assert_eq!(l.free_balance(2), 50);

    // transfer moves free funds, even to a fresh account
    l.transfer(1, 3, 250);
    assert_eq!(l.free_balance(1), 750);
    assert_eq!(l.free_balance(3), 250);
    assert_eq!(l.reserved_balance(3), 0);
}

#[test]
fn bid_stack_is_a_sentinel_led_lifo() {
    let mut s = BidStack::new();
    assert_eq!(s.len(), 0);
    assert!(s.head().is_none());

    let k1 = s.push(7, 900);
    assert_eq!(k1, (7, 1));
    let k2 = s.push(8, 800);
    assert_eq!(k2, (8, 2));
    assert_eq!(s.head(), Some(((8, 2), 800)));

    // each entry records its predecessor and its price
    assert_eq!(s.find_bid((8, 2)), Some(((7, 1), 800)));
    assert_eq!(s.find_bid((7, 1)), Some(((0, 0), 900)));
    assert_eq!(s.find_bid((7, 2)), None);

    s.pop_top();
    assert_eq!(s.head(), Some(((7, 1), 900)));

    let k3 = s.push(9, 850);
    assert_eq!(k3, (9, 2));
    s.clear();
    assert_eq!(s.len(), 0);
    assert!(s.head().is_none());
    assert_eq!(s.find_bid((7, 1)), None);
}
