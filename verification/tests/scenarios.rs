//! End-to-end settlement scenarios with literal balances: the engine runs
//! under `MinBounty = 500`, `MinDeposit = 100`, `MaxDataSize = 16`, and the
//! four accounts each start with 10000 free.

use task_auction::{Config, Event, Pallet};

fn setup() -> Pallet {
    let mut p = Pallet::new(Config { min_bounty: 500, min_deposit: 100, max_data_size: 16 });
    assert!(p.endow(0xA, 10000));
    assert!(p.endow(0xB, 10000));
    assert!(p.endow(0xC, 10000));
    assert!(p.endow(0xD, 10000));
    p.set_block_number(1);
    p
}

fn created_key(p: &Pallet) -> (u64, u128) {
    match p.last_event() {
        Some(Event::Created { auction_key, .. }) => auction_key,
        _ => panic!("wrong event"),
    }
}

#[test]
fn happy_path_confirm() {
    let mut p = setup();
    assert!(p.create(0xA, 0xB, 1000, 500, 5, vec![1, 2, 3]).is_ok());
    let key = created_key(&p);
    assert!(p.bid(0xC, key, 900).is_ok());
    p.set_block_number(10);
    assert!(p.confirm(0xA, key).is_ok());
    assert_eq!(p.free_balance(0xA), 10000 - 900);
    assert_eq!(p.free_balance(0xC), 10000 + 900);
    assert_eq!(p.free_balance(0xB), 10000);
    assert!(p.auctions(key).is_none());
}

#[test]
fn cancel_with_one_unassigned_bid() {
    let mut p = setup();
    assert!(p.create(0xA, 0xB, 1000, 500, 5, vec![1, 2, 3]).is_ok());
    let key = created_key(&p);
    assert!(p.bid(0xC, key, 800).is_ok());
    // still at block 1: the bid is not assigned
    assert!(p.cancel(0xA, key).is_ok());
    assert_eq!(p.free_balance(0xA), 9500);
    assert_eq!(p.free_balance(0xC), 10500);
    assert_eq!(p.free_balance(0xB), 10000);
    assert!(p.auctions(key).is_none());
}

#[test]
fn retract_cascade() {
    let mut p = setup();
    assert!(p.create(0xA, 0xB, 1000, 500, 5, vec![1, 2, 3]).is_ok());
    let key = created_key(&p);
    assert!(p.bid(0xC, key, 900).is_ok());
    assert!(p.bid(0xD, key, 800).is_ok());
    // at block 1 the top bid is not yet assigned: no penalty
    assert!(p.retract(0xD, key).is_ok());
    let (top_key, top_price) = p.bids(key, (0, 0)).unwrap();
    assert_eq!(top_key.0, 0xC);
    assert_eq!(top_price, 900);
    assert_eq!(p.reserved_balance(0xD), 0);
    assert_eq!(p.reserved_balance(0xC), 500);
    match p.last_event() {
        Some(Event::Retracted { auction_key, bid_key, price }) => {
            assert_eq!(auction_key, key);
            assert_eq!(bid_key, (0xC, 1));
            assert_eq!(price, 900);
        },
        _ => panic!("wrong event"),
    }
}

#[test]
fn retract_after_assignment_penalizes() {
    let mut p = setup();
    assert!(p.create(0xA, 0xB, 1000, 500, 5, vec![1, 2, 3]).is_ok());
    let key = created_key(&p);
    assert!(p.bid(0xC, key, 900).is_ok());
    assert!(p.bid(0xD, key, 800).is_ok());
    p.set_block_number(10);
    // 800 is binding now: D loses the deposit to A
    assert!(p.retract(0xD, key).is_ok());
    assert_eq!(p.free_balance(0xD), 9500);
    assert_eq!(p.reserved_balance(0xD), 0);
    // A's 500 penalty arrives in the free bucket, beside the live
    // reservation of bounty + deposit
    assert_eq!(p.free_balance(0xA), 9000);
    assert_eq!(p.reserved_balance(0xA), 1500);
    assert_eq!(p.free_balance(0xA) + p.reserved_balance(0xA), 10500);
    let (top_key, top_price) = p.bids(key, (0, 0)).unwrap();
    assert_eq!(top_key.0, 0xC);
    assert_eq!(top_price, 900);
    assert_eq!(p.reserved_balance(0xC), 500);
}

#[test]
fn arbitrate_fulfilled() {
    let mut p = setup();
    assert!(p.create(0xA, 0xB, 1000, 500, 5, vec![1, 2, 3]).is_ok());
    let key = created_key(&p);
    assert!(p.bid(0xC, key, 800).is_ok());
    p.set_block_number(10);
    assert!(p.dispute(0xC, key).is_ok());
    assert!(p.arbitrate(0xB, key, true).is_ok());
    assert_eq!(p.free_balance(0xA), 10000 - 500 - 800);
    assert_eq!(p.free_balance(0xB), 10500);
    assert_eq!(p.free_balance(0xC), 10800);
    assert!(p.auctions(key).is_none());
    assert!(p.bids(key, (0, 0)).is_none());
}

#[test]
fn arbitrate_not_fulfilled() {
    let mut p = setup();
    assert!(p.create(0xA, 0xB, 1000, 500, 5, vec![1, 2, 3]).is_ok());
    let key = created_key(&p);
    assert!(p.bid(0xC, key, 800).is_ok());
    p.set_block_number(10);
    assert!(p.dispute(0xC, key).is_ok());
    assert!(p.arbitrate(0xB, key, false).is_ok());
    assert_eq!(p.free_balance(0xA), 10000);
    assert_eq!(p.free_balance(0xB), 10500);
    assert_eq!(p.free_balance(0xC), 9500);
    assert!(p.auctions(key).is_none());
    assert!(p.bids(key, (0, 0)).is_none());
}

#[test]
fn create_cancel_round_trip_restores_all_balances() {
    let mut p = setup();
    assert!(p.create(0xA, 0xB, 777, 333, 9, vec![7; 16]).is_ok());
    let key = created_key(&p);
    assert_eq!(p.free_balance(0xA), 10000 - 1110);
    assert_eq!(p.reserved_balance(0xA), 1110);
    assert!(p.cancel(0xA, key).is_ok());
    for acct in [0xA, 0xB, 0xC, 0xD] {
        assert_eq!(p.free_balance(acct), 10000);
        assert_eq!(p.reserved_balance(acct), 0);
    }
    assert!(p.auctions(key).is_none());
}

#[test]
fn total_funds_conserved_across_a_full_trace() {
    let mut p = setup();
    let total = |p: &Pallet| -> u64 {
        [0xA, 0xB, 0xC, 0xD]
            .iter()
            .map(|a| p.free_balance(*a) + p.reserved_balance(*a))
            .sum()
    };
    assert_eq!(total(&p), 40000);
    assert!(p.create(0xA, 0xB, 1000, 500, 5, vec![]).is_ok());
    let key = created_key(&p);
    assert_eq!(total(&p), 40000);
    assert!(p.bid(0xC, key, 900).is_ok());
    assert_eq!(total(&p), 40000);
    assert!(p.bid(0xD, key, 800).is_ok());
    assert_eq!(total(&p), 40000);
    assert!(p.retract(0xD, key).is_ok());
    assert_eq!(total(&p), 40000);
    p.set_block_number(10);
    assert!(p.dispute(0xA, key).is_ok());
    assert_eq!(total(&p), 40000);
    assert!(p.arbitrate(0xB, key, true).is_ok());
    assert_eq!(total(&p), 40000);
}
