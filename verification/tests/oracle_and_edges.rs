//! The assignment oracle's arithmetic, the stored bid map's shape, and the
//! engine's edge cases.

use task_auction::{Auction, Config, Error, Event, Pallet};

fn auction(bounty: u64, initial_block: u64, terminal_block: u64) -> Auction {
    Auction {
        arbitrator: 0xB,
        bounty,
        deposit: 500,
        initial_block,
        terminal_block,
        data: vec![],
        in_dispute: false,
    }
}

fn setup() -> Pallet {
    let mut p = Pallet::new(Config { min_bounty: 500, min_deposit: 100, max_data_size: 16 });
    assert!(p.endow(0xA, 10000));
    assert!(p.endow(0xB, 10000));
    assert!(p.endow(0xC, 10000));
    assert!(p.endow(0xD, 10000));
    p.set_block_number(1);
    p
}

fn created_key(p: &Pallet) -> (u64, u128) {
    match p.last_event() {
        Some(Event::Created { auction_key, .. }) => auction_key,
        _ => panic!("wrong event"),
    }
}

#[test]
fn base_price_interpolates_linearly() {
    let a = auction(1000, 1, 5);
    assert_eq!(a.get_base_price(0), 0);
    assert_eq!(a.get_base_price(1), 0);
    assert_eq!(a.get_base_price(2), 250);
    assert_eq!(a.get_base_price(3), 500);
    assert_eq!(a.get_base_price(4), 750);
    assert_eq!(a.get_base_price(5), 1000);
    assert_eq!(a.get_base_price(100), 1000);
}

#[test]
fn base_price_division_truncates() {
    let a = auction(1000, 0, 3);
    assert_eq!(a.get_base_price(1), 333);
    assert_eq!(a.get_base_price(2), 666);
}

#[test]
fn base_price_degenerate_bounds() {
    // terminal == initial: instant assignment once the block is reached
    let a = auction(1000, 5, 5);
    assert_eq!(a.get_base_price(4), 0);
    assert_eq!(a.get_base_price(5), 1000);
    assert_eq!(a.get_base_price(6), 1000);
    // terminal below initial: the terminal clamp wins from there on
    let b = auction(1000, 5, 2);
    assert_eq!(b.get_base_price(1), 0);
    assert_eq!(b.get_base_price(3), 1000);
}

#[test]
fn is_assigned_compares_against_the_floor() {
    let a = auction(1000, 1, 5);
    assert!(a.is_assigned(250, 2));
    assert!(!a.is_assigned(251, 2));
    assert!(!a.is_assigned(1, 1));
    assert!(a.is_assigned(1000, 5));
}

#[test]
fn data_size_boundary() {
    let mut p = setup();
    assert_eq!(
        p.create(0xA, 0xB, 1000, 500, 5, vec![0; 17]),
        Err(Error::MaxDataSizeExceeded)
    );
    assert!(p.create(0xA, 0xB, 1000, 500, 5, vec![0; 16]).is_ok());
    let key = created_key(&p);
    assert_eq!(p.auctions(key).unwrap().data.len(), 16);
}

#[test]
fn empty_data_is_fine() {
    let mut p = setup();
    assert!(p.create(0xA, 0xB, 500, 100, 5, vec![]).is_ok());
    let key = created_key(&p);
    assert_eq!(p.auctions(key).unwrap().data, Vec::<u8>::new());
}

#[test]
fn first_bid_may_equal_the_bounty() {
    let mut p = setup();
    assert!(p.create(0xA, 0xB, 1000, 500, 5, vec![]).is_ok());
    let key = created_key(&p);
    assert!(p.bid(0xC, key, 1000).is_ok());
    assert_eq!(p.bids(key, (0, 0)).unwrap().1, 1000);
    // an equal follow-up does not undercut
    assert_eq!(p.bid(0xD, key, 1000), Err(Error::MinBidRatioRequired));
}

#[test]
fn instant_assignment_when_terminal_equals_creation_block() {
    let mut p = setup();
    p.set_block_number(5);
    assert!(p.create(0xA, 0xB, 1000, 500, 5, vec![]).is_ok());
    let key = created_key(&p);
    assert!(p.bid(0xC, key, 1000).is_ok());
    // the floor already sits at the bounty, so the bid binds at once
    assert!(p.confirm(0xA, key).is_ok());
    assert_eq!(p.free_balance(0xA), 9000);
    assert_eq!(p.free_balance(0xC), 11000);
}

#[test]
fn bid_fails_on_insufficient_deposit_funds() {
    let mut p = setup();
    assert!(p.endow(0xE, 400));
    assert!(p.create(0xA, 0xB, 1000, 500, 5, vec![]).is_ok());
    let key = created_key(&p);
    assert_eq!(p.bid(0xE, key, 900), Err(Error::InsufficientBalance));
    assert_eq!(p.reserved_balance(0xE), 0);
    assert_eq!(p.free_balance(0xE), 400);
}

#[test]
fn bidder_can_undercut_own_top_bid_with_exact_funds() {
    let mut p = setup();
    assert!(p.endow(0xE, 500));
    assert!(p.create(0xA, 0xB, 1000, 500, 5, vec![]).is_ok());
    let key = created_key(&p);
    assert!(p.bid(0xE, key, 900).is_ok());
    assert_eq!(p.free_balance(0xE), 0);
    // the returned deposit of the outbid top covers the new reservation
    assert!(p.bid(0xE, key, 800).is_ok());
    assert_eq!(p.free_balance(0xE), 0);
    assert_eq!(p.reserved_balance(0xE), 500);
}

#[test]
fn extend_fails_on_insufficient_funds() {
    let mut p = setup();
    assert!(p.create(0xA, 0xB, 1000, 500, 5, vec![]).is_ok());
    let key = created_key(&p);
    // free balance is 8500; the difference of 8502 cannot be reserved
    assert_eq!(p.extend(0xA, key, 9502, 6), Err(Error::InsufficientBalance));
    assert_eq!(p.reserved_balance(0xA), 1500);
    assert_eq!(p.auctions(key).unwrap().bounty, 1000);
}

#[test]
fn extend_event_reports_new_terms() {
    let mut p = setup();
    assert!(p.create(0xA, 0xB, 1000, 500, 5, vec![]).is_ok());
    let key = created_key(&p);
    assert!(p.extend(0xA, key, 1500, 9).is_ok());
    match p.last_event() {
        Some(Event::Extended { auction_key, bounty, terminal_block }) => {
            assert_eq!(auction_key, key);
            assert_eq!(bounty, 1500);
            assert_eq!(terminal_block, 9);
        },
        _ => panic!("wrong event"),
    }
    assert_eq!(p.auctions(key).unwrap().terminal_block, 9);
}

#[test]
fn retracting_the_only_bid_empties_the_stack() {
    let mut p = setup();
    assert!(p.create(0xA, 0xB, 1000, 500, 5, vec![]).is_ok());
    let key = created_key(&p);
    assert!(p.bid(0xC, key, 700).is_ok());
    assert!(p.retract(0xC, key).is_ok());
    match p.last_event() {
        Some(Event::Retracted { auction_key, bid_key, price }) => {
            assert_eq!(auction_key, key);
            assert_eq!(bid_key, (0, 0));
            assert_eq!(price, 1000);
        },
        _ => panic!("wrong event"),
    }
    assert!(p.bids(key, (0, 0)).is_none());
    assert_eq!(p.reserved_balance(0xC), 0);
    assert_eq!(p.free_balance(0xC), 10000);
    // the record itself stays until the owner cancels
    assert!(p.auctions(key).is_some());
    assert!(p.cancel(0xA, key).is_ok());
    assert_eq!(p.free_balance(0xA), 10000);
}

#[test]
fn retract_descent_skips_insolvent_predecessors() {
    let mut p = setup();
    assert!(p.endow(0xE, 1100));
    assert!(p.create(0xA, 0xB, 1000, 500, 5, vec![]).is_ok());
    let key = created_key(&p);
    assert!(p.bid(0xC, key, 950).is_ok());
    assert!(p.bid(0xE, key, 900).is_ok());
    assert!(p.bid(0xD, key, 800).is_ok());
    // E locks the returned deposit in an auction of E's own and can no
    // longer post a deposit
    assert!(p.create(0xE, 0xB, 500, 500, 5, vec![]).is_ok());
    assert_eq!(p.free_balance(0xE), 100);
    // D withdraws: the descent pops E's bid too and lands on C
    assert!(p.retract(0xD, key).is_ok());
    match p.last_event() {
        Some(Event::Retracted { auction_key, bid_key, price }) => {
            assert_eq!(auction_key, key);
            assert_eq!(bid_key, (0xC, 1));
            assert_eq!(price, 950);
        },
        _ => panic!("wrong event"),
    }
    assert_eq!(p.bids(key, (0, 0)), Some(((0xC, 1), 950)));
    assert_eq!(p.reserved_balance(0xC), 500);
    assert_eq!(p.reserved_balance(0xD), 0);
    // E keeps only the reservation of E's own auction
    assert_eq!(p.reserved_balance(0xE), 1000);
}

#[test]
fn bid_map_links_each_bid_to_its_predecessor() {
    let mut p = setup();
    assert!(p.create(0xA, 0xB, 1000, 500, 5, vec![]).is_ok());
    let key = created_key(&p);
    assert!(p.bid(0xC, key, 900).is_ok());
    assert!(p.bid(0xD, key, 800).is_ok());
    // the sentinel points at the top
    assert_eq!(p.bids(key, (0, 0)), Some(((0xD, 2), 800)));
    // each bid stores its predecessor's key and its own price
    assert_eq!(p.bids(key, (0xD, 2)), Some(((0xC, 1), 800)));
    assert_eq!(p.bids(key, (0xC, 1)), Some(((0, 0), 900)));
    // unknown keys find nothing
    assert_eq!(p.bids(key, (0xC, 2)), None);
    assert_eq!(p.bids(key, (9, 9)), None);
    assert_eq!(p.bids((7, 7), (0, 0)), None);
}

#[test]
fn nonces_keep_auction_keys_unique() {
    let mut p = setup();
    assert!(p.create(0xA, 0xB, 1000, 500, 5, vec![]).is_ok());
    let first = created_key(&p);
    assert!(p.create(0xA, 0xB, 600, 200, 7, vec![]).is_ok());
    let second = created_key(&p);
    assert_ne!(first, second);
    assert_eq!(first, (0xA, 0));
    assert_eq!(second, (0xA, 1));
    assert_eq!(p.account_nonce(0xA), 2);
    assert_eq!(p.auctions(first).unwrap().bounty, 1000);
    assert_eq!(p.auctions(second).unwrap().bounty, 600);
}
