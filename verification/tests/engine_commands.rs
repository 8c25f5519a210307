//! The eight commands, driven end to end against a fresh engine with four
//! endowed accounts.

use task_auction::{Config, Error, Event, Pallet};

fn setup() -> Pallet {
    let mut p = Pallet::new(Config { min_bounty: 500, min_deposit: 100, max_data_size: 16 });
    assert!(p.endow(0xA, 10000));
    assert!(p.endow(0xB, 10000));
    assert!(p.endow(0xC, 10000));
    assert!(p.endow(0xD, 10000));
    p.set_block_number(1);
    p
}

fn created_key(p: &Pallet) -> (u64, u128) {
    match p.last_event() {
        Some(Event::Created { auction_key, .. }) => auction_key,
        _ => panic!("wrong event"),
    }
}

#[test]
fn create() {
    let mut p = setup();
    let test_data = vec![1, 2, 3];
    assert_eq!(
        p.create(0xA, 0xB, 1000, 500, 5, vec![0; 2000]),
        Err(Error::MaxDataSizeExceeded)
    );
    assert_eq!(
        p.create(0xA, 0xB, 100, 500, 5, test_data.clone()),
        Err(Error::MinBountyRequired)
    );
    assert_eq!(
        p.create(0xA, 0xB, 1000, 50, 5, test_data.clone()),
        Err(Error::MinDepositRequired)
    );
    assert_eq!(
        p.create(0xA, 0xB, 20000, 500, 5, test_data.clone()),
        Err(Error::InsufficientBalance)
    );
    assert_eq!(
        p.create(0xA, 0xB, 500, 20000, 5, test_data.clone()),
        Err(Error::InsufficientBalance)
    );

    // check successful creation
    assert!(p.create(0xA, 0xB, 1000, 500, 5, test_data.clone()).is_ok());

    if let Some(Event::Created { auction_key, bounty, terminal_block }) = p.last_event() {
        assert_eq!(bounty, 1000);
        assert_eq!(terminal_block, 5);
        assert_eq!(p.reserved_balance(0xA), 1500);

        let auction = p.auctions(auction_key).unwrap();
        assert_eq!(auction_key.0, 0xA);
        assert_eq!(auction.arbitrator, 0xB);
        assert_eq!(auction.bounty, 1000);
        assert_eq!(auction.deposit, 500);
        assert_eq!(auction.terminal_block, 5);
        assert_eq!(auction.data, vec![1, 2, 3]);
        assert!(p.bids(auction_key, (0, 0)).is_none());
    } else {
        panic!("wrong event type")
    }
}

#[test]
fn extend() {
    let mut p = setup();
    assert!(p.create(0xA, 0xB, 1000, 500, 5, vec![0; 8]).is_ok());
    let auction_key = created_key(&p);

    // input checks
    assert_eq!(p.extend(0xB, auction_key, 2000, 6), Err(Error::OwnerRequired));
    assert_eq!(p.reserved_balance(0xA), 1500);
    assert_eq!(p.extend(0xA, (0, 0), 2000, 6), Err(Error::AuctionKeyNotFound));
    assert_eq!(p.reserved_balance(0xA), 1500);

    assert_eq!(p.extend(0xA, auction_key, 500, 6), Err(Error::MinBountyRequired));
    assert_eq!(p.reserved_balance(0xA), 1500);

    // make successful bids before extension
    assert!(p.bid(0xC, auction_key, 900).is_ok());
    assert!(p.bid(0xC, auction_key, 850).is_ok());
    assert_eq!(p.reserved_balance(0xC), 500);

    // successful extension bumps up bounty and shortens deadline
    assert!(p.extend(0xA, auction_key, 2000, 0).is_ok());
    assert_eq!(p.reserved_balance(0xA), 2500);

    // previous bid is already assigned after extension
    assert_eq!(p.bid(0xC, auction_key, 800), Err(Error::AuctionAssigned));
    assert_eq!(p.extend(0xA, auction_key, 3000, 6), Err(Error::AuctionAssigned));
}

#[test]
fn bid() {
    let mut p = setup();
    let test_data = vec![1, 2, 3];
    assert_eq!(p.bid(0xA, (1, 1), 100), Err(Error::AuctionKeyNotFound));
    assert!(p.create(0xA, 0xB, 1000, 500, 5, test_data).is_ok());
    let auction_key = created_key(&p);
    assert_eq!(p.bid(0xA, auction_key, 100), Err(Error::OriginProhibited));
    assert_eq!(p.bid(0xB, auction_key, 100), Err(Error::OriginProhibited));

    // a first bid above the bounty is refused
    assert!(p.bids(auction_key, (0, 0)).is_none());
    assert_eq!(p.bid(0xC, auction_key, 1100), Err(Error::MinBidRatioRequired));
    // first bid within bounty
    assert!(p.bid(0xC, auction_key, 300).is_ok());
    assert_eq!(p.reserved_balance(0xC), 500);
    assert!(p.bids(auction_key, (0, 0)).is_some());
    // reject bids higher than previous bid
    assert_eq!(p.bid(0xD, auction_key, 400), Err(Error::MinBidRatioRequired));
    assert!(p.bids(auction_key, (0, 0)).is_some());

    for i in 1..10u64 {
        let price = 300 - (i * 6);
        assert!(p.bid(0xD, auction_key, price).is_ok());
        assert_eq!(p.bids(auction_key, (0, 0)).unwrap().1, price);
        if let Some(Event::Bid { auction_key: _, bid_key, price: _ }) = p.last_event() {
            assert_eq!(bid_key, (0xD, u128::from(i) + 1));
        }
    }
    assert_eq!(p.reserved_balance(0xC), 0);
    assert_eq!(p.reserved_balance(0xD), 500);
    p.set_block_number(3);
    assert_eq!(p.bid(0xC, auction_key, 100), Err(Error::AuctionAssigned));
}

#[test]
fn retract() {
    let mut p = setup();
    // no auction yet
    assert_eq!(p.retract(0xC, (0, 0)), Err(Error::AuctionKeyNotFound));
    // create auction
    let deposit = 500;
    assert!(p.create(0xA, 0xB, 1000, deposit, 5, vec![0; 8]).is_ok());
    let auction_key = created_key(&p);
    // insert 10 bids from C
    for i in 0..10u64 {
        let price = 500 - (i * 10);
        assert!(p.bid(0xC, auction_key, price).is_ok());
        assert_eq!(p.reserved_balance(0xC), deposit);
    }
    // insert 10 bids from D
    for i in 10..20u64 {
        let price = 500 - (i * 10);
        assert!(p.bid(0xD, auction_key, price).is_ok());
        assert_eq!(p.reserved_balance(0xD), deposit);
        assert_eq!(p.reserved_balance(0xC), 0);
    }
    // C can't retract because top bid is from D
    assert_eq!(p.retract(0xC, auction_key), Err(Error::TopBidRequired));

    // retract 10 bids from D
    assert_eq!(p.reserved_balance(0xD), deposit);
    assert_eq!(p.reserved_balance(0xC), 0);
    for _ in 0..10 {
        assert!(p.retract(0xD, auction_key).is_ok());
    }

    // retract 10 bids from C
    assert_eq!(p.reserved_balance(0xC), deposit);
    assert_eq!(p.reserved_balance(0xD), 0);
    for _ in 0..10 {
        assert!(p.retract(0xC, auction_key).is_ok());
    }
    assert_eq!(p.reserved_balance(0xC), 0);
    assert_eq!(p.reserved_balance(0xD), 0);
    assert_eq!(p.free_balance(0xC), 10000);
    assert_eq!(p.free_balance(0xD), 10000);

    // auction has no bids left to retract
    assert_eq!(p.retract(0xB, auction_key), Err(Error::TopBidRequired));

    // assign auction to D
    assert!(p.bid(0xC, auction_key, 900).is_ok());
    assert!(p.bid(0xD, auction_key, 800).is_ok());
    p.set_block_number(10);

    // retracting a bid from an assigned auction forfeits the deposit
    assert!(p.retract(0xD, auction_key).is_ok());
    assert_eq!(p.reserved_balance(0xD), 0);
    assert_eq!(p.free_balance(0xD), 10000 - deposit);

    // a disputed auction cannot be retracted from
    assert!(p.dispute(0xC, auction_key).is_ok());
    assert_eq!(p.retract(0xC, auction_key), Err(Error::AuctionDisputed));
    assert_eq!(p.reserved_balance(0xC), deposit);
    assert_eq!(p.free_balance(0xC), 10000 - deposit);
}

#[test]
fn confirm() {
    let mut p = setup();
    // non existing auction
    assert_eq!(p.confirm(0xC, (0, 0)), Err(Error::AuctionKeyNotFound));
    // create an auction
    let deposit = 500;
    assert!(p.create(0xA, 0xB, 1000, deposit, 5, vec![0; 8]).is_ok());
    let auction_key = created_key(&p);
    // only the owner of the auction can confirm
    assert_eq!(p.confirm(0xC, auction_key), Err(Error::OwnerRequired));
    // can't confirm an auction with no bids
    assert_eq!(p.confirm(0xA, auction_key), Err(Error::AuctionNotAssigned));
    // make a bid
    let pay = 900;
    assert!(p.bid(0xC, auction_key, pay).is_ok());
    assert_eq!(p.reserved_balance(0xA), deposit + 1000);
    assert_eq!(p.reserved_balance(0xC), deposit);
    // cannot confirm an auction that hasn't been assigned
    assert_eq!(p.confirm(0xA, auction_key), Err(Error::AuctionNotAssigned));
    // wait until auction is assigned
    p.set_block_number(10);
    // expect success
    assert!(p.confirm(0xA, auction_key).is_ok());
    // check payments
    assert_eq!(p.reserved_balance(0xA), 0);
    assert_eq!(p.reserved_balance(0xC), 0);
    assert_eq!(p.free_balance(0xA), 10000 - pay);
    assert_eq!(p.free_balance(0xC), 10000 + pay);
    // auction should be deleted after transaction
    assert!(p.auctions(auction_key).is_none());
    assert!(p.bids(auction_key, (0, 0)).is_none());
}

#[test]
fn cancel() {
    let mut p = setup();
    // non existing auction
    assert_eq!(p.cancel(0xC, (0, 0)), Err(Error::AuctionKeyNotFound));
    let deposit = 500;
    assert!(p.create(0xA, 0xB, 1000, deposit, 5, vec![0; 8]).is_ok());
    let auction_key = created_key(&p);
    // only the owner of the auction can cancel
    assert_eq!(p.cancel(0xC, auction_key), Err(Error::OwnerRequired));
    // successful cancel with no bids
    assert!(p.cancel(0xA, auction_key).is_ok());
    assert_eq!(p.reserved_balance(0xA), 0);
    assert_eq!(p.free_balance(0xA), 10000);
    assert!(p.auctions(auction_key).is_none());
    assert!(p.bids(auction_key, (0, 0)).is_none());

    // make new auction
    assert!(p.create(0xA, 0xB, 1000, deposit, 5, vec![0; 8]).is_ok());
    let auction_key = created_key(&p);

    // a bid above the bounty is refused and reserves nothing
    assert_eq!(p.bid(0xC, auction_key, 1500), Err(Error::MinBidRatioRequired));
    assert_eq!(p.reserved_balance(0xC), 0);

    // cancelling with no accepted bid costs nobody a deposit
    assert!(p.cancel(0xA, auction_key).is_ok());
    assert_eq!(p.reserved_balance(0xA), 0);
    assert_eq!(p.reserved_balance(0xC), 0);
    assert_eq!(p.free_balance(0xA), 10000);
    assert_eq!(p.free_balance(0xC), 10000);
    assert!(p.auctions(auction_key).is_none());
    assert!(p.bids(auction_key, (0, 0)).is_none());

    // make new auction
    assert!(p.create(0xA, 0xB, 1000, deposit, 5, vec![0; 8]).is_ok());
    let auction_key = created_key(&p);

    // query created auction
    assert!(p.auctions(auction_key).is_some());

    // bid below bounty
    assert!(p.bid(0xC, auction_key, 800).is_ok());
    assert_eq!(p.reserved_balance(0xC), deposit);

    // cannot cancel an auction that has been assigned
    p.set_block_number(10);
    assert_eq!(p.cancel(0xA, auction_key), Err(Error::AuctionAssigned));
    p.set_block_number(1);

    // cancelling an auction with unassigned bids costs the owner the deposit
    assert!(p.cancel(0xA, auction_key).is_ok());
    assert_eq!(p.reserved_balance(0xA), 0);
    assert_eq!(p.reserved_balance(0xC), 0);
    assert_eq!(p.free_balance(0xA), 10000 - deposit);
    assert_eq!(p.free_balance(0xC), 10000 + deposit);
    assert!(p.auctions(auction_key).is_none());
    assert!(p.bids(auction_key, (0, 0)).is_none());
}

#[test]
fn dispute_arbitrate() {
    let mut p = setup();
    // non existing auction
    assert_eq!(p.dispute(0xC, (0, 0)), Err(Error::AuctionKeyNotFound));
    assert_eq!(p.arbitrate(0xC, (0, 0), false), Err(Error::AuctionKeyNotFound));
    let deposit = 500;
    let pay = 800;
    assert!(p.create(0xA, 0xB, 1000, deposit, 5, vec![0; 8]).is_ok());
    let auction_key = created_key(&p);
    // cannot dispute an auction with no bids
    assert_eq!(p.dispute(0xA, auction_key), Err(Error::AuctionNotAssigned));
    // cannot arbitrate an auction that is not in dispute
    assert_eq!(p.arbitrate(0xB, auction_key, false), Err(Error::AuctionNotDisputed));
    // make a bid
    assert!(p.bid(0xC, auction_key, pay).is_ok());

    // only owner or bidder can dispute
    assert_eq!(p.dispute(0xB, auction_key), Err(Error::OriginProhibited));
    // only arbitrator can arbitrate
    assert_eq!(p.arbitrate(0xC, auction_key, false), Err(Error::OriginProhibited));
    // cannot dispute an auction that has not been assigned
    assert_eq!(p.dispute(0xC, auction_key), Err(Error::AuctionNotAssigned));
    // wait until auction is assigned
    p.set_block_number(10);

    // cannot arbitrate an auction that is not in dispute
    assert_eq!(p.arbitrate(0xB, auction_key, false), Err(Error::AuctionNotDisputed));
    // dispute auction
    assert!(p.dispute(0xC, auction_key).is_ok());

    // cannot dispute an auction that is already disputed
    assert_eq!(p.dispute(0xA, auction_key), Err(Error::AuctionDisputed));

    // successful arbitration, task fulfilled:
    // owner pays bidder and loses deposit to arbitrator
    assert!(p.arbitrate(0xB, auction_key, true).is_ok());
    assert_eq!(p.reserved_balance(0xA), 0);
    assert_eq!(p.reserved_balance(0xB), 0);
    assert_eq!(p.reserved_balance(0xC), 0);
    assert_eq!(p.free_balance(0xA), 10000 - deposit - pay);
    assert_eq!(p.free_balance(0xB), 10000 + deposit);
    assert_eq!(p.free_balance(0xC), 10000 + pay);
    assert!(p.auctions(auction_key).is_none());
    assert!(p.bids(auction_key, (0, 0)).is_none());
}

#[test]
fn dispute_arbitrate_veto() {
    let mut p = setup();
    let deposit = 500;
    assert!(p.create(0xA, 0xB, 1000, deposit, 5, vec![0; 8]).is_ok());
    let auction_key = created_key(&p);
    // make a bid
    assert!(p.bid(0xC, auction_key, 800).is_ok());
    // wait until auction is assigned
    p.set_block_number(10);
    // dispute auction
    assert!(p.dispute(0xA, auction_key).is_ok());
    // successful arbitration, task not fulfilled:
    // owner doesn't pay bidder and bidder loses deposit to arbitrator
    assert!(p.arbitrate(0xB, auction_key, false).is_ok());
    assert_eq!(p.reserved_balance(0xA), 0);
    assert_eq!(p.reserved_balance(0xB), 0);
    assert_eq!(p.reserved_balance(0xC), 0);
    assert_eq!(p.free_balance(0xA), 10000);
    assert_eq!(p.free_balance(0xB), 10000 + deposit);
    assert_eq!(p.free_balance(0xC), 10000 - deposit);
    assert!(p.auctions(auction_key).is_none());
    assert!(p.bids(auction_key, (0, 0)).is_none());
}
