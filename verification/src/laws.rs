//! Engine-wide laws, proved once and for all.
//!
//! Fund conservation is stated directly on the commands: every command of
//! [`Pallet`] ensures `final(self).total_supply() == old(self).total_supply()`,
//! so no trace of commands and block advances mints or burns funds; the
//! settling commands only move them between accounts. The laws below cover
//! what a single command's contract cannot say by itself.

use crate::auction::{
    is_assigned_spec, lemma_base_price_monotonic, AccountId, AuctionView, Balance, BlockNumber,
    Key,
};
use crate::engine::{
    lemma_slot_lookup_index, lemma_slot_ob_le_oblig, oblig, slot_inv, slot_lookup, slot_ob,
    Pallet,
};
use crate::stack::lemma_stack_strictly_decreasing;
use vstd::prelude::*;

verus! {

/// Reserve coherence: while an auction lives, its owner keeps at least
/// `bounty + deposit` reserved, and its current top bidder (if any) keeps
/// at least `deposit` reserved.
pub proof fn lemma_reserve_coherence(p: Pallet, auction_key: Key)
    requires
        p.wf(),
        p.has_auction(auction_key),
    ensures
        p.reserved_of(auction_key.0) >= p.record_of(auction_key)->Some_0.bounty + p.record_of(
            auction_key,
        )->Some_0.deposit,
        p.stack_of(auction_key).len() > 0 ==> p.reserved_of(
            p.stack_of(auction_key).last().bidder,
        ) >= p.record_of(auction_key)->Some_0.deposit,
{
    lemma_slot_lookup_index(p.slots@, auction_key);
    let i = choose|i: int|
        0 <= i < p.slots@.len() && #[trigger] p.slots@[i] == slot_lookup(
            p.slots@,
            auction_key,
        )->Some_0 && p.slots@[i].key == auction_key;
    let sl = p.slots@[i];
    lemma_slot_ob_le_oblig(p.slots@, i, auction_key.0);
    assert(p.ledger.reserved_of(auction_key.0) >= oblig(p.slots@, auction_key.0));
    if sl.stack@.len() > 0 {
        let w = sl.stack@.last().bidder;
        lemma_slot_ob_le_oblig(p.slots@, i, w);
        assert(p.ledger.reserved_of(w) >= oblig(p.slots@, w));
        assert(slot_ob(sl, w) >= sl.auction.deposit);
    }
}

/// Bid-stack monotonicity: along the chain from the top down to the
/// sentinel, prices rise strictly — equivalently, every later bid strictly
/// undercuts every earlier one.
pub proof fn lemma_bid_stack_monotone(p: Pallet, auction_key: Key, i: int, j: int)
    requires
        p.wf(),
        0 <= i < j < p.stack_of(auction_key).len(),
    ensures
        p.stack_of(auction_key)[j].price < p.stack_of(auction_key)[i].price,
{
    lemma_slot_lookup_index(p.slots@, auction_key);
    let n = choose|n: int|
        0 <= n < p.slots@.len() && #[trigger] p.slots@[n] == slot_lookup(
            p.slots@,
            auction_key,
        )->Some_0 && p.slots@[n].key == auction_key;
    assert(slot_inv(p.config, p.slots@[n]));
    lemma_stack_strictly_decreasing(p.stack_of(auction_key), i, j);
}

/// Uniqueness: no two live auctions share an `auction_key`. (That a fresh
/// `create` never collides is part of its contract: `create_post` states
/// that the key was absent before.)
pub proof fn lemma_auction_keys_unique(p: Pallet, i: int, j: int)
    requires
        p.wf(),
        0 <= i < j < p.slots@.len(),
    ensures
        p.slots@[i].key != p.slots@[j].key,
{
}

/// Assignment is monotone in time: once a price is binding for a record,
/// it stays binding at every later block while `bounty`, `initial_block`
/// and `terminal_block` are unchanged.
pub proof fn lemma_assignment_monotonic(
    a: AuctionView,
    price: Balance,
    t1: BlockNumber,
    t2: BlockNumber,
)
    requires
        t1 <= t2,
        is_assigned_spec(a, price, t1),
    ensures
        is_assigned_spec(a, price, t2),
{
    lemma_base_price_monotonic(a, t1, t2);
}

/// Round trip: a `create` followed immediately by a `cancel` (no bids in
/// between) is owed success and leaves every account's balances exactly as
/// they were.
pub proof fn lemma_create_cancel_round_trip(
    before: Pallet,
    created: Pallet,
    cancelled: Pallet,
    owner: AccountId,
    arbitrator: AccountId,
    bounty: Balance,
    deposit: Balance,
    terminal_block: BlockNumber,
    data: Seq<u8>,
)
    requires
        Pallet::create_post(before, created, owner, arbitrator, bounty, deposit, terminal_block, data),
        Pallet::cancel_post(created, cancelled, (owner, before.nonce_of(owner))),
    ensures
        Pallet::cancel_check(created, owner, (owner, before.nonce_of(owner))) == Ok::<(), crate::engine::Error>(()),
        forall|x: AccountId| #[trigger] cancelled.free_of(x) == before.free_of(x),
        forall|x: AccountId| #[trigger] cancelled.reserved_of(x) == before.reserved_of(x),
        !cancelled.has_auction((owner, before.nonce_of(owner))),
{
    let key = (owner, before.nonce_of(owner));
    assert(created.stack_of(key).len() == 0);
    assert forall|x: AccountId| #[trigger] cancelled.free_of(x) == before.free_of(x) by {
        assert(cancelled.free_of(x) as int == created.free_of(x) + (if x == owner {
            bounty + deposit
        } else {
            0int
        }));
        if x != owner {
            assert(created.free_of(x) == before.free_of(x));
        }
    }
    assert forall|x: AccountId| #[trigger] cancelled.reserved_of(x) == before.reserved_of(x) by {
        assert(cancelled.reserved_of(x) as int == created.reserved_of(x) - (if x == owner {
            bounty + deposit
        } else {
            0int
        }));
        if x != owner {
            assert(created.free_of(x) == before.free_of(x) && created.reserved_of(x) == before.reserved_of(x));
        }
    }
}

} // verus!
