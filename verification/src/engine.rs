//! The escrow state machine.
//!
//! [`Pallet`] bundles the auction registry, the per-auction bid stacks, the
//! balance ledger, the per-account nonces and the event log, together with
//! the block height that the host advances. Eight commands (`create`,
//! `extend`, `bid`, `retract`, `confirm`, `cancel`, `dispute`, `arbitrate`)
//! drive it; each one validates first and mutates only after every check has
//! passed, so a command that fails returns its error with the whole state
//! untouched.
//!
//! The well-formedness invariant [`Pallet::wf`] ties the pieces together:
//! while an auction lives, its owner keeps at least `bounty + deposit`
//! reserved and its top bidder (if any) at least `deposit`, summed over all
//! auctions an account is involved in; bid prices fall strictly from the
//! bottom of each stack to its top and never exceed the bounty; a disputed
//! auction always has a top bid; and live auction keys are unique, each
//! below its owner's next nonce.

use crate::auction::{
    is_assigned_spec, AccountId, Auction, AuctionView, Balance,
    BlockNumber, Key, SeqNum,
};
use crate::ledger::Ledger;
use crate::stack::{
    bid_entry_spec, bid_key_at, lemma_stack_strictly_decreasing, stack_wf, Bid, BidStack,
};
use vstd::prelude::*;

verus! {

/// Engine-wide limits, fixed at instantiation.
#[derive(Clone, Copy)]
pub struct Config {
    /// Least bounty an auction may be created with.
    pub min_bounty: Balance,
    /// Least per-party deposit an auction may be created with.
    pub min_deposit: Balance,
    /// Largest accepted length of the attached data blob.
    pub max_data_size: usize,
}

/// Why a command was refused. Every failure leaves the state unchanged.
#[derive(Clone, Copy, Debug, PartialEq, Eq)]
pub enum Error {
    /// The referenced key has no record.
    AuctionKeyNotFound,
    /// The operation requires an unassigned state, but the top bid is
    /// already binding.
    AuctionAssigned,
    /// The operation requires an assigned state: there is no top bid, or it
    /// is not yet binding.
    AuctionNotAssigned,
    /// The operation is forbidden while the auction is disputed, or a
    /// dispute was raised twice.
    AuctionDisputed,
    /// Arbitration was requested on an auction that is not in dispute.
    AuctionNotDisputed,
    /// The bounty is below the minimum, or an extension did not raise it.
    MinBountyRequired,
    /// The deposit is below the minimum.
    MinDepositRequired,
    /// The new bid does not undercut the current top, or a first bid
    /// exceeds the bounty.
    MinBidRatioRequired,
    /// The attached data blob is too large.
    MaxDataSizeExceeded,
    /// Retraction needs an existing top bid owned by the caller.
    TopBidRequired,
    /// Only the auction's owner may do this.
    OwnerRequired,
    /// The signer is structurally barred: the owner or arbitrator bidding,
    /// or a third party disputing.
    OriginProhibited,
    /// The ledger could not reserve the required funds.
    InsufficientBalance,
}

/// One event per successful command.
#[derive(Clone, Copy, Debug, PartialEq, Eq)]
pub enum Event {
    Created { auction_key: Key, bounty: Balance, terminal_block: BlockNumber },
    Extended { auction_key: Key, bounty: Balance, terminal_block: BlockNumber },
    Bid { auction_key: Key, bid_key: Key, price: Balance },
    /// `bid_key` names the new top after the retraction, or the sentinel
    /// `(0, 0)` when the stack emptied; `price` is the new effective top
    /// price (the bounty when the stack emptied).
    Retracted { auction_key: Key, bid_key: Key, price: Balance },
    Confirmed { auction_key: Key },
    Cancelled { auction_key: Key },
    Disputed { auction_key: Key },
    Arbitrated { auction_key: Key, fulfilled: bool },
}

/// A live auction: its key, its record and its bid stack, whose lifetimes
/// coincide.
pub struct Slot {
    pub key: Key,
    pub auction: Auction,
    pub stack: BidStack,
}

/// The record found under `k`, if any: the registry lookup.
pub open spec fn slot_lookup(s: Seq<Slot>, k: Key) -> Option<Slot>
    decreases s.len(),
{
    if s.len() == 0 {
        None
    } else if s.last().key == k {
        Some(s.last())
    } else {
        slot_lookup(s.drop_last(), k)
    }
}

/// No two live auctions share a key.
pub open spec fn unique_keys(s: Seq<Slot>) -> bool {
    forall|i: int, j: int|
        #![trigger s[i].key, s[j].key]
        0 <= i < j < s.len() ==> s[i].key != s[j].key
}

proof fn lemma_slots_unique_drop_last(s: Seq<Slot>)
    requires
        unique_keys(s),
        s.len() > 0,
    ensures
        unique_keys(s.drop_last()),
{
    assert forall|i: int, j: int|
        0 <= i < j < s.drop_last().len() implies #[trigger] s.drop_last()[i].key != #[trigger] s.drop_last()[j].key by {
        assert(s.drop_last()[i] == s[i]);
        assert(s.drop_last()[j] == s[j]);
    }
}

/// With unique keys, the lookup of an indexed slot's key finds that slot.
pub proof fn lemma_slot_at(s: Seq<Slot>, i: int)
    requires
        unique_keys(s),
        0 <= i < s.len(),
    ensures
        slot_lookup(s, s[i].key) == Some(s[i]),
    decreases s.len(),
{
    if i == s.len() - 1 {
    } else {
        assert(s.last().key != s[i].key);
        lemma_slots_unique_drop_last(s);
        assert(s.drop_last()[i] == s[i]);
        lemma_slot_at(s.drop_last(), i);
    }
}

/// A key named by no slot finds nothing.
pub proof fn lemma_slot_absent(s: Seq<Slot>, k: Key)
    requires
        forall|i: int| 0 <= i < s.len() ==> #[trigger] s[i].key != k,
    ensures
        slot_lookup(s, k).is_none(),
    decreases s.len(),
{
    if s.len() > 0 {
        assert(s.last() == s[s.len() - 1]);
        assert forall|i: int| 0 <= i < s.drop_last().len() implies #[trigger] s.drop_last()[i].key != k by {
            assert(s.drop_last()[i] == s[i]);
        }
        lemma_slot_absent(s.drop_last(), k);
    }
}

/// Replacing the slot at `i` by one with the same key changes the lookup
/// only at that key.
pub proof fn lemma_slot_update(s: Seq<Slot>, i: int, x: Slot)
    requires
        unique_keys(s),
        0 <= i < s.len(),
        x.key == s[i].key,
    ensures
        unique_keys(s.update(i, x)),
        forall|k: Key| #![trigger slot_lookup(s.update(i, x), k)]
            slot_lookup(s.update(i, x), k) == if k == x.key {
                Some(x)
            } else {
                slot_lookup(s, k)
            },
    decreases s.len(),
{
    let t = s.update(i, x);
    assert forall|a: int, b: int| 0 <= a < b < t.len() implies #[trigger] t[a].key
        != #[trigger] t[b].key by {
        assert(s[a].key != s[b].key);
    }
    if i == s.len() - 1 {
        assert(t.drop_last() =~= s.drop_last());
        assert(t.last() == x);
    } else {
        assert(t.last() == s.last());
        assert(t.drop_last() =~= s.drop_last().update(i, x));
        assert(s.drop_last()[i] == s[i]);
        lemma_slots_unique_drop_last(s);
        lemma_slot_update(s.drop_last(), i, x);
        assert(s.last().key != x.key);
        assert forall|k: Key| #[trigger] slot_lookup(t, k) == (if k == x.key {
            Some(x)
        } else {
            slot_lookup(s, k)
        }) by {
            if t.last().key != k {
                assert(slot_lookup(t, k) == slot_lookup(t.drop_last(), k));
            }
        }
    }
}

/// Appending a slot with a fresh key changes the lookup only at that key.
pub proof fn lemma_slot_push(s: Seq<Slot>, x: Slot)
    requires
        unique_keys(s),
        forall|i: int| 0 <= i < s.len() ==> #[trigger] s[i].key != x.key,
    ensures
        unique_keys(s.push(x)),
        forall|k: Key| #![trigger slot_lookup(s.push(x), k)]
            slot_lookup(s.push(x), k) == if k == x.key {
                Some(x)
            } else {
                slot_lookup(s, k)
            },
{
    let t = s.push(x);
    assert(t.drop_last() =~= s);
    assert(t.last() == x);
    assert forall|a: int, b: int| 0 <= a < b < t.len() implies #[trigger] t[a].key
        != #[trigger] t[b].key by {
        if b < t.len() - 1 {
            assert(s[a].key != s[b].key);
        } else {
            assert(t[a] == s[a]);
        }
    }
}

/// Removing the slot at `i` erases exactly its key from the lookup.
pub proof fn lemma_slot_remove(s: Seq<Slot>, i: int)
    requires
        unique_keys(s),
        0 <= i < s.len(),
    ensures
        unique_keys(s.remove(i)),
        forall|k: Key| #![trigger slot_lookup(s.remove(i), k)]
            slot_lookup(s.remove(i), k) == if k == s[i].key {
                None
            } else {
                slot_lookup(s, k)
            },
    decreases s.len(),
{
    let t = s.remove(i);
    assert forall|a: int, b: int| 0 <= a < b < t.len() implies #[trigger] t[a].key
        != #[trigger] t[b].key by {
        let a0 = if a < i { a } else { a + 1 };
        let b0 = if b < i { b } else { b + 1 };
        assert(t[a] == s[a0]);
        assert(t[b] == s[b0]);
        assert(s[a0].key != s[b0].key);
    }
    if i == s.len() - 1 {
        assert(t =~= s.drop_last());
        assert forall|k: Key| #[trigger] slot_lookup(t, k) == (if k == s[i].key {
            None::<Slot>
        } else {
            slot_lookup(s, k)
        }) by {
            if k == s[i].key {
                lemma_slots_unique_drop_last(s);
                assert forall|j: int| 0 <= j < t.len() implies #[trigger] t[j].key != k by {
                    assert(t[j] == s[j]);
                    assert(s[j].key != s[i].key);
                }
                lemma_slot_absent(t, k);
            }
        }
    } else {
        assert(t.last() == s.last());
        assert(t.drop_last() =~= s.drop_last().remove(i));
        assert(s.drop_last()[i] == s[i]);
        lemma_slots_unique_drop_last(s);
        lemma_slot_remove(s.drop_last(), i);
        assert forall|k: Key| #[trigger] slot_lookup(t, k) == (if k == s[i].key {
            None::<Slot>
        } else {
            slot_lookup(s, k)
        }) by {
            if t.last().key == k {
                assert(s.last().key == k);
                assert(s[i].key != k);
            } else {
                assert(slot_lookup(t, k) == slot_lookup(t.drop_last(), k));
                assert(slot_lookup(s, k) == slot_lookup(s.drop_last(), k));
            }
        }
    }
}

/// The next nonce recorded for `a`; zero when none is recorded yet.
pub open spec fn nonce_in(s: Seq<(AccountId, SeqNum)>, a: AccountId) -> SeqNum
    decreases s.len(),
{
    if s.len() == 0 {
        0
    } else if s.last().0 == a {
        s.last().1
    } else {
        nonce_in(s.drop_last(), a)
    }
}

/// No account is recorded twice in the nonce list.
pub open spec fn unique_nonces(s: Seq<(AccountId, SeqNum)>) -> bool {
    forall|i: int, j: int|
        #![trigger s[i].0, s[j].0]
        0 <= i < j < s.len() ==> s[i].0 != s[j].0
}

proof fn lemma_nonces_unique_drop_last(s: Seq<(AccountId, SeqNum)>)
    requires
        unique_nonces(s),
        s.len() > 0,
    ensures
        unique_nonces(s.drop_last()),
{
    assert forall|i: int, j: int|
        0 <= i < j < s.drop_last().len() implies #[trigger] s.drop_last()[i].0 != #[trigger] s.drop_last()[j].0 by {
        assert(s.drop_last()[i] == s[i]);
        assert(s.drop_last()[j] == s[j]);
    }
}

/// With unique accounts, the recorded nonce at index `i` is what the lookup
/// returns.
pub proof fn lemma_nonce_at(s: Seq<(AccountId, SeqNum)>, i: int)
    requires
        unique_nonces(s),
        0 <= i < s.len(),
    ensures
        nonce_in(s, s[i].0) == s[i].1,
    decreases s.len(),
{
    if i == s.len() - 1 {
    } else {
        assert(s.last().0 != s[i].0);
        lemma_nonces_unique_drop_last(s);
        assert(s.drop_last()[i] == s[i]);
        lemma_nonce_at(s.drop_last(), i);
    }
}

/// An account with no recorded nonce looks up as zero.
pub proof fn lemma_nonce_absent(s: Seq<(AccountId, SeqNum)>, a: AccountId)
    requires
        forall|i: int| 0 <= i < s.len() ==> #[trigger] s[i].0 != a,
    ensures
        nonce_in(s, a) == 0,
    decreases s.len(),
{
    if s.len() > 0 {
        assert(s.last() == s[s.len() - 1]);
        assert forall|i: int| 0 <= i < s.drop_last().len() implies #[trigger] s.drop_last()[i].0 != a by {
            assert(s.drop_last()[i] == s[i]);
        }
        lemma_nonce_absent(s.drop_last(), a);
    }
}

/// Replacing the record at `i` for the same account changes the lookup only
/// there.
pub proof fn lemma_nonce_update(s: Seq<(AccountId, SeqNum)>, i: int, x: (AccountId, SeqNum))
    requires
        unique_nonces(s),
        0 <= i < s.len(),
        x.0 == s[i].0,
    ensures
        unique_nonces(s.update(i, x)),
        forall|a: AccountId| #![trigger nonce_in(s.update(i, x), a)]
            nonce_in(s.update(i, x), a) == if a == x.0 {
                x.1
            } else {
                nonce_in(s, a)
            },
    decreases s.len(),
{
    let t = s.update(i, x);
    assert forall|a: int, b: int| 0 <= a < b < t.len() implies #[trigger] t[a].0
        != #[trigger] t[b].0 by {
        assert(s[a].0 != s[b].0);
    }
    if i == s.len() - 1 {
        assert(t.drop_last() =~= s.drop_last());
        assert(t.last() == x);
        lemma_nonce_at(s, i);
    } else {
        assert(t.last() == s.last());
        assert(t.drop_last() =~= s.drop_last().update(i, x));
        assert(s.drop_last()[i] == s[i]);
        lemma_nonces_unique_drop_last(s);
        lemma_nonce_update(s.drop_last(), i, x);
        assert(s.last().0 != x.0);
        assert forall|a: AccountId| #[trigger] nonce_in(t, a) == (if a == x.0 {
            x.1
        } else {
            nonce_in(s, a)
        }) by {
            if t.last().0 != a {
                assert(nonce_in(t, a) == nonce_in(t.drop_last(), a));
            }
        }
    }
}

/// Appending a record for a fresh account changes the lookup only there.
pub proof fn lemma_nonce_push(s: Seq<(AccountId, SeqNum)>, x: (AccountId, SeqNum))
    requires
        unique_nonces(s),
        forall|i: int| 0 <= i < s.len() ==> #[trigger] s[i].0 != x.0,
    ensures
        unique_nonces(s.push(x)),
        forall|a: AccountId| #![trigger nonce_in(s.push(x), a)]
            nonce_in(s.push(x), a) == if a == x.0 {
                x.1
            } else {
                nonce_in(s, a)
            },
{
    let t = s.push(x);
    assert(t.drop_last() =~= s);
    assert(t.last() == x);
    assert forall|a: int, b: int| 0 <= a < b < t.len() implies #[trigger] t[a].0
        != #[trigger] t[b].0 by {
        if b < t.len() - 1 {
            assert(s[a].0 != s[b].0);
        } else {
            assert(t[a] == s[a]);
        }
    }
}

/// What one slot obliges the account `a` to keep reserved: `bounty +
/// deposit` for the owner, plus `deposit` when `a` is the current top
/// bidder.
pub open spec fn slot_ob(sl: Slot, a: AccountId) -> nat {
    (if sl.key.0 == a {
        (sl.auction.bounty + sl.auction.deposit) as nat
    } else {
        0
    }) + (if sl.stack@.len() > 0 && sl.stack@.last().bidder == a {
        sl.auction.deposit as nat
    } else {
        0
    })
}

/// What all live auctions together oblige `a` to keep reserved.
pub open spec fn oblig(s: Seq<Slot>, a: AccountId) -> nat
    decreases s.len(),
{
    if s.len() == 0 {
        0
    } else {
        oblig(s.drop_last(), a) + slot_ob(s.last(), a)
    }
}

/// Replacing the slot at `i` shifts every account's obligation by the
/// difference of the two slots' contributions.
pub proof fn lemma_oblig_update(s: Seq<Slot>, i: int, x: Slot)
    requires
        0 <= i < s.len(),
    ensures
        forall|a: AccountId| #![trigger oblig(s.update(i, x), a)]
            oblig(s.update(i, x), a) + slot_ob(s[i], a) == oblig(s, a) + slot_ob(x, a),
    decreases s.len(),
{
    let t = s.update(i, x);
    if i == s.len() - 1 {
        assert(t.drop_last() =~= s.drop_last());
        assert(t.last() == x);
    } else {
        assert(t.last() == s.last());
        assert(t.drop_last() =~= s.drop_last().update(i, x));
        assert(s.drop_last()[i] == s[i]);
        lemma_oblig_update(s.drop_last(), i, x);
        assert forall|a: AccountId| #[trigger] oblig(t, a) + slot_ob(s[i], a) == oblig(s, a)
            + slot_ob(x, a) by {
            assert(oblig(t, a) == oblig(t.drop_last(), a) + slot_ob(t.last(), a));
            assert(oblig(t.drop_last(), a) + slot_ob(s[i], a) == oblig(s.drop_last(), a)
                + slot_ob(x, a));
            assert(oblig(s, a) == oblig(s.drop_last(), a) + slot_ob(s.last(), a));
        }
    }
}

/// Appending a slot adds its contribution to every account's obligation.
pub proof fn lemma_oblig_push(s: Seq<Slot>, x: Slot)
    ensures
        forall|a: AccountId| #![trigger oblig(s.push(x), a)]
            oblig(s.push(x), a) == oblig(s, a) + slot_ob(x, a),
{
    assert(s.push(x).drop_last() =~= s);
    assert(s.push(x).last() == x);
}

/// Removing the slot at `i` subtracts its contribution from every account's
/// obligation.
pub proof fn lemma_oblig_remove(s: Seq<Slot>, i: int)
    requires
        0 <= i < s.len(),
    ensures
        forall|a: AccountId| #![trigger oblig(s.remove(i), a)]
            oblig(s.remove(i), a) + slot_ob(s[i], a) == oblig(s, a),
    decreases s.len(),
{
    let t = s.remove(i);
    if i == s.len() - 1 {
        assert(t =~= s.drop_last());
    } else {
        assert(t.last() == s.last());
        assert(t.drop_last() =~= s.drop_last().remove(i));
        assert(s.drop_last()[i] == s[i]);
        lemma_oblig_remove(s.drop_last(), i);
        assert forall|a: AccountId| #[trigger] oblig(t, a) + slot_ob(s[i], a) == oblig(s, a) by {
            assert(oblig(t, a) == oblig(t.drop_last(), a) + slot_ob(t.last(), a));
            assert(oblig(t.drop_last(), a) + slot_ob(s[i], a) == oblig(s.drop_last(), a));
            assert(oblig(s, a) == oblig(s.drop_last(), a) + slot_ob(s.last(), a));
        }
    }
}

/// One slot's contribution never exceeds the account's total obligation.
pub proof fn lemma_slot_ob_le_oblig(s: Seq<Slot>, i: int, a: AccountId)
    requires
        0 <= i < s.len(),
    ensures
        slot_ob(s[i], a) <= oblig(s, a),
    decreases s.len(),
{
    if i == s.len() - 1 {
    } else {
        assert(s.drop_last()[i] == s[i]);
        lemma_slot_ob_le_oblig(s.drop_last(), i, a);
    }
}

/// A successful lookup names a slot that sits at some index.
pub proof fn lemma_slot_lookup_index(s: Seq<Slot>, k: Key)
    requires
        slot_lookup(s, k).is_some(),
    ensures
        exists|i: int|
            0 <= i < s.len() && #[trigger] s[i] == slot_lookup(s, k)->Some_0 && s[i].key == k,
    decreases s.len(),
{
    if s.last().key == k {
        assert(s[s.len() - 1] == slot_lookup(s, k)->Some_0);
    } else {
        lemma_slot_lookup_index(s.drop_last(), k);
        let i = choose|i: int|
            0 <= i < s.drop_last().len() && #[trigger] s.drop_last()[i] == slot_lookup(
                s.drop_last(),
                k,
            )->Some_0 && s.drop_last()[i].key == k;
        assert(s[i] == s.drop_last()[i]);
    }
}

/// Free balance of `x` once a retracting top bidder's deposit has been
/// released and, when the retracted bid was already binding, the penalty
/// has been paid to the owner.
pub open spec fn free_after_retract(
    pre: Pallet,
    bidder: AccountId,
    owner: AccountId,
    d: Balance,
    penalized: bool,
    x: AccountId,
) -> int {
    pre.free_of(x) + (if x == bidder {
        d as int
    } else {
        0
    }) - (if penalized && x == bidder {
        d as int
    } else {
        0
    }) + (if penalized && x == owner {
        d as int
    } else {
        0
    })
}

/// How many of the remaining bids survive a retraction's descent: entries
/// are popped from the top until one is reached whose bidder can still post
/// the deposit out of free funds; everything above it goes.
pub open spec fn surviving_len(
    pre: Pallet,
    bidder: AccountId,
    owner: AccountId,
    d: Balance,
    penalized: bool,
    st: Seq<Bid>,
) -> nat
    decreases st.len(),
{
    if st.len() == 0 {
        0
    } else if free_after_retract(pre, bidder, owner, d, penalized, st.last().bidder) >= d {
        st.len()
    } else {
        surviving_len(pre, bidder, owner, d, penalized, st.drop_last())
    }
}

/// Removing a slot keeps every remaining slot's invariant and nonce bound.
proof fn lemma_slots_remove_frames(
    s: Seq<Slot>,
    i: int,
    cfg: Config,
    ns: Seq<(AccountId, SeqNum)>,
)
    requires
        0 <= i < s.len(),
        forall|j: int| 0 <= j < s.len() ==> slot_inv(cfg, #[trigger] s[j]),
        forall|j: int|
            0 <= j < s.len() ==> (#[trigger] s[j].key).1 < nonce_in(ns, s[j].key.0),
    ensures
        forall|j: int| 0 <= j < s.remove(i).len() ==> slot_inv(cfg, #[trigger] s.remove(i)[j]),
        forall|j: int|
            0 <= j < s.remove(i).len() ==> (#[trigger] s.remove(i)[j].key).1 < nonce_in(
                ns,
                s.remove(i)[j].key.0,
            ),
{
    let t = s.remove(i);
    assert forall|j: int| 0 <= j < t.len() implies slot_inv(cfg, #[trigger] t[j]) && t[j].key.1
        < nonce_in(ns, t[j].key.0) by {
        let j0 = if j < i {
            j
        } else {
            j + 1
        };
        assert(t[j] == s[j0]);
        assert(slot_inv(cfg, s[j0]));
        assert(s[j0].key.1 < nonce_in(ns, s[j0].key.0));
    }
}

/// Everything a slot must satisfy while it lives.
pub open spec fn slot_inv(cfg: Config, sl: Slot) -> bool {
    &&& stack_wf(sl.stack@)
    &&& sl.auction.bounty >= cfg.min_bounty
    &&& sl.auction.deposit >= cfg.min_deposit
    &&& sl.auction.data@.len() <= cfg.max_data_size
    &&& (sl.stack@.len() > 0 ==> sl.stack@[0].price <= sl.auction.bounty)
    &&& (sl.auction.in_dispute ==> sl.stack@.len() > 0)
    &&& forall|i: int|
        0 <= i < sl.stack@.len() ==> #[trigger] sl.stack@[i].bidder != sl.key.0
            && sl.stack@[i].bidder != sl.auction.arbitrator
}

/// The escrow engine: registry, bid stacks, ledger, nonces, events and the
/// host-advanced block height.
pub struct Pallet {
    pub config: Config,
    pub now: BlockNumber,
    pub ledger: Ledger,
    pub slots: Vec<Slot>,
    pub nonces: Vec<(AccountId, SeqNum)>,
    pub events: Vec<Event>,
}

impl Pallet {
    /// The record stored under `k`, if any.
    pub open spec fn record_of(self, k: Key) -> Option<AuctionView> {
        match slot_lookup(self.slots@, k) {
            Some(sl) => Some(sl.auction@),
            None => None,
        }
    }

    /// The bid stack stored under `k`, bottom to top; empty when the
    /// auction is absent.
    pub open spec fn stack_of(self, k: Key) -> Seq<Bid> {
        match slot_lookup(self.slots@, k) {
            Some(sl) => sl.stack@,
            None => Seq::empty(),
        }
    }

    /// Whether an auction lives under `k`.
    pub open spec fn has_auction(self, k: Key) -> bool {
        slot_lookup(self.slots@, k).is_some()
    }

    /// Whether the ledger carries an entry for `a`.
    pub open spec fn has_account(self, a: AccountId) -> bool {
        self.ledger.has_account(a)
    }

    /// Free balance of `a`.
    pub open spec fn free_of(self, a: AccountId) -> nat {
        self.ledger.free_of(a)
    }

    /// Reserved balance of `a`.
    pub open spec fn reserved_of(self, a: AccountId) -> nat {
        self.ledger.reserved_of(a)
    }

    /// The nonce the next auction created by `a` will carry.
    pub open spec fn nonce_of(self, a: AccountId) -> SeqNum {
        nonce_in(self.nonces@, a)
    }

    /// Total funds over all accounts, free plus reserved.
    pub open spec fn total_supply(self) -> nat {
        self.ledger.total_supply()
    }

    /// The engine's invariant; every command preserves it.
    pub open spec fn wf(self) -> bool {
        &&& self.ledger.wf()
        &&& unique_keys(self.slots@)
        &&& unique_nonces(self.nonces@)
        &&& forall|i: int| 0 <= i < self.slots@.len() ==> slot_inv(self.config, #[trigger] self.slots@[i])
        &&& forall|i: int|
            0 <= i < self.slots@.len() ==> (#[trigger] self.slots@[i].key).1 < nonce_in(
                self.nonces@,
                self.slots@[i].key.0,
            )
        &&& forall|a: AccountId| self.ledger.reserved_of(a) >= #[trigger] oblig(self.slots@, a)
    }

    /// A fresh engine: no accounts, no auctions, no events, block zero.
    pub fn new(config: Config) -> (r: Pallet)
        ensures
            r.wf(),
            r.config == config,
            r.now == 0,
            r.total_supply() == 0,
            forall|a: AccountId| #[trigger] r.free_of(a) == 0,
            forall|a: AccountId| #[trigger] r.reserved_of(a) == 0,
            forall|a: AccountId| #[trigger] r.nonce_of(a) == 0,
            forall|a: AccountId| !#[trigger] r.has_account(a),
            forall|k: Key| !#[trigger] r.has_auction(k),
            r.events@ =~= Seq::<Event>::empty(),
    {
        Pallet {
            config,
            now: 0,
            ledger: Ledger::new(),
            slots: Vec::new(),
            nonces: Vec::new(),
            events: Vec::new(),
        }
    }

    /// Create the account `a` with an initial free endowment; refused when
    /// the account exists or the total supply would overflow.
    pub fn endow(&mut self, a: AccountId, amount: Balance) -> (ok: bool)
        requires
            old(self).wf(),
        ensures
            final(self).wf(),
            ok == (!old(self).has_account(a) && old(self).total_supply() + amount <= u64::MAX),
            ok ==> final(self).free_of(a) == amount && final(self).reserved_of(a) == 0
                && final(self).total_supply() == old(self).total_supply() + amount,
            ok ==> forall|b: AccountId|
                b != a ==> #[trigger] final(self).free_of(b) == old(self).free_of(b)
                    && final(self).reserved_of(b) == old(self).reserved_of(b),
            !ok ==> *final(self) == *old(self),
            ok ==> final(self).has_account(a),
            forall|b: AccountId|
                b != a ==> #[trigger] final(self).has_account(b) == old(self).has_account(b),
            forall|k: Key| #[trigger] final(self).record_of(k) == old(self).record_of(k),
            forall|k: Key| #[trigger] final(self).stack_of(k) == old(self).stack_of(k),
            forall|x: AccountId| #[trigger] final(self).nonce_of(x) == old(self).nonce_of(x),
            final(self).events == old(self).events,
            final(self).now == old(self).now,
            final(self).config == old(self).config,
    {
        let ok = self.ledger.endow(a, amount);
        proof {
            if ok {
                crate::ledger::lemma_no_account_no_balance(old(self).ledger.entries@, a);
                assert forall|b: AccountId| self.ledger.reserved_of(b) >= #[trigger] oblig(
                    self.slots@,
                    b,
                ) by {
                    assert(oblig(self.slots@, b) == oblig(old(self).slots@, b));
                    assert(old(self).ledger.reserved_of(b) >= oblig(old(self).slots@, b));
                    if b != a {
                        assert(self.ledger.free_of(b) == old(self).ledger.free_of(b)
                            && self.ledger.reserved_of(b) == old(self).ledger.reserved_of(b));
                    } else {
                        assert(old(self).ledger.reserved_of(a) == 0);
                        assert(self.ledger.reserved_of(a) == 0);
                    }
                }
            }
        }
        ok
    }

    /// Read the block height last set by the host.
    pub fn block_number(&self) -> (r: BlockNumber)
        ensures
            r == self.now,
    {
        self.now
    }

    /// The host advances (or, in tests, rewinds) the clock. No storage or
    /// ledger cell changes; assignment is re-derived on the next read.
    pub fn set_block_number(&mut self, n: BlockNumber)
        requires
            old(self).wf(),
        ensures
            final(self).wf(),
            final(self).now == n,
            final(self).ledger == old(self).ledger,
            final(self).total_supply() == old(self).total_supply(),
            forall|x: AccountId| #[trigger] final(self).free_of(x) == old(self).free_of(x),
            forall|x: AccountId|
                #[trigger] final(self).reserved_of(x) == old(self).reserved_of(x),
            forall|k: Key| #[trigger] final(self).record_of(k) == old(self).record_of(k),
            forall|k: Key| #[trigger] final(self).stack_of(k) == old(self).stack_of(k),
            forall|x: AccountId| #[trigger] final(self).nonce_of(x) == old(self).nonce_of(x),
            final(self).events == old(self).events,
            final(self).config == old(self).config,
    {
        self.now = n;
    }

    /// Read the free balance of `a`.
    pub fn free_balance(&self, a: AccountId) -> (r: Balance)
        requires
            self.wf(),
        ensures
            r as nat == self.free_of(a),
    {
        self.ledger.free_balance(a)
    }

    /// Read the reserved balance of `a`.
    pub fn reserved_balance(&self, a: AccountId) -> (r: Balance)
        requires
            self.wf(),
        ensures
            r as nat == self.reserved_of(a),
    {
        self.ledger.reserved_balance(a)
    }

    /// The nonce the next auction created by `a` will carry.
    pub fn account_nonce(&self, a: AccountId) -> (r: SeqNum)
        requires
            self.wf(),
        ensures
            r == self.nonce_of(a),
    {
        match self.find_nonce_idx(a) {
            Some(i) => {
                proof {
                    lemma_nonce_at(self.nonces@, i as int);
                }
                self.nonces[i].1
            },
            None => {
                proof {
                    lemma_nonce_absent(self.nonces@, a);
                }
                0
            },
        }
    }

    /// The most recent event, if any command has succeeded yet.
    pub fn last_event(&self) -> (r: Option<Event>)
        ensures
            self.events@.len() == 0 ==> r.is_none(),
            self.events@.len() > 0 ==> r == Some(self.events@.last()),
    {
        if self.events.len() == 0 {
            None
        } else {
            Some(self.events[self.events.len() - 1])
        }
    }

    /// Index of the slot holding `k`, if any.
    fn find_slot(&self, k: Key) -> (r: Option<usize>)
        requires
            unique_keys(self.slots@),
        ensures
            match r {
                Some(i) => i < self.slots@.len() && self.slots@[i as int].key == k
                    && slot_lookup(self.slots@, k) == Some(self.slots@[i as int]),
                None => slot_lookup(self.slots@, k).is_none(),
            },
    {
        let mut i: usize = 0;
        while i < self.slots.len()
            invariant
                unique_keys(self.slots@),
                i <= self.slots@.len(),
                forall|j: int| 0 <= j < i ==> #[trigger] self.slots@[j].key != k,
            decreases self.slots@.len() - i,
        {
            let ref sl = self.slots[i];
            if sl.key.0 == k.0 && sl.key.1 == k.1 {
                proof {
                    lemma_slot_at(self.slots@, i as int);
                }
                return Some(i);
            }
            i = i + 1;
        }
        proof {
            lemma_slot_absent(self.slots@, k);
        }
        None
    }

    /// Index of the nonce record for `a`, if any.
    fn find_nonce_idx(&self, a: AccountId) -> (r: Option<usize>)
        ensures
            match r {
                Some(i) => i < self.nonces@.len() && self.nonces@[i as int].0 == a,
                None => forall|i: int|
                    0 <= i < self.nonces@.len() ==> #[trigger] self.nonces@[i].0 != a,
            },
    {
        let mut i: usize = 0;
        while i < self.nonces.len()
            invariant
                i <= self.nonces@.len(),
                forall|j: int| 0 <= j < i ==> #[trigger] self.nonces@[j].0 != a,
            decreases self.nonces@.len() - i,
        {
            if self.nonces[i].0 == a {
                return Some(i);
            }
            i = i + 1;
        }
        None
    }

    /// Look an auction record up, as the registry getter exposes it.
    pub fn auctions(&self, auction_key: Key) -> (r: Option<&Auction>)
        requires
            self.wf(),
        ensures
            match r {
                Some(a) => self.record_of(auction_key) == Some(a@),
                None => self.record_of(auction_key).is_none(),
            },
    {
        match self.find_slot(auction_key) {
            Some(i) => Some(&self.slots[i].auction),
            None => None,
        }
    }

    /// Look a stored bid up, as the bid-map getter exposes it: the sentinel
    /// key `(0, 0)` yields the head (the top bid's key and price), any other
    /// key yields that bid's predecessor key and price.
    pub fn bids(&self, auction_key: Key, bid_key: Key) -> (r: Option<(Key, Balance)>)
        requires
            self.wf(),
        ensures
            r == self.bids_spec(auction_key, bid_key),
    {
        match self.find_slot(auction_key) {
            Some(i) => {
                proof {
                    assert(slot_inv(self.config, self.slots@[i as int]));
                }
                let ref sl = self.slots[i];
                if bid_key.0 == 0 && bid_key.1 == 0 {
                    sl.stack.head()
                } else {
                    sl.stack.find_bid(bid_key)
                }
            },
            None => None,
        }
    }

    /// Which error `create` returns, if any, on the given arguments.
    pub open spec fn create_check(
        pre: Pallet,
        owner: AccountId,
        bounty: Balance,
        deposit: Balance,
        data_len: nat,
    ) -> Result<(), Error> {
        if bounty < pre.config.min_bounty {
            Err(Error::MinBountyRequired)
        } else if deposit < pre.config.min_deposit {
            Err(Error::MinDepositRequired)
        } else if data_len > pre.config.max_data_size {
            Err(Error::MaxDataSizeExceeded)
        } else if pre.free_of(owner) < bounty + deposit {
            Err(Error::InsufficientBalance)
        } else {
            Ok(())
        }
    }

    /// How a successful `create` relates the new state to the old: the
    /// record appears under the fresh key `(owner, nonce)` with an empty
    /// stack, `bounty + deposit` moves from the owner's free to reserved
    /// bucket, the owner's nonce steps, a `Created` event is logged, and
    /// nothing else changes.
    pub open spec fn create_post(
        pre: Pallet,
        post: Pallet,
        owner: AccountId,
        arbitrator: AccountId,
        bounty: Balance,
        deposit: Balance,
        terminal_block: BlockNumber,
        data: Seq<u8>,
    ) -> bool {
        let key = (owner, pre.nonce_of(owner));
        &&& !pre.has_auction(key)
        &&& post.record_of(key) == Some(
            (AuctionView {
                arbitrator,
                bounty,
                deposit,
                initial_block: pre.now,
                terminal_block,
                data,
                in_dispute: false,
            }),
        )
        &&& post.stack_of(key).len() == 0
        &&& forall|k: Key|
            k != key ==> #[trigger] post.record_of(k) == pre.record_of(k) && post.stack_of(k)
                == pre.stack_of(k)
        &&& post.free_of(owner) == pre.free_of(owner) - (bounty + deposit)
        &&& post.reserved_of(owner) == pre.reserved_of(owner) + bounty + deposit
        &&& forall|a: AccountId|
            a != owner ==> #[trigger] post.free_of(a) == pre.free_of(a) && post.reserved_of(a)
                == pre.reserved_of(a)
        &&& post.nonce_of(owner) == pre.nonce_of(owner) + 1
        &&& forall|a: AccountId| a != owner ==> #[trigger] post.nonce_of(a) == pre.nonce_of(a)
        &&& post.events@ == pre.events@.push(
            (Event::Created { auction_key: key, bounty, terminal_block }),
        )
        &&& post.total_supply() == pre.total_supply()
        &&& post.now == pre.now
        &&& post.config == pre.config
    }

    /// Post a task. Reserves `bounty + deposit` from the owner and inserts
    /// a fresh record keyed by the owner's nonce. The nonce bound is a
    /// machine limit: the per-account creation counter must not wrap.
    pub fn create(
        &mut self,
        origin: AccountId,
        arbitrator: AccountId,
        bounty: Balance,
        deposit: Balance,
        terminal_block: BlockNumber,
        data: Vec<u8>,
    ) -> (r: Result<(), Error>)
        requires
            old(self).wf(),
            old(self).nonce_of(origin) < SeqNum::MAX,
        ensures
            final(self).wf(),
            r == Self::create_check(*old(self), origin, bounty, deposit, data@.len()),
            final(self).total_supply() == old(self).total_supply(),
            r.is_ok() ==> Self::create_post(
                *old(self),
                *final(self),
                origin,
                arbitrator,
                bounty,
                deposit,
                terminal_block,
                data@,
            ),
            r.is_err() ==> *final(self) == *old(self),
    {
        if bounty < self.config.min_bounty {
            return Err(Error::MinBountyRequired);
        }
        if deposit < self.config.min_deposit {
            return Err(Error::MinDepositRequired);
        }
        if data.len() > self.config.max_data_size {
            return Err(Error::MaxDataSizeExceeded);
        }
        proof {
            crate::ledger::lemma_balances_le_sum(self.ledger.entries@, origin);
        }
        if bounty > Balance::MAX - deposit {
            return Err(Error::InsufficientBalance);
        }
        let total = bounty + deposit;
        if self.ledger.free_balance(origin) < total {
            return Err(Error::InsufficientBalance);
        }
        let ghost pre = *self;
        let nonce = self.account_nonce(origin);
        let auction_key = (origin, nonce);

        // All checks passed; mutations follow.
        self.ledger.reserve(origin, total);
        let slot = Slot {
            key: auction_key,
            auction: Auction {
                arbitrator,
                bounty,
                deposit,
                initial_block: self.now,
                terminal_block,
                data,
                in_dispute: false,
            },
            stack: BidStack::new(),
        };
        proof {
            assert forall|i: int| 0 <= i < self.slots@.len() implies #[trigger] self.slots@[i].key
                != auction_key by {
                if self.slots@[i].key.0 == origin {
                    assert(self.slots@[i].key.1 < nonce_in(self.nonces@, origin));
                }
            }
            lemma_slot_push(self.slots@, slot);
            lemma_oblig_push(self.slots@, slot);
            lemma_slot_absent(self.slots@, auction_key);
        }
        self.slots.push(slot);
        let next_nonce = nonce + 1;
        match self.find_nonce_idx(origin) {
            Some(i) => {
                proof {
                    lemma_nonce_at(self.nonces@, i as int);
                    lemma_nonce_update(self.nonces@, i as int, (origin, next_nonce));
                }
                self.nonces.set(i, (origin, next_nonce));
            },
            None => {
                proof {
                    lemma_nonce_absent(self.nonces@, origin);
                    lemma_nonce_push(self.nonces@, (origin, 1));
                }
                self.nonces.push((origin, 1));
            },
        }
        self.events.push(Event::Created { auction_key, bounty, terminal_block });
        proof {
            assert forall|i: int| 0 <= i < self.slots@.len() implies slot_inv(
                self.config,
                #[trigger] self.slots@[i],
            ) by {
                if i < self.slots@.len() - 1 {
                    assert(self.slots@[i] == pre.slots@[i]);
                    assert(slot_inv(pre.config, pre.slots@[i]));
                }
            }
            assert forall|i: int|
                0 <= i < self.slots@.len() implies (#[trigger] self.slots@[i].key).1 < nonce_in(
                self.nonces@,
                self.slots@[i].key.0,
            ) by {
                if i < self.slots@.len() - 1 {
                    assert(self.slots@[i] == pre.slots@[i]);
                    assert(pre.slots@[i].key.1 < nonce_in(pre.nonces@, pre.slots@[i].key.0));
                }
            }
            assert forall|a: AccountId| self.ledger.reserved_of(a) >= #[trigger] oblig(
                self.slots@,
                a,
            ) by {
                assert(oblig(self.slots@, a) == oblig(pre.slots@, a) + slot_ob(slot, a));
                assert(pre.ledger.reserved_of(a) >= oblig(pre.slots@, a));
                if a != origin {
                    assert(self.ledger.reserved_of(a) == pre.ledger.reserved_of(a));
                    assert(slot_ob(slot, a) == 0);
                }
            }
            assert(Self::create_post(
                pre,
                *self,
                origin,
                arbitrator,
                bounty,
                deposit,
                terminal_block,
                data@,
            ));
        }
        Ok(())
    }

    /// Which error `extend` returns, if any, on the given arguments.
    pub open spec fn extend_check(
        pre: Pallet,
        origin: AccountId,
        auction_key: Key,
        bounty: Balance,
    ) -> Result<(), Error> {
        match pre.record_of(auction_key) {
            None => Err(Error::AuctionKeyNotFound),
            Some(a) => {
                if origin != auction_key.0 {
                    Err(Error::OwnerRequired)
                } else if pre.stack_of(auction_key).len() > 0 && is_assigned_spec(
                    a,
                    pre.stack_of(auction_key).last().price,
                    pre.now,
                ) {
                    Err(Error::AuctionAssigned)
                } else if bounty <= a.bounty {
                    Err(Error::MinBountyRequired)
                } else if pre.free_of(origin) < bounty - a.bounty {
                    Err(Error::InsufficientBalance)
                } else {
                    Ok(())
                }
            },
        }
    }

    /// How a successful `extend` relates the new state to the old: the
    /// record keeps its identity but carries the raised bounty and the new
    /// terminal block (which may sit lower, accelerating assignment), the
    /// difference is reserved from the owner, an `Extended` event is
    /// logged, and nothing else changes.
    pub open spec fn extend_post(
        pre: Pallet,
        post: Pallet,
        auction_key: Key,
        bounty: Balance,
        terminal_block: BlockNumber,
    ) -> bool {
        match pre.record_of(auction_key) {
            None => false,
            Some(a) => {
                let owner = auction_key.0;
                &&& post.record_of(auction_key) == Some(
                    (AuctionView { bounty, terminal_block, ..a }),
                )
                &&& forall|k: Key|
                    k != auction_key ==> #[trigger] post.record_of(k) == pre.record_of(k)
                &&& forall|k: Key| #[trigger] post.stack_of(k) == pre.stack_of(k)
                &&& post.free_of(owner) == pre.free_of(owner) - (bounty - a.bounty)
                &&& post.reserved_of(owner) == pre.reserved_of(owner) + (bounty - a.bounty)
                &&& forall|x: AccountId|
                    x != owner ==> #[trigger] post.free_of(x) == pre.free_of(x)
                        && post.reserved_of(x) == pre.reserved_of(x)
                &&& forall|x: AccountId| #[trigger] post.nonce_of(x) == pre.nonce_of(x)
                &&& post.events@ == pre.events@.push(
                    (Event::Extended { auction_key, bounty, terminal_block }),
                )
                &&& post.total_supply() == pre.total_supply()
                &&& post.now == pre.now
                &&& post.config == pre.config
            },
        }
    }

    /// Raise an auction's bounty and move its terminal block. Only the
    /// owner may extend, and only while the top bid (if any) is not yet
    /// binding; the bounty must strictly increase.
    #[verifier::rlimit(60)]
    pub fn extend(
        &mut self,
        origin: AccountId,
        auction_key: Key,
        bounty: Balance,
        terminal_block: BlockNumber,
    ) -> (r: Result<(), Error>)
        requires
            old(self).wf(),
        ensures
            final(self).wf(),
            r == Self::extend_check(*old(self), origin, auction_key, bounty),
            final(self).total_supply() == old(self).total_supply(),
            r.is_ok() ==> Self::extend_post(
                *old(self),
                *final(self),
                auction_key,
                bounty,
                terminal_block,
            ),
            r.is_err() ==> *final(self) == *old(self),
    {
        let i = match self.find_slot(auction_key) {
            None => {
                return Err(Error::AuctionKeyNotFound);
            },
            Some(i) => i,
        };
        if origin != auction_key.0 {
            return Err(Error::OwnerRequired);
        }
        let old_bounty = self.slots[i].auction.bounty;
        match self.slots[i].stack.head() {
            Some((_, top_price)) => {
                if self.slots[i].auction.is_assigned(top_price, self.now) {
                    return Err(Error::AuctionAssigned);
                }
            },
            None => {},
        }
        if bounty <= old_bounty {
            return Err(Error::MinBountyRequired);
        }
        let diff = bounty - old_bounty;
        if self.ledger.free_balance(origin) < diff {
            return Err(Error::InsufficientBalance);
        }
        let ghost pre = *self;

        // All checks passed; mutations follow.
        self.ledger.reserve(origin, diff);
        let mut slot = self.slots.remove(i);
        slot.auction.bounty = bounty;
        slot.auction.terminal_block = terminal_block;
        let ghost ns = slot;
        self.slots.insert(i, slot);
        self.events.push(Event::Extended { auction_key, bounty, terminal_block });
        proof {
            assert(self.slots@ =~= pre.slots@.update(i as int, ns));
            lemma_slot_update(pre.slots@, i as int, ns);
            lemma_oblig_update(pre.slots@, i as int, ns);
            assert forall|j: int| 0 <= j < self.slots@.len() implies slot_inv(
                self.config,
                #[trigger] self.slots@[j],
            ) by {
                assert(slot_inv(pre.config, pre.slots@[j]));
                if j != i {
                    assert(self.slots@[j] == pre.slots@[j]);
                }
            }
            assert forall|j: int|
                0 <= j < self.slots@.len() implies (#[trigger] self.slots@[j].key).1 < nonce_in(
                self.nonces@,
                self.slots@[j].key.0,
            ) by {
                if j != i {
                    assert(self.slots@[j] == pre.slots@[j]);
                }
                assert(pre.slots@[j].key.1 < nonce_in(pre.nonces@, pre.slots@[j].key.0));
            }
            assert forall|x: AccountId| self.ledger.reserved_of(x) >= #[trigger] oblig(
                self.slots@,
                x,
            ) by {
                assert(oblig(self.slots@, x) + slot_ob(pre.slots@[i as int], x) == oblig(
                    pre.slots@,
                    x,
                ) + slot_ob(ns, x));
                assert(pre.ledger.reserved_of(x) >= oblig(pre.slots@, x));
                if x != origin {
                    assert(self.ledger.free_of(x) == pre.ledger.free_of(x)
                        && self.ledger.reserved_of(x) == pre.ledger.reserved_of(x));
                    assert(slot_ob(ns, x) == slot_ob(pre.slots@[i as int], x));
                }
            }
            assert(Self::extend_post(pre, *self, auction_key, bounty, terminal_block));
        }
        Ok(())
    }

    /// Which error `bid` returns, if any, on the given arguments.
    pub open spec fn bid_check(
        pre: Pallet,
        bidder: AccountId,
        auction_key: Key,
        price: Balance,
    ) -> Result<(), Error> {
        match pre.record_of(auction_key) {
            None => Err(Error::AuctionKeyNotFound),
            Some(a) => {
                let st = pre.stack_of(auction_key);
                if bidder == auction_key.0 || bidder == a.arbitrator {
                    Err(Error::OriginProhibited)
                } else if st.len() > 0 {
                    if is_assigned_spec(a, st.last().price, pre.now) {
                        Err(Error::AuctionAssigned)
                    } else if price >= st.last().price {
                        Err(Error::MinBidRatioRequired)
                    } else if pre.free_of(bidder) + (if bidder == st.last().bidder {
                        a.deposit as nat
                    } else {
                        0
                    }) < a.deposit {
                        Err(Error::InsufficientBalance)
                    } else {
                        Ok(())
                    }
                } else {
                    if price > a.bounty {
                        Err(Error::MinBidRatioRequired)
                    } else if pre.free_of(bidder) < a.deposit {
                        Err(Error::InsufficientBalance)
                    } else {
                        Ok(())
                    }
                }
            },
        }
    }

    /// How a successful `bid` relates the new state to the old: the new bid
    /// goes on top of the stack, the previous top bidder's deposit (if any)
    /// is unreserved, the new bidder's deposit is reserved, a `Bid` event
    /// is logged, and nothing else changes.
    pub open spec fn bid_post(
        pre: Pallet,
        post: Pallet,
        bidder: AccountId,
        auction_key: Key,
        price: Balance,
    ) -> bool {
        match pre.record_of(auction_key) {
            None => false,
            Some(a) => {
                let st = pre.stack_of(auction_key);
                let d = a.deposit;
                let bid_key = (bidder, (st.len() + 1) as SeqNum);
                &&& forall|k: Key| #[trigger] post.record_of(k) == pre.record_of(k)
                &&& post.stack_of(auction_key) == st.push(
                    (Bid { bidder, seq: (st.len() + 1) as SeqNum, price }),
                )
                &&& forall|k: Key|
                    k != auction_key ==> #[trigger] post.stack_of(k) == pre.stack_of(k)
                &&& forall|x: AccountId| #[trigger]
                    post.free_of(x) as int == pre.free_of(x) + (if st.len() > 0 && x
                        == st.last().bidder {
                        d as int
                    } else {
                        0
                    }) - (if x == bidder {
                        d as int
                    } else {
                        0
                    })
                &&& forall|x: AccountId| #[trigger]
                    post.reserved_of(x) as int == pre.reserved_of(x) - (if st.len() > 0 && x
                        == st.last().bidder {
                        d as int
                    } else {
                        0
                    }) + (if x == bidder {
                        d as int
                    } else {
                        0
                    })
                &&& forall|x: AccountId| #[trigger] post.nonce_of(x) == pre.nonce_of(x)
                &&& post.events@ == pre.events@.push(
                    (Event::Bid { auction_key, bid_key, price }),
                )
                &&& post.total_supply() == pre.total_supply()
                &&& post.now == pre.now
                &&& post.config == pre.config
            },
        }
    }

    /// Undercut the current top bid (or open the bidding at or under the
    /// bounty). Neither the owner nor the arbitrator may bid; a bid on an
    /// already binding auction is refused; the previous top bidder's
    /// deposit is released and the new bidder's is taken.
    #[verifier::rlimit(100)]
    pub fn bid(&mut self, bidder: AccountId, auction_key: Key, price: Balance) -> (r: Result<
        (),
        Error,
    >)
        requires
            old(self).wf(),
        ensures
            final(self).wf(),
            r == Self::bid_check(*old(self), bidder, auction_key, price),
            final(self).total_supply() == old(self).total_supply(),
            r.is_ok() ==> Self::bid_post(*old(self), *final(self), bidder, auction_key, price),
            r.is_err() ==> *final(self) == *old(self),
    {
        let i = match self.find_slot(auction_key) {
            None => {
                return Err(Error::AuctionKeyNotFound);
            },
            Some(i) => i,
        };
        if bidder == auction_key.0 {
            return Err(Error::OriginProhibited);
        }
        if bidder == self.slots[i].auction.arbitrator {
            return Err(Error::OriginProhibited);
        }
        let d = self.slots[i].auction.deposit;
        let head = self.slots[i].stack.head();
        match head {
            Some((prev_key, prev_price)) => {
                if self.slots[i].auction.is_assigned(prev_price, self.now) {
                    return Err(Error::AuctionAssigned);
                }
                if price >= prev_price {
                    return Err(Error::MinBidRatioRequired);
                }
                let fb = self.ledger.free_balance(bidder);
                let back: u64 = if bidder == prev_key.0 {
                    d
                } else {
                    0
                };
                if (fb as u128) + (back as u128) < d as u128 {
                    return Err(Error::InsufficientBalance);
                }
                let ghost pre = *self;

                // All checks passed; mutations follow.
                proof {
                    lemma_slot_ob_le_oblig(pre.slots@, i as int, prev_key.0);
                    assert(oblig(pre.slots@, prev_key.0) <= pre.ledger.reserved_of(prev_key.0));
                    assert(slot_ob(pre.slots@[i as int], prev_key.0) >= d);
                }
                self.ledger.unreserve(prev_key.0, d);
                let ghost mid = self.ledger;
                proof {
                    assert(mid.free_of(bidder) >= d);
                }
                self.ledger.reserve(bidder, d);
                let mut slot = self.slots.remove(i);
                let bid_key = slot.stack.push(bidder, price);
                let ghost ns = slot;
                self.slots.insert(i, slot);
                self.events.push(Event::Bid { auction_key, bid_key, price });
                proof {
                    assert(self.slots@ =~= pre.slots@.update(i as int, ns));
                    lemma_slot_update(pre.slots@, i as int, ns);
                    let st = pre.stack_of(auction_key);
                    assert forall|x: AccountId| #[trigger] self.ledger.free_of(x) as int
                        == pre.ledger.free_of(x) + (if st.len() > 0 && x == st.last().bidder {
                        d as int
                    } else {
                        0
                    }) - (if x == bidder {
                        d as int
                    } else {
                        0
                    }) by {
                        assert(mid.free_of(x) as int == if x == prev_key.0 {
                            pre.ledger.free_of(x) + d
                        } else {
                            pre.ledger.free_of(x) as int
                        });
                    }
                    assert forall|x: AccountId| #[trigger] self.ledger.reserved_of(x) as int
                        == pre.ledger.reserved_of(x) - (if st.len() > 0 && x == st.last().bidder {
                        d as int
                    } else {
                        0
                    }) + (if x == bidder {
                        d as int
                    } else {
                        0
                    }) by {
                        assert(mid.reserved_of(x) as int == if x == prev_key.0 {
                            pre.ledger.reserved_of(x) - d
                        } else {
                            pre.ledger.reserved_of(x) as int
                        });
                    }
                    self.lemma_bid_restores_wf(pre, i as int, ns, bidder, auction_key, price);
                    assert forall|x: AccountId| #[trigger] self.nonce_of(x) == pre.nonce_of(x) by {}
                    assert(Self::bid_post(pre, *self, bidder, auction_key, price));
                }
                Ok(())
            },
            None => {
                if price > self.slots[i].auction.bounty {
                    return Err(Error::MinBidRatioRequired);
                }
                if self.ledger.free_balance(bidder) < d {
                    return Err(Error::InsufficientBalance);
                }
                let ghost pre = *self;

                // All checks passed; mutations follow.
                self.ledger.reserve(bidder, d);
                let mut slot = self.slots.remove(i);
                let bid_key = slot.stack.push(bidder, price);
                let ghost ns = slot;
                self.slots.insert(i, slot);
                self.events.push(Event::Bid { auction_key, bid_key, price });
                proof {
                    assert(self.slots@ =~= pre.slots@.update(i as int, ns));
                    lemma_slot_update(pre.slots@, i as int, ns);
                    let st = pre.stack_of(auction_key);
                    assert(st.len() == 0);
                    assert forall|x: AccountId| #[trigger] self.ledger.free_of(x) as int
                        == pre.ledger.free_of(x) - (if x == bidder {
                        d as int
                    } else {
                        0
                    }) by {}
                    assert forall|x: AccountId| #[trigger] self.ledger.reserved_of(x) as int
                        == pre.ledger.reserved_of(x) + (if x == bidder {
                        d as int
                    } else {
                        0
                    }) by {}
                    self.lemma_bid_restores_wf(pre, i as int, ns, bidder, auction_key, price);
                    assert forall|x: AccountId| #[trigger] self.nonce_of(x) == pre.nonce_of(x) by {}
                    assert(Self::bid_post(pre, *self, bidder, auction_key, price));
                }
                Ok(())
            },
        }
    }

    /// After a successful `bid`'s mutations, the invariant holds again:
    /// the obligation moved from the previous top bidder to the new one
    /// exactly as the reserves did.
    #[verifier::rlimit(100)]
    proof fn lemma_bid_restores_wf(
        self,
        pre: Pallet,
        i: int,
        ns: Slot,
        bidder: AccountId,
        auction_key: Key,
        price: Balance,
    )
        requires
            pre.wf(),
            0 <= i < pre.slots@.len(),
            pre.slots@[i].key == auction_key,
            slot_lookup(pre.slots@, auction_key) == Some(pre.slots@[i]),
            bidder != auction_key.0,
            bidder != pre.slots@[i].auction.arbitrator,
            pre.slots@[i].stack@.len() == 0 ==> price <= pre.slots@[i].auction.bounty,
            pre.slots@[i].stack@.len() > 0 ==> price < pre.slots@[i].stack@.last().price,
            pre.slots@[i].stack@.len() + 1 <= SeqNum::MAX,
            ns.key == pre.slots@[i].key,
            ns.auction == pre.slots@[i].auction,
            ns.stack@ == pre.slots@[i].stack@.push(
                (Bid {
                    bidder,
                    seq: (pre.slots@[i].stack@.len() + 1) as SeqNum,
                    price,
                }),
            ),
            self.slots@ == pre.slots@.update(i, ns),
            self.nonces@ == pre.nonces@,
            self.config == pre.config,
            self.ledger.wf(),
            forall|x: AccountId| #[trigger]
                self.ledger.free_of(x) as int == pre.ledger.free_of(x) + (if pre.slots@[i].stack@.len()
                    > 0 && x == pre.slots@[i].stack@.last().bidder {
                    pre.slots@[i].auction.deposit as int
                } else {
                    0
                }) - (if x == bidder {
                    pre.slots@[i].auction.deposit as int
                } else {
                    0
                }),
            forall|x: AccountId| #[trigger]
                self.ledger.reserved_of(x) as int == pre.ledger.reserved_of(x) - (if pre.slots@[i].stack@.len()
                    > 0 && x == pre.slots@[i].stack@.last().bidder {
                    pre.slots@[i].auction.deposit as int
                } else {
                    0
                }) + (if x == bidder {
                    pre.slots@[i].auction.deposit as int
                } else {
                    0
                }),
        ensures
            unique_keys(self.slots@),
            forall|j: int|
                0 <= j < self.slots@.len() ==> slot_inv(self.config, #[trigger] self.slots@[j]),
            forall|j: int|
                0 <= j < self.slots@.len() ==> (#[trigger] self.slots@[j].key).1 < nonce_in(
                    self.nonces@,
                    self.slots@[j].key.0,
                ),
            forall|x: AccountId| self.ledger.reserved_of(x) >= #[trigger] oblig(self.slots@, x),
    {
        let osl = pre.slots@[i];
        let st = osl.stack@;
        let d = osl.auction.deposit;
        lemma_slot_update(pre.slots@, i, ns);
        lemma_oblig_update(pre.slots@, i, ns);
        assert forall|j: int| 0 <= j < self.slots@.len() implies slot_inv(
            self.config,
            #[trigger] self.slots@[j],
        ) by {
            assert(slot_inv(pre.config, pre.slots@[j]));
            if j != i {
                assert(self.slots@[j] == pre.slots@[j]);
            } else {
                assert forall|m: int| 0 <= m < ns.stack@.len() implies #[trigger] ns.stack@[m].bidder
                    != ns.key.0 && ns.stack@[m].bidder != ns.auction.arbitrator by {
                    if m < ns.stack@.len() - 1 {
                        assert(ns.stack@[m] == st[m]);
                    }
                }
                crate::stack::lemma_stack_wf_push(
                    st,
                    Bid { bidder, seq: (st.len() + 1) as SeqNum, price },
                );
                assert(ns.stack@[0] == (if st.len() > 0 { st[0] } else { ns.stack@[0] }));
            }
        }
        assert forall|j: int|
            0 <= j < self.slots@.len() implies (#[trigger] self.slots@[j].key).1 < nonce_in(
            self.nonces@,
            self.slots@[j].key.0,
        ) by {
            if j != i {
                assert(self.slots@[j] == pre.slots@[j]);
            }
            assert(pre.slots@[j].key.1 < nonce_in(pre.nonces@, pre.slots@[j].key.0));
        }
        assert forall|x: AccountId| self.ledger.reserved_of(x) >= #[trigger] oblig(
            self.slots@,
            x,
        ) by {
            assert(oblig(self.slots@, x) + slot_ob(osl, x) == oblig(pre.slots@, x) + slot_ob(
                ns,
                x,
            ));
            assert(pre.ledger.reserved_of(x) >= oblig(pre.slots@, x));
            lemma_slot_ob_le_oblig(pre.slots@, i, x);
            assert(self.ledger.reserved_of(x) as int == pre.ledger.reserved_of(x) - (if st.len()
                > 0 && x == st.last().bidder {
                d as int
            } else {
                0
            }) + (if x == bidder {
                d as int
            } else {
                0
            }));
        }
    }

    /// Which error `dispute` returns, if any, on the given arguments.
    pub open spec fn dispute_check(pre: Pallet, origin: AccountId, auction_key: Key) -> Result<
        (),
        Error,
    > {
        match pre.record_of(auction_key) {
            None => Err(Error::AuctionKeyNotFound),
            Some(a) => {
                let st = pre.stack_of(auction_key);
                if a.in_dispute {
                    Err(Error::AuctionDisputed)
                } else if st.len() == 0 {
                    Err(Error::AuctionNotAssigned)
                } else if origin != st.last().bidder && origin != auction_key.0 {
                    Err(Error::OriginProhibited)
                } else if !is_assigned_spec(a, st.last().price, pre.now) {
                    Err(Error::AuctionNotAssigned)
                } else {
                    Ok(())
                }
            },
        }
    }

    /// How a successful `dispute` relates the new state to the old: only
    /// the record's dispute flag flips, and a `Disputed` event is logged.
    pub open spec fn dispute_post(pre: Pallet, post: Pallet, auction_key: Key) -> bool {
        match pre.record_of(auction_key) {
            None => false,
            Some(a) => {
                &&& post.record_of(auction_key) == Some((AuctionView { in_dispute: true, ..a }))
                &&& forall|k: Key|
                    k != auction_key ==> #[trigger] post.record_of(k) == pre.record_of(k)
                &&& forall|k: Key| #[trigger] post.stack_of(k) == pre.stack_of(k)
                &&& forall|x: AccountId| #[trigger]
                    post.free_of(x) == pre.free_of(x) && post.reserved_of(x) == pre.reserved_of(x)
                &&& forall|x: AccountId| #[trigger] post.nonce_of(x) == pre.nonce_of(x)
                &&& post.events@ == pre.events@.push((Event::Disputed { auction_key }))
                &&& post.total_supply() == pre.total_supply()
                &&& post.now == pre.now
                &&& post.config == pre.config
            },
        }
    }

    /// Raise a dispute. Only the owner or the current top bidder may, only
    /// once, and only while the top bid is binding.
    #[verifier::rlimit(60)]
    pub fn dispute(&mut self, origin: AccountId, auction_key: Key) -> (r: Result<(), Error>)
        requires
            old(self).wf(),
        ensures
            final(self).wf(),
            r == Self::dispute_check(*old(self), origin, auction_key),
            final(self).total_supply() == old(self).total_supply(),
            r.is_ok() ==> Self::dispute_post(*old(self), *final(self), auction_key),
            r.is_err() ==> *final(self) == *old(self),
    {
        let i = match self.find_slot(auction_key) {
            None => {
                return Err(Error::AuctionKeyNotFound);
            },
            Some(i) => i,
        };
        if self.slots[i].auction.in_dispute {
            return Err(Error::AuctionDisputed);
        }
        let (top_key, top_price) = match self.slots[i].stack.head() {
            None => {
                return Err(Error::AuctionNotAssigned);
            },
            Some(h) => h,
        };
        if origin != top_key.0 && origin != auction_key.0 {
            return Err(Error::OriginProhibited);
        }
        if !self.slots[i].auction.is_assigned(top_price, self.now) {
            return Err(Error::AuctionNotAssigned);
        }
        let ghost pre = *self;

        // All checks passed; mutations follow.
        let mut slot = self.slots.remove(i);
        slot.auction.in_dispute = true;
        let ghost ns = slot;
        self.slots.insert(i, slot);
        self.events.push(Event::Disputed { auction_key });
        proof {
            assert(self.slots@ =~= pre.slots@.update(i as int, ns));
            lemma_slot_update(pre.slots@, i as int, ns);
            lemma_oblig_update(pre.slots@, i as int, ns);
            assert forall|j: int| 0 <= j < self.slots@.len() implies slot_inv(
                self.config,
                #[trigger] self.slots@[j],
            ) by {
                assert(slot_inv(pre.config, pre.slots@[j]));
                if j != i {
                    assert(self.slots@[j] == pre.slots@[j]);
                }
            }
            assert forall|j: int|
                0 <= j < self.slots@.len() implies (#[trigger] self.slots@[j].key).1 < nonce_in(
                self.nonces@,
                self.slots@[j].key.0,
            ) by {
                if j != i {
                    assert(self.slots@[j] == pre.slots@[j]);
                }
                assert(pre.slots@[j].key.1 < nonce_in(pre.nonces@, pre.slots@[j].key.0));
            }
            assert forall|x: AccountId| self.ledger.reserved_of(x) >= #[trigger] oblig(
                self.slots@,
                x,
            ) by {
                assert(oblig(self.slots@, x) + slot_ob(pre.slots@[i as int], x) == oblig(
                    pre.slots@,
                    x,
                ) + slot_ob(ns, x));
                assert(slot_ob(ns, x) == slot_ob(pre.slots@[i as int], x));
                assert(pre.ledger.reserved_of(x) >= oblig(pre.slots@, x));
            }
            assert(Self::dispute_post(pre, *self, auction_key));
        }
        Ok(())
    }

    /// Which error `confirm` returns, if any, on the given arguments.
    pub open spec fn confirm_check(pre: Pallet, origin: AccountId, auction_key: Key) -> Result<
        (),
        Error,
    > {
        match pre.record_of(auction_key) {
            None => Err(Error::AuctionKeyNotFound),
            Some(a) => {
                let st = pre.stack_of(auction_key);
                if origin != auction_key.0 {
                    Err(Error::OwnerRequired)
                } else if st.len() == 0 || !is_assigned_spec(a, st.last().price, pre.now) {
                    Err(Error::AuctionNotAssigned)
                } else {
                    Ok(())
                }
            },
        }
    }

    /// How a successful `confirm` relates the new state to the old: both
    /// deposits and the bounty are unreserved, the owner pays the top
    /// bidder the agreed price, the record and its bids vanish, and a
    /// `Confirmed` event is logged.
    pub open spec fn confirm_post(pre: Pallet, post: Pallet, auction_key: Key) -> bool {
        match pre.record_of(auction_key) {
            None => false,
            Some(a) => {
                let st = pre.stack_of(auction_key);
                let owner = auction_key.0;
                let w = st.last().bidder;
                let p = st.last().price;
                let d = a.deposit;
                let b = a.bounty;
                &&& post.record_of(auction_key).is_none()
                &&& post.stack_of(auction_key).len() == 0
                &&& forall|k: Key|
                    k != auction_key ==> #[trigger] post.record_of(k) == pre.record_of(k)
                        && post.stack_of(k) == pre.stack_of(k)
                &&& forall|x: AccountId| #[trigger]
                    post.free_of(x) as int == pre.free_of(x) + (if x == owner {
                        b + d
                    } else {
                        0int
                    }) + (if x == w {
                        d as int
                    } else {
                        0
                    }) + (if x == w {
                        p as int
                    } else {
                        0
                    }) - (if x == owner {
                        p as int
                    } else {
                        0
                    })
                &&& forall|x: AccountId| #[trigger]
                    post.reserved_of(x) as int == pre.reserved_of(x) - (if x == owner {
                        b + d
                    } else {
                        0int
                    }) - (if x == w {
                        d as int
                    } else {
                        0
                    })
                &&& forall|x: AccountId| #[trigger] post.nonce_of(x) == pre.nonce_of(x)
                &&& post.events@ == pre.events@.push((Event::Confirmed { auction_key }))
                &&& post.total_supply() == pre.total_supply()
                &&& post.now == pre.now
                &&& post.config == pre.config
            },
        }
    }

    /// Settle a binding auction: the owner accepts the work, pays the top
    /// bidder the bid price, and every reservation is released.
    #[verifier::rlimit(60)]
    pub fn confirm(&mut self, origin: AccountId, auction_key: Key) -> (r: Result<(), Error>)
        requires
            old(self).wf(),
        ensures
            final(self).wf(),
            r == Self::confirm_check(*old(self), origin, auction_key),
            final(self).total_supply() == old(self).total_supply(),
            r.is_ok() ==> Self::confirm_post(*old(self), *final(self), auction_key),
            r.is_err() ==> *final(self) == *old(self),
    {
        let i = match self.find_slot(auction_key) {
            None => {
                return Err(Error::AuctionKeyNotFound);
            },
            Some(i) => i,
        };
        if origin != auction_key.0 {
            return Err(Error::OwnerRequired);
        }
        let (top_key, top_price) = match self.slots[i].stack.head() {
            None => {
                return Err(Error::AuctionNotAssigned);
            },
            Some(h) => h,
        };
        if !self.slots[i].auction.is_assigned(top_price, self.now) {
            return Err(Error::AuctionNotAssigned);
        }
        let owner = auction_key.0;
        let w = top_key.0;
        let d = self.slots[i].auction.deposit;
        let b = self.slots[i].auction.bounty;
        let ghost pre = *self;
        proof {
            lemma_slot_ob_le_oblig(pre.slots@, i as int, owner);
            lemma_slot_ob_le_oblig(pre.slots@, i as int, w);
            assert(pre.ledger.reserved_of(owner) >= oblig(pre.slots@, owner));
            assert(pre.ledger.reserved_of(w) >= oblig(pre.slots@, w));
            crate::ledger::lemma_balances_le_sum(pre.ledger.entries@, owner);
            let st = pre.stack_of(auction_key);
            if st.len() > 1 {
                lemma_stack_strictly_decreasing(st, 0, st.len() - 1);
            }
            assert(top_price <= b);
        }

        // All checks passed; mutations follow.
        let db = d + b;
        self.ledger.unreserve(w, d);
        self.ledger.unreserve(owner, db);
        self.ledger.transfer(owner, w, top_price);
        let _ = self.slots.remove(i);
        self.events.push(Event::Confirmed { auction_key });
        proof {
            lemma_slot_remove(pre.slots@, i as int);
            lemma_oblig_remove(pre.slots@, i as int);
            lemma_slots_remove_frames(pre.slots@, i as int, pre.config, pre.nonces@);
            assert forall|x: AccountId| self.ledger.reserved_of(x) >= #[trigger] oblig(
                self.slots@,
                x,
            ) by {
                assert(oblig(self.slots@, x) + slot_ob(pre.slots@[i as int], x) == oblig(
                    pre.slots@,
                    x,
                ));
                assert(pre.ledger.reserved_of(x) >= oblig(pre.slots@, x));
            }
            assert(Self::confirm_post(pre, *self, auction_key));
        }
        Ok(())
    }

    /// Which error `cancel` returns, if any, on the given arguments.
    pub open spec fn cancel_check(pre: Pallet, origin: AccountId, auction_key: Key) -> Result<
        (),
        Error,
    > {
        match pre.record_of(auction_key) {
            None => Err(Error::AuctionKeyNotFound),
            Some(a) => {
                let st = pre.stack_of(auction_key);
                if origin != auction_key.0 {
                    Err(Error::OwnerRequired)
                } else if st.len() > 0 && is_assigned_spec(a, st.last().price, pre.now) {
                    Err(Error::AuctionAssigned)
                } else {
                    Ok(())
                }
            },
        }
    }

    /// How a successful `cancel` relates the new state to the old: every
    /// reservation is released; if a (non-binding) top bid existed, the
    /// owner pays that bidder the deposit as a no-show penalty; the record
    /// and its bids vanish and a `Cancelled` event is logged.
    pub open spec fn cancel_post(pre: Pallet, post: Pallet, auction_key: Key) -> bool {
        match pre.record_of(auction_key) {
            None => false,
            Some(a) => {
                let st = pre.stack_of(auction_key);
                let owner = auction_key.0;
                let d = a.deposit;
                let b = a.bounty;
                let has_top = st.len() > 0;
                &&& post.record_of(auction_key).is_none()
                &&& post.stack_of(auction_key).len() == 0
                &&& forall|k: Key|
                    k != auction_key ==> #[trigger] post.record_of(k) == pre.record_of(k)
                        && post.stack_of(k) == pre.stack_of(k)
                &&& forall|x: AccountId| #[trigger]
                    post.free_of(x) as int == pre.free_of(x) + (if x == owner {
                        b + d
                    } else {
                        0int
                    }) + (if has_top && x == st.last().bidder {
                        2 * (d as int)
                    } else {
                        0
                    }) - (if has_top && x == owner {
                        d as int
                    } else {
                        0
                    })
                &&& forall|x: AccountId| #[trigger]
                    post.reserved_of(x) as int == pre.reserved_of(x) - (if x == owner {
                        b + d
                    } else {
                        0int
                    }) - (if has_top && x == st.last().bidder {
                        d as int
                    } else {
                        0
                    })
                &&& forall|x: AccountId| #[trigger] post.nonce_of(x) == pre.nonce_of(x)
                &&& post.events@ == pre.events@.push((Event::Cancelled { auction_key }))
                &&& post.total_supply() == pre.total_supply()
                &&& post.now == pre.now
                &&& post.config == pre.config
            },
        }
    }

    /// Withdraw an auction whose top bid (if any) is not yet binding. A
    /// jilted top bidder is made whole and receives the deposit on top.
    #[verifier::rlimit(60)]
    pub fn cancel(&mut self, origin: AccountId, auction_key: Key) -> (r: Result<(), Error>)
        requires
            old(self).wf(),
        ensures
            final(self).wf(),
            r == Self::cancel_check(*old(self), origin, auction_key),
            final(self).total_supply() == old(self).total_supply(),
            r.is_ok() ==> Self::cancel_post(*old(self), *final(self), auction_key),
            r.is_err() ==> *final(self) == *old(self),
    {
        let i = match self.find_slot(auction_key) {
            None => {
                return Err(Error::AuctionKeyNotFound);
            },
            Some(i) => i,
        };
        if origin != auction_key.0 {
            return Err(Error::OwnerRequired);
        }
        let owner = auction_key.0;
        let d = self.slots[i].auction.deposit;
        let b = self.slots[i].auction.bounty;
        match self.slots[i].stack.head() {
            Some((top_key, top_price)) => {
                if self.slots[i].auction.is_assigned(top_price, self.now) {
                    return Err(Error::AuctionAssigned);
                }
                let w = top_key.0;
                let ghost pre = *self;
                proof {
                    lemma_slot_ob_le_oblig(pre.slots@, i as int, owner);
                    lemma_slot_ob_le_oblig(pre.slots@, i as int, w);
                    crate::ledger::lemma_balances_le_sum(pre.ledger.entries@, owner);
                }

                // All checks passed; mutations follow.
                let db = d + b;
                self.ledger.unreserve(w, d);
                self.ledger.unreserve(owner, db);
                self.ledger.transfer(owner, w, d);
                let _ = self.slots.remove(i);
                self.events.push(Event::Cancelled { auction_key });
                proof {
                    lemma_slot_remove(pre.slots@, i as int);
                    lemma_oblig_remove(pre.slots@, i as int);
                    lemma_slots_remove_frames(pre.slots@, i as int, pre.config, pre.nonces@);
                    assert forall|x: AccountId| self.ledger.reserved_of(x) >= #[trigger] oblig(
                        self.slots@,
                        x,
                    ) by {
                        assert(oblig(self.slots@, x) + slot_ob(pre.slots@[i as int], x) == oblig(
                            pre.slots@,
                            x,
                        ));
                        assert(pre.ledger.reserved_of(x) >= oblig(pre.slots@, x));
                    }
                    assert(Self::cancel_post(pre, *self, auction_key));
                }
                Ok(())
            },
            None => {
                let ghost pre = *self;
                proof {
                    lemma_slot_ob_le_oblig(pre.slots@, i as int, owner);
                    crate::ledger::lemma_balances_le_sum(pre.ledger.entries@, owner);
                }

                // All checks passed; mutations follow.
                let db = d + b;
                self.ledger.unreserve(owner, db);
                let _ = self.slots.remove(i);
                self.events.push(Event::Cancelled { auction_key });
                proof {
                    lemma_slot_remove(pre.slots@, i as int);
                    lemma_oblig_remove(pre.slots@, i as int);
                    lemma_slots_remove_frames(pre.slots@, i as int, pre.config, pre.nonces@);
                    assert forall|x: AccountId| self.ledger.reserved_of(x) >= #[trigger] oblig(
                        self.slots@,
                        x,
                    ) by {
                        assert(oblig(self.slots@, x) + slot_ob(pre.slots@[i as int], x) == oblig(
                            pre.slots@,
                            x,
                        ));
                        assert(pre.ledger.reserved_of(x) >= oblig(pre.slots@, x));
                    }
                    assert(Self::cancel_post(pre, *self, auction_key));
                }
                Ok(())
            },
        }
    }

    /// Which error `arbitrate` returns, if any, on the given arguments.
    pub open spec fn arbitrate_check(pre: Pallet, origin: AccountId, auction_key: Key) -> Result<
        (),
        Error,
    > {
        match pre.record_of(auction_key) {
            None => Err(Error::AuctionKeyNotFound),
            Some(a) => {
                if origin != a.arbitrator {
                    Err(Error::OriginProhibited)
                } else if !a.in_dispute {
                    Err(Error::AuctionNotDisputed)
                } else {
                    Ok(())
                }
            },
        }
    }

    /// How a successful `arbitrate` relates the new state to the old: all
    /// reservations are released; when the task is ruled fulfilled the
    /// owner pays the top bidder the bid price and loses the deposit to
    /// the arbitrator, otherwise the top bidder loses it; the record and
    /// its bids vanish and an `Arbitrated` event is logged.
    pub open spec fn arbitrate_post(
        pre: Pallet,
        post: Pallet,
        auction_key: Key,
        fulfilled: bool,
    ) -> bool {
        match pre.record_of(auction_key) {
            None => false,
            Some(a) => {
                let st = pre.stack_of(auction_key);
                let owner = auction_key.0;
                let w = st.last().bidder;
                let p = st.last().price;
                let d = a.deposit;
                let b = a.bounty;
                let loser = if fulfilled {
                    owner
                } else {
                    w
                };
                &&& post.record_of(auction_key).is_none()
                &&& post.stack_of(auction_key).len() == 0
                &&& forall|k: Key|
                    k != auction_key ==> #[trigger] post.record_of(k) == pre.record_of(k)
                        && post.stack_of(k) == pre.stack_of(k)
                &&& forall|x: AccountId| #[trigger]
                    post.free_of(x) as int == pre.free_of(x) + (if x == owner {
                        b + d
                    } else {
                        0int
                    }) + (if x == w {
                        d as int
                    } else {
                        0
                    }) + (if fulfilled && x == w {
                        p as int
                    } else {
                        0
                    }) - (if fulfilled && x == owner {
                        p as int
                    } else {
                        0
                    }) + (if x == a.arbitrator {
                        d as int
                    } else {
                        0
                    }) - (if x == loser {
                        d as int
                    } else {
                        0
                    })
                &&& forall|x: AccountId| #[trigger]
                    post.reserved_of(x) as int == pre.reserved_of(x) - (if x == owner {
                        b + d
                    } else {
                        0int
                    }) - (if x == w {
                        d as int
                    } else {
                        0
                    })
                &&& forall|x: AccountId| #[trigger] post.nonce_of(x) == pre.nonce_of(x)
                &&& post.events@ == pre.events@.push(
                    (Event::Arbitrated { auction_key, fulfilled }),
                )
                &&& post.total_supply() == pre.total_supply()
                &&& post.now == pre.now
                &&& post.config == pre.config
            },
        }
    }

    /// Resolve a disputed auction. Only the designated arbitrator may, and
    /// the losing side's deposit pays for the arbitration.
    #[verifier::rlimit(100)]
    pub fn arbitrate(&mut self, origin: AccountId, auction_key: Key, fulfilled: bool) -> (r:
        Result<(), Error>)
        requires
            old(self).wf(),
        ensures
            final(self).wf(),
            r == Self::arbitrate_check(*old(self), origin, auction_key),
            final(self).total_supply() == old(self).total_supply(),
            r.is_ok() ==> Self::arbitrate_post(*old(self), *final(self), auction_key, fulfilled),
            r.is_err() ==> *final(self) == *old(self),
    {
        let i = match self.find_slot(auction_key) {
            None => {
                return Err(Error::AuctionKeyNotFound);
            },
            Some(i) => i,
        };
        let arb = self.slots[i].auction.arbitrator;
        if origin != arb {
            return Err(Error::OriginProhibited);
        }
        if !self.slots[i].auction.in_dispute {
            return Err(Error::AuctionNotDisputed);
        }
        let (top_key, top_price) = match self.slots[i].stack.head() {
            None => {
                // A disputed auction always has a top bid.
                proof {
                    assert(false);
                }
                return Err(Error::AuctionNotDisputed);
            },
            Some(h) => h,
        };
        let owner = auction_key.0;
        let w = top_key.0;
        let d = self.slots[i].auction.deposit;
        let b = self.slots[i].auction.bounty;
        let ghost pre = *self;
        proof {
            lemma_slot_ob_le_oblig(pre.slots@, i as int, owner);
            lemma_slot_ob_le_oblig(pre.slots@, i as int, w);
            crate::ledger::lemma_balances_le_sum(pre.ledger.entries@, owner);
            let st = pre.stack_of(auction_key);
            if st.len() > 1 {
                lemma_stack_strictly_decreasing(st, 0, st.len() - 1);
            }
            assert(top_price <= b);
        }

        // All checks passed; mutations follow.
        let db = d + b;
        self.ledger.unreserve(owner, db);
        self.ledger.unreserve(w, d);
        if fulfilled {
            self.ledger.transfer(owner, w, top_price);
            self.ledger.transfer(owner, arb, d);
        } else {
            self.ledger.transfer(w, arb, d);
        }
        let _ = self.slots.remove(i);
        self.events.push(Event::Arbitrated { auction_key, fulfilled });
        proof {
            lemma_slot_remove(pre.slots@, i as int);
            lemma_oblig_remove(pre.slots@, i as int);
            lemma_slots_remove_frames(pre.slots@, i as int, pre.config, pre.nonces@);
            assert forall|x: AccountId| self.ledger.reserved_of(x) >= #[trigger] oblig(
                self.slots@,
                x,
            ) by {
                assert(oblig(self.slots@, x) + slot_ob(pre.slots@[i as int], x) == oblig(
                    pre.slots@,
                    x,
                ));
                assert(pre.ledger.reserved_of(x) >= oblig(pre.slots@, x));
            }
            assert(Self::arbitrate_post(pre, *self, auction_key, fulfilled));
        }
        Ok(())
    }

    /// Which error `retract` returns, if any, on the given arguments.
    pub open spec fn retract_check(pre: Pallet, bidder: AccountId, auction_key: Key) -> Result<
        (),
        Error,
    > {
        match pre.record_of(auction_key) {
            None => Err(Error::AuctionKeyNotFound),
            Some(a) => {
                let st = pre.stack_of(auction_key);
                if st.len() == 0 || bidder != st.last().bidder {
                    Err(Error::TopBidRequired)
                } else if a.in_dispute {
                    Err(Error::AuctionDisputed)
                } else {
                    Ok(())
                }
            },
        }
    }

    /// How a successful `retract` relates the new state to the old: the
    /// retractor's deposit is released (and forfeited to the owner when the
    /// bid was already binding), the top is popped, the descent pops every
    /// further bid whose bidder can no longer post the deposit, the new
    /// top's deposit (if any) is reserved, and a `Retracted` event names
    /// the new top (or the sentinel and the bounty when the stack emptied).
    pub open spec fn retract_post(
        pre: Pallet,
        post: Pallet,
        bidder: AccountId,
        auction_key: Key,
    ) -> bool {
        match pre.record_of(auction_key) {
            None => false,
            Some(a) => {
                let st = pre.stack_of(auction_key);
                let owner = auction_key.0;
                let d = a.deposit;
                let penalized = is_assigned_spec(a, st.last().price, pre.now);
                let st1 = st.drop_last();
                let m = surviving_len(pre, bidder, owner, d, penalized, st1) as int;
                &&& forall|k: Key| #[trigger] post.record_of(k) == pre.record_of(k)
                &&& post.stack_of(auction_key) == st1.take(m)
                &&& forall|k: Key|
                    k != auction_key ==> #[trigger] post.stack_of(k) == pre.stack_of(k)
                &&& forall|x: AccountId| #[trigger]
                    post.free_of(x) as int == free_after_retract(
                        pre,
                        bidder,
                        owner,
                        d,
                        penalized,
                        x,
                    ) - (if m > 0 && x == st1[m - 1].bidder {
                        d as int
                    } else {
                        0
                    })
                &&& forall|x: AccountId| #[trigger]
                    post.reserved_of(x) as int == pre.reserved_of(x) - (if x == bidder {
                        d as int
                    } else {
                        0
                    }) + (if m > 0 && x == st1[m - 1].bidder {
                        d as int
                    } else {
                        0
                    })
                &&& forall|x: AccountId| #[trigger] post.nonce_of(x) == pre.nonce_of(x)
                &&& post.events@ == pre.events@.push(
                    (Event::Retracted {
                        auction_key,
                        bid_key: if m > 0 {
                            (st1[m - 1].bidder, st1[m - 1].seq)
                        } else {
                            (0u64, 0u128)
                        },
                        price: if m > 0 {
                            st1[m - 1].price
                        } else {
                            a.bounty
                        },
                    }),
                )
                &&& post.total_supply() == pre.total_supply()
                &&& post.now == pre.now
                &&& post.config == pre.config
            },
        }
    }

    /// Withdraw the top bid. Only the top bidder may, and not while the
    /// auction is disputed; reneging on an already binding bid forfeits
    /// the deposit to the owner. The chain then falls back to the highest
    /// remaining bid whose bidder can still post the deposit.
    #[verifier::rlimit(100)]
    pub fn retract(&mut self, bidder: AccountId, auction_key: Key) -> (r: Result<(), Error>)
        requires
            old(self).wf(),
        ensures
            final(self).wf(),
            r == Self::retract_check(*old(self), bidder, auction_key),
            final(self).total_supply() == old(self).total_supply(),
            r.is_ok() ==> Self::retract_post(*old(self), *final(self), bidder, auction_key),
            r.is_err() ==> *final(self) == *old(self),
    {
        let i = match self.find_slot(auction_key) {
            None => {
                return Err(Error::AuctionKeyNotFound);
            },
            Some(i) => i,
        };
        let (top_key, top_price) = match self.slots[i].stack.head() {
            None => {
                return Err(Error::TopBidRequired);
            },
            Some(h) => h,
        };
        if bidder != top_key.0 {
            return Err(Error::TopBidRequired);
        }
        if self.slots[i].auction.in_dispute {
            return Err(Error::AuctionDisputed);
        }
        let owner = auction_key.0;
        let d = self.slots[i].auction.deposit;
        let bounty = self.slots[i].auction.bounty;
        let penalized = self.slots[i].auction.is_assigned(top_price, self.now);
        let ghost pre = *self;
        let ghost st = pre.stack_of(auction_key);
        let ghost st1 = st.drop_last();
        proof {
            lemma_slot_ob_le_oblig(pre.slots@, i as int, bidder);
            assert(pre.ledger.reserved_of(bidder) >= oblig(pre.slots@, bidder));
            assert(slot_ob(pre.slots@[i as int], bidder) >= d);
        }

        // All checks passed; the retractor's ledger effects come first.
        self.ledger.unreserve(bidder, d);
        if penalized {
            self.ledger.transfer(bidder, owner, d);
        }
        let ghost l1 = self.ledger;
        proof {
            assert forall|x: AccountId| #[trigger] l1.free_of(x) as int == free_after_retract(
                pre,
                bidder,
                owner,
                d,
                penalized,
                x,
            ) by {
                assert(bidder != owner);
            }
            assert forall|x: AccountId| #[trigger] l1.reserved_of(x) as int
                == pre.reserved_of(x) - (if x == bidder {
                d as int
            } else {
                0
            }) by {}
        }
        let mut slot = self.slots.remove(i);
        slot.stack.pop_top();
        proof {
            assert(slot.stack@ == st1);
        }

        // Walk down the chain to the highest bid whose bidder still has the
        // deposit free.
        let mut m: usize = slot.stack.len();
        proof {
            assert(st1.take(m as int) =~= st1);
        }
        while m > 0
            invariant
                m <= st1.len(),
                slot.stack@ == st1,
                self.ledger == l1,
                l1.wf(),
                forall|x: AccountId| #[trigger] l1.free_of(x) as int == free_after_retract(
                    pre,
                    bidder,
                    owner,
                    d,
                    penalized,
                    x,
                ),
                surviving_len(pre, bidder, owner, d, penalized, st1.take(m as int))
                    == surviving_len(pre, bidder, owner, d, penalized, st1),
            ensures
                m <= st1.len(),
                slot.stack@ == st1,
                self.ledger == l1,
                m as nat == surviving_len(pre, bidder, owner, d, penalized, st1),
                m > 0 ==> l1.free_of(st1[m - 1].bidder) >= d,
            decreases m,
        {
            let cand = slot.stack.bids[m - 1].bidder;
            if self.ledger.free_balance(cand) >= d {
                proof {
                    let tk = st1.take(m as int);
                    assert(tk.last() == st1[m - 1]);
                    assert(surviving_len(pre, bidder, owner, d, penalized, tk) == m);
                }
                break ;
            }
            proof {
                let tk = st1.take(m as int);
                assert(tk.last() == st1[m - 1]);
                assert(tk.drop_last() =~= st1.take(m as int - 1));
            }
            m = m - 1;
        }

        // Install the survivor (if any) as the new top and settle storage.
        slot.stack.keep(m);
        let (ev_key, ev_price) = if m > 0 {
            let nt = slot.stack.bids[m - 1];
            proof {
                assert(nt == st1[m - 1]);
            }
            self.ledger.reserve(nt.bidder, d);
            ((nt.bidder, nt.seq), nt.price)
        } else {
            ((0u64, 0u128), bounty)
        };
        let ghost ns = slot;
        self.slots.insert(i, slot);
        self.events.push(Event::Retracted { auction_key, bid_key: ev_key, price: ev_price });
        proof {
            let ghost mm = m as int;
            assert(self.slots@ =~= pre.slots@.update(i as int, ns));
            assert forall|x: AccountId| #[trigger] self.ledger.reserved_of(x) as int
                == pre.reserved_of(x) - (if x == bidder {
                d as int
            } else {
                0
            }) + (if mm > 0 && x == st1[mm - 1].bidder {
                d as int
            } else {
                0
            }) by {
                assert(l1.reserved_of(x) as int == pre.reserved_of(x) - (if x == bidder {
                    d as int
                } else {
                    0
                }));
            }
            assert forall|x: AccountId| #[trigger] self.ledger.free_of(x) as int
                == free_after_retract(pre, bidder, owner, d, penalized, x) - (if mm > 0 && x
                == st1[mm - 1].bidder {
                d as int
            } else {
                0
            }) by {
                assert(l1.free_of(x) as int == free_after_retract(
                    pre,
                    bidder,
                    owner,
                    d,
                    penalized,
                    x,
                ));
            }
            self.lemma_retract_restores_wf(pre, i as int, ns, bidder, auction_key, mm);
            Self::lemma_retract_post(pre, *self, bidder, auction_key, i as int, ns, mm);
        }
        Ok(())
    }

    /// Packages the proof that a finished retraction satisfies
    /// [`Pallet::retract_post`].
    #[verifier::rlimit(100)]
    proof fn lemma_retract_post(
        pre: Pallet,
        post: Pallet,
        bidder: AccountId,
        auction_key: Key,
        i: int,
        ns: Slot,
        mm: int,
    )
        requires
            pre.wf(),
            0 <= i < pre.slots@.len(),
            pre.slots@[i].key == auction_key,
            slot_lookup(pre.slots@, auction_key) == Some(pre.slots@[i]),
            pre.slots@[i].stack@.len() > 0,
            pre.slots@[i].stack@.last().bidder == bidder,
            mm == surviving_len(
                pre,
                bidder,
                auction_key.0,
                pre.slots@[i].auction.deposit,
                is_assigned_spec(
                    pre.slots@[i].auction@,
                    pre.slots@[i].stack@.last().price,
                    pre.now,
                ),
                pre.slots@[i].stack@.drop_last(),
            ),
            ns.key == pre.slots@[i].key,
            ns.auction == pre.slots@[i].auction,
            ns.stack@ == pre.slots@[i].stack@.drop_last().take(mm),
            post.slots@ == pre.slots@.update(i, ns),
            post.nonces@ == pre.nonces@,
            post.config == pre.config,
            post.now == pre.now,
            post.ledger.total_supply() == pre.ledger.total_supply(),
            forall|x: AccountId| #[trigger]
                post.ledger.free_of(x) as int == free_after_retract(
                    pre,
                    bidder,
                    auction_key.0,
                    pre.slots@[i].auction.deposit,
                    is_assigned_spec(
                        pre.slots@[i].auction@,
                        pre.slots@[i].stack@.last().price,
                        pre.now,
                    ),
                    x,
                ) - (if mm > 0 && x == pre.slots@[i].stack@.drop_last()[mm - 1].bidder {
                    pre.slots@[i].auction.deposit as int
                } else {
                    0
                }),
            forall|x: AccountId| #[trigger]
                post.ledger.reserved_of(x) as int == pre.reserved_of(x) - (if x == bidder {
                    pre.slots@[i].auction.deposit as int
                } else {
                    0
                }) + (if mm > 0 && x == pre.slots@[i].stack@.drop_last()[mm - 1].bidder {
                    pre.slots@[i].auction.deposit as int
                } else {
                    0
                }),
            post.events@ == pre.events@.push(
                (Event::Retracted {
                    auction_key,
                    bid_key: if mm > 0 {
                        (
                            pre.slots@[i].stack@.drop_last()[mm - 1].bidder,
                            pre.slots@[i].stack@.drop_last()[mm - 1].seq,
                        )
                    } else {
                        (0u64, 0u128)
                    },
                    price: if mm > 0 {
                        pre.slots@[i].stack@.drop_last()[mm - 1].price
                    } else {
                        pre.slots@[i].auction.bounty
                    },
                }),
            ),
        ensures
            Self::retract_post(pre, post, bidder, auction_key),
    {
        lemma_slot_update(pre.slots@, i, ns);
        assert(pre.record_of(auction_key) == Some(pre.slots@[i].auction@));
        assert(pre.stack_of(auction_key) == pre.slots@[i].stack@);
    }

    /// After a successful `retract`'s mutations, the invariant holds again:
    /// the retractor's obligation lapsed with the unreserve, and the new
    /// top's obligation (if any) arose with the final reserve.
    #[verifier::rlimit(100)]
    proof fn lemma_retract_restores_wf(
        self,
        pre: Pallet,
        i: int,
        ns: Slot,
        bidder: AccountId,
        auction_key: Key,
        mm: int,
    )
        requires
            pre.wf(),
            0 <= i < pre.slots@.len(),
            pre.slots@[i].key == auction_key,
            pre.slots@[i].stack@.len() > 0,
            pre.slots@[i].stack@.last().bidder == bidder,
            !pre.slots@[i].auction.in_dispute,
            0 <= mm <= pre.slots@[i].stack@.len() - 1,
            ns.key == pre.slots@[i].key,
            ns.auction == pre.slots@[i].auction,
            ns.stack@ == pre.slots@[i].stack@.drop_last().take(mm),
            self.slots@ == pre.slots@.update(i, ns),
            self.nonces@ == pre.nonces@,
            self.config == pre.config,
            self.ledger.wf(),
            forall|x: AccountId| #[trigger]
                self.ledger.reserved_of(x) as int == pre.reserved_of(x) - (if x == bidder {
                    pre.slots@[i].auction.deposit as int
                } else {
                    0
                }) + (if mm > 0 && x == pre.slots@[i].stack@.drop_last()[mm - 1].bidder {
                    pre.slots@[i].auction.deposit as int
                } else {
                    0
                }),
        ensures
            unique_keys(self.slots@),
            forall|j: int|
                0 <= j < self.slots@.len() ==> slot_inv(self.config, #[trigger] self.slots@[j]),
            forall|j: int|
                0 <= j < self.slots@.len() ==> (#[trigger] self.slots@[j].key).1 < nonce_in(
                    self.nonces@,
                    self.slots@[j].key.0,
                ),
            forall|x: AccountId| self.ledger.reserved_of(x) >= #[trigger] oblig(self.slots@, x),
    {
        let osl = pre.slots@[i];
        let st = osl.stack@;
        let st1 = st.drop_last();
        let d = osl.auction.deposit;
        lemma_slot_update(pre.slots@, i, ns);
        lemma_oblig_update(pre.slots@, i, ns);
        assert(st1.take(mm) =~= st.take(mm));
        crate::stack::lemma_stack_wf_take(st, mm);
        assert forall|j: int| 0 <= j < self.slots@.len() implies slot_inv(
            self.config,
            #[trigger] self.slots@[j],
        ) by {
            assert(slot_inv(pre.config, pre.slots@[j]));
            if j != i {
                assert(self.slots@[j] == pre.slots@[j]);
            } else {
                assert(ns.stack@ == st.take(mm));
                assert forall|q: int| 0 <= q < ns.stack@.len() implies #[trigger] ns.stack@[q].bidder
                    != ns.key.0 && ns.stack@[q].bidder != ns.auction.arbitrator by {
                    assert(ns.stack@[q] == st[q]);
                }
                if mm > 0 {
                    assert(ns.stack@[0] == st[0]);
                }
            }
        }
        assert forall|j: int|
            0 <= j < self.slots@.len() implies (#[trigger] self.slots@[j].key).1 < nonce_in(
            self.nonces@,
            self.slots@[j].key.0,
        ) by {
            if j != i {
                assert(self.slots@[j] == pre.slots@[j]);
            }
            assert(pre.slots@[j].key.1 < nonce_in(pre.nonces@, pre.slots@[j].key.0));
        }
        assert forall|x: AccountId| self.ledger.reserved_of(x) >= #[trigger] oblig(
            self.slots@,
            x,
        ) by {
            assert(oblig(self.slots@, x) + slot_ob(osl, x) == oblig(pre.slots@, x) + slot_ob(
                ns,
                x,
            ));
            assert(pre.ledger.reserved_of(x) >= oblig(pre.slots@, x));
            lemma_slot_ob_le_oblig(pre.slots@, i, x);
            if mm > 0 {
                assert(ns.stack@.last() == st1[mm - 1]);
            }
        }
    }

    /// What [`Pallet::bids`] returns.
    pub open spec fn bids_spec(self, auction_key: Key, bid_key: Key) -> Option<(Key, Balance)> {
        match slot_lookup(self.slots@, auction_key) {
            None => None,
            Some(sl) => {
                if bid_key == (0u64, 0u128) {
                    if sl.stack@.len() == 0 {
                        None
                    } else {
                        Some((bid_key_at(sl.stack@, sl.stack@.len() - 1), sl.stack@.last().price))
                    }
                } else {
                    bid_entry_spec(sl.stack@, bid_key)
                }
            },
        }
    }
}

} // verus!
