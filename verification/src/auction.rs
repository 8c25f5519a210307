//! The auction record and the assignment oracle.
//!
//! An auction is identified by the pair `(owner_account, owner_nonce)`; the
//! owner is the first component of the key and is not stored in the record.
//! The assignment oracle turns the passage of block time into a rising price
//! floor: the base price climbs linearly from zero at `initial_block` to
//! `bounty` at `terminal_block`, and a top bid becomes binding ("assigned")
//! the moment its price falls at or under that floor. Assignment is derived
//! on every read; it is never stored.

use vstd::arithmetic::div_mod::{lemma_div_is_ordered, lemma_div_multiples_vanish, lemma_div_pos_is_pos};
use vstd::arithmetic::mul::lemma_mul_inequality;
use vstd::prelude::*;

verus! {

/// An account of the host ledger.
pub type AccountId = u64;

/// An amount of currency.
pub type Balance = u64;

/// A block height.
pub type BlockNumber = u64;

/// A per-account sequence number; also the second component of a key.
pub type SeqNum = u128;

/// Identity of an auction (`(owner, nonce at creation)`) and of a bid
/// (`(bidder, local sequence number)`). The reserved key `(0, 0)` is the
/// sentinel that marks the head of a bid stack.
pub type Key = (AccountId, SeqNum);

/// A stored auction record. The owner is carried by the auction key, not by
/// the record.
pub struct Auction {
    /// Account designated to resolve disputes; paid from the losing party's
    /// deposit.
    pub arbitrator: AccountId,
    /// Amount the owner pays for the task; the ceiling of every first bid.
    pub bounty: Balance,
    /// Per-party skin in the game, reserved from the owner and from the
    /// current top bidder while the auction lives.
    pub deposit: Balance,
    /// Block height at creation.
    pub initial_block: BlockNumber,
    /// Block height at which the base price reaches `bounty`.
    pub terminal_block: BlockNumber,
    /// Opaque attached payload.
    pub data: Vec<u8>,
    /// Whether a dispute has been raised; false at creation.
    pub in_dispute: bool,
}

/// Mathematical image of an [`Auction`].
pub struct AuctionView {
    pub arbitrator: AccountId,
    pub bounty: Balance,
    pub deposit: Balance,
    pub initial_block: BlockNumber,
    pub terminal_block: BlockNumber,
    pub data: Seq<u8>,
    pub in_dispute: bool,
}

impl View for Auction {
    type V = AuctionView;

    open spec fn view(&self) -> AuctionView {
        AuctionView {
            arbitrator: self.arbitrator,
            bounty: self.bounty,
            deposit: self.deposit,
            initial_block: self.initial_block,
            terminal_block: self.terminal_block,
            data: self.data@,
            in_dispute: self.in_dispute,
        }
    }
}

/// The rising price floor of the reverse Dutch auction: zero up to
/// `initial_block`, `bounty` from `terminal_block` on, and the linear
/// interpolation (with truncating division) in between.
pub open spec fn base_price_spec(a: AuctionView, now: BlockNumber) -> int {
    if now >= a.terminal_block {
        a.bounty as int
    } else if now <= a.initial_block {
        0
    } else {
        (a.bounty * (now - a.initial_block)) / (a.terminal_block - a.initial_block)
    }
}

/// A top bid at `price` is binding once the floor has risen to meet it.
pub open spec fn is_assigned_spec(a: AuctionView, price: Balance, now: BlockNumber) -> bool {
    price <= base_price_spec(a, now)
}

/// The base price never exceeds the bounty.
pub proof fn lemma_base_price_le_bounty(a: AuctionView, now: BlockNumber)
    ensures
        0 <= base_price_spec(a, now) <= a.bounty,
{
    if now >= a.terminal_block {
    } else if now <= a.initial_block {
    } else {
        let x = (now - a.initial_block) as int;
        let y = (a.terminal_block - a.initial_block) as int;
        lemma_div_pos_is_pos(a.bounty * x, y);
        lemma_mul_inequality(x, y, a.bounty as int);
        assert(a.bounty * x == x * a.bounty) by (nonlinear_arith);
        assert(a.bounty * y == y * a.bounty) by (nonlinear_arith);
        lemma_div_is_ordered(a.bounty * x, a.bounty * y, y);
        lemma_div_multiples_vanish(a.bounty as int, y);
    }
}

/// The base price is monotone in the block height: the floor only rises.
pub proof fn lemma_base_price_monotonic(a: AuctionView, t1: BlockNumber, t2: BlockNumber)
    requires
        t1 <= t2,
    ensures
        base_price_spec(a, t1) <= base_price_spec(a, t2),
{
    lemma_base_price_le_bounty(a, t1);
    lemma_base_price_le_bounty(a, t2);
    if t2 < a.terminal_block && t1 > a.initial_block {
        let x1 = (t1 - a.initial_block) as int;
        let x2 = (t2 - a.initial_block) as int;
        let y = (a.terminal_block - a.initial_block) as int;
        lemma_mul_inequality(x1, x2, a.bounty as int);
        assert(a.bounty * x1 == x1 * a.bounty) by (nonlinear_arith);
        assert(a.bounty * x2 == x2 * a.bounty) by (nonlinear_arith);
        lemma_div_is_ordered(a.bounty * x1, a.bounty * x2, y);
    }
}

impl Auction {
    /// The current price floor, derived from the clock on every read.
    pub fn get_base_price(&self, now: BlockNumber) -> (r: Balance)
        ensures
            r as int == base_price_spec(self@, now),
    {
        if now >= self.terminal_block {
            self.bounty
        } else if now <= self.initial_block {
            0
        } else {
            proof {
                let x = (now - self.initial_block) as int;
                assert(self.bounty * x <= u64::MAX * u64::MAX) by (nonlinear_arith)
                    requires
                        0 <= self.bounty <= u64::MAX,
                        0 <= x <= u64::MAX,
                ;
                lemma_base_price_le_bounty(self@, now);
            }
            let num: u128 = (self.bounty as u128) * ((now - self.initial_block) as u128);
            let den: u128 = (self.terminal_block - self.initial_block) as u128;
            (num / den) as u64
        }
    }

    /// Whether the given top-bid price is binding at block `now`.
    pub fn is_assigned(&self, price: Balance, now: BlockNumber) -> (r: bool)
        ensures
            r == is_assigned_spec(self@, price, now),
    {
        price <= self.get_base_price(now)
    }
}

} // verus!
