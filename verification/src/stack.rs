//! The per-auction bid stack.
//!
//! Bids form a LIFO chain: the newest (and lowest-priced) bid is the top,
//! and each bid's predecessor is the bid that becomes top again when it is
//! popped. A bid's key is `(bidder, local sequence number)`, the sequence
//! number of the entry at depth `i` (from the bottom) being `i + 1`; the
//! sentinel key `(0, 0)` stands for the empty predecessor, so a live bid key
//! never collides with it. Abstractly the stack is the sequence of bids from
//! the earliest to the top.

use crate::auction::{AccountId, Balance, Key, SeqNum};
use vstd::prelude::*;

verus! {

/// One bid: who bid, its key's sequence number, and the offered price.
#[derive(Clone, Copy)]
pub struct Bid {
    pub bidder: AccountId,
    pub seq: SeqNum,
    pub price: Balance,
}

/// Bids from the earliest (bottom) to the newest (top): sequence numbers
/// count up from one, and each later bid undercuts its predecessor.
pub open spec fn stack_wf(s: Seq<Bid>) -> bool {
    &&& forall|i: int| 0 <= i < s.len() ==> #[trigger] s[i].seq == i + 1
    &&& forall|i: int| 0 < i < s.len() ==> #[trigger] s[i].price < s[i - 1].price
}

/// Prices fall strictly from the bottom of the stack to the top: an entry
/// `gap` steps above another is at least `gap` cheaper.
pub proof fn lemma_stack_strictly_decreasing(s: Seq<Bid>, i: int, j: int)
    requires
        forall|k: int| 0 < k < s.len() ==> #[trigger] s[k].price < s[k - 1].price,
        0 <= i < j < s.len(),
    ensures
        s[j].price + (j - i) <= s[i].price,
    decreases j - i,
{
    if j == i + 1 {
    } else {
        lemma_stack_strictly_decreasing(s, i, j - 1);
    }
}

/// Pushing a bid that extends the numbering and undercuts the top keeps
/// the stack well-formed.
pub proof fn lemma_stack_wf_push(st: Seq<Bid>, b: Bid)
    requires
        stack_wf(st),
        st.len() + 1 <= SeqNum::MAX,
        b.seq == (st.len() + 1) as SeqNum,
        st.len() > 0 ==> b.price < st.last().price,
    ensures
        stack_wf(st.push(b)),
{
    let t = st.push(b);
    assert forall|i: int| 0 <= i < t.len() implies #[trigger] t[i].seq == i + 1 by {
        if i < st.len() {
            assert(t[i] == st[i]);
        }
    }
    assert forall|i: int| 0 < i < t.len() implies #[trigger] t[i].price < t[i - 1].price by {
        if i < st.len() {
            assert(t[i] == st[i]);
            assert(t[i - 1] == st[i - 1]);
        } else {
            assert(t[i - 1] == st[i - 1]);
            assert(st[i - 1] == st.last());
        }
    }
}

/// Any prefix of a well-formed stack is well-formed.
pub proof fn lemma_stack_wf_take(s: Seq<Bid>, n: int)
    requires
        stack_wf(s),
        0 <= n <= s.len(),
    ensures
        stack_wf(s.take(n)),
{
    let t = s.take(n);
    assert forall|i: int| 0 <= i < t.len() implies #[trigger] t[i].seq == i + 1 by {
        assert(t[i] == s[i]);
    }
    assert forall|i: int| 0 < i < t.len() implies #[trigger] t[i].price < t[i - 1].price by {
        assert(t[i] == s[i]);
        assert(t[i - 1] == s[i - 1]);
    }
}

/// The key of the entry at depth `i`, as reported to callers and events.
pub open spec fn bid_key_at(s: Seq<Bid>, i: int) -> Key {
    (s[i].bidder, s[i].seq)
}

/// What a lookup of `key` in the stored bid map returns: the pair of the
/// predecessor's key (the sentinel `(0, 0)` for the earliest bid) and the
/// bid's own price. Meaningful on well-formed stacks, where the sequence
/// number pins the depth.
pub open spec fn bid_entry_spec(s: Seq<Bid>, key: Key) -> Option<(Key, Balance)> {
    if 1 <= key.1 <= s.len() && s[key.1 - 1].bidder == key.0 && s[key.1 - 1].seq == key.1 {
        if key.1 == 1 {
            Some((((0u64, 0u128)), s[key.1 - 1].price))
        } else {
            Some((bid_key_at(s, key.1 - 2), s[key.1 - 1].price))
        }
    } else {
        None
    }
}

/// A LIFO stack of bids; the last element is the top.
pub struct BidStack {
    pub bids: Vec<Bid>,
}

impl BidStack {
    /// Abstract contents, bottom to top.
    pub open spec fn view(self) -> Seq<Bid> {
        self.bids@
    }

    pub open spec fn wf(self) -> bool {
        stack_wf(self@)
    }

    /// An empty stack.
    pub fn new() -> (r: BidStack)
        ensures
            r@ =~= Seq::<Bid>::empty(),
            r.wf(),
    {
        BidStack { bids: Vec::new() }
    }

    pub fn len(&self) -> (r: usize)
        ensures
            r == self@.len(),
    {
        self.bids.len()
    }

    /// The sentinel's value: the top bid's key and price, or nothing when
    /// the stack is empty.
    pub fn head(&self) -> (r: Option<(Key, Balance)>)
        ensures
            self@.len() == 0 ==> r.is_none(),
            self@.len() > 0 ==> r == Some((bid_key_at(self@, self@.len() - 1), self@.last().price)),
    {
        if self.bids.len() == 0 {
            None
        } else {
            let top = self.bids[self.bids.len() - 1];
            Some(((top.bidder, top.seq), top.price))
        }
    }

    /// Push a new top bid; its sequence number extends the chain. The caller
    /// shows that the new price undercuts the current top.
    pub fn push(&mut self, bidder: AccountId, price: Balance) -> (bid_key: Key)
        requires
            old(self).wf(),
            old(self)@.len() > 0 ==> price < old(self)@.last().price,
        ensures
            final(self).wf(),
            old(self)@.len() + 1 <= SeqNum::MAX,
            final(self)@ =~= old(self)@.push(
                (Bid { bidder, seq: (old(self)@.len() + 1) as SeqNum, price }),
            ),
            bid_key == (bidder, (old(self)@.len() + 1) as SeqNum),
    {
        let seq: u128 = (self.bids.len() as u128) + 1;
        self.bids.push(Bid { bidder, seq, price });
        (bidder, seq)
    }

    /// Remove the top bid.
    pub fn pop_top(&mut self)
        requires
            old(self).wf(),
            old(self)@.len() > 0,
        ensures
            final(self).wf(),
            final(self)@ =~= old(self)@.drop_last(),
    {
        let _ = self.bids.pop();
    }

    /// Keep only the `n` earliest bids.
    pub fn keep(&mut self, n: usize)
        requires
            old(self).wf(),
            n <= old(self)@.len(),
        ensures
            final(self).wf(),
            final(self)@ =~= old(self)@.take(n as int),
    {
        self.bids.truncate(n);
    }

    /// Remove every bid.
    pub fn clear(&mut self)
        ensures
            final(self).wf(),
            final(self)@ =~= Seq::<Bid>::empty(),
    {
        self.bids.clear();
    }

    /// Look one stored bid up by its key, yielding the predecessor's key and
    /// the bid's price, exactly as the persisted bid map stores them.
    pub fn find_bid(&self, key: Key) -> (r: Option<(Key, Balance)>)
        requires
            self.wf(),
        ensures
            r == bid_entry_spec(self@, key),
    {
        if key.1 >= 1 && key.1 <= self.bids.len() as u128 {
            let i: usize = (key.1 - 1) as usize;
            let b = self.bids[i];
            if b.bidder == key.0 {
                assert(b.seq == key.1);
                if i == 0 {
                    Some(((0u64, 0u128), b.price))
                } else {
                    let p = self.bids[i - 1];
                    Some(((p.bidder, p.seq), b.price))
                }
            } else {
                None
            }
        } else {
            None
        }
    }
}

} // verus!
