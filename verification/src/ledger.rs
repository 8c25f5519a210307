//! The balance ledger.
//!
//! Every account holds a free and a reserved bucket. `reserve` moves funds
//! from free to reserved and fails on insufficient free balance; `unreserve`
//! moves funds back and is clamped at the available reserved amount;
//! `transfer` moves free funds between accounts. No operation changes the
//! total over all accounts of free plus reserved, which is the backbone of
//! the engine's fund-conservation guarantee.

use vstd::pervasive::VecAdditionalExecFns;
use vstd::prelude::*;

verus! {

/// One account's balances.
#[derive(Clone, Copy)]
pub struct AccountEntry {
    pub acct: u64,
    pub free: u64,
    pub reserved: u64,
}

/// Free plus reserved funds of one entry.
pub open spec fn entry_total(e: AccountEntry) -> nat {
    (e.free + e.reserved) as nat
}

/// Sum over all entries of free plus reserved.
pub open spec fn sum_entries(s: Seq<AccountEntry>) -> nat
    decreases s.len(),
{
    if s.len() == 0 {
        0
    } else {
        sum_entries(s.drop_last()) + entry_total(s.last())
    }
}

/// Free balance of `a` in the entry list; zero when absent.
pub open spec fn free_in(s: Seq<AccountEntry>, a: u64) -> nat
    decreases s.len(),
{
    if s.len() == 0 {
        0
    } else if s.last().acct == a {
        s.last().free as nat
    } else {
        free_in(s.drop_last(), a)
    }
}

/// Reserved balance of `a` in the entry list; zero when absent.
pub open spec fn reserved_in(s: Seq<AccountEntry>, a: u64) -> nat
    decreases s.len(),
{
    if s.len() == 0 {
        0
    } else if s.last().acct == a {
        s.last().reserved as nat
    } else {
        reserved_in(s.drop_last(), a)
    }
}

/// Whether the entry list carries an entry for `a`.
pub open spec fn has_in(s: Seq<AccountEntry>, a: u64) -> bool
    decreases s.len(),
{
    if s.len() == 0 {
        false
    } else if s.last().acct == a {
        true
    } else {
        has_in(s.drop_last(), a)
    }
}

/// No two entries name the same account.
pub open spec fn unique_accts(s: Seq<AccountEntry>) -> bool {
    forall|i: int, j: int|
        #![trigger s[i].acct, s[j].acct]
        0 <= i < j < s.len() ==> s[i].acct != s[j].acct
}

/// Dropping the last entry keeps the accounts unique.
proof fn lemma_unique_drop_last(s: Seq<AccountEntry>)
    requires
        unique_accts(s),
        s.len() > 0,
    ensures
        unique_accts(s.drop_last()),
{
    assert forall|i: int, j: int|
        0 <= i < j < s.drop_last().len() implies #[trigger] s.drop_last()[i].acct != #[trigger] s.drop_last()[j].acct by {
        assert(s.drop_last()[i] == s[i]);
        assert(s.drop_last()[j] == s[j]);
    }
}

/// With unique accounts, the entry at index `i` is what the lookups return.
pub proof fn lemma_lookup_at(s: Seq<AccountEntry>, i: int)
    requires
        unique_accts(s),
        0 <= i < s.len(),
    ensures
        free_in(s, s[i].acct) == s[i].free,
        reserved_in(s, s[i].acct) == s[i].reserved,
        has_in(s, s[i].acct),
    decreases s.len(),
{
    if i == s.len() - 1 {
    } else {
        assert(s.last().acct != s[i].acct);
        lemma_unique_drop_last(s);
        assert(s.drop_last()[i] == s[i]);
        lemma_lookup_at(s.drop_last(), i);
    }
}

/// An account named by no entry has zero balances.
pub proof fn lemma_lookup_absent(s: Seq<AccountEntry>, a: u64)
    requires
        forall|i: int| 0 <= i < s.len() ==> #[trigger] s[i].acct != a,
    ensures
        free_in(s, a) == 0,
        reserved_in(s, a) == 0,
        !has_in(s, a),
    decreases s.len(),
{
    if s.len() > 0 {
        assert(s.last() == s[s.len() - 1]);
        assert forall|i: int| 0 <= i < s.drop_last().len() implies #[trigger] s.drop_last()[i].acct != a by {
            assert(s.drop_last()[i] == s[i]);
        }
        lemma_lookup_absent(s.drop_last(), a);
    }
}

/// An account without an entry has zero balances.
pub proof fn lemma_no_account_no_balance(s: Seq<AccountEntry>, a: u64)
    requires
        !has_in(s, a),
    ensures
        free_in(s, a) == 0,
        reserved_in(s, a) == 0,
    decreases s.len(),
{
    if s.len() > 0 {
        lemma_no_account_no_balance(s.drop_last(), a);
    }
}

/// Replacing the entry at `i` shifts the sum by the difference of the two
/// entries' totals.
pub proof fn lemma_sum_update(s: Seq<AccountEntry>, i: int, e: AccountEntry)
    requires
        0 <= i < s.len(),
    ensures
        sum_entries(s.update(i, e)) + entry_total(s[i]) == sum_entries(s) + entry_total(e),
    decreases s.len(),
{
    let t = s.update(i, e);
    if i == s.len() - 1 {
        assert(t.drop_last() =~= s.drop_last());
        assert(t.last() == e);
    } else {
        assert(t.last() == s.last());
        assert(t.drop_last() =~= s.drop_last().update(i, e));
        assert(s.drop_last()[i] == s[i]);
        lemma_sum_update(s.drop_last(), i, e);
    }
}

/// Appending an entry adds its total to the sum.
pub proof fn lemma_sum_push(s: Seq<AccountEntry>, e: AccountEntry)
    ensures
        sum_entries(s.push(e)) == sum_entries(s) + entry_total(e),
{
    assert(s.push(e).drop_last() =~= s);
    assert(s.push(e).last() == e);
}

/// Replacing the entry at `i` by one for the same account changes the
/// lookups only at that account.
pub proof fn lemma_lookup_update(s: Seq<AccountEntry>, i: int, e: AccountEntry)
    requires
        unique_accts(s),
        0 <= i < s.len(),
        e.acct == s[i].acct,
    ensures
        unique_accts(s.update(i, e)),
        forall|a: u64| #![trigger free_in(s.update(i, e), a)]
            free_in(s.update(i, e), a) == if a == e.acct { e.free as nat } else { free_in(s, a) },
        forall|a: u64| #![trigger reserved_in(s.update(i, e), a)]
            reserved_in(s.update(i, e), a) == if a == e.acct { e.reserved as nat } else {
                reserved_in(s, a)
            },
        forall|a: u64| #![trigger has_in(s.update(i, e), a)]
            has_in(s.update(i, e), a) == has_in(s, a),
    decreases s.len(),
{
    let t = s.update(i, e);
    assert forall|x: int, y: int| 0 <= x < y < t.len() implies #[trigger] t[x].acct
        != #[trigger] t[y].acct by {
        assert(s[x].acct != s[y].acct);
    }
    if i == s.len() - 1 {
        assert(t.drop_last() =~= s.drop_last());
        assert(t.last() == e);
        assert forall|a: u64| a != e.acct implies #[trigger] free_in(t, a) == free_in(s, a)
            && reserved_in(t, a) == reserved_in(s, a) && has_in(t, a) == has_in(s, a) by {
        }
        lemma_lookup_at(s, i);
        lemma_lookup_at(t, i);
    } else {
        assert(t.last() == s.last());
        assert(t.drop_last() =~= s.drop_last().update(i, e));
        assert(s.drop_last()[i] == s[i]);
        lemma_unique_drop_last(s);
        lemma_lookup_update(s.drop_last(), i, e);
        assert(s.last().acct != e.acct);
        assert forall|a: u64| #[trigger] free_in(t, a) == (if a == e.acct { e.free as nat } else {
            free_in(s, a)
        }) by {
            if t.last().acct != a {
                assert(free_in(t, a) == free_in(t.drop_last(), a));
            }
        }
        assert forall|a: u64| #[trigger] reserved_in(t, a) == (if a == e.acct {
            e.reserved as nat
        } else {
            reserved_in(s, a)
        }) by {
            if t.last().acct != a {
                assert(reserved_in(t, a) == reserved_in(t.drop_last(), a));
            }
        }
        assert forall|a: u64| #[trigger] has_in(t, a) == has_in(s, a) by {
            if t.last().acct != a {
                assert(has_in(t, a) == has_in(t.drop_last(), a));
            }
        }
    }
}

/// Appending an entry for a fresh account changes the lookups only there.
pub proof fn lemma_lookup_push(s: Seq<AccountEntry>, e: AccountEntry)
    requires
        unique_accts(s),
        forall|i: int| 0 <= i < s.len() ==> #[trigger] s[i].acct != e.acct,
    ensures
        unique_accts(s.push(e)),
        forall|a: u64| #![trigger free_in(s.push(e), a)]
            free_in(s.push(e), a) == if a == e.acct { e.free as nat } else { free_in(s, a) },
        forall|a: u64| #![trigger reserved_in(s.push(e), a)]
            reserved_in(s.push(e), a) == if a == e.acct { e.reserved as nat } else {
                reserved_in(s, a)
            },
        forall|a: u64| #![trigger has_in(s.push(e), a)]
            has_in(s.push(e), a) == (a == e.acct || has_in(s, a)),
{
    let t = s.push(e);
    assert(t.drop_last() =~= s);
    assert(t.last() == e);
    assert forall|x: int, y: int| 0 <= x < y < t.len() implies #[trigger] t[x].acct
        != #[trigger] t[y].acct by {
        if y < t.len() - 1 {
            assert(s[x].acct != s[y].acct);
        } else {
            assert(t[x] == s[x]);
        }
    }
}

/// One account's balances together never exceed the sum over all entries.
pub proof fn lemma_balances_le_sum(s: Seq<AccountEntry>, a: u64)
    ensures
        free_in(s, a) + reserved_in(s, a) <= sum_entries(s),
    decreases s.len(),
{
    if s.len() > 0 {
        lemma_balances_le_sum(s.drop_last(), a);
    }
}

/// Every entry's total is bounded by the sum.
pub proof fn lemma_entry_le_sum(s: Seq<AccountEntry>, i: int)
    requires
        0 <= i < s.len(),
    ensures
        entry_total(s[i]) <= sum_entries(s),
    decreases s.len(),
{
    if i == s.len() - 1 {
    } else {
        assert(s.drop_last()[i] == s[i]);
        lemma_entry_le_sum(s.drop_last(), i);
    }
}

/// Two distinct entries' totals together are bounded by the sum.
pub proof fn lemma_two_entries_le_sum(s: Seq<AccountEntry>, i: int, j: int)
    requires
        0 <= i < s.len(),
        0 <= j < s.len(),
        i != j,
    ensures
        entry_total(s[i]) + entry_total(s[j]) <= sum_entries(s),
    decreases s.len(),
{
    if j == s.len() - 1 {
        assert(s.drop_last()[i] == s[i]);
        lemma_entry_le_sum(s.drop_last(), i);
    } else if i == s.len() - 1 {
        assert(s.drop_last()[j] == s[j]);
        lemma_entry_le_sum(s.drop_last(), j);
    } else {
        assert(s.drop_last()[i] == s[i]);
        assert(s.drop_last()[j] == s[j]);
        lemma_two_entries_le_sum(s.drop_last(), i, j);
    }
}

/// The ledger: an association list of accounts with a running total.
pub struct Ledger {
    pub entries: Vec<AccountEntry>,
    pub total: u64,
}

impl Ledger {
    /// Well-formed: accounts are unique and the running total matches the
    /// sum over all entries. The total therefore always fits in a machine
    /// word, which rules overflow out of every balance move.
    pub open spec fn wf(self) -> bool {
        &&& unique_accts(self.entries@)
        &&& sum_entries(self.entries@) == self.total as nat
    }

    /// Free balance of `a`; zero for an absent account.
    pub open spec fn free_of(self, a: u64) -> nat {
        free_in(self.entries@, a)
    }

    /// Reserved balance of `a`; zero for an absent account.
    pub open spec fn reserved_of(self, a: u64) -> nat {
        reserved_in(self.entries@, a)
    }

    /// Whether `a` has an entry.
    pub open spec fn has_account(self, a: u64) -> bool {
        has_in(self.entries@, a)
    }

    /// Total over all accounts of free plus reserved.
    pub open spec fn total_supply(self) -> nat {
        sum_entries(self.entries@)
    }

    /// An empty ledger.
    pub fn new() -> (r: Ledger)
        ensures
            r.wf(),
            r.total_supply() == 0,
            forall|a: u64| #[trigger] r.free_of(a) == 0,
            forall|a: u64| #[trigger] r.reserved_of(a) == 0,
            forall|a: u64| !#[trigger] r.has_account(a),
    {
        Ledger { entries: Vec::new(), total: 0 }
    }

    /// Index of the entry for `a`, if any.
    fn find_idx(&self, a: u64) -> (r: Option<usize>)
        ensures
            match r {
                Some(i) => i < self.entries@.len() && self.entries@[i as int].acct == a,
                None => forall|i: int|
                    0 <= i < self.entries@.len() ==> #[trigger] self.entries@[i].acct != a,
            },
    {
        let mut i: usize = 0;
        while i < self.entries.len()
            invariant
                i <= self.entries@.len(),
                forall|j: int| 0 <= j < i ==> #[trigger] self.entries@[j].acct != a,
            decreases self.entries@.len() - i,
        {
            if self.entries[i].acct == a {
                return Some(i);
            }
            i = i + 1;
        }
        None
    }

    /// Read the free balance of `a`.
    pub fn free_balance(&self, a: u64) -> (r: u64)
        requires
            self.wf(),
        ensures
            r as nat == self.free_of(a),
    {
        match self.find_idx(a) {
            Some(i) => {
                proof {
                    lemma_lookup_at(self.entries@, i as int);
                }
                self.entries[i].free
            },
            None => {
                proof {
                    lemma_lookup_absent(self.entries@, a);
                }
                0
            },
        }
    }

    /// Read the reserved balance of `a`.
    pub fn reserved_balance(&self, a: u64) -> (r: u64)
        requires
            self.wf(),
        ensures
            r as nat == self.reserved_of(a),
    {
        match self.find_idx(a) {
            Some(i) => {
                proof {
                    lemma_lookup_at(self.entries@, i as int);
                }
                self.entries[i].reserved
            },
            None => {
                proof {
                    lemma_lookup_absent(self.entries@, a);
                }
                0
            },
        }
    }

    /// Create the account `a` with an initial free endowment. Refused when
    /// the account already exists or the total supply would overflow.
    pub fn endow(&mut self, a: u64, amount: u64) -> (ok: bool)
        requires
            old(self).wf(),
        ensures
            final(self).wf(),
            ok == (!old(self).has_account(a) && old(self).total_supply() + amount
                <= u64::MAX),
            ok ==> final(self).free_of(a) == amount && final(self).reserved_of(a) == 0
                && final(self).has_account(a) && final(self).total_supply() == old(
                self,
            ).total_supply() + amount,
            ok ==> forall|b: u64|
                b != a ==> #[trigger] final(self).free_of(b) == old(self).free_of(b),
            ok ==> forall|b: u64|
                b != a ==> #[trigger] final(self).reserved_of(b) == old(self).reserved_of(b),
            ok ==> forall|b: u64|
                b != a ==> #[trigger] final(self).has_account(b) == old(self).has_account(b),
            !ok ==> *final(self) == *old(self),
    {
        match self.find_idx(a) {
            Some(i) => {
                proof {
                    lemma_lookup_at(self.entries@, i as int);
                }
                false
            },
            None => {
                proof {
                    lemma_lookup_absent(self.entries@, a);
                }
                if amount > u64::MAX - self.total {
                    false
                } else {
                    let e = AccountEntry { acct: a, free: amount, reserved: 0 };
                    proof {
                        lemma_sum_push(self.entries@, e);
                        lemma_lookup_push(self.entries@, e);
                    }
                    self.entries.push(e);
                    self.total = self.total + amount;
                    true
                }
            },
        }
    }

    /// Move `amount` from the free to the reserved bucket of `a`. The caller
    /// shows that the free balance suffices.
    pub fn reserve(&mut self, a: u64, amount: u64)
        requires
            old(self).wf(),
            old(self).free_of(a) >= amount,
        ensures
            final(self).wf(),
            final(self).total_supply() == old(self).total_supply(),
            final(self).free_of(a) == old(self).free_of(a) - amount,
            final(self).reserved_of(a) == old(self).reserved_of(a) + amount,
            forall|b: u64|
                b != a ==> #[trigger] final(self).free_of(b) == old(self).free_of(b),
            forall|b: u64|
                b != a ==> #[trigger] final(self).reserved_of(b) == old(self).reserved_of(b),
            forall|b: u64| #[trigger] final(self).has_account(b) == old(self).has_account(b),
    {
        match self.find_idx(a) {
            Some(i) => {
                proof {
                    lemma_lookup_at(self.entries@, i as int);
                    lemma_entry_le_sum(self.entries@, i as int);
                }
                let e = self.entries[i];
                let e2 = AccountEntry { acct: a, free: e.free - amount, reserved: e.reserved + amount };
                proof {
                    lemma_sum_update(self.entries@, i as int, e2);
                    lemma_lookup_update(self.entries@, i as int, e2);
                }
                self.entries.set(i, e2);
            },
            None => {
                proof {
                    lemma_lookup_absent(self.entries@, a);
                }
            },
        }
    }

    /// Reserve if the free balance suffices; report whether it did. A failed
    /// attempt changes nothing.
    pub fn try_reserve(&mut self, a: u64, amount: u64) -> (ok: bool)
        requires
            old(self).wf(),
        ensures
            final(self).wf(),
            ok == (old(self).free_of(a) >= amount),
            ok ==> final(self).total_supply() == old(self).total_supply()
                && final(self).free_of(a) == old(self).free_of(a) - amount
                && final(self).reserved_of(a) == old(self).reserved_of(a) + amount
                && (forall|b: u64|
                    b != a ==> #[trigger] final(self).free_of(b) == old(self).free_of(b))
                && (forall|b: u64|
                    b != a ==> #[trigger] final(self).reserved_of(b) == old(self).reserved_of(
                    b,
                ))
                && (forall|b: u64| #[trigger]
                    final(self).has_account(b) == old(self).has_account(b)),
            !ok ==> *final(self) == *old(self),
    {
        if self.free_balance(a) >= amount {
            self.reserve(a, amount);
            true
        } else {
            false
        }
    }

    /// Move back from the reserved to the free bucket of `a`, clamped at the
    /// available reserved amount. Never fails.
    pub fn unreserve(&mut self, a: u64, amount: u64)
        requires
            old(self).wf(),
        ensures
            final(self).wf(),
            final(self).total_supply() == old(self).total_supply(),
            final(self).free_of(a) == old(self).free_of(a) + (if amount <= old(
                self,
            ).reserved_of(a) {
                amount as nat
            } else {
                old(self).reserved_of(a)
            }),
            final(self).reserved_of(a) == old(self).reserved_of(a) - (if amount <= old(
                self,
            ).reserved_of(a) {
                amount as nat
            } else {
                old(self).reserved_of(a)
            }),
            forall|b: u64|
                b != a ==> #[trigger] final(self).free_of(b) == old(self).free_of(b),
            forall|b: u64|
                b != a ==> #[trigger] final(self).reserved_of(b) == old(self).reserved_of(b),
            forall|b: u64| #[trigger] final(self).has_account(b) == old(self).has_account(b),
    {
        match self.find_idx(a) {
            Some(i) => {
                proof {
                    lemma_lookup_at(self.entries@, i as int);
                    lemma_entry_le_sum(self.entries@, i as int);
                }
                let e = self.entries[i];
                let m = if amount <= e.reserved {
                    amount
                } else {
                    e.reserved
                };
                let e2 = AccountEntry { acct: a, free: e.free + m, reserved: e.reserved - m };
                proof {
                    lemma_sum_update(self.entries@, i as int, e2);
                    lemma_lookup_update(self.entries@, i as int, e2);
                }
                self.entries.set(i, e2);
            },
            None => {
                proof {
                    lemma_lookup_absent(self.entries@, a);
                }
            },
        }
    }

    /// Move `amount` of free funds from `src` to `dst`. The caller shows
    /// that `src`'s free balance suffices.
    pub fn transfer(&mut self, src: u64, dst: u64, amount: u64)
        requires
            old(self).wf(),
            old(self).free_of(src) >= amount,
        ensures
            final(self).wf(),
            final(self).total_supply() == old(self).total_supply(),
            src != dst ==> final(self).free_of(src) == old(self).free_of(src) - amount,
            src != dst ==> final(self).free_of(dst) == old(self).free_of(dst) + amount,
            src == dst ==> *final(self) == *old(self),
            forall|b: u64| #[trigger] final(self).reserved_of(b) == old(self).reserved_of(b),
            forall|b: u64|
                b != src && b != dst ==> #[trigger] final(self).free_of(b) == old(self).free_of(
                    b,
                ),
            forall|b: u64|
                b != dst ==> #[trigger] final(self).has_account(b) == old(self).has_account(b),
    {
        if src == dst || amount == 0 {
            return ;
        }
        let i = match self.find_idx(src) {
            Some(i) => i,
            None => {
                proof {
                    lemma_lookup_absent(self.entries@, src);
                }
                return ;
            },
        };
        proof {
            lemma_lookup_at(self.entries@, i as int);
        }
        let e = self.entries[i];
        let e2 = AccountEntry { acct: src, free: e.free - amount, reserved: e.reserved };
        proof {
            lemma_sum_update(self.entries@, i as int, e2);
            lemma_lookup_update(self.entries@, i as int, e2);
        }
        self.entries.set(i, e2);
        match self.find_idx(dst) {
            Some(j) => {
                proof {
                    lemma_lookup_at(self.entries@, j as int);
                    lemma_two_entries_le_sum(self.entries@, i as int, j as int);
                }
                let d = self.entries[j];
                let d2 = AccountEntry { acct: dst, free: d.free + amount, reserved: d.reserved };
                proof {
                    lemma_sum_update(self.entries@, j as int, d2);
                    lemma_lookup_update(self.entries@, j as int, d2);
                }
                self.entries.set(j, d2);
            },
            None => {
                proof {
                    lemma_lookup_absent(self.entries@, dst);
                }
                let d2 = AccountEntry { acct: dst, free: amount, reserved: 0 };
                proof {
                    lemma_sum_push(self.entries@, d2);
                    lemma_lookup_push(self.entries@, d2);
                }
                self.entries.push(d2);
            },
        }
    }
}

} // verus!
