//! The single-asset balance book: per-account free, reserved and locked
//! balances plus the asset's total issuance, with the primitive atomic
//! mutators (deposit, withdraw, slash, reserve, unreserve, transfer, locks).
//!
//! The well-formedness invariant `wf` carries the conservation law — the
//! recorded issuance equals the sum of all free and reserved balances — so
//! every state reachable through the verified mutators conserves issuance.

use vstd::prelude::*;

use crate::types::BalanceStatus;
use crate::types::Error;

verus! {

/// A named restriction on the movement of part of a free balance.  A lock
/// does not reduce the total balance; it only keeps `amount` of the free
/// balance from being withdrawn.
#[derive(Clone, Copy, PartialEq, Eq, Structural, Debug)]
pub struct BalanceLock {
    /// The identifier the lock was set under.
    pub id: u64,
    /// How much of the free balance the lock pins.
    pub amount: u64,
}

/// One account's balances under a single asset.
#[derive(Debug)]
pub struct AccountEntry {
    /// The account that owns these balances.
    pub account: u64,
    /// The freely transferable balance (subject to locks).
    pub free: u64,
    /// The escrowed balance: not transferable, still part of the total
    /// balance and of the issuance.
    pub reserved: u64,
    /// The named locks on the free balance.
    pub locks: Vec<BalanceLock>,
}

/// The balance table of one asset.
#[derive(Debug)]
pub struct AssetBook {
    /// Total units of the asset in existence.
    pub total_issuance: u64,
    /// The minimum balance below which an account may be pruned; policy
    /// detail of the storage collaborator, recorded here as configuration.
    pub min_balance: u64,
    /// One entry per account that has ever held the asset.
    pub entries: Vec<AccountEntry>,
}

/// The free plus reserved balance of every entry of `s`, summed.
pub open spec fn sum_balances(s: Seq<AccountEntry>) -> int
    decreases s.len(),
{
    if s.len() == 0 {
        0
    } else {
        sum_balances(s.drop_last()) + s.last().free + s.last().reserved
    }
}

/// Every account appears in at most one entry.
pub open spec fn unique_accounts(s: Seq<AccountEntry>) -> bool {
    forall|i: int, j: int|
        0 <= i < j < s.len() ==> s[i].account != s[j].account
}

/// Every lock id appears at most once in `locks`.
pub open spec fn unique_lock_ids(locks: Seq<BalanceLock>) -> bool {
    forall|i: int, j: int|
        0 <= i < j < locks.len() ==> locks[i].id != locks[j].id
}

/// Whether some entry of `s` belongs to account `a`.
pub open spec fn has_account(s: Seq<AccountEntry>, a: u64) -> bool {
    exists|i: int| 0 <= i < s.len() && s[i].account == a
}

/// The index of account `a`'s entry in `s` (meaningful only under
/// `has_account`; unique under `unique_accounts`).
pub open spec fn account_index(s: Seq<AccountEntry>, a: u64) -> int {
    choose|i: int| 0 <= i < s.len() && s[i].account == a
}

/// The largest lock amount of `locks`: how much of the free balance cannot
/// be withdrawn.
pub open spec fn frozen_amount(locks: Seq<BalanceLock>) -> nat
    decreases locks.len(),
{
    if locks.len() == 0 {
        0
    } else {
        let rest = frozen_amount(locks.drop_last());
        if locks.last().amount >= rest {
            locks.last().amount as nat
        } else {
            rest
        }
    }
}

impl AssetBook {
    /// The conservation law plus structural uniqueness: issuance equals the
    /// sum of all free and reserved balances, accounts are singly keyed, and
    /// lock ids are unique per account.
    pub open spec fn wf(self) -> bool {
        &&& unique_accounts(self.entries@)
        &&& sum_balances(self.entries@) == self.total_issuance as int
        &&& forall|i: int|
            0 <= i < self.entries@.len() ==> unique_lock_ids(#[trigger] self.entries@[i].locks@)
    }

    /// The free balance of `a` (zero where no entry exists).
    pub open spec fn free_of(self, a: u64) -> nat {
        if has_account(self.entries@, a) {
            self.entries@[account_index(self.entries@, a)].free as nat
        } else {
            0
        }
    }

    /// The reserved balance of `a` (zero where no entry exists).
    pub open spec fn reserved_of(self, a: u64) -> nat {
        if has_account(self.entries@, a) {
            self.entries@[account_index(self.entries@, a)].reserved as nat
        } else {
            0
        }
    }

    /// The total balance of `a`: free plus reserved.
    pub open spec fn total_of(self, a: u64) -> nat {
        self.free_of(a) + self.reserved_of(a)
    }

    /// The locks on `a`'s free balance (empty where no entry exists).
    pub open spec fn locks_of(self, a: u64) -> Seq<BalanceLock> {
        if has_account(self.entries@, a) {
            self.entries@[account_index(self.entries@, a)].locks@
        } else {
            Seq::empty()
        }
    }

    /// How much of `a`'s free balance is frozen by locks.
    pub open spec fn frozen_of(self, a: u64) -> nat {
        frozen_amount(self.locks_of(a))
    }

    /// Whether `amount` may leave `a`'s free balance: the free balance
    /// suffices and what remains still covers the frozen part.
    pub open spec fn can_withdraw(self, a: u64, amount: u64) -> bool {
        &&& amount as nat <= self.free_of(a)
        &&& self.free_of(a) - amount >= self.frozen_of(a)
    }

    /// All balances and locks of accounts other than `a` are the same in
    /// `self` as in `pre`.
    pub open spec fn unchanged_except(self, pre: AssetBook, a: u64) -> bool {
        forall|x: u64|
            x != a ==> {
                &&& #[trigger] self.free_of(x) == pre.free_of(x)
                &&& self.reserved_of(x) == pre.reserved_of(x)
                &&& self.locks_of(x) == pre.locks_of(x)
            }
    }

    /// All balances and locks of accounts other than `a` and `b` are the
    /// same in `self` as in `pre`.
    pub open spec fn unchanged_except_two(self, pre: AssetBook, a: u64, b: u64) -> bool {
        forall|x: u64|
            x != a && x != b ==> {
                &&& #[trigger] self.free_of(x) == pre.free_of(x)
                &&& self.reserved_of(x) == pre.reserved_of(x)
                &&& self.locks_of(x) == pre.locks_of(x)
            }
    }

    /// An empty book of the asset: no issuance, no entries.
    pub fn new(min_balance: u64) -> (r: AssetBook)
        ensures
            r.wf(),
            r.total_issuance == 0,
            r.min_balance == min_balance,
            r.entries@.len() == 0,
            forall|a: u64| #[trigger] r.free_of(a) == 0 && r.reserved_of(a) == 0,
            forall|a: u64| #[trigger] r.locks_of(a) == Seq::<BalanceLock>::empty(),
    {
        AssetBook { total_issuance: 0, min_balance, entries: Vec::new() }
    }
}

/// Under `unique_accounts`, any index holding account `a` is the index the
/// view functions read: the lookup is determined.
pub proof fn lemma_account_index(s: Seq<AccountEntry>, a: u64, i: int)
    requires
        unique_accounts(s),
        0 <= i < s.len(),
        s[i].account == a,
    ensures
        has_account(s, a),
        account_index(s, a) == i,
{
    assert(has_account(s, a));
    let j = account_index(s, a);
    assert(0 <= j < s.len() && s[j].account == a);
    if i != j {
        if i < j {
            assert(s[i].account != s[j].account);
        } else {
            assert(s[j].account != s[i].account);
        }
    }
}

/// Replacing one entry changes the sum by the difference of that entry's
/// balances.
pub proof fn lemma_sum_update(s: Seq<AccountEntry>, i: int, e: AccountEntry)
    requires
        0 <= i < s.len(),
    ensures
        sum_balances(s.update(i, e)) == sum_balances(s) - s[i].free - s[i].reserved + e.free
            + e.reserved,
    decreases s.len(),
{
    let t = s.update(i, e);
    if i == s.len() - 1 {
        assert(t.drop_last() =~= s.drop_last());
    } else {
        assert(t.drop_last() =~= s.drop_last().update(i, e));
        lemma_sum_update(s.drop_last(), i, e);
    }
}

/// Appending one entry adds its balances to the sum.
pub proof fn lemma_sum_push(s: Seq<AccountEntry>, e: AccountEntry)
    ensures
        sum_balances(s.push(e)) == sum_balances(s) + e.free + e.reserved,
{
    assert(s.push(e).drop_last() =~= s);
}

/// The sum dominates any single entry's balances.
pub proof fn lemma_sum_ge_entry(s: Seq<AccountEntry>, i: int)
    requires
        0 <= i < s.len(),
    ensures
        sum_balances(s) >= s[i].free + s[i].reserved,
    decreases s.len(),
{
    lemma_sum_nonneg(s.drop_last());
    if i < s.len() - 1 {
        lemma_sum_ge_entry(s.drop_last(), i);
    }
}

/// The sum of balances is never negative.
pub proof fn lemma_sum_nonneg(s: Seq<AccountEntry>)
    ensures
        sum_balances(s) >= 0,
    decreases s.len(),
{
    if s.len() > 0 {
        lemma_sum_nonneg(s.drop_last());
    }
}

/// The sum dominates the balances of any two distinct entries together.
pub proof fn lemma_sum_ge_two(s: Seq<AccountEntry>, i: int, j: int)
    requires
        0 <= i < s.len(),
        0 <= j < s.len(),
        i != j,
    ensures
        sum_balances(s) >= s[i].free + s[i].reserved + s[j].free + s[j].reserved,
    decreases s.len(),
{
    let lo = if i < j { i } else { j };
    let hi = if i < j { j } else { i };
    if hi == s.len() - 1 {
        lemma_sum_ge_entry(s.drop_last(), lo);
    } else {
        lemma_sum_ge_two(s.drop_last(), i, j);
    }
}

/// Replacing entry `i` by an entry of the same account keeps the table
/// singly keyed and changes only that account's view.
pub proof fn lemma_book_update(pre: AssetBook, post: AssetBook, i: int, e1: AccountEntry)
    requires
        unique_accounts(pre.entries@),
        0 <= i < pre.entries@.len(),
        e1.account == pre.entries@[i].account,
        post.entries@ == pre.entries@.update(i, e1),
    ensures
        unique_accounts(post.entries@),
        post.free_of(e1.account) == e1.free,
        post.reserved_of(e1.account) == e1.reserved,
        post.locks_of(e1.account) == e1.locks@,
        pre.free_of(e1.account) == pre.entries@[i].free,
        pre.reserved_of(e1.account) == pre.entries@[i].reserved,
        pre.locks_of(e1.account) == pre.entries@[i].locks@,
        post.unchanged_except(pre, e1.account),
{
    let a = e1.account;
    let s0 = pre.entries@;
    let s1 = post.entries@;
    lemma_account_index(s0, a, i);
    assert(unique_accounts(s1));
    lemma_account_index(s1, a, i);
    assert forall|x: u64| x != a implies {
        &&& #[trigger] post.free_of(x) == pre.free_of(x)
        &&& post.reserved_of(x) == pre.reserved_of(x)
        &&& post.locks_of(x) == pre.locks_of(x)
    } by {
        if has_account(s0, x) {
            let k = account_index(s0, x);
            assert(0 <= k < s0.len() && s0[k].account == x);
            assert(k != i);
            lemma_account_index(s1, x, k);
            lemma_account_index(s0, x, k);
        } else {
            if has_account(s1, x) {
                let k = account_index(s1, x);
                assert(s0[k].account == x);
            }
        }
    }
}

/// Appending an entry for an absent account keeps the table singly keyed,
/// makes that entry the account's view, and changes no other account's view.
pub proof fn lemma_book_push(pre: AssetBook, post: AssetBook, e1: AccountEntry)
    requires
        unique_accounts(pre.entries@),
        !has_account(pre.entries@, e1.account),
        post.entries@ == pre.entries@.push(e1),
    ensures
        unique_accounts(post.entries@),
        post.free_of(e1.account) == e1.free,
        post.reserved_of(e1.account) == e1.reserved,
        post.locks_of(e1.account) == e1.locks@,
        pre.free_of(e1.account) == 0,
        pre.reserved_of(e1.account) == 0,
        pre.locks_of(e1.account) == Seq::<BalanceLock>::empty(),
        post.unchanged_except(pre, e1.account),
{
    let a = e1.account;
    let s0 = pre.entries@;
    let s1 = post.entries@;
    assert forall|i: int, j: int| 0 <= i < j < s1.len() implies s1[i].account != s1[j].account by {
        if j == s1.len() - 1 {
            assert(s1[i] == s0[i]);
            if s0[i].account == a {
                assert(has_account(s0, a));
            }
        }
    }
    lemma_account_index(s1, a, s0.len() as int);
    assert forall|x: u64| x != a implies {
        &&& #[trigger] post.free_of(x) == pre.free_of(x)
        &&& post.reserved_of(x) == pre.reserved_of(x)
        &&& post.locks_of(x) == pre.locks_of(x)
    } by {
        if has_account(s0, x) {
            let k = account_index(s0, x);
            assert(0 <= k < s0.len() && s0[k].account == x);
            lemma_account_index(s1, x, k);
            lemma_account_index(s0, x, k);
        } else {
            if has_account(s1, x) {
                let k = account_index(s1, x);
                assert(0 <= k < s1.len() && s1[k].account == x);
                assert(k < s0.len());
                assert(s0[k].account == x);
            }
        }
    }
}

/// Whether some lock of `locks` carries the id `id`.
pub open spec fn has_lock(locks: Seq<BalanceLock>, id: u64) -> bool {
    exists|i: int| 0 <= i < locks.len() && locks[i].id == id
}

/// The index of the lock with id `id` (meaningful only under `has_lock`;
/// unique under `unique_lock_ids`).
pub open spec fn lock_index(locks: Seq<BalanceLock>, id: u64) -> int {
    choose|i: int| 0 <= i < locks.len() && locks[i].id == id
}

/// What `set_lock` leaves behind: the lock with id `id` set to `amount`,
/// where a zero amount removes it instead.
pub open spec fn spec_set_lock(locks: Seq<BalanceLock>, id: u64, amount: u64) -> Seq<BalanceLock> {
    if has_lock(locks, id) {
        if amount == 0 {
            locks.remove(lock_index(locks, id))
        } else {
            locks.update(lock_index(locks, id), BalanceLock { id, amount })
        }
    } else {
        if amount == 0 {
            locks
        } else {
            locks.push(BalanceLock { id, amount })
        }
    }
}

/// What `extend_lock` leaves behind: the lock with id `id` raised to at
/// least `amount` (never lowered), created where absent and nonzero.
pub open spec fn spec_extend_lock(locks: Seq<BalanceLock>, id: u64, amount: u64) -> Seq<
    BalanceLock,
> {
    if has_lock(locks, id) {
        if locks[lock_index(locks, id)].amount >= amount {
            locks
        } else {
            locks.update(lock_index(locks, id), BalanceLock { id, amount })
        }
    } else {
        if amount == 0 {
            locks
        } else {
            locks.push(BalanceLock { id, amount })
        }
    }
}

/// What `remove_lock` leaves behind: the lock with id `id` taken out.
pub open spec fn spec_remove_lock(locks: Seq<BalanceLock>, id: u64) -> Seq<BalanceLock> {
    if has_lock(locks, id) {
        locks.remove(lock_index(locks, id))
    } else {
        locks
    }
}

/// Under `unique_lock_ids`, any index holding id `id` is the index the
/// lookup reads.
pub proof fn lemma_lock_index(locks: Seq<BalanceLock>, id: u64, i: int)
    requires
        unique_lock_ids(locks),
        0 <= i < locks.len(),
        locks[i].id == id,
    ensures
        has_lock(locks, id),
        lock_index(locks, id) == i,
{
    assert(has_lock(locks, id));
    let j = lock_index(locks, id);
    if i != j {
        if i < j {
            assert(locks[i].id != locks[j].id);
        } else {
            assert(locks[j].id != locks[i].id);
        }
    }
}

/// Taking one lock out keeps the ids unique.
pub proof fn lemma_unique_locks_remove(locks: Seq<BalanceLock>, k: int)
    requires
        unique_lock_ids(locks),
        0 <= k < locks.len(),
    ensures
        unique_lock_ids(locks.remove(k)),
{
    let t = locks.remove(k);
    assert forall|i: int, j: int| 0 <= i < j < t.len() implies t[i].id != t[j].id by {
        let i0 = if i < k { i } else { i + 1 };
        let j0 = if j < k { j } else { j + 1 };
        assert(t[i] == locks[i0]);
        assert(t[j] == locks[j0]);
    }
}

/// Replacing a lock by one of the same id keeps the ids unique.
pub proof fn lemma_unique_locks_update(locks: Seq<BalanceLock>, k: int, l: BalanceLock)
    requires
        unique_lock_ids(locks),
        0 <= k < locks.len(),
        l.id == locks[k].id,
    ensures
        unique_lock_ids(locks.update(k, l)),
{
}

/// Appending a lock of a fresh id keeps the ids unique.
pub proof fn lemma_unique_locks_push(locks: Seq<BalanceLock>, l: BalanceLock)
    requires
        unique_lock_ids(locks),
        !has_lock(locks, l.id),
    ensures
        unique_lock_ids(locks.push(l)),
{
    let t = locks.push(l);
    assert forall|i: int, j: int| 0 <= i < j < t.len() implies t[i].id != t[j].id by {
        if j == t.len() - 1 {
            assert(t[i] == locks[i]);
            if locks[i].id == l.id {
                assert(has_lock(locks, l.id));
            }
        }
    }
}

/// Finds the index of the lock with id `id`, where one exists.
fn find_lock(locks: &Vec<BalanceLock>, id: u64) -> (r: Option<usize>)
    ensures
        match r {
            Some(i) => i < locks@.len() && locks@[i as int].id == id,
            None => !has_lock(locks@, id),
        },
{
    let n = locks.len();
    let mut k: usize = 0;
    while k < n
        invariant
            n == locks@.len(),
            k <= n,
            forall|j: int| 0 <= j < k ==> locks@[j].id != id,
        decreases n - k,
    {
        if locks[k].id == id {
            return Some(k);
        }
        k = k + 1;
    }
    None
}

/// Chains a frame for two touched accounts: where `b1` keeps every view of
/// `b0` and `b2` changes only `a`'s and `b`'s views of `b1`, `b2` changes
/// only those views of `b0`.
pub proof fn lemma_unchanged_trans_two(b0: AssetBook, b1: AssetBook, b2: AssetBook, a: u64, b: u64)
    requires
        forall|x: u64| #[trigger] b1.free_of(x) == b0.free_of(x),
        forall|x: u64| #[trigger] b1.reserved_of(x) == b0.reserved_of(x),
        forall|x: u64| #[trigger] b1.locks_of(x) == b0.locks_of(x),
        b2.unchanged_except_two(b1, a, b),
    ensures
        b2.unchanged_except_two(b0, a, b),
{
    assert forall|x: u64| x != a && x != b implies {
        &&& #[trigger] b2.free_of(x) == b0.free_of(x)
        &&& b2.reserved_of(x) == b0.reserved_of(x)
        &&& b2.locks_of(x) == b0.locks_of(x)
    } by {
        assert(b2.free_of(x) == b1.free_of(x));
        assert(b1.free_of(x) == b0.free_of(x));
        assert(b1.reserved_of(x) == b0.reserved_of(x));
        assert(b1.locks_of(x) == b0.locks_of(x));
    }
}

/// A single-account frame is in particular a two-account frame with both
/// slots on that account.
pub proof fn lemma_unchanged_one_to_two(pre: AssetBook, post: AssetBook, a: u64)
    requires
        post.unchanged_except(pre, a),
    ensures
        post.unchanged_except_two(pre, a, a),
{
    assert forall|x: u64| x != a && x != a implies {
        &&& #[trigger] post.free_of(x) == pre.free_of(x)
        &&& post.reserved_of(x) == pre.reserved_of(x)
        &&& post.locks_of(x) == pre.locks_of(x)
    } by {
        assert(post.free_of(x) == pre.free_of(x));
    }
}

/// Two single-account steps touch at most the two accounts together.
pub proof fn lemma_unchanged_two_steps(b0: AssetBook, b1: AssetBook, b2: AssetBook, a: u64, b: u64)
    requires
        b1.unchanged_except(b0, a),
        b2.unchanged_except(b1, b),
    ensures
        b2.unchanged_except_two(b0, a, b),
{
    assert forall|x: u64| x != a && x != b implies {
        &&& #[trigger] b2.free_of(x) == b0.free_of(x)
        &&& b2.reserved_of(x) == b0.reserved_of(x)
        &&& b2.locks_of(x) == b0.locks_of(x)
    } by {
        assert(b2.free_of(x) == b1.free_of(x));
        assert(b1.free_of(x) == b0.free_of(x));
    }
}

/// Chains a frame: where `b1` keeps every view of `b0` and `b2` changes
/// only `a`'s view of `b1`, `b2` changes only `a`'s view of `b0`.
pub proof fn lemma_unchanged_trans(b0: AssetBook, b1: AssetBook, b2: AssetBook, a: u64)
    requires
        forall|x: u64| #[trigger] b1.free_of(x) == b0.free_of(x),
        forall|x: u64| #[trigger] b1.reserved_of(x) == b0.reserved_of(x),
        forall|x: u64| #[trigger] b1.locks_of(x) == b0.locks_of(x),
        b2.unchanged_except(b1, a),
    ensures
        b2.unchanged_except(b0, a),
{
    assert forall|x: u64| x != a implies {
        &&& #[trigger] b2.free_of(x) == b0.free_of(x)
        &&& b2.reserved_of(x) == b0.reserved_of(x)
        &&& b2.locks_of(x) == b0.locks_of(x)
    } by {
        assert(b2.free_of(x) == b1.free_of(x));
        assert(b1.free_of(x) == b0.free_of(x));
        assert(b1.reserved_of(x) == b0.reserved_of(x));
        assert(b1.locks_of(x) == b0.locks_of(x));
    }
}

/// A mutable borrow of one entry of the table.
fn entry_at(v: &mut Vec<AccountEntry>, i: usize) -> (e: &mut AccountEntry)
    requires
        i < old(v).len(),
    ensures
        *e == old(v)@[i as int],
        final(v)@ == old(v)@.update(i as int, *final(e)),
{
    &mut v[i]
}

impl AssetBook {
    /// Finds the index of `a`'s entry, where one exists.
    pub fn find_account(&self, a: u64) -> (r: Option<usize>)
        ensures
            match r {
                Some(i) => i < self.entries@.len() && self.entries@[i as int].account == a,
                None => !has_account(self.entries@, a),
            },
    {
        let n = self.entries.len();
        let mut k: usize = 0;
        while k < n
            invariant
                n == self.entries@.len(),
                k <= n,
                forall|j: int| 0 <= j < k ==> self.entries@[j].account != a,
            decreases n - k,
        {
            if self.entries[k].account == a {
                return Some(k);
            }
            k = k + 1;
        }
        None
    }

    /// Finds `a`'s entry, creating an empty one where none exists.  The view
    /// of every account is unchanged (a fresh entry holds zero balances and
    /// no locks).
    fn ensure_entry(&mut self, a: u64) -> (i: usize)
        requires
            old(self).wf(),
        ensures
            final(self).wf(),
            final(self).total_issuance == old(self).total_issuance,
            final(self).min_balance == old(self).min_balance,
            i < final(self).entries@.len(),
            final(self).entries@[i as int].account == a,
            has_account(final(self).entries@, a),
            account_index(final(self).entries@, a) == i as int,
            old(self).entries@.len() <= final(self).entries@.len(),
            forall|k: int|
                0 <= k < old(self).entries@.len() ==> final(self).entries@[k] == old(self).entries@[k],
            forall|x: u64| #[trigger] final(self).free_of(x) == old(self).free_of(x),
            forall|x: u64| #[trigger] final(self).reserved_of(x) == old(self).reserved_of(x),
            forall|x: u64| #[trigger] final(self).locks_of(x) == old(self).locks_of(x),
    {
        let ghost pre = *self;
        match self.find_account(a) {
            Some(i) => {
                proof {
                    lemma_account_index(self.entries@, a, i as int);
                }
                i
            },
            None => {
                let e = AccountEntry { account: a, free: 0, reserved: 0, locks: Vec::new() };
                self.entries.push(e);
                proof {
                    let e1 = self.entries@.last();
                    lemma_sum_push(pre.entries@, e1);
                    lemma_book_push(pre, *self, e1);
                    assert(unique_lock_ids(e1.locks@));
                    assert forall|i: int| 0 <= i < self.entries@.len() implies unique_lock_ids(
                        #[trigger] self.entries@[i].locks@,
                    ) by {
                        if i < pre.entries@.len() {
                            assert(self.entries@[i] == pre.entries@[i]);
                        }
                    }
                    assert forall|x: u64| #[trigger] self.free_of(x) == pre.free_of(x) by {
                        if x != a {
                            assert(self.unchanged_except(pre, a));
                        }
                    }
                    assert forall|x: u64| #[trigger] self.reserved_of(x) == pre.reserved_of(x) by {
                        if x != a {
                            assert(self.free_of(x) == pre.free_of(x));
                        }
                    }
                    assert forall|x: u64| #[trigger] self.locks_of(x) == pre.locks_of(x) by {
                        if x != a {
                            assert(self.free_of(x) == pre.free_of(x));
                        }
                    }
                }
                self.entries.len() - 1
            },
        }
    }

    /// The free balance of `a`.
    pub fn free_balance(&self, a: u64) -> (r: u64)
        requires
            self.wf(),
        ensures
            r as nat == self.free_of(a),
    {
        match self.find_account(a) {
            Some(i) => {
                proof {
                    lemma_account_index(self.entries@, a, i as int);
                }
                self.entries[i].free
            },
            None => 0,
        }
    }

    /// The reserved balance of `a`.
    pub fn reserved_balance(&self, a: u64) -> (r: u64)
        requires
            self.wf(),
        ensures
            r as nat == self.reserved_of(a),
    {
        match self.find_account(a) {
            Some(i) => {
                proof {
                    lemma_account_index(self.entries@, a, i as int);
                }
                self.entries[i].reserved
            },
            None => 0,
        }
    }

    /// The total balance of `a`: free plus reserved.  Never overflows, by
    /// conservation of issuance.
    pub fn total_balance(&self, a: u64) -> (r: u64)
        requires
            self.wf(),
        ensures
            r as nat == self.total_of(a),
    {
        match self.find_account(a) {
            Some(i) => {
                proof {
                    lemma_account_index(self.entries@, a, i as int);
                    lemma_sum_ge_entry(self.entries@, i as int);
                }
                self.entries[i].free + self.entries[i].reserved
            },
            None => 0,
        }
    }

    /// Mints `amount` into `a`'s free balance, raising the issuance with it.
    /// Fails (and changes nothing) only where the issuance would overflow.
    pub fn deposit(&mut self, a: u64, amount: u64) -> (r: Result<(), Error>)
        requires
            old(self).wf(),
        ensures
            final(self).wf(),
            final(self).min_balance == old(self).min_balance,
            match r {
                Ok(_) => {
                    &&& old(self).total_issuance + amount <= u64::MAX
                    &&& final(self).total_issuance == old(self).total_issuance + amount
                    &&& final(self).free_of(a) == old(self).free_of(a) + amount
                    &&& final(self).reserved_of(a) == old(self).reserved_of(a)
                    &&& final(self).locks_of(a) == old(self).locks_of(a)
                    &&& final(self).unchanged_except(*old(self), a)
                },
                Err(e) => {
                    &&& e == Error::SupplyOverflow
                    &&& old(self).total_issuance + amount > u64::MAX
                    &&& *final(self) == *old(self)
                },
            },
    {
        if amount == 0 {
            return Ok(());
        }
        let new_iss = match self.total_issuance.checked_add(amount) {
            Some(v) => v,
            None => {
                return Err(Error::SupplyOverflow);
            },
        };
        let i = self.ensure_entry(a);
        let ghost mid = *self;
        let f = self.entries[i].free;
        proof {
            lemma_sum_ge_entry(mid.entries@, i as int);
        }
        self.total_issuance = new_iss;
        let e = entry_at(&mut self.entries, i);
        e.free = f + amount;
        proof {
            let s0 = mid.entries@;
            let e1 = self.entries@[i as int];
            lemma_sum_update(s0, i as int, e1);
            lemma_book_update(mid, *self, i as int, e1);
            lemma_unchanged_trans(*old(self), mid, *self, a);
            assert forall|k: int| 0 <= k < self.entries@.len() implies unique_lock_ids(
                #[trigger] self.entries@[k].locks@,
            ) by {
                assert(self.entries@[k].locks == s0[k].locks);
            }
        }
        Ok(())
    }

    /// Mints `amount` straight into `a`'s reserved balance (escrowed),
    /// raising the issuance with it.  Fails (and changes nothing) only where
    /// the issuance would overflow.
    pub fn deposit_reserved(&mut self, a: u64, amount: u64) -> (r: Result<(), Error>)
        requires
            old(self).wf(),
        ensures
            final(self).wf(),
            final(self).min_balance == old(self).min_balance,
            match r {
                Ok(_) => {
                    &&& old(self).total_issuance + amount <= u64::MAX
                    &&& final(self).total_issuance == old(self).total_issuance + amount
                    &&& final(self).free_of(a) == old(self).free_of(a)
                    &&& final(self).reserved_of(a) == old(self).reserved_of(a) + amount
                    &&& final(self).locks_of(a) == old(self).locks_of(a)
                    &&& final(self).unchanged_except(*old(self), a)
                },
                Err(e) => {
                    &&& e == Error::SupplyOverflow
                    &&& old(self).total_issuance + amount > u64::MAX
                    &&& *final(self) == *old(self)
                },
            },
    {
        if amount == 0 {
            return Ok(());
        }
        let new_iss = match self.total_issuance.checked_add(amount) {
            Some(v) => v,
            None => {
                return Err(Error::SupplyOverflow);
            },
        };
        let i = self.ensure_entry(a);
        let ghost mid = *self;
        let rsv = self.entries[i].reserved;
        proof {
            lemma_sum_ge_entry(mid.entries@, i as int);
        }
        self.total_issuance = new_iss;
        let e = entry_at(&mut self.entries, i);
        e.reserved = rsv + amount;
        proof {
            let s0 = mid.entries@;
            let e1 = self.entries@[i as int];
            lemma_sum_update(s0, i as int, e1);
            lemma_book_update(mid, *self, i as int, e1);
            lemma_unchanged_trans(*old(self), mid, *self, a);
            assert forall|k: int| 0 <= k < self.entries@.len() implies unique_lock_ids(
                #[trigger] self.entries@[k].locks@,
            ) by {
                assert(self.entries@[k].locks == s0[k].locks);
            }
        }
        Ok(())
    }

    /// How much of `a`'s free balance is frozen by locks.
    pub fn frozen_balance(&self, a: u64) -> (r: u64)
        requires
            self.wf(),
        ensures
            r as nat == self.frozen_of(a),
    {
        match self.find_account(a) {
            Some(i) => {
                proof {
                    lemma_account_index(self.entries@, a, i as int);
                }
                let locks = &self.entries[i].locks;
                let n = locks.len();
                let mut m: u64 = 0;
                let mut k: usize = 0;
                while k < n
                    invariant
                        n == locks@.len(),
                        k <= n,
                        m as nat == frozen_amount(locks@.subrange(0, k as int)),
                    decreases n - k,
                {
                    proof {
                        assert(locks@.subrange(0, k as int + 1).drop_last() =~= locks@.subrange(
                            0,
                            k as int,
                        ));
                        assert(locks@.subrange(0, k as int + 1).last() == locks@[k as int]);
                    }
                    if locks[k].amount > m {
                        m = locks[k].amount;
                    }
                    k = k + 1;
                }
                proof {
                    assert(locks@.subrange(0, n as int) =~= locks@);
                }
                m
            },
            None => 0,
        }
    }

    /// Checks that `amount` may leave `a`'s free balance: the free balance
    /// must suffice and what remains must still cover the locked part.
    pub fn ensure_can_withdraw(&self, a: u64, amount: u64) -> (r: Result<(), Error>)
        requires
            self.wf(),
        ensures
            r is Ok <==> self.can_withdraw(a, amount),
            r is Err ==> r == Result::<(), Error>::Err(Error::BalanceTooLow),
    {
        let f = self.free_balance(a);
        if amount > f {
            return Err(Error::BalanceTooLow);
        }
        let frozen = self.frozen_balance(a);
        if f - amount < frozen {
            return Err(Error::BalanceTooLow);
        }
        Ok(())
    }

    /// Burns `amount` from `a`'s free balance, lowering the issuance with
    /// it.  A zero amount is a no-op; otherwise the withdrawal must be
    /// permitted (`can_withdraw`), else nothing changes and `BalanceTooLow`
    /// is returned.
    pub fn withdraw(&mut self, a: u64, amount: u64) -> (r: Result<(), Error>)
        requires
            old(self).wf(),
        ensures
            final(self).wf(),
            final(self).min_balance == old(self).min_balance,
            match r {
                Ok(_) => {
                    &&& amount == 0 || old(self).can_withdraw(a, amount)
                    &&& final(self).total_issuance == old(self).total_issuance - amount
                    &&& final(self).free_of(a) == old(self).free_of(a) - amount
                    &&& final(self).reserved_of(a) == old(self).reserved_of(a)
                    &&& final(self).locks_of(a) == old(self).locks_of(a)
                    &&& final(self).unchanged_except(*old(self), a)
                },
                Err(e) => {
                    &&& e == Error::BalanceTooLow
                    &&& amount != 0 && !old(self).can_withdraw(a, amount)
                    &&& *final(self) == *old(self)
                },
            },
    {
        if amount == 0 {
            return Ok(());
        }
        match self.ensure_can_withdraw(a, amount) {
            Err(e) => {
                return Err(e);
            },
            Ok(_) => {},
        }
        let i = self.ensure_entry(a);
        let ghost mid = *self;
        let f = self.entries[i].free;
        proof {
            lemma_sum_ge_entry(mid.entries@, i as int);
        }
        self.total_issuance = self.total_issuance - amount;
        let e = entry_at(&mut self.entries, i);
        e.free = f - amount;
        proof {
            let s0 = mid.entries@;
            let e1 = self.entries@[i as int];
            lemma_sum_update(s0, i as int, e1);
            lemma_book_update(mid, *self, i as int, e1);
            lemma_unchanged_trans(*old(self), mid, *self, a);
            assert forall|k: int| 0 <= k < self.entries@.len() implies unique_lock_ids(
                #[trigger] self.entries@[k].locks@,
            ) by {
                assert(self.entries@[k].locks == s0[k].locks);
            }
        }
        Ok(())
    }

    /// Whether a slash of `amount` could be met in full from `a`'s free
    /// balance.
    pub fn can_slash(&self, a: u64, amount: u64) -> (r: bool)
        requires
            self.wf(),
        ensures
            r == (amount as nat <= self.free_of(a)),
    {
        amount <= self.free_balance(a)
    }

    /// Best-effort debit: burns up to `amount` from `a`'s free balance
    /// (ignoring locks), lowering the issuance by what was burnt, and
    /// returns the unmet remainder instead of failing.
    pub fn slash(&mut self, a: u64, amount: u64) -> (gap: u64)
        requires
            old(self).wf(),
        ensures
            final(self).wf(),
            final(self).min_balance == old(self).min_balance,
            ({
                let slashed = if amount as nat <= old(self).free_of(a) {
                    amount as nat
                } else {
                    old(self).free_of(a)
                };
                &&& gap == amount - slashed
                &&& final(self).free_of(a) == old(self).free_of(a) - slashed
                &&& final(self).total_issuance == old(self).total_issuance - slashed
            }),
            final(self).reserved_of(a) == old(self).reserved_of(a),
            final(self).locks_of(a) == old(self).locks_of(a),
            final(self).unchanged_except(*old(self), a),
    {
        let f = self.free_balance(a);
        let slashed = if amount <= f {
            amount
        } else {
            f
        };
        if slashed == 0 {
            return amount;
        }
        let i = self.ensure_entry(a);
        let ghost mid = *self;
        proof {
            lemma_sum_ge_entry(mid.entries@, i as int);
        }
        self.total_issuance = self.total_issuance - slashed;
        let e = entry_at(&mut self.entries, i);
        e.free = f - slashed;
        proof {
            let s0 = mid.entries@;
            let e1 = self.entries@[i as int];
            lemma_sum_update(s0, i as int, e1);
            lemma_book_update(mid, *self, i as int, e1);
            lemma_unchanged_trans(*old(self), mid, *self, a);
            assert forall|k: int| 0 <= k < self.entries@.len() implies unique_lock_ids(
                #[trigger] self.entries@[k].locks@,
            ) by {
                assert(self.entries@[k].locks == s0[k].locks);
            }
        }
        amount - slashed
    }

    /// Best-effort debit of the escrow: burns up to `amount` from `a`'s
    /// reserved balance, lowering the issuance by what was burnt, and
    /// returns the unmet remainder instead of failing.
    pub fn slash_reserved(&mut self, a: u64, amount: u64) -> (gap: u64)
        requires
            old(self).wf(),
        ensures
            final(self).wf(),
            final(self).min_balance == old(self).min_balance,
            ({
                let slashed = if amount as nat <= old(self).reserved_of(a) {
                    amount as nat
                } else {
                    old(self).reserved_of(a)
                };
                &&& gap == amount - slashed
                &&& final(self).reserved_of(a) == old(self).reserved_of(a) - slashed
                &&& final(self).total_issuance == old(self).total_issuance - slashed
            }),
            final(self).free_of(a) == old(self).free_of(a),
            final(self).locks_of(a) == old(self).locks_of(a),
            final(self).unchanged_except(*old(self), a),
    {
        let rsv = self.reserved_balance(a);
        let slashed = if amount <= rsv {
            amount
        } else {
            rsv
        };
        if slashed == 0 {
            return amount;
        }
        let i = self.ensure_entry(a);
        let ghost mid = *self;
        proof {
            lemma_sum_ge_entry(mid.entries@, i as int);
        }
        self.total_issuance = self.total_issuance - slashed;
        let e = entry_at(&mut self.entries, i);
        e.reserved = rsv - slashed;
        proof {
            let s0 = mid.entries@;
            let e1 = self.entries@[i as int];
            lemma_sum_update(s0, i as int, e1);
            lemma_book_update(mid, *self, i as int, e1);
            lemma_unchanged_trans(*old(self), mid, *self, a);
            assert forall|k: int| 0 <= k < self.entries@.len() implies unique_lock_ids(
                #[trigger] self.entries@[k].locks@,
            ) by {
                assert(self.entries@[k].locks == s0[k].locks);
            }
        }
        amount - slashed
    }

    /// Whether `amount` could be moved from `a`'s free into its reserved
    /// balance.  Reserving is not a movement out of the account, so locks do
    /// not restrict it; only the free balance must suffice.
    pub fn can_reserve(&self, a: u64, amount: u64) -> (r: bool)
        requires
            self.wf(),
        ensures
            r == (amount as nat <= self.free_of(a)),
    {
        amount <= self.free_balance(a)
    }

    /// Moves `amount` from `a`'s free into its reserved balance.  The
    /// issuance is untouched.  Fails (and changes nothing) with
    /// `BalanceTooLow` where the free balance does not suffice.
    pub fn reserve(&mut self, a: u64, amount: u64) -> (r: Result<(), Error>)
        requires
            old(self).wf(),
        ensures
            final(self).wf(),
            final(self).min_balance == old(self).min_balance,
            final(self).total_issuance == old(self).total_issuance,
            match r {
                Ok(_) => {
                    &&& amount as nat <= old(self).free_of(a)
                    &&& final(self).free_of(a) == old(self).free_of(a) - amount
                    &&& final(self).reserved_of(a) == old(self).reserved_of(a) + amount
                    &&& final(self).locks_of(a) == old(self).locks_of(a)
                    &&& final(self).unchanged_except(*old(self), a)
                },
                Err(e) => {
                    &&& e == Error::BalanceTooLow
                    &&& amount as nat > old(self).free_of(a)
                    &&& *final(self) == *old(self)
                },
            },
    {
        let f = self.free_balance(a);
        if amount > f {
            return Err(Error::BalanceTooLow);
        }
        if amount == 0 {
            return Ok(());
        }
        let i = self.ensure_entry(a);
        let ghost mid = *self;
        let rsv = self.entries[i].reserved;
        proof {
            lemma_sum_ge_entry(mid.entries@, i as int);
        }
        let e = entry_at(&mut self.entries, i);
        e.free = f - amount;
        e.reserved = rsv + amount;
        proof {
            let s0 = mid.entries@;
            let e1 = self.entries@[i as int];
            lemma_sum_update(s0, i as int, e1);
            lemma_book_update(mid, *self, i as int, e1);
            lemma_unchanged_trans(*old(self), mid, *self, a);
            assert forall|k: int| 0 <= k < self.entries@.len() implies unique_lock_ids(
                #[trigger] self.entries@[k].locks@,
            ) by {
                assert(self.entries@[k].locks == s0[k].locks);
            }
        }
        Ok(())
    }

    /// Moves up to `amount` from `a`'s reserved back into its free balance
    /// and returns the unmet remainder.  The issuance is untouched.
    pub fn unreserve(&mut self, a: u64, amount: u64) -> (gap: u64)
        requires
            old(self).wf(),
        ensures
            final(self).wf(),
            final(self).min_balance == old(self).min_balance,
            final(self).total_issuance == old(self).total_issuance,
            ({
                let moved = if amount as nat <= old(self).reserved_of(a) {
                    amount as nat
                } else {
                    old(self).reserved_of(a)
                };
                &&& gap == amount - moved
                &&& final(self).free_of(a) == old(self).free_of(a) + moved
                &&& final(self).reserved_of(a) == old(self).reserved_of(a) - moved
            }),
            final(self).locks_of(a) == old(self).locks_of(a),
            final(self).unchanged_except(*old(self), a),
    {
        let rsv = self.reserved_balance(a);
        let moved = if amount <= rsv {
            amount
        } else {
            rsv
        };
        if moved == 0 {
            return amount;
        }
        let i = self.ensure_entry(a);
        let ghost mid = *self;
        let f = self.entries[i].free;
        proof {
            lemma_sum_ge_entry(mid.entries@, i as int);
        }
        let e = entry_at(&mut self.entries, i);
        e.free = f + moved;
        e.reserved = rsv - moved;
        proof {
            let s0 = mid.entries@;
            let e1 = self.entries@[i as int];
            lemma_sum_update(s0, i as int, e1);
            lemma_book_update(mid, *self, i as int, e1);
            lemma_unchanged_trans(*old(self), mid, *self, a);
            assert forall|k: int| 0 <= k < self.entries@.len() implies unique_lock_ids(
                #[trigger] self.entries@[k].locks@,
            ) by {
                assert(self.entries@[k].locks == s0[k].locks);
            }
        }
        amount - moved
    }

    /// Moves `amount` of free balance from `from` to `to` as one atomic
    /// step: both legs succeed or neither does.  A zero amount or a
    /// self-transfer is a no-op.  The issuance is untouched.
    pub fn transfer(&mut self, from: u64, to: u64, amount: u64) -> (r: Result<(), Error>)
        requires
            old(self).wf(),
        ensures
            final(self).wf(),
            final(self).min_balance == old(self).min_balance,
            final(self).total_issuance == old(self).total_issuance,
            amount == 0 || from == to ==> r is Ok && *final(self) == *old(self),
            match r {
                Ok(_) => amount != 0 && from != to ==> {
                    &&& old(self).can_withdraw(from, amount)
                    &&& final(self).free_of(from) == old(self).free_of(from) - amount
                    &&& final(self).free_of(to) == old(self).free_of(to) + amount
                    &&& final(self).reserved_of(from) == old(self).reserved_of(from)
                    &&& final(self).reserved_of(to) == old(self).reserved_of(to)
                    &&& final(self).locks_of(from) == old(self).locks_of(from)
                    &&& final(self).locks_of(to) == old(self).locks_of(to)
                    &&& final(self).unchanged_except_two(*old(self), from, to)
                },
                Err(e) => {
                    &&& e == Error::BalanceTooLow
                    &&& amount != 0 && from != to && !old(self).can_withdraw(from, amount)
                    &&& *final(self) == *old(self)
                },
            },
    {
        if amount == 0 || from == to {
            return Ok(());
        }
        match self.ensure_can_withdraw(from, amount) {
            Err(e) => {
                return Err(e);
            },
            Ok(_) => {},
        }
        let i = self.ensure_entry(from);
        let ghost st1 = *self;
        let j = self.ensure_entry(to);
        let ghost mid = *self;
        proof {
            assert(mid.entries@[i as int] == st1.entries@[i as int]);
            lemma_account_index(mid.entries@, from, i as int);
            lemma_sum_ge_two(mid.entries@, i as int, j as int);
            assert(mid.free_of(from) == st1.free_of(from));
            assert(st1.free_of(from) == old(self).free_of(from));
        }
        let fi = self.entries[i].free;
        let fj = self.entries[j].free;
        let e = entry_at(&mut self.entries, i);
        e.free = fi - amount;
        let ghost t1 = *self;
        proof {
            let e1 = t1.entries@[i as int];
            lemma_sum_update(mid.entries@, i as int, e1);
            lemma_book_update(mid, t1, i as int, e1);
        }
        let e2 = entry_at(&mut self.entries, j);
        e2.free = fj + amount;
        proof {
            let s0 = mid.entries@;
            let e2v = self.entries@[j as int];
            assert(t1.entries@[j as int] == s0[j as int]);
            lemma_sum_update(t1.entries@, j as int, e2v);
            lemma_book_update(t1, *self, j as int, e2v);
            assert forall|k: int| 0 <= k < self.entries@.len() implies unique_lock_ids(
                #[trigger] self.entries@[k].locks@,
            ) by {
                assert(t1.entries@[k].locks == s0[k].locks);
                assert(self.entries@[k].locks == t1.entries@[k].locks);
            }
            lemma_unchanged_two_steps(mid, t1, *self, from, to);
            assert forall|x: u64| #[trigger] mid.free_of(x) == old(self).free_of(x) by {
                assert(st1.free_of(x) == old(self).free_of(x));
            }
            assert forall|x: u64| #[trigger] mid.reserved_of(x) == old(self).reserved_of(x) by {
                assert(st1.free_of(x) == old(self).free_of(x));
                assert(st1.reserved_of(x) == old(self).reserved_of(x));
            }
            assert forall|x: u64| #[trigger] mid.locks_of(x) == old(self).locks_of(x) by {
                assert(st1.free_of(x) == old(self).free_of(x));
                assert(st1.locks_of(x) == old(self).locks_of(x));
            }
            lemma_unchanged_trans_two(*old(self), mid, *self, from, to);
            assert(self.free_of(from) == t1.free_of(from));
            assert(self.reserved_of(from) == t1.reserved_of(from));
            assert(self.locks_of(from) == t1.locks_of(from));
        }
        Ok(())
    }

    /// Moves up to `value` from `slashed`'s reserved balance to
    /// `beneficiary`, crediting the free or the reserved side per `status`,
    /// and returns the unmet remainder rather than failing on a shortfall.
    /// Where the two accounts coincide, a `Free` status unreserves and a
    /// `Reserved` status changes nothing.  The issuance is untouched.
    pub fn repatriate_reserved(
        &mut self,
        slashed: u64,
        beneficiary: u64,
        value: u64,
        status: BalanceStatus,
    ) -> (r: Result<u64, Error>)
        requires
            old(self).wf(),
        ensures
            final(self).wf(),
            final(self).min_balance == old(self).min_balance,
            final(self).total_issuance == old(self).total_issuance,
            ({
                let moved = if value as nat <= old(self).reserved_of(slashed) {
                    value as nat
                } else {
                    old(self).reserved_of(slashed)
                };
                if slashed == beneficiary {
                    match status {
                        BalanceStatus::Free => {
                            &&& r == Result::<u64, Error>::Ok((value - moved) as u64)
                            &&& final(self).free_of(slashed) == old(self).free_of(slashed) + moved
                            &&& final(self).reserved_of(slashed) == old(self).reserved_of(slashed)
                                - moved
                            &&& final(self).locks_of(slashed) == old(self).locks_of(slashed)
                            &&& final(self).unchanged_except(*old(self), slashed)
                        },
                        BalanceStatus::Reserved => {
                            &&& r == Result::<u64, Error>::Ok((value - moved) as u64)
                            &&& *final(self) == *old(self)
                        },
                    }
                } else {
                    &&& r == Result::<u64, Error>::Ok((value - moved) as u64)
                    &&& final(self).reserved_of(slashed) == old(self).reserved_of(slashed) - moved
                    &&& final(self).free_of(slashed) == old(self).free_of(slashed)
                    &&& (status == BalanceStatus::Free ==> final(self).free_of(beneficiary) == old(self).free_of(beneficiary) + moved && final(self).reserved_of(beneficiary) == old(self).reserved_of(beneficiary))
                    &&& (status == BalanceStatus::Reserved ==> final(self).reserved_of(beneficiary)
                        == old(self).reserved_of(beneficiary) + moved && final(self).free_of(
                        beneficiary,
                    ) == old(self).free_of(beneficiary))
                    &&& final(self).locks_of(slashed) == old(self).locks_of(slashed)
                    &&& final(self).locks_of(beneficiary) == old(self).locks_of(beneficiary)
                    &&& final(self).unchanged_except_two(*old(self), slashed, beneficiary)
                }
            }),
    {
        let rs = self.reserved_balance(slashed);
        let moved = if value <= rs {
            value
        } else {
            rs
        };
        if slashed == beneficiary {
            match status {
                BalanceStatus::Free => {
                    let gap = self.unreserve(slashed, value);
                    return Ok(gap);
                },
                BalanceStatus::Reserved => {
                    return Ok(value - moved);
                },
            }
        }
        if moved == 0 {
            return Ok(value);
        }
        let i = self.ensure_entry(slashed);
        let ghost st1 = *self;
        let j = self.ensure_entry(beneficiary);
        let ghost mid = *self;
        proof {
            assert(mid.entries@[i as int] == st1.entries@[i as int]);
            lemma_account_index(mid.entries@, slashed, i as int);
            lemma_sum_ge_two(mid.entries@, i as int, j as int);
            assert(mid.reserved_of(slashed) == st1.reserved_of(slashed));
            assert(st1.free_of(slashed) == old(self).free_of(slashed));
            assert(st1.reserved_of(slashed) == old(self).reserved_of(slashed));
        }
        let ri = self.entries[i].reserved;
        let fj = self.entries[j].free;
        let rj = self.entries[j].reserved;
        let e = entry_at(&mut self.entries, i);
        e.reserved = ri - moved;
        let ghost t1 = *self;
        proof {
            let e1 = t1.entries@[i as int];
            lemma_sum_update(mid.entries@, i as int, e1);
            lemma_book_update(mid, t1, i as int, e1);
        }
        let e2 = entry_at(&mut self.entries, j);
        match status {
            BalanceStatus::Free => {
                e2.free = fj + moved;
            },
            BalanceStatus::Reserved => {
                e2.reserved = rj + moved;
            },
        }
        proof {
            let s0 = mid.entries@;
            let e2v = self.entries@[j as int];
            assert(t1.entries@[j as int] == s0[j as int]);
            lemma_sum_update(t1.entries@, j as int, e2v);
            lemma_book_update(t1, *self, j as int, e2v);
            assert forall|k: int| 0 <= k < self.entries@.len() implies unique_lock_ids(
                #[trigger] self.entries@[k].locks@,
            ) by {
                assert(t1.entries@[k].locks == s0[k].locks);
                assert(self.entries@[k].locks == t1.entries@[k].locks);
            }
            lemma_unchanged_two_steps(mid, t1, *self, slashed, beneficiary);
            assert forall|x: u64| #[trigger] mid.free_of(x) == old(self).free_of(x) by {
                assert(st1.free_of(x) == old(self).free_of(x));
            }
            assert forall|x: u64| #[trigger] mid.reserved_of(x) == old(self).reserved_of(x) by {
                assert(st1.free_of(x) == old(self).free_of(x));
                assert(st1.reserved_of(x) == old(self).reserved_of(x));
            }
            assert forall|x: u64| #[trigger] mid.locks_of(x) == old(self).locks_of(x) by {
                assert(st1.free_of(x) == old(self).free_of(x));
                assert(st1.locks_of(x) == old(self).locks_of(x));
            }
            lemma_unchanged_trans_two(*old(self), mid, *self, slashed, beneficiary);
            assert(self.free_of(slashed) == t1.free_of(slashed));
            assert(self.reserved_of(slashed) == t1.reserved_of(slashed));
            assert(self.locks_of(slashed) == t1.locks_of(slashed));
        }
        Ok(value - moved)
    }

    /// Sets (or, with a zero amount, removes) the lock named `id` on `a`'s
    /// free balance.  Balances and issuance are untouched.
    pub fn set_lock(&mut self, id: u64, a: u64, amount: u64) -> (r: Result<(), Error>)
        requires
            old(self).wf(),
        ensures
            final(self).wf(),
            r is Ok,
            final(self).min_balance == old(self).min_balance,
            final(self).total_issuance == old(self).total_issuance,
            final(self).free_of(a) == old(self).free_of(a),
            final(self).reserved_of(a) == old(self).reserved_of(a),
            final(self).locks_of(a) == spec_set_lock(old(self).locks_of(a), id, amount),
            final(self).unchanged_except(*old(self), a),
    {
        let i = self.ensure_entry(a);
        let ghost mid = *self;
        let ghost locks0 = mid.entries@[i as int].locks@;
        proof {
            assert(unique_lock_ids(mid.entries@[i as int].locks@));
        }
        let li = find_lock(&self.entries[i].locks, id);
        let e = entry_at(&mut self.entries, i);
        match li {
            Some(j) => {
                proof {
                    lemma_lock_index(locks0, id, j as int);
                }
                if amount == 0 {
                    e.locks.remove(j);
                    proof {
                        lemma_unique_locks_remove(locks0, j as int);
                    }
                } else {
                    e.locks.set(j, BalanceLock { id, amount });
                    proof {
                        lemma_unique_locks_update(locks0, j as int, BalanceLock { id, amount });
                    }
                }
            },
            None => {
                if amount != 0 {
                    e.locks.push(BalanceLock { id, amount });
                    proof {
                        lemma_unique_locks_push(locks0, BalanceLock { id, amount });
                    }
                }
            },
        }
        proof {
            let e1 = self.entries@[i as int];
            lemma_sum_update(mid.entries@, i as int, e1);
            lemma_book_update(mid, *self, i as int, e1);
            lemma_unchanged_trans(*old(self), mid, *self, a);
            assert forall|k: int| 0 <= k < self.entries@.len() implies unique_lock_ids(
                #[trigger] self.entries@[k].locks@,
            ) by {
                if k != i as int {
                    assert(self.entries@[k].locks == mid.entries@[k].locks);
                    assert(unique_lock_ids(mid.entries@[k].locks@));
                }
            }
        }
        Ok(())
    }

    /// Raises the lock named `id` on `a`'s free balance to at least
    /// `amount`, never lowering an existing lock; creates it where absent
    /// and nonzero.  Balances and issuance are untouched.
    pub fn extend_lock(&mut self, id: u64, a: u64, amount: u64) -> (r: Result<(), Error>)
        requires
            old(self).wf(),
        ensures
            final(self).wf(),
            r is Ok,
            final(self).min_balance == old(self).min_balance,
            final(self).total_issuance == old(self).total_issuance,
            final(self).free_of(a) == old(self).free_of(a),
            final(self).reserved_of(a) == old(self).reserved_of(a),
            final(self).locks_of(a) == spec_extend_lock(old(self).locks_of(a), id, amount),
            final(self).unchanged_except(*old(self), a),
    {
        let i = self.ensure_entry(a);
        let ghost mid = *self;
        let ghost locks0 = mid.entries@[i as int].locks@;
        proof {
            assert(unique_lock_ids(mid.entries@[i as int].locks@));
        }
        let li = find_lock(&self.entries[i].locks, id);
        let e = entry_at(&mut self.entries, i);
        match li {
            Some(j) => {
                proof {
                    lemma_lock_index(locks0, id, j as int);
                }
                let cur = e.locks[j].amount;
                if cur < amount {
                    e.locks.set(j, BalanceLock { id, amount });
                    proof {
                        lemma_unique_locks_update(locks0, j as int, BalanceLock { id, amount });
                    }
                }
            },
            None => {
                if amount != 0 {
                    e.locks.push(BalanceLock { id, amount });
                    proof {
                        lemma_unique_locks_push(locks0, BalanceLock { id, amount });
                    }
                }
            },
        }
        proof {
            let e1 = self.entries@[i as int];
            lemma_sum_update(mid.entries@, i as int, e1);
            lemma_book_update(mid, *self, i as int, e1);
            lemma_unchanged_trans(*old(self), mid, *self, a);
            assert forall|k: int| 0 <= k < self.entries@.len() implies unique_lock_ids(
                #[trigger] self.entries@[k].locks@,
            ) by {
                if k != i as int {
                    assert(self.entries@[k].locks == mid.entries@[k].locks);
                    assert(unique_lock_ids(mid.entries@[k].locks@));
                }
            }
        }
        Ok(())
    }

    /// Removes the lock named `id` from `a`'s free balance, where it
    /// exists.  Balances and issuance are untouched.
    pub fn remove_lock(&mut self, id: u64, a: u64) -> (r: Result<(), Error>)
        requires
            old(self).wf(),
        ensures
            final(self).wf(),
            r is Ok,
            final(self).min_balance == old(self).min_balance,
            final(self).total_issuance == old(self).total_issuance,
            final(self).free_of(a) == old(self).free_of(a),
            final(self).reserved_of(a) == old(self).reserved_of(a),
            final(self).locks_of(a) == spec_remove_lock(old(self).locks_of(a), id),
            final(self).unchanged_except(*old(self), a),
    {
        let i = self.ensure_entry(a);
        let ghost mid = *self;
        let ghost locks0 = mid.entries@[i as int].locks@;
        proof {
            assert(unique_lock_ids(mid.entries@[i as int].locks@));
        }
        let li = find_lock(&self.entries[i].locks, id);
        let e = entry_at(&mut self.entries, i);
        match li {
            Some(j) => {
                proof {
                    lemma_lock_index(locks0, id, j as int);
                }
                e.locks.remove(j);
                proof {
                    lemma_unique_locks_remove(locks0, j as int);
                }
            },
            None => {},
        }
        proof {
            let e1 = self.entries@[i as int];
            lemma_sum_update(mid.entries@, i as int, e1);
            lemma_book_update(mid, *self, i as int, e1);
            lemma_unchanged_trans(*old(self), mid, *self, a);
            assert forall|k: int| 0 <= k < self.entries@.len() implies unique_lock_ids(
                #[trigger] self.entries@[k].locks@,
            ) by {
                if k != i as int {
                    assert(self.entries@[k].locks == mid.entries@[k].locks);
                    assert(unique_lock_ids(mid.entries@[k].locks@));
                }
            }
        }
        Ok(())
    }
}

} // verus!