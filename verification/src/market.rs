//! The multi-asset ledger and its supply controller.
//!
//! `Pallet` routes every operation to either the dedicated native-asset book
//! or the matching pegged-currency book, selected by comparing the requested
//! asset id against the configured native id, and presents one uniform
//! interface regardless of the backend.  On top of the routed ledger it
//! implements the SERP entry points `expand_supply` and `contract_supply`
//! and the whole-account `merge_account`, each as one all-or-nothing step.

use vstd::prelude::*;

use crate::config::Config;
use crate::ledger::AssetBook;
use crate::ledger::BalanceLock;
use crate::types::BalanceStatus;
use crate::types::Error;
use crate::types::Event;
use crate::types::Origin;

verus! {

/// One pegged currency's balance book, keyed by its asset id.
#[derive(Debug)]
pub struct TokenBook {
    /// The asset id this book belongs to (never the native id).
    pub id: u64,
    /// The balance table of the asset.
    pub book: AssetBook,
}

/// The ledger of every asset plus the immutable configuration and the
/// record of emitted events.
#[derive(Debug)]
pub struct Pallet {
    /// The per-deployment configuration, fixed at construction.
    pub config: Config,
    /// The native asset's balance table, singly keyed.
    pub native: AssetBook,
    /// One balance table per pegged currency.
    pub tokens: Vec<TokenBook>,
    /// Every event emitted so far, in order, for the event sink.
    pub events: Vec<Event>,
}

/// Whether some book of `s` belongs to asset `c`.
pub open spec fn has_token_in(s: Seq<TokenBook>, c: u64) -> bool {
    exists|i: int| 0 <= i < s.len() && s[i].id == c
}

/// The index of asset `c`'s book in `s` (meaningful only under
/// `has_token_in`; unique where ids are unique).
pub open spec fn token_index_in(s: Seq<TokenBook>, c: u64) -> int {
    choose|i: int| 0 <= i < s.len() && s[i].id == c
}

/// Under unique ids, any index holding asset `c` is the index the view
/// functions read.
pub proof fn lemma_token_index(s: Seq<TokenBook>, c: u64, i: int)
    requires
        forall|p: int, q: int| 0 <= p < q < s.len() ==> s[p].id != s[q].id,
        0 <= i < s.len(),
        s[i].id == c,
    ensures
        has_token_in(s, c),
        token_index_in(s, c) == i,
{
    assert(has_token_in(s, c));
    let j = token_index_in(s, c);
    if i != j {
        if i < j {
            assert(s[i].id != s[j].id);
        } else {
            assert(s[j].id != s[i].id);
        }
    }
}

impl Pallet {
    /// The configured native asset id.
    pub open spec fn native_id(self) -> u64 {
        self.config.native_id
    }

    /// Whether a book for the pegged currency `c` exists.
    pub open spec fn has_token(self, c: u64) -> bool {
        has_token_in(self.tokens@, c)
    }

    /// The index of `c`'s book among the pegged currencies.
    pub open spec fn token_index(self, c: u64) -> int {
        token_index_in(self.tokens@, c)
    }

    /// Well-formedness: a valid configuration, well-formed books throughout,
    /// singly-keyed token books, and no token book under the native id.
    pub open spec fn wf(self) -> bool {
        &&& self.config.valid()
        &&& self.native.wf()
        &&& forall|i: int|
            0 <= i < self.tokens@.len() ==> (#[trigger] self.tokens@[i]).book.wf()
                && self.tokens@[i].id != self.config.native_id
        &&& forall|i: int, j: int|
            0 <= i < j < self.tokens@.len() ==> self.tokens@[i].id != self.tokens@[j].id
    }

    /// The total issuance of asset `c` (zero where no book exists).
    pub open spec fn issuance_of(self, c: u64) -> nat {
        if c == self.native_id() {
            self.native.total_issuance as nat
        } else if self.has_token(c) {
            self.tokens@[self.token_index(c)].book.total_issuance as nat
        } else {
            0
        }
    }

    /// The free balance of account `a` under asset `c`.
    pub open spec fn free_of(self, c: u64, a: u64) -> nat {
        if c == self.native_id() {
            self.native.free_of(a)
        } else if self.has_token(c) {
            self.tokens@[self.token_index(c)].book.free_of(a)
        } else {
            0
        }
    }

    /// The reserved balance of account `a` under asset `c`.
    pub open spec fn reserved_of(self, c: u64, a: u64) -> nat {
        if c == self.native_id() {
            self.native.reserved_of(a)
        } else if self.has_token(c) {
            self.tokens@[self.token_index(c)].book.reserved_of(a)
        } else {
            0
        }
    }

    /// The total balance of account `a` under asset `c`.
    pub open spec fn total_of(self, c: u64, a: u64) -> nat {
        self.free_of(c, a) + self.reserved_of(c, a)
    }

    /// The locks on account `a`'s free balance under asset `c`.
    pub open spec fn locks_of(self, c: u64, a: u64) -> Seq<BalanceLock> {
        if c == self.native_id() {
            self.native.locks_of(a)
        } else if self.has_token(c) {
            self.tokens@[self.token_index(c)].book.locks_of(a)
        } else {
            Seq::empty()
        }
    }

    /// How much of account `a`'s free balance under `c` is frozen by locks.
    pub open spec fn frozen_of(self, c: u64, a: u64) -> nat {
        crate::ledger::frozen_amount(self.locks_of(c, a))
    }

    /// Whether `amount` may leave `a`'s free balance under `c`.
    pub open spec fn can_withdraw(self, c: u64, a: u64, amount: u64) -> bool {
        &&& amount as nat <= self.free_of(c, a)
        &&& self.free_of(c, a) - amount >= self.frozen_of(c, a)
    }

    /// The configured minimum balance of asset `c`.
    pub open spec fn min_balance_of(self, c: u64) -> u64 {
        if c == self.native_id() {
            self.native.min_balance
        } else if self.has_token(c) {
            self.tokens@[self.token_index(c)].book.min_balance
        } else {
            0
        }
    }

    /// The sum over every account of free plus reserved balance under
    /// asset `c`.
    pub open spec fn balance_sum_of(self, c: u64) -> int {
        if c == self.native_id() {
            crate::ledger::sum_balances(self.native.entries@)
        } else if self.has_token(c) {
            crate::ledger::sum_balances(self.tokens@[self.token_index(c)].book.entries@)
        } else {
            0
        }
    }

    /// The view of `(c2, x)` — balances and locks — is the same in `self`
    /// as in `pre`.
    pub open spec fn view_unchanged_at(self, pre: Pallet, c2: u64, x: u64) -> bool {
        &&& self.free_of(c2, x) == pre.free_of(c2, x)
        &&& self.reserved_of(c2, x) == pre.reserved_of(c2, x)
        &&& self.locks_of(c2, x) == pre.locks_of(c2, x)
    }

    /// Every balance view other than `a`'s and `b`'s under `c` is the same
    /// in `self` as in `pre`.
    pub open spec fn unchanged_except_in(self, pre: Pallet, c: u64, a: u64, b: u64) -> bool {
        forall|c2: u64, x: u64|
            !(c2 == c && (x == a || x == b)) ==> #[trigger] self.view_unchanged_at(pre, c2, x)
    }

    /// The issuance of every asset other than `c` is the same in `self` as
    /// in `pre`.
    pub open spec fn issuance_unchanged_except(self, pre: Pallet, c: u64) -> bool {
        forall|c2: u64| c2 != c ==> #[trigger] self.issuance_of(c2) == pre.issuance_of(c2)
    }

    /// The common frame of a routed operation that touches at most the
    /// accounts `a` and `b` under asset `c`: the configuration, every other
    /// asset's issuance, every other balance view, and every minimum
    /// balance stay as they were.
    pub open spec fn frame(self, pre: Pallet, c: u64, a: u64, b: u64) -> bool {
        &&& self.config == pre.config
        &&& self.issuance_unchanged_except(pre, c)
        &&& self.unchanged_except_in(pre, c, a, b)
        &&& forall|c2: u64| #[trigger] self.min_balance_of(c2) == pre.min_balance_of(c2)
    }

    /// A fresh ledger under a validated configuration: no issuance, no
    /// balances, no events.
    pub fn new(config: Config, native_min_balance: u64) -> (r: Pallet)
        requires
            config.valid(),
        ensures
            r.wf(),
            r.config == config,
            r.events@ == Seq::<Event>::empty(),
            forall|c: u64| #[trigger] r.issuance_of(c) == 0,
            forall|c: u64, a: u64| #[trigger] r.free_of(c, a) == 0 && r.reserved_of(c, a) == 0,
            forall|c: u64, a: u64| #[trigger] r.locks_of(c, a) == Seq::<BalanceLock>::empty(),
            r.min_balance_of(config.native_id) == native_min_balance,
    {
        let native = AssetBook::new(native_min_balance);
        Pallet { config, native, tokens: Vec::new(), events: Vec::new() }
    }

    /// Registers the pegged currency `c` with its configured minimum
    /// balance, refusing the native id and an id already registered.
    pub fn register_asset(&mut self, c: u64, min_balance: u64) -> (r: bool)
        requires
            old(self).wf(),
        ensures
            final(self).wf(),
            r == (c != old(self).native_id() && !old(self).has_token(c)),
            final(self).config == old(self).config,
            final(self).events@ == old(self).events@,
            forall|c2: u64| #[trigger] final(self).issuance_of(c2) == old(self).issuance_of(c2),
            forall|c2: u64, x: u64| #[trigger]
                final(self).view_unchanged_at(*old(self), c2, x),
            !r ==> *final(self) == *old(self),
            r ==> final(self).min_balance_of(c) == min_balance,
            forall|c2: u64|
                c2 != c ==> #[trigger] final(self).min_balance_of(c2) == old(self).min_balance_of(
                    c2,
                ),
    {
        if c == self.config.native_id {
            return false;
        }
        match self.find_token(c) {
            Some(_) => false,
            None => {
                let ghost pre = *self;
                let book = AssetBook::new(min_balance);
                self.tokens.push(TokenBook { id: c, book });
                proof {
                    let s0 = pre.tokens@;
                    let s1 = self.tokens@;
                    let n = s0.len() as int;
                    assert forall|p: int, q: int| 0 <= p < q < s1.len() implies s1[p].id
                        != s1[q].id by {
                        if q == s1.len() - 1 {
                            assert(s1[p] == s0[p]);
                            if s0[p].id == c {
                                assert(has_token_in(s0, c));
                            }
                        }
                    }
                    lemma_token_index(s1, c, n);
                    assert forall|c2: u64, x: u64| #[trigger]
                        self.view_unchanged_at(pre, c2, x) by {
                        self.lemma_push_token_view(pre, c, c2, x);
                    }
                    assert forall|c2: u64| #[trigger] self.issuance_of(c2) == pre.issuance_of(
                        c2,
                    ) by {
                        if c2 != self.config.native_id && c2 != c && has_token_in(s0, c2) {
                            let k = token_index_in(s0, c2);
                            lemma_token_index(s0, c2, k);
                            lemma_token_index(s1, c2, k);
                        }
                        if c2 == c {
                            assert(self.issuance_of(c2) == 0);
                        }
                    }
                    assert forall|c2: u64|
                        c2 != c implies #[trigger] self.min_balance_of(c2) == pre.min_balance_of(
                        c2,
                    ) by {
                        if c2 != self.config.native_id && has_token_in(s0, c2) {
                            let k = token_index_in(s0, c2);
                            lemma_token_index(s0, c2, k);
                            lemma_token_index(s1, c2, k);
                        }
                    }
                }
                true
            },
        }
    }

    /// Relates the views of a ledger whose token list grew by one empty
    /// book to the views before.
    proof fn lemma_push_token_view(self, pre: Pallet, c: u64, c2: u64, x: u64)
        requires
            pre.wf(),
            c != pre.config.native_id,
            !has_token_in(pre.tokens@, c),
            self.config == pre.config,
            self.native == pre.native,
            self.tokens@.len() == pre.tokens@.len() + 1,
            self.tokens@ == pre.tokens@.push(self.tokens@.last()),
            self.tokens@.last().id == c,
            self.tokens@.last().book.total_issuance == 0,
            self.tokens@.last().book.entries@.len() == 0,
        ensures
            self.view_unchanged_at(pre, c2, x),
    {
        let s0 = pre.tokens@;
        let s1 = self.tokens@;
        assert forall|p: int, q: int| 0 <= p < q < s1.len() implies s1[p].id != s1[q].id by {
            if q == s1.len() - 1 {
                assert(s1[p] == s0[p]);
                if s0[p].id == c {
                    assert(has_token_in(s0, c));
                }
            }
        }
        if c2 == self.config.native_id {
        } else if c2 == c {
            lemma_token_index(s1, c, s0.len() as int);
            assert(!crate::ledger::has_account(s1[token_index_in(s1, c)].book.entries@, x));
            assert(self.free_of(c2, x) == 0);
            assert(pre.free_of(c2, x) == 0);
        } else {
            if has_token_in(s0, c2) {
                let k = token_index_in(s0, c2);
                lemma_token_index(s0, c2, k);
                lemma_token_index(s1, c2, k);
            } else {
                if has_token_in(s1, c2) {
                    let k = token_index_in(s1, c2);
                    assert(0 <= k < s1.len() && s1[k].id == c2);
                    assert(k < s0.len());
                    assert(s0[k].id == c2);
                }
            }
        }
    }

    /// Finds the index of asset `c`'s token book, where one exists.
    fn find_token(&self, c: u64) -> (r: Option<usize>)
        ensures
            match r {
                Some(i) => i < self.tokens@.len() && self.tokens@[i as int].id == c,
                None => !self.has_token(c),
            },
    {
        let n = self.tokens.len();
        let mut k: usize = 0;
        while k < n
            invariant
                n == self.tokens@.len(),
                k <= n,
                forall|j: int| 0 <= j < k ==> self.tokens@[j].id != c,
            decreases n - k,
        {
            if self.tokens[k].id == c {
                return Some(k);
            }
            k = k + 1;
        }
        None
    }

    /// The configured minimum balance of asset `c`.
    pub fn minimum_balance(&self, c: u64) -> (r: u64)
        requires
            self.wf(),
        ensures
            r == self.min_balance_of(c),
    {
        if c == self.config.native_id {
            self.native.min_balance
        } else {
            match self.find_token(c) {
                Some(i) => {
                    proof {
                        lemma_token_index(self.tokens@, c, i as int);
                    }
                    self.tokens[i].book.min_balance
                },
                None => 0,
            }
        }
    }

    /// The total issuance of asset `c`.
    pub fn total_issuance(&self, c: u64) -> (r: u64)
        requires
            self.wf(),
        ensures
            r as nat == self.issuance_of(c),
    {
        if c == self.config.native_id {
            self.native.total_issuance
        } else {
            match self.find_token(c) {
                Some(i) => {
                    proof {
                        lemma_token_index(self.tokens@, c, i as int);
                    }
                    self.tokens[i].book.total_issuance
                },
                None => 0,
            }
        }
    }

    /// The free balance of account `a` under asset `c`.
    pub fn free_balance(&self, c: u64, a: u64) -> (r: u64)
        requires
            self.wf(),
        ensures
            r as nat == self.free_of(c, a),
    {
        if c == self.config.native_id {
            self.native.free_balance(a)
        } else {
            match self.find_token(c) {
                Some(i) => {
                    proof {
                        lemma_token_index(self.tokens@, c, i as int);
                    }
                    self.tokens[i].book.free_balance(a)
                },
                None => 0,
            }
        }
    }

    /// The reserved balance of account `a` under asset `c`.
    pub fn reserved_balance(&self, c: u64, a: u64) -> (r: u64)
        requires
            self.wf(),
        ensures
            r as nat == self.reserved_of(c, a),
    {
        if c == self.config.native_id {
            self.native.reserved_balance(a)
        } else {
            match self.find_token(c) {
                Some(i) => {
                    proof {
                        lemma_token_index(self.tokens@, c, i as int);
                    }
                    self.tokens[i].book.reserved_balance(a)
                },
                None => 0,
            }
        }
    }

    /// The total balance of account `a` under asset `c`.
    pub fn total_balance(&self, c: u64, a: u64) -> (r: u64)
        requires
            self.wf(),
        ensures
            r as nat == self.total_of(c, a),
    {
        if c == self.config.native_id {
            self.native.total_balance(a)
        } else {
            match self.find_token(c) {
                Some(i) => {
                    proof {
                        lemma_token_index(self.tokens@, c, i as int);
                    }
                    self.tokens[i].book.total_balance(a)
                },
                None => 0,
            }
        }
    }

    /// Whether a slash of `amount` could be met in full from `a`'s free
    /// balance under `c`.
    pub fn can_slash(&self, c: u64, a: u64, amount: u64) -> (r: bool)
        requires
            self.wf(),
        ensures
            r == (amount as nat <= self.free_of(c, a)),
    {
        amount <= self.free_balance(c, a)
    }

    /// Whether `amount` could be moved from `a`'s free into its reserved
    /// balance under `c`.
    pub fn can_reserve(&self, c: u64, a: u64, amount: u64) -> (r: bool)
        requires
            self.wf(),
        ensures
            r == (amount as nat <= self.free_of(c, a)),
    {
        amount <= self.free_balance(c, a)
    }

    /// Checks that `amount` may leave `a`'s free balance under `c`: the
    /// free balance must suffice and what remains must cover the locks.
    pub fn ensure_can_withdraw(&self, c: u64, a: u64, amount: u64) -> (r: Result<(), Error>)
        requires
            self.wf(),
        ensures
            r is Ok <==> self.can_withdraw(c, a, amount),
            r is Err ==> r == Result::<(), Error>::Err(Error::BalanceTooLow),
    {
        if c == self.config.native_id {
            self.native.ensure_can_withdraw(a, amount)
        } else {
            match self.find_token(c) {
                Some(i) => {
                    proof {
                        lemma_token_index(self.tokens@, c, i as int);
                    }
                    self.tokens[i].book.ensure_can_withdraw(a, amount)
                },
                None => {
                    if amount == 0 {
                        Ok(())
                    } else {
                        Err(Error::BalanceTooLow)
                    }
                },
            }
        }
    }

    /// Lifts a change of the native book alone: the ledger stays
    /// well-formed, and the frame for the touched accounts holds.
    proof fn lemma_frame_native(self, pre: Pallet, a: u64, b: u64)
        requires
            pre.wf(),
            self.config == pre.config,
            self.tokens@ == pre.tokens@,
            self.native.wf(),
            self.native.min_balance == pre.native.min_balance,
            self.native.unchanged_except_two(pre.native, a, b),
        ensures
            self.wf(),
            self.frame(pre, pre.config.native_id, a, b),
    {
        let nid = pre.config.native_id;
        assert forall|c2: u64, x: u64| !(c2 == nid && (x == a || x == b)) implies #[trigger]
            self.view_unchanged_at(pre, c2, x) by {
            if c2 == nid {
                assert(self.native.free_of(x) == pre.native.free_of(x));
            }
        }
        assert forall|c2: u64| c2 != nid implies #[trigger] self.issuance_of(c2)
            == pre.issuance_of(c2) by {}
        assert forall|c2: u64| #[trigger] self.min_balance_of(c2) == pre.min_balance_of(c2) by {}
    }

    /// Lifts a change of one token book (same id, same spot): the ledger
    /// stays well-formed, the frame for the touched accounts holds, and the
    /// pallet views of that asset delegate to the book's views.
    proof fn lemma_frame_token(self, pre: Pallet, ti: int, a: u64, b: u64)
        requires
            pre.wf(),
            0 <= ti < pre.tokens@.len(),
            self.config == pre.config,
            self.native == pre.native,
            self.tokens@ == pre.tokens@.update(ti, self.tokens@[ti]),
            self.tokens@[ti].id == pre.tokens@[ti].id,
            self.tokens@[ti].book.wf(),
            self.tokens@[ti].book.min_balance == pre.tokens@[ti].book.min_balance,
            self.tokens@[ti].book.unchanged_except_two(pre.tokens@[ti].book, a, b),
        ensures
            self.wf(),
            self.frame(pre, pre.tokens@[ti].id, a, b),
            ({
                let c = pre.tokens@[ti].id;
                &&& self.issuance_of(c) == self.tokens@[ti].book.total_issuance as nat
                &&& pre.issuance_of(c) == pre.tokens@[ti].book.total_issuance as nat
                &&& forall|x: u64| #[trigger] self.free_of(c, x) == self.tokens@[ti].book.free_of(
                    x,
                )
                &&& forall|x: u64| #[trigger] pre.free_of(c, x) == pre.tokens@[ti].book.free_of(x)
                &&& forall|x: u64| #[trigger] self.reserved_of(c, x)
                    == self.tokens@[ti].book.reserved_of(x)
                &&& forall|x: u64| #[trigger] pre.reserved_of(c, x)
                    == pre.tokens@[ti].book.reserved_of(x)
                &&& forall|x: u64| #[trigger] self.locks_of(c, x) == self.tokens@[ti].book.locks_of(
                    x,
                )
                &&& forall|x: u64| #[trigger] pre.locks_of(c, x) == pre.tokens@[ti].book.locks_of(
                    x,
                )
            }),
    {
        let c = pre.tokens@[ti].id;
        let s0 = pre.tokens@;
        let s1 = self.tokens@;
        assert forall|i: int|
            0 <= i < s1.len() implies (#[trigger] s1[i]).book.wf() && s1[i].id
            != pre.config.native_id by {
            if i != ti {
                assert(s1[i] == s0[i]);
            }
        }
        assert forall|p: int, q: int| 0 <= p < q < s1.len() implies s1[p].id != s1[q].id by {
            assert(s1[p].id == s0[p].id);
            assert(s1[q].id == s0[q].id);
        }
        lemma_token_index(s0, c, ti);
        lemma_token_index(s1, c, ti);
        assert forall|c2: u64, x: u64| !(c2 == c && (x == a || x == b)) implies #[trigger]
            self.view_unchanged_at(pre, c2, x) by {
            if c2 == c {
                assert(self.tokens@[ti].book.free_of(x) == pre.tokens@[ti].book.free_of(x));
            } else if c2 != pre.config.native_id {
                if has_token_in(s0, c2) {
                    let k = token_index_in(s0, c2);
                    lemma_token_index(s0, c2, k);
                    assert(k != ti);
                    lemma_token_index(s1, c2, k);
                    assert(s1[k] == s0[k]);
                } else {
                    if has_token_in(s1, c2) {
                        let k = token_index_in(s1, c2);
                        assert(s0[k].id == c2);
                    }
                }
            }
        }
        assert forall|c2: u64| c2 != c implies #[trigger] self.issuance_of(c2)
            == pre.issuance_of(c2) by {
            if c2 != pre.config.native_id {
                if has_token_in(s0, c2) {
                    let k = token_index_in(s0, c2);
                    lemma_token_index(s0, c2, k);
                    assert(k != ti);
                    lemma_token_index(s1, c2, k);
                    assert(s1[k] == s0[k]);
                } else {
                    if has_token_in(s1, c2) {
                        let k = token_index_in(s1, c2);
                        assert(s0[k].id == c2);
                    }
                }
            }
        }
        assert forall|c2: u64| #[trigger] self.min_balance_of(c2) == pre.min_balance_of(c2) by {
            if c2 != pre.config.native_id {
                if has_token_in(s0, c2) {
                    let k = token_index_in(s0, c2);
                    lemma_token_index(s0, c2, k);
                    lemma_token_index(s1, c2, k);
                    if k != ti {
                        assert(s1[k] == s0[k]);
                    }
                } else {
                    if has_token_in(s1, c2) {
                        let k = token_index_in(s1, c2);
                        assert(s0[k].id == c2);
                    }
                }
            }
        }
    }

    /// Chains a frame at the ledger level: where `p1` keeps every view,
    /// every issuance and every minimum balance of `p0`, a frame of `p2`
    /// over `p1` is a frame over `p0`.
    proof fn lemma_frame_trans(p2: Pallet, p0: Pallet, p1: Pallet, c: u64, a: u64, b: u64)
        requires
            p1.config == p0.config,
            forall|c2: u64, x: u64| #[trigger] p1.view_unchanged_at(p0, c2, x),
            forall|c2: u64| #[trigger] p1.issuance_of(c2) == p0.issuance_of(c2),
            forall|c2: u64| #[trigger] p1.min_balance_of(c2) == p0.min_balance_of(c2),
            p2.frame(p1, c, a, b),
        ensures
            p2.frame(p0, c, a, b),
    {
        assert forall|c2: u64, x: u64| !(c2 == c && (x == a || x == b)) implies #[trigger]
            p2.view_unchanged_at(p0, c2, x) by {
            assert(p2.view_unchanged_at(p1, c2, x));
            assert(p1.view_unchanged_at(p0, c2, x));
        }
        assert forall|c2: u64| c2 != c implies #[trigger] p2.issuance_of(c2) == p0.issuance_of(
            c2,
        ) by {
            assert(p2.issuance_of(c2) == p1.issuance_of(c2));
        }
        assert forall|c2: u64| #[trigger] p2.min_balance_of(c2) == p0.min_balance_of(c2) by {
            assert(p2.min_balance_of(c2) == p1.min_balance_of(c2));
        }
    }

    /// Finds the book of the pegged currency `c`, creating an empty one
    /// where none exists.  Every view, every issuance and every minimum
    /// balance is unchanged (a fresh book is empty, with a zero minimum).
    fn ensure_token(&mut self, c: u64) -> (i: usize)
        requires
            old(self).wf(),
            c != old(self).config.native_id,
        ensures
            final(self).wf(),
            final(self).config == old(self).config,
            final(self).native == old(self).native,
            final(self).events@ == old(self).events@,
            i < final(self).tokens@.len(),
            final(self).tokens@[i as int].id == c,
            has_token_in(final(self).tokens@, c),
            token_index_in(final(self).tokens@, c) == i as int,
            old(self).tokens@.len() <= final(self).tokens@.len(),
            forall|k: int|
                0 <= k < old(self).tokens@.len() ==> final(self).tokens@[k] == old(self).tokens@[k],
            forall|c2: u64, x: u64| #[trigger] final(self).view_unchanged_at(*old(self), c2, x),
            forall|c2: u64| #[trigger] final(self).issuance_of(c2) == old(self).issuance_of(c2),
            forall|c2: u64| #[trigger]
                final(self).min_balance_of(c2) == old(self).min_balance_of(c2),
    {
        let ghost pre = *self;
        match self.find_token(c) {
            Some(i) => {
                proof {
                    lemma_token_index(self.tokens@, c, i as int);
                    assert forall|c2: u64, x: u64| #[trigger]
                        self.view_unchanged_at(pre, c2, x) by {}
                }
                i
            },
            None => {
                let book = AssetBook::new(0);
                self.tokens.push(TokenBook { id: c, book });
                proof {
                    let s0 = pre.tokens@;
                    let s1 = self.tokens@;
                    let n = s0.len() as int;
                    assert forall|p: int, q: int| 0 <= p < q < s1.len() implies s1[p].id
                        != s1[q].id by {
                        if q == s1.len() - 1 {
                            assert(s1[p] == s0[p]);
                            if s0[p].id == c {
                                assert(has_token_in(s0, c));
                            }
                        }
                    }
                    lemma_token_index(s1, c, n);
                    assert forall|c2: u64, x: u64| #[trigger]
                        self.view_unchanged_at(pre, c2, x) by {
                        self.lemma_push_token_view(pre, c, c2, x);
                    }
                    assert forall|c2: u64| #[trigger] self.issuance_of(c2) == pre.issuance_of(
                        c2,
                    ) by {
                        if c2 != self.config.native_id && c2 != c && has_token_in(s0, c2) {
                            let k = token_index_in(s0, c2);
                            lemma_token_index(s0, c2, k);
                            lemma_token_index(s1, c2, k);
                        }
                        if c2 == c {
                            assert(self.issuance_of(c2) == 0);
                        }
                    }
                    assert forall|c2: u64| #[trigger] self.min_balance_of(c2)
                        == pre.min_balance_of(c2) by {
                        if c2 != self.config.native_id && c2 != c && has_token_in(s0, c2) {
                            let k = token_index_in(s0, c2);
                            lemma_token_index(s0, c2, k);
                            lemma_token_index(s1, c2, k);
                        }
                        if c2 == c {
                            assert(self.min_balance_of(c2) == 0);
                            assert(pre.min_balance_of(c2) == 0);
                        }
                    }
                }
                self.tokens.len() - 1
            },
        }
    }

    /// Where two ledgers share configuration and books, every view, every
    /// issuance and every minimum balance agree (the event log may differ).
    proof fn lemma_same_books(self, other: Pallet)
        requires
            self.config == other.config,
            self.native == other.native,
            self.tokens@ == other.tokens@,
        ensures
            forall|c2: u64, x: u64| #[trigger] self.view_unchanged_at(other, c2, x),
            forall|c2: u64| #[trigger] self.issuance_of(c2) == other.issuance_of(c2),
            forall|c2: u64| #[trigger] self.min_balance_of(c2) == other.min_balance_of(c2),
    {
    }

    /// A frame survives a change that touches no book: for example, an
    /// event appended to the log.
    proof fn lemma_frame_congruence(self, p0: Pallet, p1: Pallet, c: u64, a: u64, b: u64)
        requires
            p1.frame(p0, c, a, b),
            self.config == p1.config,
            self.native == p1.native,
            self.tokens@ == p1.tokens@,
        ensures
            self.frame(p0, c, a, b),
    {
        self.lemma_same_books(p1);
        assert forall|c2: u64, x: u64| !(c2 == c && (x == a || x == b)) implies #[trigger]
            self.view_unchanged_at(p0, c2, x) by {
            assert(self.view_unchanged_at(p1, c2, x));
            assert(p1.view_unchanged_at(p0, c2, x));
        }
        assert forall|c2: u64| c2 != c implies #[trigger] self.issuance_of(c2) == p0.issuance_of(
            c2,
        ) by {
            assert(self.issuance_of(c2) == p1.issuance_of(c2));
        }
        assert forall|c2: u64| #[trigger] self.min_balance_of(c2) == p0.min_balance_of(c2) by {
            assert(self.min_balance_of(c2) == p1.min_balance_of(c2));
        }
    }

    /// Routes a mint of `amount` into `who`'s free balance under `c`.  No
    /// event is recorded here.
    fn deposit_routed(&mut self, c: u64, who: u64, amount: u64) -> (r: Result<(), Error>)
        requires
            old(self).wf(),
        ensures
            final(self).wf(),
            final(self).config == old(self).config,
            final(self).events@ == old(self).events@,
            match r {
                Ok(_) => {
                    &&& old(self).issuance_of(c) + amount <= u64::MAX
                    &&& final(self).issuance_of(c) == old(self).issuance_of(c) + amount
                    &&& final(self).free_of(c, who) == old(self).free_of(c, who) + amount
                    &&& final(self).reserved_of(c, who) == old(self).reserved_of(c, who)
                    &&& final(self).locks_of(c, who) == old(self).locks_of(c, who)
                    &&& final(self).frame(*old(self), c, who, who)
                },
                Err(e) => {
                    &&& e == Error::SupplyOverflow
                    &&& old(self).issuance_of(c) + amount > u64::MAX
                    &&& *final(self) == *old(self)
                },
            },
    {
        let iss = self.total_issuance(c);
        if amount > u64::MAX - iss {
            return Err(Error::SupplyOverflow);
        }
        if c == self.config.native_id {
            let ghost pre = *self;
            let res = self.native.deposit(who, amount);
            proof {
                assert(res is Ok);
                crate::ledger::lemma_unchanged_one_to_two(pre.native, self.native, who);
                self.lemma_frame_native(pre, who, who);
            }
            Ok(())
        } else {
            let i = self.ensure_token(c);
            let ghost mid = *self;
            proof {
                assert(mid.view_unchanged_at(*old(self), c, who));
                assert(mid.issuance_of(c) == old(self).issuance_of(c));
                lemma_token_index(mid.tokens@, c, i as int);
            }
            let tb = token_at(&mut self.tokens, i);
            let res = tb.book.deposit(who, amount);
            proof {
                assert(res is Ok);
                crate::ledger::lemma_unchanged_one_to_two(
                    mid.tokens@[i as int].book,
                    self.tokens@[i as int].book,
                    who,
                );
                self.lemma_frame_token(mid, i as int, who, who);
                Self::lemma_frame_trans(*self, *old(self), mid, c, who, who);
            }
            Ok(())
        }
    }

    /// Routes a mint of `amount` straight into `who`'s reserved balance
    /// under `c`.  No event is recorded here.
    fn deposit_reserved_routed(&mut self, c: u64, who: u64, amount: u64) -> (r: Result<(), Error>)
        requires
            old(self).wf(),
        ensures
            final(self).wf(),
            final(self).config == old(self).config,
            final(self).events@ == old(self).events@,
            match r {
                Ok(_) => {
                    &&& old(self).issuance_of(c) + amount <= u64::MAX
                    &&& final(self).issuance_of(c) == old(self).issuance_of(c) + amount
                    &&& final(self).free_of(c, who) == old(self).free_of(c, who)
                    &&& final(self).reserved_of(c, who) == old(self).reserved_of(c, who) + amount
                    &&& final(self).locks_of(c, who) == old(self).locks_of(c, who)
                    &&& final(self).frame(*old(self), c, who, who)
                },
                Err(e) => {
                    &&& e == Error::SupplyOverflow
                    &&& old(self).issuance_of(c) + amount > u64::MAX
                    &&& *final(self) == *old(self)
                },
            },
    {
        let iss = self.total_issuance(c);
        if amount > u64::MAX - iss {
            return Err(Error::SupplyOverflow);
        }
        if c == self.config.native_id {
            let ghost pre = *self;
            let res = self.native.deposit_reserved(who, amount);
            proof {
                assert(res is Ok);
                crate::ledger::lemma_unchanged_one_to_two(pre.native, self.native, who);
                self.lemma_frame_native(pre, who, who);
            }
            Ok(())
        } else {
            let i = self.ensure_token(c);
            let ghost mid = *self;
            proof {
                assert(mid.view_unchanged_at(*old(self), c, who));
                assert(mid.issuance_of(c) == old(self).issuance_of(c));
                lemma_token_index(mid.tokens@, c, i as int);
            }
            let tb = token_at(&mut self.tokens, i);
            let res = tb.book.deposit_reserved(who, amount);
            proof {
                assert(res is Ok);
                crate::ledger::lemma_unchanged_one_to_two(
                    mid.tokens@[i as int].book,
                    self.tokens@[i as int].book,
                    who,
                );
                self.lemma_frame_token(mid, i as int, who, who);
                Self::lemma_frame_trans(*self, *old(self), mid, c, who, who);
            }
            Ok(())
        }
    }

    /// Routes a burn of `amount` from `who`'s free balance under `c`.  No
    /// event is recorded here.
    fn withdraw_routed(&mut self, c: u64, who: u64, amount: u64) -> (r: Result<(), Error>)
        requires
            old(self).wf(),
        ensures
            final(self).wf(),
            final(self).config == old(self).config,
            final(self).events@ == old(self).events@,
            match r {
                Ok(_) => {
                    &&& amount == 0 || old(self).can_withdraw(c, who, amount)
                    &&& final(self).issuance_of(c) == old(self).issuance_of(c) - amount
                    &&& final(self).free_of(c, who) == old(self).free_of(c, who) - amount
                    &&& final(self).reserved_of(c, who) == old(self).reserved_of(c, who)
                    &&& final(self).locks_of(c, who) == old(self).locks_of(c, who)
                    &&& final(self).frame(*old(self), c, who, who)
                },
                Err(e) => {
                    &&& e == Error::BalanceTooLow
                    &&& amount != 0 && !old(self).can_withdraw(c, who, amount)
                    &&& *final(self) == *old(self)
                },
            },
    {
        if amount == 0 {
            return Ok(());
        }
        match self.ensure_can_withdraw(c, who, amount) {
            Err(e) => {
                return Err(e);
            },
            Ok(_) => {},
        }
        if c == self.config.native_id {
            let ghost pre = *self;
            let res = self.native.withdraw(who, amount);
            proof {
                assert(res is Ok);
                crate::ledger::lemma_unchanged_one_to_two(pre.native, self.native, who);
                self.lemma_frame_native(pre, who, who);
            }
            Ok(())
        } else {
            let i = self.ensure_token(c);
            let ghost mid = *self;
            proof {
                assert(mid.view_unchanged_at(*old(self), c, who));
                assert(mid.issuance_of(c) == old(self).issuance_of(c));
                lemma_token_index(mid.tokens@, c, i as int);
            }
            let tb = token_at(&mut self.tokens, i);
            let res = tb.book.withdraw(who, amount);
            proof {
                assert(res is Ok);
                crate::ledger::lemma_unchanged_one_to_two(
                    mid.tokens@[i as int].book,
                    self.tokens@[i as int].book,
                    who,
                );
                self.lemma_frame_token(mid, i as int, who, who);
                Self::lemma_frame_trans(*self, *old(self), mid, c, who, who);
            }
            Ok(())
        }
    }

    /// Routes a permitted move of `amount` of free balance from `from` to
    /// `to` under `c`.  No event is recorded here.
    fn transfer_routed(&mut self, c: u64, from: u64, to: u64, amount: u64)
        requires
            old(self).wf(),
            amount != 0,
            from != to,
            old(self).can_withdraw(c, from, amount),
        ensures
            final(self).wf(),
            final(self).config == old(self).config,
            final(self).events@ == old(self).events@,
            final(self).issuance_of(c) == old(self).issuance_of(c),
            final(self).free_of(c, from) == old(self).free_of(c, from) - amount,
            final(self).free_of(c, to) == old(self).free_of(c, to) + amount,
            final(self).reserved_of(c, from) == old(self).reserved_of(c, from),
            final(self).reserved_of(c, to) == old(self).reserved_of(c, to),
            final(self).locks_of(c, from) == old(self).locks_of(c, from),
            final(self).locks_of(c, to) == old(self).locks_of(c, to),
            final(self).frame(*old(self), c, from, to),
    {
        if c == self.config.native_id {
            let ghost pre = *self;
            let res = self.native.transfer(from, to, amount);
            proof {
                assert(res is Ok);
                self.lemma_frame_native(pre, from, to);
            }
        } else {
            let i = self.ensure_token(c);
            let ghost mid = *self;
            proof {
                assert(mid.view_unchanged_at(*old(self), c, from));
                assert(mid.view_unchanged_at(*old(self), c, to));
                assert(mid.issuance_of(c) == old(self).issuance_of(c));
                lemma_token_index(mid.tokens@, c, i as int);
            }
            let tb = token_at(&mut self.tokens, i);
            let res = tb.book.transfer(from, to, amount);
            proof {
                assert(res is Ok);
                self.lemma_frame_token(mid, i as int, from, to);
                Self::lemma_frame_trans(*self, *old(self), mid, c, from, to);
            }
        }
    }

    /// Mints `amount` into `who`'s free balance under `c`, recording a
    /// `Deposited` event.  A zero amount is a no-op with no event.  Fails
    /// (changing nothing) only where the asset's issuance would overflow.
    pub fn deposit(&mut self, c: u64, who: u64, amount: u64) -> (r: Result<(), Error>)
        requires
            old(self).wf(),
        ensures
            final(self).wf(),
            amount == 0 ==> r is Ok && *final(self) == *old(self),
            match r {
                Ok(_) => amount != 0 ==> {
                    &&& old(self).issuance_of(c) + amount <= u64::MAX
                    &&& final(self).issuance_of(c) == old(self).issuance_of(c) + amount
                    &&& final(self).free_of(c, who) == old(self).free_of(c, who) + amount
                    &&& final(self).reserved_of(c, who) == old(self).reserved_of(c, who)
                    &&& final(self).locks_of(c, who) == old(self).locks_of(c, who)
                    &&& final(self).frame(*old(self), c, who, who)
                    &&& final(self).events@ == old(self).events@.push(
                        Event::Deposited(c, who, amount),
                    )
                },
                Err(e) => {
                    &&& e == Error::SupplyOverflow
                    &&& old(self).issuance_of(c) + amount > u64::MAX
                    &&& *final(self) == *old(self)
                },
            },
    {
        if amount == 0 {
            return Ok(());
        }
        match self.deposit_routed(c, who, amount) {
            Err(e) => {
                return Err(e);
            },
            Ok(_) => {},
        }
        let ghost p1 = *self;
        self.events.push(Event::Deposited(c, who, amount));
        proof {
            self.lemma_frame_congruence(*old(self), p1, c, who, who);
        }
        Ok(())
    }

    /// Burns `amount` from `who`'s free balance under `c`, recording a
    /// `Withdrawn` event.  A zero amount is a no-op with no event.  Fails
    /// (changing nothing) with `BalanceTooLow` where the free balance does
    /// not suffice or locks forbid the movement.
    pub fn withdraw(&mut self, c: u64, who: u64, amount: u64) -> (r: Result<(), Error>)
        requires
            old(self).wf(),
        ensures
            final(self).wf(),
            amount == 0 ==> r is Ok && *final(self) == *old(self),
            match r {
                Ok(_) => amount != 0 ==> {
                    &&& old(self).can_withdraw(c, who, amount)
                    &&& final(self).issuance_of(c) == old(self).issuance_of(c) - amount
                    &&& final(self).free_of(c, who) == old(self).free_of(c, who) - amount
                    &&& final(self).reserved_of(c, who) == old(self).reserved_of(c, who)
                    &&& final(self).locks_of(c, who) == old(self).locks_of(c, who)
                    &&& final(self).frame(*old(self), c, who, who)
                    &&& final(self).events@ == old(self).events@.push(
                        Event::Withdrawn(c, who, amount),
                    )
                },
                Err(e) => {
                    &&& e == Error::BalanceTooLow
                    &&& amount != 0 && !old(self).can_withdraw(c, who, amount)
                    &&& *final(self) == *old(self)
                },
            },
    {
        if amount == 0 {
            return Ok(());
        }
        match self.withdraw_routed(c, who, amount) {
            Err(e) => {
                return Err(e);
            },
            Ok(_) => {},
        }
        let ghost p1 = *self;
        self.events.push(Event::Withdrawn(c, who, amount));
        proof {
            self.lemma_frame_congruence(*old(self), p1, c, who, who);
        }
        Ok(())
    }

    /// Moves `amount` of free balance from `from` to `to` under `c` as one
    /// atomic step and records a `Transferred` event.  A zero amount or a
    /// self-transfer changes no balance and records no event.  Fails
    /// (changing nothing) with `BalanceTooLow` where `from`'s free balance
    /// does not suffice or locks forbid the movement.
    pub fn do_transfer(&mut self, c: u64, from: u64, to: u64, amount: u64) -> (r: Result<
        (),
        Error,
    >)
        requires
            old(self).wf(),
        ensures
            final(self).wf(),
            amount == 0 || from == to ==> r is Ok && *final(self) == *old(self),
            match r {
                Ok(_) => amount != 0 && from != to ==> {
                    &&& old(self).can_withdraw(c, from, amount)
                    &&& final(self).issuance_of(c) == old(self).issuance_of(c)
                    &&& final(self).free_of(c, from) == old(self).free_of(c, from) - amount
                    &&& final(self).free_of(c, to) == old(self).free_of(c, to) + amount
                    &&& final(self).reserved_of(c, from) == old(self).reserved_of(c, from)
                    &&& final(self).reserved_of(c, to) == old(self).reserved_of(c, to)
                    &&& final(self).locks_of(c, from) == old(self).locks_of(c, from)
                    &&& final(self).locks_of(c, to) == old(self).locks_of(c, to)
                    &&& final(self).frame(*old(self), c, from, to)
                    &&& final(self).events@ == old(self).events@.push(
                        Event::Transferred(c, from, to, amount),
                    )
                },
                Err(e) => {
                    &&& e == Error::BalanceTooLow
                    &&& amount != 0 && from != to && !old(self).can_withdraw(c, from, amount)
                    &&& *final(self) == *old(self)
                },
            },
    {
        if amount == 0 || from == to {
            return Ok(());
        }
        match self.ensure_can_withdraw(c, from, amount) {
            Err(e) => {
                return Err(e);
            },
            Ok(_) => {},
        }
        self.transfer_routed(c, from, to, amount);
        let ghost p1 = *self;
        self.events.push(Event::Transferred(c, from, to, amount));
        proof {
            self.lemma_frame_congruence(*old(self), p1, c, from, to);
        }
        Ok(())
    }

    /// Transfers `amount` under `currency_id` from the signing account to
    /// `dest`.  The origin must be signed; the balance semantics are those
    /// of `do_transfer`.
    pub fn transfer(&mut self, origin: Origin, dest: u64, currency_id: u64, amount: u64) -> (r:
        Result<(), Error>)
        requires
            old(self).wf(),
        ensures
            final(self).wf(),
            origin is Root ==> r == Result::<(), Error>::Err(Error::Unauthorized) && *final(self)
                == *old(self),
            origin matches Origin::Signed(from) ==> {
                &&& (amount == 0 || from == dest ==> r is Ok && *final(self) == *old(self))
                &&& match r {
                    Ok(_) => amount != 0 && from != dest ==> {
                        &&& old(self).can_withdraw(currency_id, from, amount)
                        &&& final(self).issuance_of(currency_id) == old(self).issuance_of(
                            currency_id,
                        )
                        &&& final(self).free_of(currency_id, from) == old(self).free_of(
                            currency_id,
                            from,
                        ) - amount
                        &&& final(self).free_of(currency_id, dest) == old(self).free_of(
                            currency_id,
                            dest,
                        ) + amount
                        &&& final(self).reserved_of(currency_id, from) == old(self).reserved_of(
                            currency_id,
                            from,
                        )
                        &&& final(self).reserved_of(currency_id, dest) == old(self).reserved_of(
                            currency_id,
                            dest,
                        )
                        &&& final(self).frame(*old(self), currency_id, from, dest)
                        &&& final(self).events@ == old(self).events@.push(
                            Event::Transferred(currency_id, from, dest, amount),
                        )
                    },
                    Err(e) => {
                        &&& e == Error::BalanceTooLow
                        &&& amount != 0 && from != dest && !old(self).can_withdraw(
                            currency_id,
                            from,
                            amount,
                        )
                        &&& *final(self) == *old(self)
                    },
                }
            },
    {
        let from = match crate::types::ensure_signed(origin) {
            Ok(a) => a,
            Err(e) => {
                return Err(e);
            },
        };
        self.do_transfer(currency_id, from, dest, amount)
    }

    /// Transfers `amount` of the native asset from the signing account to
    /// `dest`.  The origin must be signed; the balance semantics are those
    /// of `do_transfer` on the native asset.
    pub fn transfer_native_currency(&mut self, origin: Origin, dest: u64, amount: u64) -> (r:
        Result<(), Error>)
        requires
            old(self).wf(),
        ensures
            final(self).wf(),
            origin is Root ==> r == Result::<(), Error>::Err(Error::Unauthorized) && *final(self)
                == *old(self),
            origin matches Origin::Signed(from) ==> {
                &&& (amount == 0 || from == dest ==> r is Ok && *final(self) == *old(self))
                &&& match r {
                    Ok(_) => amount != 0 && from != dest ==> {
                        let nid = old(self).native_id();
                        &&& old(self).can_withdraw(nid, from, amount)
                        &&& final(self).issuance_of(nid) == old(self).issuance_of(nid)
                        &&& final(self).free_of(nid, from) == old(self).free_of(nid, from) - amount
                        &&& final(self).free_of(nid, dest) == old(self).free_of(nid, dest) + amount
                        &&& final(self).reserved_of(nid, from) == old(self).reserved_of(nid, from)
                        &&& final(self).reserved_of(nid, dest) == old(self).reserved_of(nid, dest)
                        &&& final(self).frame(*old(self), nid, from, dest)
                        &&& final(self).events@ == old(self).events@.push(
                            Event::Transferred(nid, from, dest, amount),
                        )
                    },
                    Err(e) => {
                        &&& e == Error::BalanceTooLow
                        &&& amount != 0 && from != dest && !old(self).can_withdraw(
                            old(self).native_id(),
                            from,
                            amount,
                        )
                        &&& *final(self) == *old(self)
                    },
                }
            },
    {
        let from = match crate::types::ensure_signed(origin) {
            Ok(a) => a,
            Err(e) => {
                return Err(e);
            },
        };
        let nid = self.config.native_id;
        self.do_transfer(nid, from, dest, amount)
    }

    /// Adjusts `who`'s free balance under `currency_id` by the signed
    /// `amount` — a positive delta mints, a non-positive one burns — and
    /// records a `BalanceUpdated` event.  The origin must be root.  A
    /// magnitude beyond the balance range is `AmountIntoBalanceFailed`; the
    /// burn direction demands a permitted withdrawal.
    pub fn update_balance(&mut self, origin: Origin, who: u64, currency_id: u64, amount: i128) -> (r:
        Result<(), Error>)
        requires
            old(self).wf(),
        ensures
            final(self).wf(),
            !origin.is_root() ==> r == Result::<(), Error>::Err(Error::Unauthorized) && *final(self)
                == *old(self),
            origin.is_root() && (amount > u64::MAX as i128 || amount < -(u64::MAX as i128)) ==> r
                == Result::<(), Error>::Err(Error::AmountIntoBalanceFailed) && *final(self) == *old(self),
            origin.is_root() && 0 < amount <= u64::MAX as i128 ==> {
                let m = amount as u64;
                match r {
                    Ok(_) => {
                        &&& old(self).issuance_of(currency_id) + m <= u64::MAX
                        &&& final(self).issuance_of(currency_id) == old(self).issuance_of(
                            currency_id,
                        ) + m
                        &&& final(self).free_of(currency_id, who) == old(self).free_of(
                            currency_id,
                            who,
                        ) + m
                        &&& final(self).reserved_of(currency_id, who) == old(self).reserved_of(
                            currency_id,
                            who,
                        )
                        &&& final(self).frame(*old(self), currency_id, who, who)
                        &&& final(self).events@ == old(self).events@.push(
                            Event::BalanceUpdated(currency_id, who, amount),
                        )
                    },
                    Err(e) => {
                        &&& e == Error::SupplyOverflow
                        &&& old(self).issuance_of(currency_id) + m > u64::MAX
                        &&& *final(self) == *old(self)
                    },
                }
            },
            origin.is_root() && -(u64::MAX as i128) <= amount <= 0 ==> {
                let m = (-amount) as u64;
                match r {
                    Ok(_) => {
                        &&& m == 0 || old(self).can_withdraw(currency_id, who, m)
                        &&& final(self).issuance_of(currency_id) == old(self).issuance_of(
                            currency_id,
                        ) - m
                        &&& final(self).free_of(currency_id, who) == old(self).free_of(
                            currency_id,
                            who,
                        ) - m
                        &&& final(self).reserved_of(currency_id, who) == old(self).reserved_of(
                            currency_id,
                            who,
                        )
                        &&& final(self).frame(*old(self), currency_id, who, who)
                        &&& final(self).events@ == old(self).events@.push(
                            Event::BalanceUpdated(currency_id, who, amount),
                        )
                    },
                    Err(e) => {
                        &&& e == Error::BalanceTooLow
                        &&& m != 0 && !old(self).can_withdraw(currency_id, who, m)
                        &&& *final(self) == *old(self)
                    },
                }
            },
    {
        match crate::types::ensure_root(origin) {
            Err(e) => {
                return Err(e);
            },
            Ok(_) => {},
        }
        if amount > u64::MAX as i128 || amount < -(u64::MAX as i128) {
            return Err(Error::AmountIntoBalanceFailed);
        }
        if amount > 0 {
            let m = amount as u64;
            match self.deposit_routed(currency_id, who, m) {
                Err(e) => {
                    return Err(e);
                },
                Ok(_) => {},
            }
        } else {
            let m = (-amount) as u64;
            match self.withdraw_routed(currency_id, who, m) {
                Err(e) => {
                    return Err(e);
                },
                Ok(_) => {},
            }
        }
        let ghost p1 = *self;
        self.events.push(Event::BalanceUpdated(currency_id, who, amount));
        proof {
            self.lemma_frame_congruence(*old(self), p1, currency_id, who, who);
        }
        Ok(())
    }

    /// Best-effort debit: burns up to `amount` from `who`'s free balance
    /// under `c` (ignoring locks) and returns the unmet remainder.
    pub fn slash(&mut self, c: u64, who: u64, amount: u64) -> (gap: u64)
        requires
            old(self).wf(),
        ensures
            final(self).wf(),
            final(self).events@ == old(self).events@,
            ({
                let slashed = if amount as nat <= old(self).free_of(c, who) {
                    amount as nat
                } else {
                    old(self).free_of(c, who)
                };
                &&& gap == amount - slashed
                &&& final(self).free_of(c, who) == old(self).free_of(c, who) - slashed
                &&& final(self).issuance_of(c) == old(self).issuance_of(c) - slashed
            }),
            final(self).reserved_of(c, who) == old(self).reserved_of(c, who),
            final(self).locks_of(c, who) == old(self).locks_of(c, who),
            final(self).frame(*old(self), c, who, who),
    {
        if c == self.config.native_id {
            let ghost pre = *self;
            let gap = self.native.slash(who, amount);
            proof {
                crate::ledger::lemma_unchanged_one_to_two(pre.native, self.native, who);
                self.lemma_frame_native(pre, who, who);
            }
            gap
        } else {
            let i = self.ensure_token(c);
            let ghost mid = *self;
            proof {
                assert(mid.view_unchanged_at(*old(self), c, who));
                assert(mid.issuance_of(c) == old(self).issuance_of(c));
                lemma_token_index(mid.tokens@, c, i as int);
            }
            let tb = token_at(&mut self.tokens, i);
            let gap = tb.book.slash(who, amount);
            proof {
                crate::ledger::lemma_unchanged_one_to_two(
                    mid.tokens@[i as int].book,
                    self.tokens@[i as int].book,
                    who,
                );
                self.lemma_frame_token(mid, i as int, who, who);
                Self::lemma_frame_trans(*self, *old(self), mid, c, who, who);
            }
            gap
        }
    }

    /// Best-effort debit of the escrow: burns up to `amount` from `who`'s
    /// reserved balance under `c` and returns the unmet remainder.
    pub fn slash_reserved(&mut self, c: u64, who: u64, amount: u64) -> (gap: u64)
        requires
            old(self).wf(),
        ensures
            final(self).wf(),
            final(self).events@ == old(self).events@,
            ({
                let slashed = if amount as nat <= old(self).reserved_of(c, who) {
                    amount as nat
                } else {
                    old(self).reserved_of(c, who)
                };
                &&& gap == amount - slashed
                &&& final(self).reserved_of(c, who) == old(self).reserved_of(c, who) - slashed
                &&& final(self).issuance_of(c) == old(self).issuance_of(c) - slashed
            }),
            final(self).free_of(c, who) == old(self).free_of(c, who),
            final(self).locks_of(c, who) == old(self).locks_of(c, who),
            final(self).frame(*old(self), c, who, who),
    {
        if c == self.config.native_id {
            let ghost pre = *self;
            let gap = self.native.slash_reserved(who, amount);
            proof {
                crate::ledger::lemma_unchanged_one_to_two(pre.native, self.native, who);
                self.lemma_frame_native(pre, who, who);
            }
            gap
        } else {
            let i = self.ensure_token(c);
            let ghost mid = *self;
            proof {
                assert(mid.view_unchanged_at(*old(self), c, who));
                assert(mid.issuance_of(c) == old(self).issuance_of(c));
                lemma_token_index(mid.tokens@, c, i as int);
            }
            let tb = token_at(&mut self.tokens, i);
            let gap = tb.book.slash_reserved(who, amount);
            proof {
                crate::ledger::lemma_unchanged_one_to_two(
                    mid.tokens@[i as int].book,
                    self.tokens@[i as int].book,
                    who,
                );
                self.lemma_frame_token(mid, i as int, who, who);
                Self::lemma_frame_trans(*self, *old(self), mid, c, who, who);
            }
            gap
        }
    }

    /// Moves `amount` from `who`'s free into its reserved balance under
    /// `c`.  Fails (changing nothing) with `BalanceTooLow` where the free
    /// balance does not suffice.
    pub fn reserve(&mut self, c: u64, who: u64, amount: u64) -> (r: Result<(), Error>)
        requires
            old(self).wf(),
        ensures
            final(self).wf(),
            final(self).events@ == old(self).events@,
            final(self).issuance_of(c) == old(self).issuance_of(c),
            match r {
                Ok(_) => {
                    &&& amount as nat <= old(self).free_of(c, who)
                    &&& final(self).free_of(c, who) == old(self).free_of(c, who) - amount
                    &&& final(self).reserved_of(c, who) == old(self).reserved_of(c, who) + amount
                    &&& final(self).locks_of(c, who) == old(self).locks_of(c, who)
                    &&& final(self).frame(*old(self), c, who, who)
                },
                Err(e) => {
                    &&& e == Error::BalanceTooLow
                    &&& amount as nat > old(self).free_of(c, who)
                    &&& *final(self) == *old(self)
                },
            },
    {
        let f = self.free_balance(c, who);
        if amount > f {
            return Err(Error::BalanceTooLow);
        }
        if c == self.config.native_id {
            let ghost pre = *self;
            let res = self.native.reserve(who, amount);
            proof {
                assert(res is Ok);
                crate::ledger::lemma_unchanged_one_to_two(pre.native, self.native, who);
                self.lemma_frame_native(pre, who, who);
            }
            Ok(())
        } else {
            let i = self.ensure_token(c);
            let ghost mid = *self;
            proof {
                assert(mid.view_unchanged_at(*old(self), c, who));
                assert(mid.issuance_of(c) == old(self).issuance_of(c));
                lemma_token_index(mid.tokens@, c, i as int);
            }
            let tb = token_at(&mut self.tokens, i);
            let res = tb.book.reserve(who, amount);
            proof {
                assert(res is Ok);
                crate::ledger::lemma_unchanged_one_to_two(
                    mid.tokens@[i as int].book,
                    self.tokens@[i as int].book,
                    who,
                );
                self.lemma_frame_token(mid, i as int, who, who);
                Self::lemma_frame_trans(*self, *old(self), mid, c, who, who);
            }
            Ok(())
        }
    }

    /// Moves up to `amount` from `who`'s reserved back into its free
    /// balance under `c` and returns the unmet remainder.
    pub fn unreserve(&mut self, c: u64, who: u64, amount: u64) -> (gap: u64)
        requires
            old(self).wf(),
        ensures
            final(self).wf(),
            final(self).events@ == old(self).events@,
            final(self).issuance_of(c) == old(self).issuance_of(c),
            ({
                let moved = if amount as nat <= old(self).reserved_of(c, who) {
                    amount as nat
                } else {
                    old(self).reserved_of(c, who)
                };
                &&& gap == amount - moved
                &&& final(self).free_of(c, who) == old(self).free_of(c, who) + moved
                &&& final(self).reserved_of(c, who) == old(self).reserved_of(c, who) - moved
            }),
            final(self).locks_of(c, who) == old(self).locks_of(c, who),
            final(self).frame(*old(self), c, who, who),
    {
        if c == self.config.native_id {
            let ghost pre = *self;
            let gap = self.native.unreserve(who, amount);
            proof {
                crate::ledger::lemma_unchanged_one_to_two(pre.native, self.native, who);
                self.lemma_frame_native(pre, who, who);
            }
            gap
        } else {
            let i = self.ensure_token(c);
            let ghost mid = *self;
            proof {
                assert(mid.view_unchanged_at(*old(self), c, who));
                assert(mid.issuance_of(c) == old(self).issuance_of(c));
                lemma_token_index(mid.tokens@, c, i as int);
            }
            let tb = token_at(&mut self.tokens, i);
            let gap = tb.book.unreserve(who, amount);
            proof {
                crate::ledger::lemma_unchanged_one_to_two(
                    mid.tokens@[i as int].book,
                    self.tokens@[i as int].book,
                    who,
                );
                self.lemma_frame_token(mid, i as int, who, who);
                Self::lemma_frame_trans(*self, *old(self), mid, c, who, who);
            }
            gap
        }
    }

    /// Moves up to `value` from `slashed`'s reserved balance under `c` to
    /// `beneficiary`, crediting the free or the reserved side per `status`,
    /// and returns the unmet remainder rather than failing on a shortfall.
    pub fn repatriate_reserved(
        &mut self,
        c: u64,
        slashed: u64,
        beneficiary: u64,
        value: u64,
        status: BalanceStatus,
    ) -> (r: Result<u64, Error>)
        requires
            old(self).wf(),
        ensures
            final(self).wf(),
            final(self).events@ == old(self).events@,
            final(self).issuance_of(c) == old(self).issuance_of(c),
            ({
                let moved = if value as nat <= old(self).reserved_of(c, slashed) {
                    value as nat
                } else {
                    old(self).reserved_of(c, slashed)
                };
                if slashed == beneficiary {
                    match status {
                        BalanceStatus::Free => {
                            &&& r == Result::<u64, Error>::Ok((value - moved) as u64)
                            &&& final(self).free_of(c, slashed) == old(self).free_of(c, slashed)
                                + moved
                            &&& final(self).reserved_of(c, slashed) == old(self).reserved_of(
                                c,
                                slashed,
                            ) - moved
                            &&& final(self).locks_of(c, slashed) == old(self).locks_of(c, slashed)
                            &&& final(self).frame(*old(self), c, slashed, slashed)
                        },
                        BalanceStatus::Reserved => {
                            &&& r == Result::<u64, Error>::Ok((value - moved) as u64)
                            &&& *final(self) == *old(self)
                        },
                    }
                } else {
                    &&& r == Result::<u64, Error>::Ok((value - moved) as u64)
                    &&& final(self).reserved_of(c, slashed) == old(self).reserved_of(c, slashed)
                        - moved
                    &&& final(self).free_of(c, slashed) == old(self).free_of(c, slashed)
                    &&& (status == BalanceStatus::Free ==> final(self).free_of(c, beneficiary)
                        == old(self).free_of(c, beneficiary) + moved && final(self).reserved_of(
                        c,
                        beneficiary,
                    ) == old(self).reserved_of(c, beneficiary))
                    &&& (status == BalanceStatus::Reserved ==> final(self).reserved_of(
                        c,
                        beneficiary,
                    ) == old(self).reserved_of(c, beneficiary) + moved && final(self).free_of(
                        c,
                        beneficiary,
                    ) == old(self).free_of(c, beneficiary))
                    &&& final(self).locks_of(c, slashed) == old(self).locks_of(c, slashed)
                    &&& final(self).locks_of(c, beneficiary) == old(self).locks_of(c, beneficiary)
                    &&& final(self).frame(*old(self), c, slashed, beneficiary)
                }
            }),
    {
        if slashed == beneficiary {
            match status {
                BalanceStatus::Free => {
                    let gap = self.unreserve(c, slashed, value);
                    return Ok(gap);
                },
                BalanceStatus::Reserved => {
                    let rs = self.reserved_balance(c, slashed);
                    if value <= rs {
                        return Ok(0);
                    } else {
                        return Ok(value - rs);
                    }
                },
            }
        }
        if c == self.config.native_id {
            let ghost pre = *self;
            let res = self.native.repatriate_reserved(slashed, beneficiary, value, status);
            proof {
                self.lemma_frame_native(pre, slashed, beneficiary);
            }
            res
        } else {
            let i = self.ensure_token(c);
            let ghost mid = *self;
            proof {
                assert(mid.view_unchanged_at(*old(self), c, slashed));
                assert(mid.view_unchanged_at(*old(self), c, beneficiary));
                assert(mid.issuance_of(c) == old(self).issuance_of(c));
                lemma_token_index(mid.tokens@, c, i as int);
            }
            let tb = token_at(&mut self.tokens, i);
            let res = tb.book.repatriate_reserved(slashed, beneficiary, value, status);
            proof {
                self.lemma_frame_token(mid, i as int, slashed, beneficiary);
                Self::lemma_frame_trans(*self, *old(self), mid, c, slashed, beneficiary);
            }
            res
        }
    }

    /// Sets (or, with a zero amount, removes) the lock named `lock_id` on
    /// `who`'s free balance under `c`.  Balances and issuance are
    /// untouched.
    pub fn set_lock(&mut self, lock_id: u64, c: u64, who: u64, amount: u64) -> (r: Result<
        (),
        Error,
    >)
        requires
            old(self).wf(),
        ensures
            final(self).wf(),
            r is Ok,
            final(self).events@ == old(self).events@,
            final(self).issuance_of(c) == old(self).issuance_of(c),
            final(self).free_of(c, who) == old(self).free_of(c, who),
            final(self).reserved_of(c, who) == old(self).reserved_of(c, who),
            final(self).locks_of(c, who) == crate::ledger::spec_set_lock(
                old(self).locks_of(c, who),
                lock_id,
                amount,
            ),
            final(self).frame(*old(self), c, who, who),
    {
        if c == self.config.native_id {
            let ghost pre = *self;
            let res = self.native.set_lock(lock_id, who, amount);
            proof {
                crate::ledger::lemma_unchanged_one_to_two(pre.native, self.native, who);
                self.lemma_frame_native(pre, who, who);
            }
            res
        } else {
            let i = self.ensure_token(c);
            let ghost mid = *self;
            proof {
                assert(mid.view_unchanged_at(*old(self), c, who));
                assert(mid.issuance_of(c) == old(self).issuance_of(c));
                lemma_token_index(mid.tokens@, c, i as int);
            }
            let tb = token_at(&mut self.tokens, i);
            let res = tb.book.set_lock(lock_id, who, amount);
            proof {
                crate::ledger::lemma_unchanged_one_to_two(
                    mid.tokens@[i as int].book,
                    self.tokens@[i as int].book,
                    who,
                );
                self.lemma_frame_token(mid, i as int, who, who);
                Self::lemma_frame_trans(*self, *old(self), mid, c, who, who);
            }
            res
        }
    }

    /// Raises the lock named `lock_id` on `who`'s free balance under `c`
    /// to at least `amount`, never lowering an existing lock.  Balances and
    /// issuance are untouched.
    pub fn extend_lock(&mut self, lock_id: u64, c: u64, who: u64, amount: u64) -> (r: Result<
        (),
        Error,
    >)
        requires
            old(self).wf(),
        ensures
            final(self).wf(),
            r is Ok,
            final(self).events@ == old(self).events@,
            final(self).issuance_of(c) == old(self).issuance_of(c),
            final(self).free_of(c, who) == old(self).free_of(c, who),
            final(self).reserved_of(c, who) == old(self).reserved_of(c, who),
            final(self).locks_of(c, who) == crate::ledger::spec_extend_lock(
                old(self).locks_of(c, who),
                lock_id,
                amount,
            ),
            final(self).frame(*old(self), c, who, who),
    {
        if c == self.config.native_id {
            let ghost pre = *self;
            let res = self.native.extend_lock(lock_id, who, amount);
            proof {
                crate::ledger::lemma_unchanged_one_to_two(pre.native, self.native, who);
                self.lemma_frame_native(pre, who, who);
            }
            res
        } else {
            let i = self.ensure_token(c);
            let ghost mid = *self;
            proof {
                assert(mid.view_unchanged_at(*old(self), c, who));
                assert(mid.issuance_of(c) == old(self).issuance_of(c));
                lemma_token_index(mid.tokens@, c, i as int);
            }
            let tb = token_at(&mut self.tokens, i);
            let res = tb.book.extend_lock(lock_id, who, amount);
            proof {
                crate::ledger::lemma_unchanged_one_to_two(
                    mid.tokens@[i as int].book,
                    self.tokens@[i as int].book,
                    who,
                );
                self.lemma_frame_token(mid, i as int, who, who);
                Self::lemma_frame_trans(*self, *old(self), mid, c, who, who);
            }
            res
        }
    }

    /// Removes the lock named `lock_id` from `who`'s free balance under
    /// `c`, where it exists.  Balances and issuance are untouched.
    pub fn remove_lock(&mut self, lock_id: u64, c: u64, who: u64) -> (r: Result<(), Error>)
        requires
            old(self).wf(),
        ensures
            final(self).wf(),
            r is Ok,
            final(self).events@ == old(self).events@,
            final(self).issuance_of(c) == old(self).issuance_of(c),
            final(self).free_of(c, who) == old(self).free_of(c, who),
            final(self).reserved_of(c, who) == old(self).reserved_of(c, who),
            final(self).locks_of(c, who) == crate::ledger::spec_remove_lock(
                old(self).locks_of(c, who),
                lock_id,
            ),
            final(self).frame(*old(self), c, who, who),
    {
        if c == self.config.native_id {
            let ghost pre = *self;
            let res = self.native.remove_lock(lock_id, who);
            proof {
                crate::ledger::lemma_unchanged_one_to_two(pre.native, self.native, who);
                self.lemma_frame_native(pre, who, who);
            }
            res
        } else {
            let i = self.ensure_token(c);
            let ghost mid = *self;
            proof {
                assert(mid.view_unchanged_at(*old(self), c, who));
                assert(mid.issuance_of(c) == old(self).issuance_of(c));
                lemma_token_index(mid.tokens@, c, i as int);
            }
            let tb = token_at(&mut self.tokens, i);
            let res = tb.book.remove_lock(lock_id, who);
            proof {
                crate::ledger::lemma_unchanged_one_to_two(
                    mid.tokens@[i as int].book,
                    self.tokens@[i as int].book,
                    who,
                );
                self.lemma_frame_token(mid, i as int, who, who);
                Self::lemma_frame_trans(*self, *old(self), mid, c, who, who);
            }
            res
        }
    }

    /// The amount of native asset the reserve provider pays for the reward
    /// of expanding `currency_id`'s supply by `expand_by`, quoted against
    /// the current issuance and the configured pricing parameters.
    pub fn pay_serpup_by_quoted(&self, currency_id: u64, expand_by: u64, quote_price: u64) -> (r:
        Result<u64, Error>)
        requires
            self.wf(),
        ensures
            r == crate::quote::spec_pay_serpup(
                self.issuance_of(currency_id) as u64,
                expand_by,
                self.config.base_unit,
                self.config.serp_quote_multiple,
                quote_price,
            ),
    {
        let supply = self.total_issuance(currency_id);
        crate::quote::pay_serpup_by_quoted(
            supply,
            expand_by,
            self.config.base_unit,
            self.config.serp_quote_multiple,
            quote_price,
        )
    }

    /// The amount of native asset owed back to the reserve provider for
    /// contracting `currency_id`'s supply by `contract_by`, quoted against
    /// the current issuance and the configured pricing parameters.
    pub fn pay_serpdown_by_quoted(&self, currency_id: u64, contract_by: u64, quote_price: u64) -> (r:
        Result<u64, Error>)
        requires
            self.wf(),
        ensures
            r == crate::quote::spec_pay_serpdown(
                self.issuance_of(currency_id) as u64,
                contract_by,
                self.config.base_unit,
                self.config.serp_quote_multiple,
                quote_price,
            ),
    {
        let supply = self.total_issuance(currency_id);
        crate::quote::pay_serpdown_by_quoted(
            supply,
            contract_by,
            self.config.base_unit,
            self.config.serp_quote_multiple,
            quote_price,
        )
    }

    /// Expands the supply of the pegged currency `currency_id` by
    /// `expand_by` against the native-asset price `quote_price`: mints the
    /// treasury's share into its free balance, mints the reserve provider's
    /// share into its reserved balance (escrowed), and slashes the quoted
    /// native collateral cost from the reserve provider's reserved native
    /// balance — all as one all-or-nothing step, recording a
    /// `SerpedUpSupply` event.  The origin must be root; the native asset
    /// itself can never be serped.
    pub fn expand_supply(
        &mut self,
        origin: Origin,
        currency_id: u64,
        expand_by: u64,
        quote_price: u64,
    ) -> (r: Result<(), Error>)
        requires
            old(self).wf(),
        ensures
            final(self).wf(),
            !origin.is_root() ==> r == Result::<(), Error>::Err(Error::Unauthorized) && *final(self) == *old(self),
            origin.is_root() && currency_id == old(self).native_id() ==> r == Result::<
                (),
                Error,
            >::Err(Error::CannotSerpNativeAsset) && *final(self) == *old(self),
            origin.is_root() && currency_id != old(self).native_id() && quote_price == 0 ==> r
                == Result::<(), Error>::Err(Error::ZeroPrice) && *final(self) == *old(self),
            origin.is_root() && currency_id != old(self).native_id() && quote_price != 0 ==> ({
                let cfg = old(self).config;
                let pay = crate::quote::spec_pay_serpup(
                    old(self).issuance_of(currency_id) as u64,
                    expand_by,
                    cfg.base_unit,
                    cfg.serp_quote_multiple,
                    quote_price,
                );
                match r {
                    Ok(_) => pay is Ok && ({
                        let payv = pay->Ok_0;
                        let nid = cfg.native_id;
                        let slashed = if payv as nat <= old(self).reserved_of(
                            nid,
                            cfg.serper_acc,
                        ) {
                            payv as nat
                        } else {
                            old(self).reserved_of(nid, cfg.serper_acc)
                        };
                        &&& final(self).issuance_of(currency_id) == old(self).issuance_of(
                            currency_id,
                        ) + expand_by
                        &&& final(self).free_of(currency_id, cfg.settpay_acc) == old(self).free_of(
                            currency_id,
                            cfg.settpay_acc,
                        ) + cfg.settpay_share(expand_by)
                        &&& final(self).reserved_of(currency_id, cfg.serper_acc) == old(self).reserved_of(currency_id, cfg.serper_acc) + cfg.serper_share(expand_by)
                        &&& (cfg.settpay_acc != cfg.serper_acc ==> final(self).reserved_of(
                            currency_id,
                            cfg.settpay_acc,
                        ) == old(self).reserved_of(currency_id, cfg.settpay_acc) && final(self).free_of(currency_id, cfg.serper_acc) == old(self).free_of(
                            currency_id,
                            cfg.serper_acc,
                        ))
                        &&& final(self).issuance_of(nid) == old(self).issuance_of(nid) - slashed
                        &&& final(self).reserved_of(nid, cfg.serper_acc) == old(self).reserved_of(
                            nid,
                            cfg.serper_acc,
                        ) - slashed
                        &&& final(self).free_of(nid, cfg.serper_acc) == old(self).free_of(
                            nid,
                            cfg.serper_acc,
                        )
                        &&& forall|c2: u64|
                            c2 != currency_id && c2 != nid ==> #[trigger] final(self).issuance_of(
                                c2,
                            ) == old(self).issuance_of(c2)
                        &&& forall|c2: u64, x: u64|
                            !(c2 == currency_id && (x == cfg.settpay_acc || x == cfg.serper_acc))
                                && !(c2 == nid && x == cfg.serper_acc) ==> #[trigger] final(self).view_unchanged_at(*old(self), c2, x)
                        &&& forall|c2: u64| #[trigger]
                            final(self).min_balance_of(c2) == old(self).min_balance_of(c2)
                        &&& final(self).config == old(self).config
                        &&& final(self).events@ == old(self).events@.push(
                            Event::SerpedUpSupply(currency_id, expand_by),
                        )
                    }),
                    Err(e) => pay is Err && e == pay->Err_0 && *final(self) == *old(self),
                }
            }),
    {
        match crate::types::ensure_root(origin) {
            Err(e) => {
                return Err(e);
            },
            Ok(_) => {},
        }
        if currency_id == self.config.native_id {
            return Err(Error::CannotSerpNativeAsset);
        }
        if quote_price == 0 {
            return Err(Error::ZeroPrice);
        }
        let supply = self.total_issuance(currency_id);
        let pay = match crate::quote::pay_serpup_by_quoted(
            supply,
            expand_by,
            self.config.base_unit,
            self.config.serp_quote_multiple,
            quote_price,
        ) {
            Ok(v) => v,
            Err(e) => {
                return Err(e);
            },
        };
        let (settpay_d, serper_d) = split_distribution(&self.config, expand_by);
        let settpay_acc = self.config.settpay_acc;
        let serper_acc = self.config.serper_acc;
        let nid = self.config.native_id;
        let c = currency_id;
        let r1 = self.deposit_routed(c, settpay_acc, settpay_d);
        proof {
            assert(r1 is Ok);
        }
        let ghost s1 = *self;
        let r2 = self.deposit_reserved_routed(c, serper_acc, serper_d);
        proof {
            assert(r2 is Ok);
        }
        let ghost s2 = *self;
        let _gap = self.slash_reserved(nid, serper_acc, pay);
        let ghost s3 = *self;
        self.events.push(Event::SerpedUpSupply(c, expand_by));
        proof {
            self.lemma_same_books(s3);
            // the token asset's balances: untouched by the native-side slash
            assert(s3.view_unchanged_at(s2, c, settpay_acc));
            assert(s3.view_unchanged_at(s2, c, serper_acc));
            assert(s3.issuance_of(c) == s2.issuance_of(c));
            // the treasury leg through the second mint
            if settpay_acc != serper_acc {
                assert(s2.view_unchanged_at(s1, c, settpay_acc));
                assert(s1.view_unchanged_at(*old(self), c, serper_acc));
            }
            // the native side: untouched by the two token-side mints
            assert(s1.view_unchanged_at(*old(self), nid, serper_acc));
            assert(s2.view_unchanged_at(s1, nid, serper_acc));
            assert(s1.issuance_of(nid) == old(self).issuance_of(nid));
            assert(s2.issuance_of(nid) == s1.issuance_of(nid));
            assert(self.view_unchanged_at(s3, nid, serper_acc));
            assert(self.view_unchanged_at(s3, c, settpay_acc));
            assert(self.view_unchanged_at(s3, c, serper_acc));
            assert forall|c2: u64|
                c2 != c && c2 != nid implies #[trigger] self.issuance_of(c2) == old(self).issuance_of(c2) by {
                assert(self.issuance_of(c2) == s3.issuance_of(c2));
                assert(s3.issuance_of(c2) == s2.issuance_of(c2));
                assert(s2.issuance_of(c2) == s1.issuance_of(c2));
                assert(s1.issuance_of(c2) == old(self).issuance_of(c2));
            }
            assert forall|c2: u64, x: u64|
                !(c2 == c && (x == settpay_acc || x == serper_acc)) && !(c2 == nid && x
                    == serper_acc) implies #[trigger] self.view_unchanged_at(
                *old(self),
                c2,
                x,
            ) by {
                assert(self.view_unchanged_at(s3, c2, x));
                assert(s3.view_unchanged_at(s2, c2, x));
                assert(s2.view_unchanged_at(s1, c2, x));
                assert(s1.view_unchanged_at(*old(self), c2, x));
            }
            assert forall|c2: u64| #[trigger] self.min_balance_of(c2) == old(self).min_balance_of(
                c2,
            ) by {
                assert(self.min_balance_of(c2) == s3.min_balance_of(c2));
                assert(s3.min_balance_of(c2) == s2.min_balance_of(c2));
                assert(s2.min_balance_of(c2) == s1.min_balance_of(c2));
                assert(s1.min_balance_of(c2) == old(self).min_balance_of(c2));
            }
        }
        Ok(())
    }

    /// Contracts the supply of the pegged currency `currency_id` by
    /// `contract_by` against the native-asset price `quote_price`: burns
    /// the amount from the reserve provider's escrowed pegged balance, then
    /// mints the quoted native reward into the reserve provider's free
    /// balance and immediately reserves it — all as one all-or-nothing
    /// step, recording a `SerpedDownSupply` event.  The origin must be
    /// root; the native asset itself can never be serped; the reserve
    /// provider's escrow must cover the contraction.
    pub fn contract_supply(
        &mut self,
        origin: Origin,
        currency_id: u64,
        contract_by: u64,
        quote_price: u64,
    ) -> (r: Result<(), Error>)
        requires
            old(self).wf(),
        ensures
            final(self).wf(),
            !origin.is_root() ==> r == Result::<(), Error>::Err(Error::Unauthorized) && *final(self)
                == *old(self),
            origin.is_root() && currency_id == old(self).native_id() ==> r == Result::<
                (),
                Error,
            >::Err(Error::CannotSerpNativeAsset) && *final(self) == *old(self),
            origin.is_root() && currency_id != old(self).native_id() && quote_price == 0 ==> r
                == Result::<(), Error>::Err(Error::ZeroPrice) && *final(self) == *old(self),
            origin.is_root() && currency_id != old(self).native_id() && quote_price != 0
                && contract_by as nat > old(self).reserved_of(currency_id, old(self).config.serper_acc)
                ==> r == Result::<(), Error>::Err(Error::BalanceTooLow) && *final(self) == *old(self),
            origin.is_root() && currency_id != old(self).native_id() && quote_price != 0
                && contract_by as nat <= old(self).reserved_of(
                currency_id,
                old(self).config.serper_acc,
            ) ==> ({
                let cfg = old(self).config;
                let nid = cfg.native_id;
                let pay = crate::quote::spec_pay_serpdown(
                    old(self).issuance_of(currency_id) as u64,
                    contract_by,
                    cfg.base_unit,
                    cfg.serp_quote_multiple,
                    quote_price,
                );
                match r {
                    Ok(_) => pay is Ok && ({
                        let payv = pay->Ok_0;
                        &&& old(self).issuance_of(nid) + payv <= u64::MAX
                        &&& final(self).issuance_of(currency_id) == old(self).issuance_of(
                            currency_id,
                        ) - contract_by
                        &&& final(self).reserved_of(currency_id, cfg.serper_acc) == old(
                            self,
                        ).reserved_of(currency_id, cfg.serper_acc) - contract_by
                        &&& final(self).free_of(currency_id, cfg.serper_acc) == old(self).free_of(
                            currency_id,
                            cfg.serper_acc,
                        )
                        &&& final(self).issuance_of(nid) == old(self).issuance_of(nid) + payv
                        &&& final(self).reserved_of(nid, cfg.serper_acc) == old(self).reserved_of(
                            nid,
                            cfg.serper_acc,
                        ) + payv
                        &&& final(self).free_of(nid, cfg.serper_acc) == old(self).free_of(
                            nid,
                            cfg.serper_acc,
                        )
                        &&& forall|c2: u64|
                            c2 != currency_id && c2 != nid ==> #[trigger] final(self).issuance_of(
                                c2,
                            ) == old(self).issuance_of(c2)
                        &&& forall|c2: u64, x: u64|
                            !(c2 == currency_id && x == cfg.serper_acc) && !(c2 == nid && x
                                == cfg.serper_acc) ==> #[trigger] final(self).view_unchanged_at(
                                *old(self),
                                c2,
                                x,
                            )
                        &&& forall|c2: u64| #[trigger]
                            final(self).min_balance_of(c2) == old(self).min_balance_of(c2)
                        &&& final(self).config == old(self).config
                        &&& final(self).events@ == old(self).events@.push(
                            Event::SerpedDownSupply(currency_id, contract_by),
                        )
                    }),
                    Err(e) => *final(self) == *old(self) && (pay matches Err(pe) ==> e == pe) && (
                    pay is Ok ==> e == Error::SupplyOverflow && old(self).issuance_of(nid)
                        + pay->Ok_0 > u64::MAX),
                }
            }),
    {
        match crate::types::ensure_root(origin) {
            Err(e) => {
                return Err(e);
            },
            Ok(_) => {},
        }
        if currency_id == self.config.native_id {
            return Err(Error::CannotSerpNativeAsset);
        }
        if quote_price == 0 {
            return Err(Error::ZeroPrice);
        }
        let serper_acc = self.config.serper_acc;
        let nid = self.config.native_id;
        let c = currency_id;
        let rs = self.reserved_balance(c, serper_acc);
        if contract_by > rs {
            return Err(Error::BalanceTooLow);
        }
        let supply = self.total_issuance(c);
        let pay = match crate::quote::pay_serpdown_by_quoted(
            supply,
            contract_by,
            self.config.base_unit,
            self.config.serp_quote_multiple,
            quote_price,
        ) {
            Ok(v) => v,
            Err(e) => {
                return Err(e);
            },
        };
        let niss = self.total_issuance(nid);
        if pay > u64::MAX - niss {
            return Err(Error::SupplyOverflow);
        }
        let _gap = self.slash_reserved(c, serper_acc, contract_by);
        let ghost s1 = *self;
        let r2 = self.deposit_routed(nid, serper_acc, pay);
        proof {
            assert(s1.view_unchanged_at(*old(self), nid, serper_acc));
            assert(s1.issuance_of(nid) == old(self).issuance_of(nid));
            assert(r2 is Ok);
        }
        let ghost s2 = *self;
        let r3 = self.reserve(nid, serper_acc, pay);
        proof {
            assert(r3 is Ok);
        }
        let ghost s3 = *self;
        self.events.push(Event::SerpedDownSupply(c, contract_by));
        proof {
            self.lemma_same_books(s3);
            assert(s2.view_unchanged_at(s1, c, serper_acc));
            assert(s3.view_unchanged_at(s2, c, serper_acc));
            assert(s2.issuance_of(c) == s1.issuance_of(c));
            assert(s3.issuance_of(c) == s2.issuance_of(c));
            assert(self.view_unchanged_at(s3, c, serper_acc));
            assert(self.view_unchanged_at(s3, nid, serper_acc));
            assert forall|c2: u64|
                c2 != c && c2 != nid implies #[trigger] self.issuance_of(c2) == old(
                self,
            ).issuance_of(c2) by {
                assert(self.issuance_of(c2) == s3.issuance_of(c2));
                assert(s3.issuance_of(c2) == s2.issuance_of(c2));
                assert(s2.issuance_of(c2) == s1.issuance_of(c2));
                assert(s1.issuance_of(c2) == old(self).issuance_of(c2));
            }
            assert forall|c2: u64, x: u64|
                !(c2 == c && x == serper_acc) && !(c2 == nid && x == serper_acc) implies #[trigger]
                self.view_unchanged_at(*old(self), c2, x) by {
                assert(self.view_unchanged_at(s3, c2, x));
                assert(s3.view_unchanged_at(s2, c2, x));
                assert(s2.view_unchanged_at(s1, c2, x));
                assert(s1.view_unchanged_at(*old(self), c2, x));
            }
            assert forall|c2: u64| #[trigger] self.min_balance_of(c2) == old(self).min_balance_of(
                c2,
            ) by {
                assert(self.min_balance_of(c2) == s3.min_balance_of(c2));
                assert(s3.min_balance_of(c2) == s2.min_balance_of(c2));
                assert(s2.min_balance_of(c2) == s1.min_balance_of(c2));
                assert(s1.min_balance_of(c2) == old(self).min_balance_of(c2));
            }
        }
        Ok(())
    }

    /// Whether one leg of a whole-account merge can succeed for asset `c`:
    /// a pegged currency must hold no reserve for `source` and its free
    /// balance must be movable (zero or unlocked); the native asset must be
    /// empty for `source` or unlocked, since its escrow is released first.
    pub open spec fn merge_leg_ok(self, c: u64, source: u64) -> bool {
        if c == self.native_id() {
            self.total_of(c, source) == 0 || self.frozen_of(c, source) == 0
        } else {
            self.reserved_of(c, source) == 0 && (self.free_of(c, source) == 0 || self.frozen_of(
                c,
                source,
            ) == 0)
        }
    }

    /// Whether a whole-account merge out of `source` can succeed: every
    /// asset's leg can.
    pub open spec fn can_merge(self, source: u64) -> bool {
        forall|c: u64| #[trigger] self.merge_leg_ok(c, source)
    }

    /// Decides `can_merge` by inspecting the native book and every token
    /// book.
    fn check_merge(&self, source: u64) -> (r: bool)
        requires
            self.wf(),
        ensures
            r == self.can_merge(source),
    {
        let nid = self.config.native_id;
        let tot = self.native.total_balance(source);
        if tot != 0 {
            let frz = self.native.frozen_balance(source);
            if frz != 0 {
                proof {
                    assert(!self.merge_leg_ok(nid, source));
                }
                return false;
            }
        }
        let n = self.tokens.len();
        let mut k: usize = 0;
        while k < n
            invariant
                self.wf(),
                n == self.tokens@.len(),
                k <= n,
                forall|j: int|
                    0 <= j < k ==> self.merge_leg_ok((#[trigger] self.tokens@[j]).id, source),
            decreases n - k,
        {
            let c = self.tokens[k].id;
            proof {
                lemma_token_index(self.tokens@, c, k as int);
            }
            let rs = self.tokens[k].book.reserved_balance(source);
            if rs != 0 {
                proof {
                    assert(!self.merge_leg_ok(c, source));
                }
                return false;
            }
            let f = self.tokens[k].book.free_balance(source);
            if f != 0 {
                let frz = self.tokens[k].book.frozen_balance(source);
                if frz != 0 {
                    proof {
                        assert(!self.merge_leg_ok(c, source));
                    }
                    return false;
                }
            }
            proof {
                assert(self.merge_leg_ok(c, source));
            }
            k = k + 1;
        }
        proof {
            assert forall|c: u64| #[trigger] self.merge_leg_ok(c, source) by {
                if c == nid {
                } else if has_token_in(self.tokens@, c) {
                    let j = token_index_in(self.tokens@, c);
                    assert(0 <= j < self.tokens@.len() && self.tokens@[j].id == c);
                    assert(self.merge_leg_ok(self.tokens@[j].id, source));
                } else {
                    assert(self.free_of(c, source) == 0);
                    assert(self.reserved_of(c, source) == 0);
                }
            }
        }
        true
    }

    /// Consolidates every balance of `source` into `dest` as one
    /// all-or-nothing step: for each pegged currency, all of `source`'s
    /// free balance is transferred to `dest`; for the native asset,
    /// `source`'s escrow is released first and the whole resulting free
    /// balance is transferred.  Where any leg cannot succeed — a pegged
    /// reserve still held, or a lock pinning a balance — nothing changes
    /// and `BalanceTooLow` is returned.  Merging an account into itself
    /// only releases its native escrow.
    pub fn merge_account(&mut self, source: u64, dest: u64) -> (r: Result<(), Error>)
        requires
            old(self).wf(),
        ensures
            final(self).wf(),
            final(self).config == old(self).config,
            final(self).events@ == old(self).events@,
            source == dest ==> ({
                let nid = old(self).native_id();
                &&& r is Ok
                &&& final(self).free_of(nid, source) == old(self).free_of(nid, source) + old(
                    self,
                ).reserved_of(nid, source)
                &&& final(self).reserved_of(nid, source) == 0
                &&& final(self).locks_of(nid, source) == old(self).locks_of(nid, source)
                &&& forall|c: u64| #[trigger] final(self).issuance_of(c) == old(self).issuance_of(
                    c,
                )
                &&& final(self).frame(*old(self), nid, source, source)
            }),
            source != dest ==> match r {
                Ok(_) => {
                    &&& old(self).can_merge(source)
                    &&& forall|c: u64| #[trigger] final(self).free_of(c, source) == 0
                    &&& forall|c: u64| #[trigger] final(self).reserved_of(c, source) == 0
                    &&& forall|c: u64| #[trigger]
                        final(self).free_of(c, dest) == old(self).free_of(c, dest) + old(
                            self,
                        ).free_of(c, source) + (if c == old(self).native_id() {
                            old(self).reserved_of(c, source)
                        } else {
                            0
                        })
                    &&& forall|c: u64| #[trigger]
                        final(self).reserved_of(c, dest) == old(self).reserved_of(c, dest)
                    &&& forall|c: u64| #[trigger] final(self).issuance_of(c) == old(
                        self,
                    ).issuance_of(c)
                    &&& forall|c: u64, x: u64| #[trigger]
                        final(self).locks_of(c, x) == old(self).locks_of(c, x)
                    &&& forall|c: u64, x: u64|
                        x != source && x != dest ==> #[trigger] final(self).view_unchanged_at(
                            *old(self),
                            c,
                            x,
                        )
                    &&& forall|c: u64| #[trigger]
                        final(self).min_balance_of(c) == old(self).min_balance_of(c)
                },
                Err(e) => {
                    &&& e == Error::BalanceTooLow
                    &&& !old(self).can_merge(source)
                    &&& *final(self) == *old(self)
                },
            },
    {
        if source == dest {
            let ghost pre = *self;
            let nr = self.native.reserved_balance(source);
            let _gap = self.native.unreserve(source, nr);
            proof {
                crate::ledger::lemma_unchanged_one_to_two(pre.native, self.native, source);
                self.lemma_frame_native(pre, source, source);
            }
            return Ok(());
        }
        if !self.check_merge(source) {
            return Err(Error::BalanceTooLow);
        }
        let n = self.tokens.len();
        let mut k: usize = 0;
        while k < n
            invariant
                source != dest,
                old(self).wf(),
                old(self).can_merge(source),
                self.wf(),
                n == self.tokens@.len(),
                k <= n,
                self.config == old(self).config,
                self.native == old(self).native,
                self.events@ == old(self).events@,
                self.tokens@.len() == old(self).tokens@.len(),
                forall|j: int| k <= j < n ==> self.tokens@[j] == old(self).tokens@[j],
                forall|j: int|
                    0 <= j < k ==> {
                        let b1 = (#[trigger] self.tokens@[j]).book;
                        let b0 = old(self).tokens@[j].book;
                        &&& self.tokens@[j].id == old(self).tokens@[j].id
                        &&& b1.min_balance == b0.min_balance
                        &&& b1.free_of(source) == 0
                        &&& b1.reserved_of(source) == b0.reserved_of(source)
                        &&& b1.free_of(dest) == b0.free_of(dest) + b0.free_of(source)
                        &&& b1.reserved_of(dest) == b0.reserved_of(dest)
                        &&& b1.total_issuance == b0.total_issuance
                        &&& b1.locks_of(source) == b0.locks_of(source)
                        &&& b1.locks_of(dest) == b0.locks_of(dest)
                        &&& b1.unchanged_except_two(b0, source, dest)
                    },
            decreases n - k,
        {
            let ghost c = self.tokens@[k as int].id;
            proof {
                lemma_token_index(old(self).tokens@, c, k as int);
                assert(old(self).merge_leg_ok(c, source));
            }
            let f = self.tokens[k].book.free_balance(source);
            if f != 0 {
                let ghost mid = *self;
                let tb = token_at(&mut self.tokens, k);
                let res = tb.book.transfer(source, dest, f);
                proof {
                    assert(res is Ok);
                    assert forall|j: int| k as int + 1 <= j < n implies self.tokens@[j] == old(
                        self,
                    ).tokens@[j] by {
                        assert(self.tokens@[j] == mid.tokens@[j]);
                    }
                    assert forall|j: int|
                        0 <= j < k as int + 1 implies {
                        let b1 = (#[trigger] self.tokens@[j]).book;
                        let b0 = old(self).tokens@[j].book;
                        &&& self.tokens@[j].id == old(self).tokens@[j].id
                        &&& b1.min_balance == b0.min_balance
                        &&& b1.free_of(source) == 0
                        &&& b1.reserved_of(source) == b0.reserved_of(source)
                        &&& b1.free_of(dest) == b0.free_of(dest) + b0.free_of(source)
                        &&& b1.reserved_of(dest) == b0.reserved_of(dest)
                        &&& b1.total_issuance == b0.total_issuance
                        &&& b1.locks_of(source) == b0.locks_of(source)
                        &&& b1.locks_of(dest) == b0.locks_of(dest)
                        &&& b1.unchanged_except_two(b0, source, dest)
                    } by {
                        if j < k as int {
                            assert(self.tokens@[j] == mid.tokens@[j]);
                        }
                    }
                    assert forall|i: int|
                        0 <= i < self.tokens@.len() implies (#[trigger] self.tokens@[i]).book.wf()
                        && self.tokens@[i].id != self.config.native_id by {
                        if i != k as int {
                            assert(self.tokens@[i] == mid.tokens@[i]);
                        }
                    }
                    assert forall|p: int, q: int|
                        0 <= p < q < self.tokens@.len() implies self.tokens@[p].id
                        != self.tokens@[q].id by {
                        assert(self.tokens@[p].id == mid.tokens@[p].id);
                        assert(self.tokens@[q].id == mid.tokens@[q].id);
                    }
                }
            } else {
                proof {
                    assert(self.tokens@[k as int] == old(self).tokens@[k as int]);
                }
            }
            k = k + 1;
        }
        let ghost smid = *self;
        let nr = self.native.reserved_balance(source);
        let _gap = self.native.unreserve(source, nr);
        let nf = self.native.free_balance(source);
        let ghost nmid = self.native;
        let res = self.native.transfer(source, dest, nf);
        proof {
            let nid = old(self).config.native_id;
            assert(old(self).merge_leg_ok(nid, source));
            assert(res is Ok);
            let pre = *old(self);
            // the unreserve step leaves `dest`'s native view alone
            assert(nmid.free_of(dest) == pre.native.free_of(dest));
            assert(nmid.reserved_of(dest) == pre.native.reserved_of(dest));
            assert(nmid.locks_of(dest) == pre.native.locks_of(dest));
            // per-asset facts, assembled from the loop invariant and the
            // native book's composed unreserve and transfer
            assert forall|c: u64| #[trigger] self.free_of(c, source) == 0 by {
                self.lemma_merge_views(pre, smid, c, source, dest);
            }
            assert forall|c: u64| #[trigger] self.reserved_of(c, source) == 0 by {
                self.lemma_merge_views(pre, smid, c, source, dest);
                if c != nid {
                    assert(pre.merge_leg_ok(c, source));
                }
            }
            assert forall|c: u64| #[trigger] self.free_of(c, dest) == pre.free_of(c, dest)
                + pre.free_of(c, source) + (if c == nid {
                pre.reserved_of(c, source)
            } else {
                0
            }) by {
                self.lemma_merge_views(pre, smid, c, source, dest);
            }
            assert forall|c: u64| #[trigger] self.reserved_of(c, dest) == pre.reserved_of(
                c,
                dest,
            ) by {
                self.lemma_merge_views(pre, smid, c, source, dest);
            }
            assert forall|c: u64| #[trigger] self.issuance_of(c) == pre.issuance_of(c) by {
                self.lemma_merge_views(pre, smid, c, source, dest);
            }
            assert forall|c: u64, x: u64| #[trigger] self.locks_of(c, x) == pre.locks_of(c, x) by {
                self.lemma_merge_views(pre, smid, c, source, dest);
                if x != source && x != dest {
                    self.lemma_merge_frame(pre, smid, c, x, source, dest);
                }
            }
            assert forall|c: u64, x: u64|
                x != source && x != dest implies #[trigger] self.view_unchanged_at(pre, c, x) by {
                self.lemma_merge_frame(pre, smid, c, x, source, dest);
            }
            assert forall|c: u64| #[trigger] self.min_balance_of(c) == pre.min_balance_of(c) by {
                self.lemma_merge_views(pre, smid, c, source, dest);
            }
        }
        Ok(())
    }

    /// Relates the per-asset views after the native leg of a merge to the
    /// state before the merge, given the loop's summary `smid` of the token
    /// legs.
    proof fn lemma_merge_views(self, pre: Pallet, smid: Pallet, c: u64, source: u64, dest: u64)
        requires
            source != dest,
            pre.wf(),
            smid.wf(),
            self.wf(),
            smid.config == pre.config,
            self.config == pre.config,
            smid.native == pre.native,
            smid.tokens@.len() == pre.tokens@.len(),
            forall|j: int|
                0 <= j < smid.tokens@.len() ==> {
                    let b1 = (#[trigger] smid.tokens@[j]).book;
                    let b0 = pre.tokens@[j].book;
                    &&& smid.tokens@[j].id == pre.tokens@[j].id
                    &&& b1.min_balance == b0.min_balance
                    &&& b1.free_of(source) == 0
                    &&& b1.reserved_of(source) == b0.reserved_of(source)
                    &&& b1.free_of(dest) == b0.free_of(dest) + b0.free_of(source)
                    &&& b1.reserved_of(dest) == b0.reserved_of(dest)
                    &&& b1.total_issuance == b0.total_issuance
                    &&& b1.locks_of(source) == b0.locks_of(source)
                    &&& b1.locks_of(dest) == b0.locks_of(dest)
                },
            self.tokens@ == smid.tokens@,
            self.native.total_issuance == pre.native.total_issuance,
            self.native.min_balance == pre.native.min_balance,
            self.native.free_of(source) == 0,
            self.native.reserved_of(source) == 0,
            self.native.free_of(dest) == pre.native.free_of(dest) + pre.native.free_of(source)
                + pre.native.reserved_of(source),
            self.native.reserved_of(dest) == pre.native.reserved_of(dest),
            self.native.locks_of(source) == pre.native.locks_of(source),
            self.native.locks_of(dest) == pre.native.locks_of(dest),
        ensures
            self.free_of(c, source) == 0,
            c != pre.config.native_id ==> self.reserved_of(c, source) == pre.reserved_of(
                c,
                source,
            ),
            c == pre.config.native_id ==> self.reserved_of(c, source) == 0,
            self.free_of(c, dest) == pre.free_of(c, dest) + pre.free_of(c, source) + (if c
                == pre.config.native_id {
                pre.reserved_of(c, source)
            } else {
                0
            }),
            self.reserved_of(c, dest) == pre.reserved_of(c, dest),
            self.issuance_of(c) == pre.issuance_of(c),
            self.locks_of(c, source) == pre.locks_of(c, source),
            self.locks_of(c, dest) == pre.locks_of(c, dest),
            self.min_balance_of(c) == pre.min_balance_of(c),
    {
        let nid = pre.config.native_id;
        if c == nid {
        } else {
            if has_token_in(pre.tokens@, c) {
                let j = token_index_in(pre.tokens@, c);
                lemma_token_index(pre.tokens@, c, j);
                lemma_token_index(self.tokens@, c, j);
            } else {
                if has_token_in(self.tokens@, c) {
                    let j = token_index_in(self.tokens@, c);
                    assert(0 <= j < self.tokens@.len() && self.tokens@[j].id == c);
                    assert(pre.tokens@[j].id == c);
                    assert(has_token_in(pre.tokens@, c));
                }
            }
        }
    }

    /// Relates the views of untouched accounts after a merge to the state
    /// before it.
    proof fn lemma_merge_frame(
        self,
        pre: Pallet,
        smid: Pallet,
        c: u64,
        x: u64,
        source: u64,
        dest: u64,
    )
        requires
            source != dest,
            x != source,
            x != dest,
            pre.wf(),
            smid.wf(),
            self.wf(),
            smid.config == pre.config,
            self.config == pre.config,
            smid.native == pre.native,
            smid.tokens@.len() == pre.tokens@.len(),
            forall|j: int|
                0 <= j < smid.tokens@.len() ==> (#[trigger] smid.tokens@[j]).id
                    == pre.tokens@[j].id && smid.tokens@[j].book.unchanged_except_two(
                    pre.tokens@[j].book,
                    source,
                    dest,
                ),
            self.tokens@ == smid.tokens@,
            self.native.unchanged_except_two(pre.native, source, dest),
        ensures
            self.view_unchanged_at(pre, c, x),
    {
        let nid = pre.config.native_id;
        if c == nid {
            assert(self.native.free_of(x) == pre.native.free_of(x));
        } else {
            if has_token_in(pre.tokens@, c) {
                let j = token_index_in(pre.tokens@, c);
                lemma_token_index(pre.tokens@, c, j);
                lemma_token_index(self.tokens@, c, j);
                assert(self.tokens@[j].book.free_of(x) == pre.tokens@[j].book.free_of(x));
            } else {
                if has_token_in(self.tokens@, c) {
                    let j = token_index_in(self.tokens@, c);
                    assert(pre.tokens@[j].id == c);
                    assert(has_token_in(pre.tokens@, c));
                }
            }
        }
    }
}

/// Law (conservation of issuance): in every well-formed ledger state the
/// recorded total issuance of each asset equals the sum over all accounts
/// of free plus reserved balance under that asset.  Every state reachable
/// through `Pallet::new` and the verified operations is well-formed, so
/// the law holds in every reachable state.
pub proof fn lemma_conservation(p: Pallet, c: u64)
    requires
        p.wf(),
    ensures
        p.issuance_of(c) == p.balance_sum_of(c),
{
}

/// Splits a newly minted amount into the treasury's and the reserve
/// provider's shares per the configured ratios; the two always add up to
/// the whole amount.
fn split_distribution(cfg: &Config, amount: u64) -> (r: (u64, u64))
    requires
        cfg.valid(),
    ensures
        r.0 == cfg.settpay_share(amount),
        r.1 == cfg.serper_share(amount),
        r.0 + r.1 == amount,
{
    proof {
        vstd::arithmetic::mul::lemma_mul_inequality(
            cfg.settpay_ratio as int,
            cfg.base_unit as int,
            amount as int,
        );
        vstd::arithmetic::div_mod::lemma_div_is_ordered(
            amount as int * cfg.settpay_ratio as int,
            amount as int * cfg.base_unit as int,
            cfg.base_unit as int,
        );
        vstd::arithmetic::div_mod::lemma_div_multiples_vanish(amount as int, cfg.base_unit as int);
        vstd::arithmetic::div_mod::lemma_div_pos_is_pos(
            amount as int * cfg.settpay_ratio as int,
            cfg.base_unit as int,
        );
        vstd::arithmetic::mul::lemma_mul_nonnegative(amount as int, cfg.settpay_ratio as int);
        vstd::arithmetic::mul::lemma_mul_upper_bound(
            amount as int,
            u64::MAX as int,
            cfg.settpay_ratio as int,
            u64::MAX as int,
        );
    }
    let d = ((amount as u128) * (cfg.settpay_ratio as u128)) / (cfg.base_unit as u128);
    let settpay = d as u64;
    (settpay, amount - settpay)
}

/// A mutable borrow of one token book of the ledger.}

/// A mutable borrow of one token book of the ledger.
fn token_at(v: &mut Vec<TokenBook>, i: usize) -> (b: &mut TokenBook)
    requires
        i < old(v).len(),
    ensures
        *b == old(v)@[i as int],
        final(v)@ == old(v)@.update(i as int, *final(b)),
{
    &mut v[i]
}

} // verus!