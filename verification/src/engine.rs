//! The reducer: folds [`Transaction`] events into per-client [`Account`]
//! projections.
//!
//! Holds the accounts and a ledger of value events (deposits and withdrawals).
//! The ledger is both the dispute-lookup table and the dedup applied-set.
//! `apply` validates fully before mutating, so an account is never half-updated.

use std::collections::HashMap;

use vstd::prelude::*;
use vstd::std_specs::iter::IteratorSpec;

use crate::account::Account;
use crate::account::BalanceError;
use crate::account::Balances;
use crate::amount::Amount;
use crate::number::Number;
use crate::types::ClientId;
use crate::types::Event;
use crate::types::Transaction;
use crate::types::TxId;
use crate::types::ValueKind;

verus! {

broadcast use vstd::std_specs::hash::group_hash_axioms;

/// Why a well-formed event was declined. These are *no-ops*, not errors: the
/// input was valid but the rules don't act on it. Structured (rather than a
/// string) so callers and tests can match on the specific reason.
#[derive(Debug, Clone, Copy, PartialEq, Eq, Structural)]
pub enum RejectReason {
    /// Deposit/withdrawal amount was zero or negative.
    NonPositiveAmount,
    /// A value event reused an already-seen tx id.
    DuplicateTx,
    /// The account is frozen by a prior chargeback.
    AccountLocked,
    /// A withdrawal exceeded available funds, or a resolve or chargeback held ones.
    InsufficientFunds,
    /// The operation would take a balance or the total out of the decimal range.
    Overflow,
    /// The referenced tx id is not in the ledger.
    UnknownTx,
    /// The referenced tx exists but belongs to a different client.
    ClientMismatch,
    /// The referenced tx is not a deposit (only deposits are disputable).
    NotDisputable,
    /// A resolve/chargeback referenced a tx that is not under dispute.
    NotDisputed,
    /// A dispute referenced a tx that is already under dispute.
    AlreadyDisputed,
    /// Defensive only: a ledger entry without a matching account. Every recorded
    /// tx first creates its account, so an engine never gets here.
    UnknownAccount,
}

impl RejectReason {
    /// The reason in words.
    pub open spec fn words(self) -> Seq<char> {
        match self {
            RejectReason::NonPositiveAmount => "amount is not positive"@,
            RejectReason::DuplicateTx => "duplicate tx id"@,
            RejectReason::AccountLocked => "account is locked"@,
            RejectReason::InsufficientFunds => "insufficient funds"@,
            RejectReason::Overflow => "arithmetic overflow"@,
            RejectReason::UnknownTx => "references unknown tx"@,
            RejectReason::ClientMismatch => "client mismatch"@,
            RejectReason::NotDisputable => "tx is not disputable (not a deposit)"@,
            RejectReason::NotDisputed => "tx is not under dispute"@,
            RejectReason::AlreadyDisputed => "tx already disputed"@,
            RejectReason::UnknownAccount => "references unknown account"@,
        }
    }

    /// The reason in words, for people to read.
    pub fn to_text(&self) -> (r: &'static str)
        ensures
            r@ == self.words(),
    {
        match self {
            RejectReason::NonPositiveAmount => "amount is not positive",
            RejectReason::DuplicateTx => "duplicate tx id",
            RejectReason::AccountLocked => "account is locked",
            RejectReason::InsufficientFunds => "insufficient funds",
            RejectReason::Overflow => "arithmetic overflow",
            RejectReason::UnknownTx => "references unknown tx",
            RejectReason::ClientMismatch => "client mismatch",
            RejectReason::NotDisputable => "tx is not disputable (not a deposit)",
            RejectReason::NotDisputed => "tx is not under dispute",
            RejectReason::AlreadyDisputed => "tx already disputed",
            RejectReason::UnknownAccount => "references unknown account",
        }
    }
}

impl From<BalanceError> for RejectReason {
    fn from(e: BalanceError) -> (r: RejectReason) {
        match e {
            BalanceError::InsufficientFunds => RejectReason::InsufficientFunds,
            BalanceError::Overflow => RejectReason::Overflow,
        }
    }
}

impl vstd::std_specs::convert::FromSpecImpl<BalanceError> for RejectReason {
    open spec fn obeys_from_spec() -> bool {
        true
    }

    open spec fn from_spec(e: BalanceError) -> RejectReason {
        match e {
            BalanceError::InsufficientFunds => RejectReason::InsufficientFunds,
            BalanceError::Overflow => RejectReason::Overflow,
        }
    }
}

/// What happened when an event was applied.
#[derive(Debug, PartialEq, Eq, Structural)]
pub enum Outcome {
    /// State changed.
    Applied,
    /// Well-formed input the rules declined (a no-op); carries the reason.
    Rejected(RejectReason),
}

/// The outcome of an event whose balance operation failed.
pub open spec fn declined(error: BalanceError) -> Outcome {
    match error {
        BalanceError::InsufficientFunds => Outcome::Rejected(RejectReason::InsufficientFunds),
        BalanceError::Overflow => Outcome::Rejected(RejectReason::Overflow),
    }
}

/// A retained value event: its owner, amount, kind, and dispute state.
#[derive(Clone, Copy)]
struct LedgerEntry {
    client: ClientId,
    amount: Amount,
    kind: ValueKind,
    disputed: bool,
}

/// What a ledger entry says, with its amount as a mathematical number.
pub struct Entry {
    pub client: ClientId,
    pub amount: Number,
    pub kind: ValueKind,
    pub disputed: bool,
}

impl View for LedgerEntry {
    type V = Entry;

    closed spec fn view(&self) -> Entry {
        Entry {
            client: self.client,
            amount: self.amount@,
            kind: self.kind,
            disputed: self.disputed,
        }
    }
}

/// The state of the engine: the balances of each client, and each value event
/// that was applied, under the number of its transaction.
#[verifier::ext_equal]
pub struct State {
    pub accounts: Map<u16, Balances>,
    pub ledger: Map<u32, Entry>,
}

impl State {
    /// No accounts, and nothing recorded.
    pub open spec fn initial() -> State {
        State { accounts: Map::empty(), ledger: Map::empty() }
    }

    /// The client's balances; those of a new account where it has none yet.
    pub open spec fn balances(self, client: ClientId) -> Balances {
        if self.accounts.contains_key(client.0) {
            self.accounts[client.0]
        } else {
            Balances::empty()
        }
    }

    /// The state with the client's account set to these balances.
    pub open spec fn with_balances(self, client: ClientId, balances: Balances) -> State {
        State { accounts: self.accounts.insert(client.0, balances), ..self }
    }

    /// The state with a ledger entry set.
    pub open spec fn with_entry(self, tx: TxId, entry: Entry) -> State {
        State { ledger: self.ledger.insert(tx.0, entry), ..self }
    }

    /// What becomes of a deposit or withdrawal, given what it would do to the
    /// balances. It opens an account for a client that has none, even if the
    /// funds then don't suffice.
    pub open spec fn value_event(
        self,
        client: ClientId,
        tx: TxId,
        amount: Number,
        kind: ValueKind,
        effect: Result<Balances, BalanceError>,
    ) -> (State, Outcome) {
        let opened = self.with_balances(client, self.balances(client));
        if amount.value() <= 0 {
            (self, Outcome::Rejected(RejectReason::NonPositiveAmount))
        } else if self.ledger.contains_key(tx.0) {
            (self, Outcome::Rejected(RejectReason::DuplicateTx))
        } else if self.balances(client).locked {
            (opened, Outcome::Rejected(RejectReason::AccountLocked))
        } else {
            match effect {
                Err(error) => (opened, declined(error)),
                Ok(balances) => (
                    self.with_balances(client, balances).with_entry(
                        tx,
                        Entry { client, amount, kind, disputed: false },
                    ),
                    Outcome::Applied,
                ),
            }
        }
    }

    /// Why an event that refers to a recorded transaction is declined before its
    /// balance operation is tried; `None` where it is not. A dispute refers to a
    /// deposit that is not under dispute, a resolve and a chargeback to one that
    /// is.
    pub open spec fn objection(self, client: ClientId, tx: TxId, to_dispute: bool) -> Option<
        RejectReason,
    > {
        if !self.ledger.contains_key(tx.0) {
            Some(RejectReason::UnknownTx)
        } else if self.ledger[tx.0].client != client {
            Some(RejectReason::ClientMismatch)
        } else if to_dispute && self.ledger[tx.0].kind != ValueKind::Deposit {
            Some(RejectReason::NotDisputable)
        } else if to_dispute && self.ledger[tx.0].disputed {
            Some(RejectReason::AlreadyDisputed)
        } else if !to_dispute && !self.ledger[tx.0].disputed {
            Some(RejectReason::NotDisputed)
        } else if !self.accounts.contains_key(client.0) {
            Some(RejectReason::UnknownAccount)
        } else if self.accounts[client.0].locked {
            Some(RejectReason::AccountLocked)
        } else {
            None
        }
    }

    /// What becomes of an event that refers to a recorded transaction, given what
    /// it would do to the balances.
    pub open spec fn lifecycle_event(
        self,
        client: ClientId,
        tx: TxId,
        to_dispute: bool,
        effect: Result<Balances, BalanceError>,
    ) -> (State, Outcome) {
        match self.objection(client, tx, to_dispute) {
            Some(reason) => (self, Outcome::Rejected(reason)),
            None => match effect {
                Err(error) => (self, declined(error)),
                Ok(balances) => (
                    self.with_balances(client, balances).with_entry(
                        tx,
                        Entry { disputed: to_dispute, ..self.ledger[tx.0] },
                    ),
                    Outcome::Applied,
                ),
            },
        }
    }

    /// What becomes of an event: the state after it, and its outcome.
    pub open spec fn step(self, event: Event) -> (State, Outcome) {
        match event {
            Event::Deposit { client, tx, amount } => self.value_event(
                client,
                tx,
                amount,
                ValueKind::Deposit,
                self.balances(client).credited(amount),
            ),
            Event::Withdrawal { client, tx, amount } => self.value_event(
                client,
                tx,
                amount,
                ValueKind::Withdrawal,
                self.balances(client).debited(amount),
            ),
            Event::Dispute { client, tx } => self.lifecycle_event(
                client,
                tx,
                true,
                self.balances(client).holding(self.ledger[tx.0].amount),
            ),
            Event::Resolve { client, tx } => self.lifecycle_event(
                client,
                tx,
                false,
                self.balances(client).released(self.ledger[tx.0].amount),
            ),
            Event::Chargeback { client, tx } => self.lifecycle_event(
                client,
                tx,
                false,
                self.balances(client).charged_back(self.ledger[tx.0].amount),
            ),
        }
    }
}

/// Whether a listing holds every account once, and nothing else.
pub open spec fn lists_accounts(
    listing: Seq<(ClientId, &Account)>,
    accounts: Map<u16, Balances>,
) -> bool {
    &&& forall|i: int|
        0 <= i < listing.len() ==> accounts.contains_pair(
            (#[trigger] listing[i]).0.0,
            listing[i].1@,
        )
    &&& forall|i: int, j: int|
        0 <= i < j < listing.len() ==> (#[trigger] listing[i]).0 != (#[trigger] listing[j]).0
    &&& forall|client: u16| #[trigger]
        accounts.contains_key(client) ==> exists|i: int|
            0 <= i < listing.len() && (#[trigger] listing[i]).0 == ClientId(client)
}

/// The payments engine. Build with [`Engine::new`], feed events with
/// [`Engine::apply`], then read results with [`Engine::accounts`].
pub struct Engine {
    accounts: HashMap<u16, Account>,
    ledger: HashMap<u32, LedgerEntry>,
}

impl View for Engine {
    type V = State;

    closed spec fn view(&self) -> State {
        State {
            accounts: self.accounts@.map_values(|account: Account| account@),
            ledger: self.ledger@.map_values(|entry: LedgerEntry| entry@),
        }
    }
}

impl Default for Engine {
    fn default() -> (r: Engine)
        ensures
            r@ == State::initial(),
    {
        Engine::new()
    }
}

impl Engine {
    pub fn new() -> (r: Engine)
        ensures
            r@ == State::initial(),
    {
        let r = Engine { accounts: HashMap::new(), ledger: HashMap::new() };
        assert(r@ =~= State::initial());
        r
    }

    /// The resulting accounts as `(client, account)` pairs. Order is unspecified.
    pub fn accounts(&self) -> (r: Vec<(ClientId, &Account)>)
        ensures
            lists_accounts(r@, self@.accounts),
    {
        let mut listing: Vec<(ClientId, &Account)> = Vec::new();
        let iter = self.accounts.iter();
        let ghost all = iter.remaining();
        for (client, account) in pairs: iter
            invariant
                pairs.seq() == all,
                listing@.len() == pairs.index(),
                forall|i: int|
                    0 <= i < pairs.index() ==> (#[trigger] listing@[i]).0.0 == *all[i].0
                        && listing@[i].1 == all[i].1,
        {
            listing.push((ClientId(*client), account));
        }
        proof {
            let map = self.accounts@;
            assert forall|i: int| 0 <= i < listing@.len() implies self@.accounts.contains_pair(
                (#[trigger] listing@[i]).0.0,
                listing@[i].1@,
            ) by {
                assert(map.contains_key(*all[i].0));
            }
            assert forall|i: int, j: int| 0 <= i < j < listing@.len() implies (
            #[trigger] listing@[i]).0 != (#[trigger] listing@[j]).0 by {
                assert(map.contains_key(*all[i].0) && map.contains_key(*all[j].0));
                assert(all[i] != all[j]);
            }
            assert forall|client: u16| #[trigger] self@.accounts.contains_key(client) implies exists|
                i: int,
            |
                0 <= i < listing@.len() && (#[trigger] listing@[i]).0 == ClientId(client) by {
                assert(map.contains_key(client));
                let i = all.index_of((&client, &map[client]));
                assert(all[i] == (&client, &map[client]));
                assert(listing@[i].0 == ClientId(client));
            }
        }
        listing
    }

    /// Apply one event to the projection.
    pub fn apply(&mut self, event: Transaction) -> (r: Outcome)
        ensures
            (final(self)@, r) == old(self)@.step(event@),
    {
        match event {
            Transaction::Deposit { client, tx, amount } => self.deposit(client, tx, amount),
            Transaction::Withdrawal { client, tx, amount } => self.withdrawal(client, tx, amount),
            Transaction::Dispute { client, tx } => self.dispute(client, tx),
            Transaction::Resolve { client, tx } => self.resolve(client, tx),
            Transaction::Chargeback { client, tx } => self.chargeback(client, tx),
        }
    }

    /// The client's account; a new one where it has none yet.
    fn account_or_default(&self, client: ClientId) -> (r: Account)
        ensures
            r@ == self@.balances(client),
    {
        match self.accounts.get(&client.0) {
            Some(account) => *account,
            None => Account::default(),
        }
    }

    fn deposit(&mut self, client: ClientId, tx: TxId, amount: Amount) -> (r: Outcome)
        ensures
            (final(self)@, r) == old(self)@.step(Event::Deposit { client, tx, amount: amount@ }),
    {
        if !Amount::zero().less_than(amount) {
            return Outcome::Rejected(RejectReason::NonPositiveAmount);
        }
        if self.ledger.contains_key(&tx.0) {
            return Outcome::Rejected(RejectReason::DuplicateTx);
        }
        let mut account = self.account_or_default(client);
        self.set_account(client, account);
        if account.is_locked() {
            return Outcome::Rejected(RejectReason::AccountLocked);
        }
        if let Err(e) = account.credit(amount) {
            return Outcome::Rejected(RejectReason::from(e));
        }
        self.set_account(client, account);
        self.record(client, tx, amount, ValueKind::Deposit);
        Outcome::Applied
    }

    fn withdrawal(&mut self, client: ClientId, tx: TxId, amount: Amount) -> (r: Outcome)
        ensures
            (final(self)@, r) == old(self)@.step(Event::Withdrawal { client, tx, amount: amount@ }),
    {
        if !Amount::zero().less_than(amount) {
            return Outcome::Rejected(RejectReason::NonPositiveAmount);
        }
        if self.ledger.contains_key(&tx.0) {
            return Outcome::Rejected(RejectReason::DuplicateTx);
        }
        // A reference to a new client creates a zero record; the withdrawal then
        // fails for want of funds.
        let mut account = self.account_or_default(client);
        self.set_account(client, account);
        if account.is_locked() {
            return Outcome::Rejected(RejectReason::AccountLocked);
        }
        if let Err(e) = account.debit(amount) {
            return Outcome::Rejected(RejectReason::from(e));
        }
        self.set_account(client, account);
        self.record(client, tx, amount, ValueKind::Withdrawal);
        Outcome::Applied
    }

    fn dispute(&mut self, client: ClientId, tx: TxId) -> (r: Outcome)
        ensures
            (final(self)@, r) == old(self)@.step(Event::Dispute { client, tx }),
    {
        let entry = match self.ledger.get(&tx.0) {
            Some(entry) => *entry,
            None => {
                return Outcome::Rejected(RejectReason::UnknownTx);
            },
        };
        if entry.client != client {
            return Outcome::Rejected(RejectReason::ClientMismatch);
        }
        if entry.kind != ValueKind::Deposit {
            return Outcome::Rejected(RejectReason::NotDisputable);
        }
        if entry.disputed {
            return Outcome::Rejected(RejectReason::AlreadyDisputed);
        }
        let mut account = match self.accounts.get(&client.0) {
            Some(account) => *account,
            None => {
                return Outcome::Rejected(RejectReason::UnknownAccount);
            },
        };
        if account.is_locked() {
            return Outcome::Rejected(RejectReason::AccountLocked);
        }
        if let Err(e) = account.hold(entry.amount) {
            return Outcome::Rejected(RejectReason::from(e));
        }
        self.set_account(client, account);
        self.set_disputed(tx, entry, true);
        Outcome::Applied
    }

    fn resolve(&mut self, client: ClientId, tx: TxId) -> (r: Outcome)
        ensures
            (final(self)@, r) == old(self)@.step(Event::Resolve { client, tx }),
    {
        let entry = match self.ledger.get(&tx.0) {
            Some(entry) => *entry,
            None => {
                return Outcome::Rejected(RejectReason::UnknownTx);
            },
        };
        if entry.client != client {
            return Outcome::Rejected(RejectReason::ClientMismatch);
        }
        if !entry.disputed {
            return Outcome::Rejected(RejectReason::NotDisputed);
        }
        let mut account = match self.accounts.get(&client.0) {
            Some(account) => *account,
            None => {
                return Outcome::Rejected(RejectReason::UnknownAccount);
            },
        };
        if account.is_locked() {
            return Outcome::Rejected(RejectReason::AccountLocked);
        }
        if let Err(e) = account.release(entry.amount) {
            return Outcome::Rejected(RejectReason::from(e));
        }
        self.set_account(client, account);
        self.set_disputed(tx, entry, false);
        Outcome::Applied
    }

    fn chargeback(&mut self, client: ClientId, tx: TxId) -> (r: Outcome)
        ensures
            (final(self)@, r) == old(self)@.step(Event::Chargeback { client, tx }),
    {
        let entry = match self.ledger.get(&tx.0) {
            Some(entry) => *entry,
            None => {
                return Outcome::Rejected(RejectReason::UnknownTx);
            },
        };
        if entry.client != client {
            return Outcome::Rejected(RejectReason::ClientMismatch);
        }
        if !entry.disputed {
            return Outcome::Rejected(RejectReason::NotDisputed);
        }
        let mut account = match self.accounts.get(&client.0) {
            Some(account) => *account,
            None => {
                return Outcome::Rejected(RejectReason::UnknownAccount);
            },
        };
        if account.is_locked() {
            return Outcome::Rejected(RejectReason::AccountLocked);
        }
        if let Err(e) = account.chargeback(entry.amount) {
            return Outcome::Rejected(RejectReason::from(e));
        }
        self.set_account(client, account);
        self.set_disputed(tx, entry, false);
        Outcome::Applied
    }

    /// Record a value event in the ledger.
    fn record(&mut self, client: ClientId, tx: TxId, amount: Amount, kind: ValueKind)
        ensures
            final(self)@ == old(self)@.with_entry(
                tx,
                Entry { client, amount: amount@, kind, disputed: false },
            ),
    {
        self.ledger.insert(tx.0, LedgerEntry { client, amount, kind, disputed: false });
        assert(self@ =~= old(self)@.with_entry(
            tx,
            Entry { client, amount: amount@, kind, disputed: false },
        ));
    }

    /// Put a ledger entry back with its dispute state set.
    fn set_disputed(&mut self, tx: TxId, entry: LedgerEntry, disputed: bool)
        ensures
            final(self)@ == old(self)@.with_entry(tx, Entry { disputed, ..entry@ }),
    {
        self.ledger.insert(tx.0, LedgerEntry { disputed, ..entry });
        assert(self@ =~= old(self)@.with_entry(tx, Entry { disputed, ..entry@ }));
    }

    /// Put a client's account in place.
    fn set_account(&mut self, client: ClientId, account: Account)
        ensures
            final(self)@ == old(self)@.with_balances(client, account@),
    {
        self.accounts.insert(client.0, account);
        assert(self@ =~= old(self)@.with_balances(client, account@));
    }
}

} // verus!
