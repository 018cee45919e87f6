//! Plain books: the rules once more, in the simplest terms there are. Balances are
//! unbounded whole numbers, nothing is rounded and nothing overflows. An engine that
//! is fed amounts of ordinary size keeps exactly these books.

use vstd::prelude::*;

use crate::account::Balances;
use crate::conservation::exact_limit;
use crate::conservation::four_places;
use crate::conservation::law_nothing_is_rounded_within_the_limit;
use crate::conservation::law_nothing_overflows_within_the_limit;
use crate::conservation::law_small_amounts_stay_within_the_limit;
use crate::conservation::lemma_one_deposit_more_stays_within;
use crate::conservation::small_amounts;
use crate::engine::Entry;
use crate::engine::Outcome;
use crate::engine::RejectReason;
use crate::engine::State;
use crate::laws::all_fit;
use crate::laws::law_every_state_is_sound;
use crate::number::Number;
use crate::number::lemma_negated_value;
use crate::number::lemma_value_sign;
use crate::types::ClientId;
use crate::types::Event;
use crate::types::ValueKind;

verus! {

/// An account in plain books.
pub struct PlainAccount {
    pub available: int,
    pub held: int,
    pub locked: bool,
}

/// A record in plain books.
pub struct PlainEntry {
    pub client: ClientId,
    pub amount: int,
    pub is_deposit: bool,
    pub disputed: bool,
}

/// Plain books: the accounts of clients, and the deposits and withdrawals made.
#[verifier::ext_equal]
pub struct Books {
    pub accounts: Map<u16, PlainAccount>,
    pub ledger: Map<u32, PlainEntry>,
}

impl Books {
    /// Books with nothing in them.
    pub open spec fn empty() -> Books {
        Books { accounts: Map::empty(), ledger: Map::empty() }
    }

    /// The client's account; a new one where it has none.
    pub open spec fn account(self, client: ClientId) -> PlainAccount {
        if self.accounts.contains_key(client.0) {
            self.accounts[client.0]
        } else {
            PlainAccount { available: 0, held: 0, locked: false }
        }
    }

    /// The books with an account put in place.
    pub open spec fn with_account(self, client: ClientId, account: PlainAccount) -> Books {
        Books { accounts: self.accounts.insert(client.0, account), ..self }
    }

    /// The books with a record put in place.
    pub open spec fn with_record(self, tx: u32, entry: PlainEntry) -> Books {
        Books { ledger: self.ledger.insert(tx, entry), ..self }
    }

    /// The books after one event.
    pub open spec fn step(self, event: Event) -> Books {
        let client = event.client();
        let tx = event.tx().0;
        let account = self.account(client);
        let entry = self.ledger[tx];
        match event {
            Event::Deposit { .. } => {
                let amount = event.amount().value();
                if amount <= 0 || self.ledger.contains_key(tx) {
                    self
                } else if account.locked {
                    self.with_account(client, account)
                } else {
                    self.with_account(
                        client,
                        PlainAccount { available: account.available + amount, ..account },
                    ).with_record(
                        tx,
                        PlainEntry { client, amount, is_deposit: true, disputed: false },
                    )
                }
            },
            Event::Withdrawal { .. } => {
                let amount = event.amount().value();
                if amount <= 0 || self.ledger.contains_key(tx) {
                    self
                } else if account.locked || account.available < amount {
                    self.with_account(client, account)
                } else {
                    self.with_account(
                        client,
                        PlainAccount { available: account.available - amount, ..account },
                    ).with_record(
                        tx,
                        PlainEntry { client, amount, is_deposit: false, disputed: false },
                    )
                }
            },
            Event::Dispute { .. } => if !self.ledger.contains_key(tx) || entry.client != client
                || !entry.is_deposit || entry.disputed || !self.accounts.contains_key(client.0)
                || account.locked {
                self
            } else {
                self.with_account(
                    client,
                    PlainAccount {
                        available: account.available - entry.amount,
                        held: account.held + entry.amount,
                        ..account
                    },
                ).with_record(tx, PlainEntry { disputed: true, ..entry })
            },
            Event::Resolve { .. } => if !self.ledger.contains_key(tx) || entry.client != client
                || !entry.disputed || !self.accounts.contains_key(client.0) || account.locked {
                self
            } else {
                self.with_account(
                    client,
                    PlainAccount {
                        available: account.available + entry.amount,
                        held: account.held - entry.amount,
                        ..account
                    },
                ).with_record(tx, PlainEntry { disputed: false, ..entry })
            },
            Event::Chargeback { .. } => if !self.ledger.contains_key(tx) || entry.client != client
                || !entry.disputed || !self.accounts.contains_key(client.0) || account.locked {
                self
            } else {
                self.with_account(
                    client,
                    PlainAccount { held: account.held - entry.amount, locked: true, ..account },
                ).with_record(tx, PlainEntry { disputed: false, ..entry })
            },
        }
    }

    /// The books after a sequence of events.
    pub open spec fn replay(self, events: Seq<Event>) -> Books
        decreases events.len(),
    {
        if events.len() == 0 {
            self
        } else {
            self.replay(events.drop_last()).step(events.last())
        }
    }
}

impl Balances {
    /// The account that plain books have for these balances.
    pub open spec fn plain(self) -> PlainAccount {
        PlainAccount {
            available: self.available.value(),
            held: self.held.value(),
            locked: self.locked,
        }
    }
}

impl Entry {
    /// The record that plain books have for this one.
    pub open spec fn plain(self) -> PlainEntry {
        PlainEntry {
            client: self.client,
            amount: self.amount.value(),
            is_deposit: self.kind == ValueKind::Deposit,
            disputed: self.disputed,
        }
    }
}

impl State {
    /// The plain books that say the same as this state.
    pub open spec fn plain(self) -> Books {
        Books {
            accounts: self.accounts.map_values(|balances: Balances| balances.plain()),
            ledger: self.ledger.map_values(|entry: Entry| entry.plain()),
        }
    }
}

/// An event that is neither rounded nor declined for want of range or held funds
/// does to the state what it does to plain books.
pub proof fn law_an_event_keeps_plain_books(state: State, event: Event)
    requires
        state.step(event).1 is Applied ==> state.exact(event),
        state.step(event).1 != Outcome::Rejected(RejectReason::Overflow),
        !event.is_value() ==> state.step(event).1 != Outcome::Rejected(
            RejectReason::InsufficientFunds,
        ),
    ensures
        state.step(event).0.plain() == state.plain().step(event),
{
    let after = state.step(event).0;
    let books = state.plain().step(event);
    lemma_value_sign(Number::zero());
    lemma_negated_value(state.amount_of(event));
    assert(state.plain().account(event.client()) == state.balances(event.client()).plain());
    assert(after.plain().accounts =~= books.accounts);
    assert(after.plain().ledger =~= books.ledger);
}

/// An engine keeps plain books: after any sequence of events with amounts of at most
/// four decimal places and a quadrillion each, the accounts are those of the plain
/// books, with the same clients, the same available and held funds, and frozen
/// alike.
pub proof fn law_engine_keeps_plain_books(events: Seq<Event>)
    requires
        all_fit(events),
        four_places(events),
        small_amounts(events),
    ensures
        State::initial().replay(events).plain() == Books::empty().replay(events),
    decreases events.len(),
{
    if events.len() == 0 {
        assert(State::initial().plain() =~= Books::empty());
    } else {
        let earlier = events.drop_last();
        let event = events.last();
        let before = State::initial().replay(earlier);
        assert(earlier.push(event) =~= events);
        assert(event == events[events.len() - 1]);
        law_engine_keeps_plain_books(earlier);
        law_small_amounts_stay_within_the_limit(earlier);
        law_small_amounts_stay_within_the_limit(events);
        law_every_state_is_sound(earlier);
        law_nothing_is_rounded_within_the_limit(events);
        if event is Deposit && !before.ledger.contains_key(event.tx().0) && event.amount().value()
            > 0 {
            lemma_one_deposit_more_stays_within(earlier, event);
        }
        if before.deposited(event.client()) + event.amount().value() <= exact_limit()
            || !(event is Deposit) {
            law_nothing_overflows_within_the_limit(earlier, event);
        }
        law_an_event_keeps_plain_books(before, event);
    }
}

} // verus!
