//! What holds of the engine as a whole: properties of every event, and of every
//! sequence of events, over the states that [`crate::engine::Engine::apply`] and
//! [`crate::processing::run`] are specified by.

use vstd::prelude::*;

use crate::account::Account;
use crate::account::BalanceError;
use crate::account::Balances;
use crate::account::became;
use crate::engine::Entry;
use crate::engine::Outcome;
use crate::engine::RejectReason;
use crate::engine::State;
use crate::engine::lists_accounts;
use crate::number::Number;
use crate::number::lemma_negated_value;
use crate::number::lemma_plus_fits;
use crate::number::lemma_sum_keeps_sign;
use crate::number::lemma_value_sign;
use crate::processing::Stats;
use crate::types::ClientId;
use crate::types::Event;
use crate::types::TxId;
use crate::types::ValueKind;

verus! {

/// An event that arrives twice in a row takes effect at most once: the second
/// time it is rejected, and nothing changes.
pub proof fn law_immediate_replay_is_a_no_op(state: State, event: Event)
    ensures
        ({
            let after = state.step(event).0;
            after.step(event).0 == after && after.step(event).1 is Rejected
        }),
{
    let after = state.step(event).0;
    assert(after.step(event).0 =~= after);
}

/// What is recorded stays recorded, with its client, amount and kind; only its
/// dispute state changes.
pub proof fn law_records_are_kept(state: State, event: Event, tx: TxId)
    requires
        state.ledger.contains_key(tx.0),
    ensures
        ({
            let after = state.step(event).0;
            &&& after.ledger.contains_key(tx.0)
            &&& after.ledger[tx.0] == Entry {
                disputed: after.ledger[tx.0].disputed,
                ..state.ledger[tx.0]
            }
        }),
{
}

/// What is recorded stays recorded through any sequence of events.
proof fn lemma_recorded_for_good(state: State, events: Seq<Event>, tx: TxId)
    requires
        state.ledger.contains_key(tx.0),
    ensures
        state.replay(events).ledger.contains_key(tx.0),
    decreases events.len(),
{
    if events.len() > 0 {
        lemma_recorded_for_good(state, events.drop_last(), tx);
        law_records_are_kept(state.replay(events.drop_last()), events.last(), tx);
    }
}

/// A deposit or withdrawal is applied at most once: after it, whatever happens in
/// between, another one with the same transaction id is rejected and changes
/// nothing.
pub proof fn law_value_event_applies_at_most_once(
    state: State,
    event: Event,
    between: Seq<Event>,
    again: Event,
)
    requires
        event.is_value(),
        again.is_value(),
        again.tx() == event.tx(),
        state.step(event).1 is Applied,
    ensures
        ({
            let now = state.step(event).0.replay(between);
            now.step(again).0 == now && now.step(again).1 is Rejected
        }),
{
    lemma_recorded_for_good(state.step(event).0, between, event.tx());
}

/// A rejected event changes no balance and no record. At most it opens an empty
/// account, for a client that had none.
pub proof fn law_rejected_event_changes_nothing(state: State, event: Event)
    requires
        state.step(event).1 is Rejected,
    ensures
        state.step(event).0.ledger == state.ledger,
        forall|client: ClientId|
            #![trigger state.step(event).0.balances(client)]
            state.step(event).0.balances(client) == state.balances(client),
        state.step(event).0 == state || (event.is_value() && state.step(event).0
            == state.with_balances(event.client(), state.balances(event.client()))),
{
    let opened = state.with_balances(event.client(), state.balances(event.client()));
    assert(opened.ledger =~= state.ledger);
}

/// An applied event changes the state.
pub proof fn law_applied_event_changes_the_state(state: State, event: Event)
    requires
        state.step(event).1 is Applied,
    ensures
        state.step(event).0 != state,
{
    let after = state.step(event).0;
    let tx = event.tx().0;
    if event.is_value() {
        assert(!state.ledger.contains_key(tx) && after.ledger.contains_key(tx));
    } else {
        assert(after.ledger[tx].disputed != state.ledger[tx].disputed);
    }
}

/// A frozen account rejects every event of its client, and nothing changes.
pub proof fn law_frozen_account_rejects_every_event(state: State, event: Event)
    requires
        state.balances(event.client()).locked,
    ensures
        state.step(event).1 is Rejected,
        state.step(event).0 == state,
{
    assert(state.step(event).0 =~= state);
}

/// An event of one client leaves every other client's account and records as they
/// are.
pub proof fn law_clients_are_isolated(state: State, event: Event, other: ClientId)
    requires
        other != event.client(),
    ensures
        ({
            let after = state.step(event).0;
            &&& after.accounts.contains_key(other.0) == state.accounts.contains_key(other.0)
            &&& after.balances(other) == state.balances(other)
            &&& forall|tx: u32| #[trigger]
                state.ledger.contains_key(tx) && state.ledger[tx].client == other
                    ==> after.ledger.contains_key(tx) && after.ledger[tx] == state.ledger[tx]
            &&& forall|tx: u32| #[trigger]
                after.ledger.contains_key(tx) && after.ledger[tx].client == other
                    ==> state.ledger.contains_key(tx) && after.ledger[tx] == state.ledger[tx]
        }),
{
}

/// A freeze is final: through any sequence of events a frozen account keeps its
/// balances and stays frozen, and its records stay as they are.
pub proof fn law_freeze_is_final(state: State, client: ClientId, events: Seq<Event>)
    requires
        state.balances(client).locked,
    ensures
        state.replay(events).balances(client) == state.balances(client),
        forall|tx: u32| #[trigger]
            state.ledger.contains_key(tx) && state.ledger[tx].client == client
                ==> state.replay(events).ledger.contains_key(tx)
                && state.replay(events).ledger[tx] == state.ledger[tx],
    decreases events.len(),
{
    if events.len() > 0 {
        let before = state.replay(events.drop_last());
        law_freeze_is_final(state, client, events.drop_last());
        if events.last().client() == client {
            law_frozen_account_rejects_every_event(before, events.last());
        } else {
            law_clients_are_isolated(before, events.last(), client);
        }
    }
}

/// A dispute takes effect only on a recorded deposit of the same client that is
/// not under dispute; a resolve and a chargeback only on one that is.
pub proof fn law_disputes_follow_the_state_machine(state: State, event: Event)
    requires
        !event.is_value(),
        state.step(event).1 is Applied,
    ensures
        ({
            let tx = event.tx().0;
            let after = state.step(event).0;
            &&& state.ledger.contains_key(tx)
            &&& state.ledger[tx].client == event.client()
            &&& event is Dispute ==> state.ledger[tx].kind == ValueKind::Deposit
            &&& state.ledger[tx].disputed == !(event is Dispute)
            &&& after.ledger[tx].disputed == (event is Dispute)
        }),
{
}

/// A chargeback that takes effect freezes the account; nothing else does.
pub proof fn law_only_a_chargeback_freezes(state: State, event: Event, client: ClientId)
    requires
        !state.balances(client).locked,
    ensures
        state.step(event).0.balances(client).locked <==> event is Chargeback && event.client()
            == client && state.step(event).1 is Applied,
{
}

impl State {
    /// What every state of an engine meets: accounts uphold their invariants (held
    /// funds are never negative, and the total is in range), recorded amounts are
    /// positive decimals and belong to a client that has an account, and only
    /// deposits are under dispute.
    pub open spec fn sound(self) -> bool {
        &&& forall|client: u16| #[trigger]
            self.accounts.contains_key(client) ==> self.accounts[client].valid()
        &&& forall|tx: u32| #[trigger]
            self.ledger.contains_key(tx) ==> {
                &&& self.ledger[tx].amount.fits()
                &&& self.ledger[tx].amount.value() > 0
                &&& self.accounts.contains_key(self.ledger[tx].client.0)
                &&& self.ledger[tx].disputed ==> self.ledger[tx].kind == ValueKind::Deposit
            }
    }
}

/// Whether the amounts of all events are ones that a decimal can carry.
pub open spec fn all_fit(events: Seq<Event>) -> bool {
    forall|i: int| 0 <= i < events.len() ==> (#[trigger] events[i]).fits()
}

/// A sound state stays sound.
pub proof fn law_an_event_keeps_the_state_sound(state: State, event: Event)
    requires
        state.sound(),
        event.fits(),
    ensures
        state.step(event).0.sound(),
{
    let balances = state.balances(event.client());
    let amount = if event.is_value() {
        event.amount()
    } else {
        state.ledger[event.tx().0].amount
    };
    lemma_value_sign(Number::zero());
    assert(balances.valid());
    lemma_negated_value(amount);
    if event.is_value() || state.ledger.contains_key(event.tx().0) {
        lemma_plus_fits(balances.available, amount);
        lemma_plus_fits(balances.available, amount.negated());
        lemma_plus_fits(balances.held, amount);
        lemma_plus_fits(balances.held, amount.negated());
        if balances.held.value() + amount.value() >= 0 {
            lemma_sum_keeps_sign(balances.held, amount);
        }
        if balances.held.value() >= amount.value() {
            lemma_sum_keeps_sign(balances.held, amount.negated());
        }
    }
}

/// Whatever events an engine is fed, its state is sound.
pub proof fn law_every_state_is_sound(events: Seq<Event>)
    requires
        all_fit(events),
    ensures
        State::initial().replay(events).sound(),
    decreases events.len(),
{
    if events.len() > 0 {
        law_every_state_is_sound(events.drop_last());
        assert(events.last() == events[events.len() - 1]);
        law_an_event_keeps_the_state_sound(
            State::initial().replay(events.drop_last()),
            events.last(),
        );
    }
}

/// Held funds are never negative, and every account has a total: whatever events
/// an engine is fed, rounded or not.
pub proof fn law_held_is_never_negative(events: Seq<Event>, client: ClientId)
    requires
        all_fit(events),
    ensures
        State::initial().replay(events).balances(client).held.value() >= 0,
        State::initial().replay(events).balances(client).total() is Some,
{
    law_every_state_is_sound(events);
    lemma_value_sign(Number::zero());
}

/// No event is ever declined for want of the account behind a record.
pub proof fn law_records_have_an_account(events: Seq<Event>, event: Event)
    requires
        all_fit(events),
    ensures
        State::initial().replay(events).step(event).1 != Outcome::Rejected(
            RejectReason::UnknownAccount,
        ),
{
    law_every_state_is_sound(events);
}

/// The words tell the reason: different reasons read differently, and none is
/// empty.
pub proof fn law_reasons_read_differently(a: RejectReason, b: RejectReason)
    requires
        a != b,
    ensures
        a.words() != b.words(),
        a.words().len() > 0,
{
    reveal_strlit("amount is not positive");
    reveal_strlit("duplicate tx id");
    reveal_strlit("account is locked");
    reveal_strlit("insufficient funds");
    reveal_strlit("arithmetic overflow");
    reveal_strlit("references unknown tx");
    reveal_strlit("client mismatch");
    reveal_strlit("tx is not disputable (not a deposit)");
    reveal_strlit("tx is not under dispute");
    reveal_strlit("tx already disputed");
    reveal_strlit("references unknown account");
    // Words of the same length begin with different letters.
    assert(a.words().len() != b.words().len() || a.words()[0] != b.words()[0]);
}

/// An engine starts with no accounts and nothing recorded.
pub proof fn law_an_engine_starts_empty()
    ensures
        forall|client: u16| !#[trigger] State::initial().accounts.contains_key(client),
        forall|tx: u32| !#[trigger] State::initial().ledger.contains_key(tx),
        forall|client: ClientId|
            {
                let balances = #[trigger] State::initial().balances(client);
                balances.available.value() == 0 && balances.held.value() == 0 && !balances.locked
            },
{
    lemma_value_sign(Number::zero());
}

/// An event counts as processed exactly when it is applied, which is exactly when it
/// changes the records; one that is rejected, for whatever reason, does not count.
pub proof fn law_processed_counts_what_is_applied(state: State, events: Seq<Event>, event: Event)
    ensures
        state.replay(Seq::<Event>::empty()) == state,
        state.applied(Seq::<Event>::empty()) == 0,
        ({
            let before = state.replay(events);
            let (after, outcome) = before.step(event);
            let counted = state.applied(events.push(event)) - state.applied(events);
            &&& state.replay(events.push(event)) == after
            &&& counted == 1 <==> outcome is Applied
            &&& counted == 0 <==> outcome is Rejected
            &&& counted == 1 <==> after.ledger != before.ledger
        }),
{
    assert(events.push(event).drop_last() =~= events);
    let before = state.replay(events);
    let after = before.step(event).0;
    let tx = event.tx().0;
    if before.step(event).1 is Applied {
        if event.is_value() {
            assert(!before.ledger.contains_key(tx) && after.ledger.contains_key(tx));
        } else {
            assert(after.ledger[tx].disputed != before.ledger[tx].disputed);
        }
    } else {
        law_rejected_event_changes_nothing(before, event);
    }
}

/// Each row is counted once and under one heading: an applied event as processed, a
/// rejected one, for whatever reason, as ignored, and any other row as skipped.
pub proof fn law_each_row_is_counted_once(stats: Stats, reason: RejectReason)
    requires
        stats.can_count(),
    ensures
        ({
            let applied = stats.with_outcome(Outcome::Applied);
            let rejected = stats.with_outcome(Outcome::Rejected(reason));
            let skipped = stats.with_skip();
            &&& applied.processed == stats.processed + 1
            &&& applied.ignored == stats.ignored && applied.skipped == stats.skipped
            &&& rejected.ignored == stats.ignored + 1
            &&& rejected.processed == stats.processed && rejected.skipped == stats.skipped
            &&& skipped.skipped == stats.skipped + 1
            &&& skipped.processed == stats.processed && skipped.ignored == stats.ignored
        }),
        forall|other: Stats| #[trigger]
            other.can_count() <==> other.processed < u64::MAX && other.ignored < u64::MAX
                && other.skipped < u64::MAX,
{
}

/// A credit goes through exactly where the new available funds and the new total are
/// in range, and touches nothing but the available funds.
pub proof fn law_credit_adds_to_available(before: Balances, amount: Number, after: Balances)
    ensures
        before.credited(amount) == Ok::<Balances, BalanceError>(after) <==> {
            &&& before.available.plus(amount) == Some(after.available)
            &&& after.available.plus(after.held) is Some
            &&& after.held == before.held && after.locked == before.locked
        },
        before.credited(amount) is Err ==> before.credited(amount)->Err_0 is Overflow,
{
}

/// A debit goes through exactly where the available funds cover it and the new total
/// is in range, and touches nothing but the available funds.
pub proof fn law_debit_takes_from_available(before: Balances, amount: Number, after: Balances)
    ensures
        before.debited(amount) == Ok::<Balances, BalanceError>(after) <==> {
            &&& before.available.value() >= amount.value()
            &&& before.available.minus(amount) == Some(after.available)
            &&& after.available.plus(after.held) is Some
            &&& after.held == before.held && after.locked == before.locked
        },
        before.debited(amount) == Err::<Balances, BalanceError>(BalanceError::InsufficientFunds)
            <==> before.available.value() < amount.value(),
{
}

/// A hold takes from available what it adds to held, and touches nothing else. It is
/// refused where that would leave less than nothing held, or anything out of range.
pub proof fn law_hold_moves_to_held(before: Balances, amount: Number, after: Balances)
    ensures
        before.holding(amount) == Ok::<Balances, BalanceError>(after) <==> {
            &&& before.held.value() + amount.value() >= 0
            &&& before.available.minus(amount) == Some(after.available)
            &&& before.held.plus(amount) == Some(after.held)
            &&& after.available.plus(after.held) is Some
            &&& after.locked == before.locked
        },
        before.holding(amount) == Err::<Balances, BalanceError>(BalanceError::InsufficientFunds)
            <==> before.held.value() + amount.value() < 0,
{
}

/// A release takes from held what it adds to available, and touches nothing else. It
/// is refused where less is held, or where anything would be out of range.
pub proof fn law_release_moves_to_available(before: Balances, amount: Number, after: Balances)
    ensures
        before.released(amount) == Ok::<Balances, BalanceError>(after) <==> {
            &&& before.held.value() >= amount.value()
            &&& before.available.plus(amount) == Some(after.available)
            &&& before.held.minus(amount) == Some(after.held)
            &&& after.available.plus(after.held) is Some
            &&& after.locked == before.locked
        },
        before.released(amount) == Err::<Balances, BalanceError>(BalanceError::InsufficientFunds)
            <==> before.held.value() < amount.value(),
{
}

/// A chargeback takes from held, leaves the available funds alone and freezes the
/// account. It is refused where less is held, or where anything would be out of
/// range.
pub proof fn law_chargeback_takes_from_held(before: Balances, amount: Number, after: Balances)
    ensures
        before.charged_back(amount) == Ok::<Balances, BalanceError>(after) <==> {
            &&& before.held.value() >= amount.value()
            &&& before.held.minus(amount) == Some(after.held)
            &&& after.available.plus(after.held) is Some
            &&& after.available == before.available && after.locked
        },
        before.charged_back(amount) == Err::<Balances, BalanceError>(
            BalanceError::InsufficientFunds,
        ) <==> before.held.value() < amount.value(),
{
}

/// A balance operation is all or nothing: it returns success with just the balances
/// it came to, or an error with the account as it was.
pub proof fn law_balance_operations_are_all_or_nothing(
    before: Balances,
    after: Balances,
    returned: Result<(), BalanceError>,
    outcome: Result<Balances, BalanceError>,
)
    ensures
        became(before, after, returned, outcome) <==> match returned {
            Ok(_) => outcome == Ok::<Balances, BalanceError>(after),
            Err(error) => outcome == Err::<Balances, BalanceError>(error) && after == before,
        },
{
}

/// The total is the sum of what is available and what is held.
pub proof fn law_total_is_the_sum(balances: Balances)
    ensures
        balances.total() == balances.available.plus(balances.held),
{
}

/// A deposit or withdrawal is applied exactly where its amount is positive, its id is
/// new, its account is not frozen and the balances allow it. It then sets its own
/// client's account and adds its own record, and nothing else. It opens an account
/// wherever its amount is positive and its id new.
pub proof fn law_value_events_are_recorded(state: State, event: Event)
    requires
        event is Deposit || event is Withdrawal,
    ensures
        ({
            let (client, tx, amount, kind) = match event {
                Event::Deposit { client, tx, amount } => (client, tx, amount, ValueKind::Deposit),
                Event::Withdrawal { client, tx, amount } => (
                    client,
                    tx,
                    amount,
                    ValueKind::Withdrawal,
                ),
                _ => arbitrary(),
            };
            let (after, outcome) = state.step(event);
            let before = if state.accounts.contains_key(client.0) {
                state.accounts[client.0]
            } else {
                let nothing = Number { mantissa: 0, scale: 0 };
                Balances { available: nothing, held: nothing, locked: false }
            };
            let effect = if event is Deposit {
                before.credited(amount)
            } else {
                before.debited(amount)
            };
            let known = state.ledger.contains_key(tx.0);
            let opened = amount.value() > 0 && !known;
            &&& outcome == Outcome::Rejected(RejectReason::NonPositiveAmount) <==> amount.value()
                <= 0
            &&& outcome == Outcome::Rejected(RejectReason::DuplicateTx) <==> amount.value() > 0
                && known
            &&& outcome == Outcome::Rejected(RejectReason::AccountLocked) <==> opened
                && before.locked
            &&& outcome == Outcome::Rejected(RejectReason::InsufficientFunds) <==> opened
                && !before.locked && effect == Err::<Balances, BalanceError>(
                BalanceError::InsufficientFunds,
            )
            &&& outcome == Outcome::Rejected(RejectReason::Overflow) <==> opened && !before.locked
                && effect == Err::<Balances, BalanceError>(BalanceError::Overflow)
            &&& outcome is Applied <==> opened && !before.locked && effect is Ok
            &&& outcome is Applied ==> {
                &&& after.accounts == state.accounts.insert(client.0, effect->Ok_0)
                &&& after.ledger == state.ledger.insert(
                    tx.0,
                    Entry { client, amount, kind, disputed: false },
                )
            }
            &&& outcome is Rejected ==> {
                &&& after.accounts == if opened {
                    state.accounts.insert(client.0, before)
                } else {
                    state.accounts
                }
                &&& after.ledger == state.ledger
            }
        }),
{
}

/// An event of the dispute lifecycle is applied exactly where its record exists, is
/// the client's own and in the right state, the account is not frozen and the
/// balances allow it. It then sets its own client's account and its own record's
/// dispute state, and nothing else; rejected, it changes nothing at all.
pub proof fn law_lifecycle_events_act_on_their_record(state: State, event: Event)
    requires
        event is Dispute || event is Resolve || event is Chargeback,
    ensures
        ({
            let (client, tx) = match event {
                Event::Dispute { client, tx } => (client, tx),
                Event::Resolve { client, tx } => (client, tx),
                Event::Chargeback { client, tx } => (client, tx),
                _ => arbitrary(),
            };
            let (after, outcome) = state.step(event);
            let entry = state.ledger[tx.0];
            let before = state.accounts[client.0];
            let effect = if event is Dispute {
                before.holding(entry.amount)
            } else if event is Resolve {
                before.released(entry.amount)
            } else {
                before.charged_back(entry.amount)
            };
            let known = state.ledger.contains_key(tx.0);
            let own = known && entry.client == client;
            let disputable = own && (event is Dispute ==> entry.kind == ValueKind::Deposit);
            let ready = disputable && entry.disputed == !(event is Dispute);
            let open = ready && state.accounts.contains_key(client.0);
            &&& outcome == Outcome::Rejected(RejectReason::UnknownTx) <==> !known
            &&& outcome == Outcome::Rejected(RejectReason::ClientMismatch) <==> known && !own
            &&& outcome == Outcome::Rejected(RejectReason::NotDisputable) <==> own && !disputable
            &&& outcome == Outcome::Rejected(RejectReason::AlreadyDisputed) <==> event is Dispute
                && disputable && !ready
            &&& outcome == Outcome::Rejected(RejectReason::NotDisputed) <==> !(event is Dispute)
                && disputable && !ready
            &&& outcome == Outcome::Rejected(RejectReason::UnknownAccount) <==> ready && !open
            &&& outcome == Outcome::Rejected(RejectReason::AccountLocked) <==> open
                && before.locked
            &&& outcome == Outcome::Rejected(RejectReason::InsufficientFunds) <==> open
                && !before.locked && effect == Err::<Balances, BalanceError>(
                BalanceError::InsufficientFunds,
            )
            &&& outcome == Outcome::Rejected(RejectReason::Overflow) <==> open && !before.locked
                && effect == Err::<Balances, BalanceError>(BalanceError::Overflow)
            &&& outcome is Applied <==> open && !before.locked && effect is Ok
            &&& outcome is Applied ==> {
                &&& after.accounts == state.accounts.insert(client.0, effect->Ok_0)
                &&& after.ledger == state.ledger.insert(
                    tx.0,
                    Entry { disputed: event is Dispute, ..entry },
                )
            }
            &&& outcome is Rejected ==> after == state
        }),
{
}

/// A listing of accounts has one item for each account, with its balances, and no
/// other.
pub proof fn law_listing_has_every_account_once(
    listing: Seq<(ClientId, &Account)>,
    accounts: Map<u16, Balances>,
)
    requires
        lists_accounts(listing, accounts),
    ensures
        listing.len() == accounts.dom().len(),
        forall|i: int|
            0 <= i < listing.len() ==> accounts.contains_key((#[trigger] listing[i]).0.0)
                && accounts[listing[i].0.0] == listing[i].1@,
        forall|client: u16| #[trigger]
            accounts.contains_key(client) ==> exists|i: int|
                0 <= i < listing.len() && (#[trigger] listing[i]).0.0 == client && listing[i].1@
                    == accounts[client],
        forall|i: int, j: int|
            0 <= i < j < listing.len() ==> (#[trigger] listing[i]).0.0 != (
            #[trigger] listing[j]).0.0,
{
    let clients = listing.map_values(|pair: (ClientId, &Account)| pair.0.0);
    assert forall|i: int| 0 <= i < listing.len() implies accounts.contains_key(
        (#[trigger] listing[i]).0.0,
    ) && accounts[listing[i].0.0] == listing[i].1@ by {
        assert(accounts.contains_pair(listing[i].0.0, listing[i].1@));
    }
    assert forall|client: u16| #[trigger] accounts.contains_key(client) implies exists|i: int|
        0 <= i < listing.len() && (#[trigger] listing[i]).0.0 == client && listing[i].1@
            == accounts[client] by {
        let i = choose|i: int|
            0 <= i < listing.len() && (#[trigger] listing[i]).0 == ClientId(client);
        assert(listing[i].0.0 == client);
    }
    assert(clients.no_duplicates()) by {
        assert forall|i: int, j: int|
            0 <= i < clients.len() && 0 <= j < clients.len() && i != j implies clients[i]
            != clients[j] by {
            assert(listing[i].0 != listing[j].0);
        }
    }
    clients.unique_seq_to_set();
    assert(clients.to_set() =~= accounts.dom()) by {
        assert forall|client: u16| accounts.dom().contains(client) implies clients.to_set().contains(
            client,
        ) by {
            assert(accounts.contains_key(client));
            let i = choose|i: int|
                0 <= i < listing.len() && (#[trigger] listing[i]).0.0 == client && listing[i].1@
                    == accounts[client];
            assert(clients[i] == client);
        }
        assert forall|client: u16| clients.to_set().contains(client) implies accounts.dom().contains(
            client,
        ) by {
            let i = clients.index_of(client);
            assert(listing[i].0.0 == client);
        }
    }
}

} // verus!
