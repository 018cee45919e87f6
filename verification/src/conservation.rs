//! What holds of the money in the engine: none is created, held funds are the
//! deposits under dispute, and within the range of exact sums no rounding and no
//! overflow ever happens.

use vstd::prelude::*;

use crate::account::BalanceError;
use crate::account::Balances;
use crate::engine::Entry;
use crate::engine::Outcome;
use crate::engine::RejectReason;
use crate::engine::State;
use crate::laws::all_fit;
use crate::laws::law_an_event_keeps_the_state_sound;
use crate::laws::law_clients_are_isolated;
use crate::laws::law_every_state_is_sound;
use crate::laws::law_held_is_never_negative;
use crate::number::Number;
use crate::number::law_sum_depends_on_values_alone;
use crate::number::law_sum_is_exact_where_one_exists;
use crate::number::lemma_aligned_value;
use crate::number::lemma_negated_value;
use crate::number::lemma_plus_fits;
use crate::number::lemma_pow10_positive;
use crate::number::lemma_pow10_sum;
use crate::number::lemma_represent;
use crate::number::lemma_smaller_sum_in_range;
use crate::number::lemma_sum_keeps_sign;
use crate::number::lemma_value_in_range;
use crate::number::lemma_value_sign;
use crate::number::pow10;
use crate::number::MAX_MANTISSA;
use crate::number::MAX_PLACES;
use crate::types::ClientId;
use crate::types::Event;
use crate::types::MAX_SCALE;
use crate::types::TxId;
use crate::types::ValueKind;

verus! {

/// A withdrawal that takes effect was covered by available funds, and never
/// leaves them negative.
pub proof fn law_withdrawal_never_overdraws(state: State, event: Event)
    requires
        state.sound(),
        event.fits(),
        event is Withdrawal,
        state.step(event).1 is Applied,
    ensures
        state.balances(event.client()).available.value() >= event.amount().value(),
        state.step(event).0.balances(event.client()).available.value() >= 0,
{
    let available = state.balances(event.client()).available;
    lemma_negated_value(event.amount());
    lemma_sum_keeps_sign(available, event.amount().negated());
}

impl State {
    /// The amount an event is about: its own, or that of the record it refers to.
    pub open spec fn amount_of(self, event: Event) -> Number {
        if event.is_value() {
            event.amount()
        } else {
            self.ledger[event.tx().0].amount
        }
    }

    /// Whether no sum that the event makes is rounded.
    pub open spec fn exact(self, event: Event) -> bool {
        let available = self.balances(event.client()).available;
        let held = self.balances(event.client()).held;
        let amount = self.amount_of(event);
        match event {
            Event::Deposit { .. } => available.adds_exactly(amount),
            Event::Withdrawal { .. } => available.adds_exactly(amount.negated()),
            Event::Dispute { .. } => {
                &&& available.adds_exactly(amount.negated())
                &&& held.adds_exactly(amount)
            },
            Event::Resolve { .. } => {
                &&& available.adds_exactly(amount)
                &&& held.adds_exactly(amount.negated())
            },
            Event::Chargeback { .. } => held.adds_exactly(amount.negated()),
        }
    }

    /// What an event adds to what its client's account is worth: the amount of a
    /// deposit comes in, that of a withdrawal or a chargeback goes out, and
    /// nothing else moves in or out. A rejected event moves nothing.
    pub open spec fn gain(self, event: Event) -> int {
        let amount = self.amount_of(event).value();
        if self.step(event).1 is Rejected {
            0
        } else {
            match event {
                Event::Deposit { .. } => amount,
                Event::Withdrawal { .. } => -amount,
                Event::Chargeback { .. } => -amount,
                _ => 0,
            }
        }
    }
}

/// No event creates money: what an account is worth changes by exactly the amount
/// that comes in or goes out. A dispute and a resolve only move funds between
/// available and held.
pub proof fn law_money_is_conserved(state: State, event: Event)
    requires
        state.step(event).1 is Applied ==> state.exact(event),
    ensures
        state.step(event).0.balances(event.client()).worth() == state.balances(
            event.client(),
        ).worth() + state.gain(event),
{
    lemma_negated_value(state.amount_of(event));
}

/// A resolve undoes a dispute: the same clients have accounts, each with the
/// available funds, held funds and total that it had before, frozen as before, and
/// every record is as it was.
pub proof fn law_resolve_undoes_dispute(state: State, client: ClientId, tx: TxId)
    requires
        state.sound(),
        state.step(Event::Dispute { client, tx }).1 is Applied,
        state.exact(Event::Dispute { client, tx }),
    ensures
        ({
            let disputed = state.step(Event::Dispute { client, tx }).0;
            let (resolved, outcome) = disputed.step(Event::Resolve { client, tx });
            &&& outcome is Applied
            &&& resolved.accounts.dom() == state.accounts.dom()
            &&& forall|other: ClientId|
                {
                    let before = state.balances(other);
                    let after = #[trigger] resolved.balances(other);
                    &&& after.available.value() == before.available.value()
                    &&& after.held.value() == before.held.value()
                    &&& after.available.sum_value(after.held) == before.available.sum_value(
                        before.held,
                    )
                    &&& after.locked == before.locked
                }
            &&& resolved.ledger == state.ledger
        }),
{
    let disputed = state.step(Event::Dispute { client, tx }).0;
    let resolved = disputed.step(Event::Resolve { client, tx }).0;
    let before = state.balances(client);
    let between = disputed.balances(client);
    let amount = state.ledger[tx.0].amount;
    law_an_event_keeps_the_state_sound(state, Event::Dispute { client, tx });
    lemma_negated_value(amount);
    law_sum_is_exact_where_one_exists(between.available, amount, before.available);
    law_sum_is_exact_where_one_exists(between.held, amount.negated(), before.held);
    let available = between.available.plus(amount)->0;
    let held = between.held.minus(amount)->0;
    lemma_plus_fits(between.available, amount);
    lemma_plus_fits(between.held, amount.negated());
    law_sum_depends_on_values_alone(before.available, before.held);
    law_sum_depends_on_values_alone(available, held);
    assert(resolved.ledger =~= state.ledger);
    assert(resolved.accounts.dom() =~= state.accounts.dom());
    assert forall|other: ClientId| other != client implies #[trigger] resolved.balances(other)
        == state.balances(other) by {
        law_clients_are_isolated(state, Event::Dispute { client, tx }, other);
        law_clients_are_isolated(disputed, Event::Resolve { client, tx }, other);
    }
}

/// A chargeback after a dispute takes the amount out for good: available funds
/// stay as the dispute left them, held ones are worth what they were before it,
/// and the account is frozen.
pub proof fn law_chargeback_reverses_the_deposit(state: State, client: ClientId, tx: TxId)
    requires
        state.sound(),
        state.step(Event::Dispute { client, tx }).1 is Applied,
        state.exact(Event::Dispute { client, tx }),
    ensures
        ({
            let disputed = state.step(Event::Dispute { client, tx }).0;
            let (reversed, outcome) = disputed.step(Event::Chargeback { client, tx });
            let before = state.balances(client);
            let after = reversed.balances(client);
            &&& outcome is Applied
            &&& after.available.value() == before.available.value()
                - state.ledger[tx.0].amount.value()
            &&& after.held.value() == before.held.value()
            &&& after.locked
        }),
{
    let disputed = state.step(Event::Dispute { client, tx }).0;
    let before = state.balances(client);
    let between = disputed.balances(client);
    let amount = state.ledger[tx.0].amount;
    law_an_event_keeps_the_state_sound(state, Event::Dispute { client, tx });
    lemma_negated_value(amount);
    law_sum_is_exact_where_one_exists(between.held, amount.negated(), before.held);
    let held = between.held.minus(amount)->0;
    lemma_plus_fits(between.held, amount.negated());
    lemma_value_in_range(between.available);
    lemma_smaller_sum_in_range(between.available, between.held, between.available, held);
}

/// What one record adds to a sum over a client's recorded deposits, or over those
/// under dispute only.
pub open spec fn contribution(
    ledger: Map<u32, Entry>,
    client: ClientId,
    only_disputed: bool,
    tx: u32,
) -> int {
    if ledger.contains_key(tx) && ledger[tx].client == client && ledger[tx].kind
        == ValueKind::Deposit && (only_disputed ==> ledger[tx].disputed) {
        ledger[tx].amount.value()
    } else {
        0
    }
}

/// The sum of the contributions of all transactions whose id is below `n`.
pub open spec fn sum_below(
    ledger: Map<u32, Entry>,
    client: ClientId,
    only_disputed: bool,
    n: nat,
) -> int
    decreases n,
{
    if n == 0 {
        0
    } else {
        sum_below(ledger, client, only_disputed, (n - 1) as nat) + contribution(
            ledger,
            client,
            only_disputed,
            (n - 1) as u32,
        )
    }
}

impl State {
    /// The sum of the client's recorded deposits.
    pub open spec fn deposited(self, client: ClientId) -> int {
        sum_below(self.ledger, client, false, 0x1_0000_0000)
    }

    /// The sum of the client's deposits that are under dispute.
    pub open spec fn disputed(self, client: ClientId) -> int {
        sum_below(self.ledger, client, true, 0x1_0000_0000)
    }

    /// Whether each client's held funds are its deposits under dispute.
    pub open spec fn holds_what_is_disputed(self) -> bool {
        forall|client: ClientId|
            #![trigger self.balances(client)]
            self.balances(client).held.value() == self.disputed(client)
    }
}

/// A sum changes by what the one record that changed adds to it.
proof fn lemma_sum_changes(
    before: Map<u32, Entry>,
    after: Map<u32, Entry>,
    client: ClientId,
    only_disputed: bool,
    tx: u32,
    n: nat,
)
    requires
        n <= 0x1_0000_0000,
        forall|other: u32|
            other != tx ==> #[trigger] contribution(after, client, only_disputed, other)
                == contribution(before, client, only_disputed, other),
    ensures
        sum_below(after, client, only_disputed, n) == sum_below(before, client, only_disputed, n)
            + if n > tx {
            contribution(after, client, only_disputed, tx) - contribution(
                before,
                client,
                only_disputed,
                tx,
            )
        } else {
            0
        },
    decreases n,
{
    if n > 0 {
        lemma_sum_changes(before, after, client, only_disputed, tx, (n - 1) as nat);
    }
}

/// What is under dispute is part of what was deposited, and neither is negative.
proof fn lemma_disputed_is_deposited(state: State, client: ClientId, n: nat)
    requires
        state.sound(),
        n <= 0x1_0000_0000,
    ensures
        0 <= sum_below(state.ledger, client, true, n) <= sum_below(state.ledger, client, false, n),
    decreases n,
{
    if n > 0 {
        lemma_disputed_is_deposited(state, client, (n - 1) as nat);
    }
}

/// How an event changes the two sums of its own client.
proof fn lemma_sums_after(state: State, event: Event)
    requires
        state.sound(),
        event.fits(),
    ensures
        ({
            let after = state.step(event).0;
            let client = event.client();
            let amount = state.amount_of(event).value();
            let applied = state.step(event).1 is Applied;
            &&& after.deposited(client) == state.deposited(client) + if applied
                && event is Deposit {
                amount
            } else {
                0
            }
            &&& after.disputed(client) == state.disputed(client) + if applied && event is Dispute {
                amount
            } else if applied && !event.is_value() {
                -amount
            } else {
                0
            }
        }),
{
    let after = state.step(event).0;
    let client = event.client();
    let tx = event.tx().0;
    lemma_sum_changes(state.ledger, after.ledger, client, false, tx, 0x1_0000_0000);
    lemma_sum_changes(state.ledger, after.ledger, client, true, tx, 0x1_0000_0000);
}

/// An event of one client leaves the sums of every other as they are.
proof fn lemma_sums_of_others(state: State, event: Event, other: ClientId)
    requires
        other != event.client(),
    ensures
        state.step(event).0.deposited(other) == state.deposited(other),
        state.step(event).0.disputed(other) == state.disputed(other),
{
    let after = state.step(event).0;
    let tx = event.tx().0;
    law_clients_are_isolated(state, event, other);
    lemma_sum_changes(state.ledger, after.ledger, other, false, tx, 0x1_0000_0000);
    lemma_sum_changes(state.ledger, after.ledger, other, true, tx, 0x1_0000_0000);
}

/// An event keeps held funds equal to the deposits under dispute.
pub proof fn law_an_event_holds_what_is_disputed(state: State, event: Event)
    requires
        state.sound(),
        event.fits(),
        state.holds_what_is_disputed(),
        state.step(event).1 is Applied ==> state.exact(event),
    ensures
        state.step(event).0.holds_what_is_disputed(),
{
    let after = state.step(event).0;
    assert forall|client: ClientId|
        #![trigger after.balances(client)]
        after.balances(client).held.value() == after.disputed(client) by {
        assert(state.balances(client).held.value() == state.disputed(client));
        if client == event.client() {
            lemma_sums_after(state, event);
            lemma_negated_value(state.amount_of(event));
        } else {
            law_clients_are_isolated(state, event, client);
            lemma_sums_of_others(state, event, client);
        }
    }
}

impl State {
    /// Whether no sum that is made on the way through these events is rounded.
    pub open spec fn replays_exactly(self, events: Seq<Event>) -> bool
        decreases events.len(),
    {
        events.len() > 0 ==> {
            let before = self.replay(events.drop_last());
            &&& self.replays_exactly(events.drop_last())
            &&& before.step(events.last()).1 is Applied ==> before.exact(events.last())
        }
    }

    /// What these events add, in all, to what a client's account is worth.
    pub open spec fn gains(self, client: ClientId, events: Seq<Event>) -> int
        decreases events.len(),
    {
        if events.len() == 0 {
            0
        } else {
            let before = self.replay(events.drop_last());
            let so_far = self.gains(client, events.drop_last());
            if events.last().client() == client {
                so_far + before.gain(events.last())
            } else {
                so_far
            }
        }
    }
}

/// Sums over an empty ledger are zero.
proof fn lemma_nothing_recorded(client: ClientId, only_disputed: bool, n: nat)
    ensures
        sum_below(Map::empty(), client, only_disputed, n) == 0,
    decreases n,
{
    if n > 0 {
        lemma_nothing_recorded(client, only_disputed, (n - 1) as nat);
    }
}

/// An engine that has seen nothing holds nothing.
proof fn lemma_initial_holds_what_is_disputed()
    ensures
        State::initial().holds_what_is_disputed(),
{
    assert forall|client: ClientId|
        #![trigger State::initial().balances(client)]
        State::initial().balances(client).held.value() == State::initial().disputed(client) by {
        lemma_nothing_recorded(client, true, 0x1_0000_0000);
        lemma_value_sign(Number::zero());
    }
}

/// Held funds are, through any sequence of events, the sum of the client's
/// deposits under dispute, and so never negative.
pub proof fn law_held_is_what_is_disputed(events: Seq<Event>, client: ClientId)
    requires
        all_fit(events),
        State::initial().replays_exactly(events),
    ensures
        ({
            let state = State::initial().replay(events);
            &&& state.balances(client).held.value() == state.disputed(client)
            &&& state.balances(client).held.value() >= 0
        }),
{
    lemma_holds_what_is_disputed(events);
    law_every_state_is_sound(events);
    lemma_disputed_is_deposited(State::initial().replay(events), client, 0x1_0000_0000);
}

/// Held funds are the deposits under dispute, for every client at once.
proof fn lemma_holds_what_is_disputed(events: Seq<Event>)
    requires
        all_fit(events),
        State::initial().replays_exactly(events),
    ensures
        State::initial().replay(events).holds_what_is_disputed(),
    decreases events.len(),
{
    if events.len() == 0 {
        lemma_initial_holds_what_is_disputed();
    } else {
        let before = State::initial().replay(events.drop_last());
        lemma_holds_what_is_disputed(events.drop_last());
        law_every_state_is_sound(events.drop_last());
        assert(events.last() == events[events.len() - 1]);
        law_an_event_holds_what_is_disputed(before, events.last());
    }
}

/// An account is worth, after any sequence of events, exactly what came in less
/// what went out.
pub proof fn law_worth_is_what_came_in(events: Seq<Event>, client: ClientId)
    requires
        State::initial().replays_exactly(events),
    ensures
        State::initial().replay(events).balances(client).worth() == State::initial().gains(
            client,
            events,
        ),
    decreases events.len(),
{
    if events.len() == 0 {
        lemma_value_sign(Number::zero());
    } else {
        let before = State::initial().replay(events.drop_last());
        law_worth_is_what_came_in(events.drop_last(), client);
        if events.last().client() == client {
            law_money_is_conserved(before, events.last());
        } else {
            law_clients_are_isolated(before, events.last(), client);
        }
    }
}

/// The largest value for which there is always room for four decimal places.
pub open spec fn exact_limit() -> int {
    MAX_MANTISSA * pow10((MAX_PLACES - MAX_SCALE) as nat)
}

/// Whether the amounts of all events have at most four decimal places.
pub open spec fn four_places(events: Seq<Event>) -> bool {
    forall|i: int| 0 <= i < events.len() ==> (#[trigger] events[i]).amount().scale <= MAX_SCALE
}

/// Numbers with four decimal places add up exactly while the sum leaves room for
/// them, and the sum has no more places.
proof fn lemma_four_places_add_exactly(a: Number, b: Number)
    requires
        a.fits(),
        b.fits(),
        a.scale <= MAX_SCALE,
        b.scale <= MAX_SCALE,
        -exact_limit() <= a.value() + b.value() <= exact_limit(),
    ensures
        a.adds_exactly(b),
        a.plus(b)->0.scale <= MAX_SCALE,
        a.plus(b)->0.fits(),
{
    let scale = MAX_SCALE as nat;
    let p = pow10((MAX_PLACES - scale) as nat);
    let sum = Number { mantissa: a.aligned(scale) + b.aligned(scale), scale };
    lemma_pow10_positive((MAX_PLACES - scale) as nat);
    lemma_aligned_value(a, scale);
    lemma_aligned_value(b, scale);
    assert(sum.mantissa * p == a.value() + b.value()) by (nonlinear_arith)
        requires
            sum.mantissa == a.aligned(scale) + b.aligned(scale),
            a.aligned(scale) * p == a.value(),
            b.aligned(scale) * p == b.value(),
    ;
    assert(-MAX_MANTISSA <= sum.mantissa <= MAX_MANTISSA) by (nonlinear_arith)
        requires
            -(MAX_MANTISSA * p) <= sum.mantissa * p <= MAX_MANTISSA * p,
            p >= 1,
    ;
    law_sum_is_exact_where_one_exists(a, b, sum);
    lemma_plus_fits(a, b);
    let longer = if a.scale < b.scale {
        b.scale
    } else {
        a.scale
    };
    lemma_represent(a.aligned(longer) + b.aligned(longer), longer, 0);
}

impl State {
    /// Whether all balances and recorded amounts have at most four decimal places.
    pub open spec fn four_places(self) -> bool {
        &&& forall|client: u16| #[trigger]
            self.accounts.contains_key(client) ==> self.accounts[client].available.scale
                <= MAX_SCALE && self.accounts[client].held.scale <= MAX_SCALE
        &&& forall|tx: u32| #[trigger]
            self.ledger.contains_key(tx) ==> self.ledger[tx].amount.scale <= MAX_SCALE
    }

    /// Whether a client's account is worth no more than was deposited, and no less
    /// than nothing or, once it is frozen, than the loss of all of that.
    pub open spec fn worth_is_bounded(self, client: ClientId) -> bool {
        let balances = self.balances(client);
        &&& balances.worth() <= self.deposited(client)
        &&& balances.worth() >= if balances.locked {
            -self.deposited(client)
        } else {
            0
        }
    }

    /// Whether no client's recorded deposits come to more than the largest value
    /// with room for four decimal places.
    pub open spec fn within_the_limit(self) -> bool {
        forall|client: ClientId| #[trigger] self.deposited(client) <= exact_limit()
    }
}

/// Balances with four decimal places settle, if their sum leaves room for them.
proof fn lemma_settles(available: Number, held: Number, locked: bool)
    requires
        available.fits(),
        held.fits(),
        available.scale <= MAX_SCALE,
        held.scale <= MAX_SCALE,
        -exact_limit() <= available.value() + held.value() <= exact_limit(),
    ensures
        Balances::settled(Some(available), Some(held), locked) == Ok::<Balances, BalanceError>(
            Balances { available, held, locked },
        ),
{
    lemma_four_places_add_exactly(available, held);
}

/// What an event comes to that its guards let pass, while the balances it makes
/// leave room for four decimal places.
#[verifier::rlimit(40)]
proof fn lemma_one_more_within_the_limit(state: State, event: Event)
    requires
        state.sound(),
        state.four_places(),
        state.holds_what_is_disputed(),
        state.worth_is_bounded(event.client()),
        event.fits(),
        event.amount().scale <= MAX_SCALE,
        state.deposited(event.client()) <= exact_limit(),
        state.step(event).1 is Applied || state.step(event).1 == Outcome::Rejected(
            RejectReason::Overflow,
        ) || (!event.is_value() && state.step(event).1 == Outcome::Rejected(
            RejectReason::InsufficientFunds,
        )),
        event is Deposit ==> state.deposited(event.client()) + event.amount().value()
            <= exact_limit(),
    ensures
        state.step(event).1 is Applied,
        state.exact(event),
        state.step(event).0.four_places(),
{
    let client = event.client();
    let before = state.balances(client);
    let amount = state.amount_of(event);
    lemma_value_sign(Number::zero());
    lemma_disputed_is_deposited(state, client, 0x1_0000_0000);
    assert(before.held.value() == state.disputed(client));
    lemma_negated_value(amount);
    if !event.is_value() {
        let tx = event.tx();
        let marked = state.with_entry(tx, Entry { disputed: event is Dispute, ..state.ledger[tx.0] });
        lemma_sum_changes(state.ledger, marked.ledger, client, false, tx.0, 0x1_0000_0000);
        lemma_sum_changes(state.ledger, marked.ledger, client, true, tx.0, 0x1_0000_0000);
        lemma_disputed_is_deposited(marked, client, 0x1_0000_0000);
    }
    match event {
        Event::Deposit { .. } => {
            lemma_four_places_add_exactly(before.available, amount);
            lemma_settles(before.available.plus(amount)->0, before.held, before.locked);
        },
        Event::Withdrawal { .. } => {
            lemma_four_places_add_exactly(before.available, amount.negated());
            lemma_settles(before.available.minus(amount)->0, before.held, before.locked);
        },
        Event::Dispute { .. } => {
            lemma_four_places_add_exactly(before.available, amount.negated());
            lemma_four_places_add_exactly(before.held, amount);
            lemma_settles(
                before.available.minus(amount)->0,
                before.held.plus(amount)->0,
                before.locked,
            );
        },
        Event::Resolve { .. } => {
            lemma_four_places_add_exactly(before.available, amount);
            lemma_four_places_add_exactly(before.held, amount.negated());
            lemma_settles(
                before.available.plus(amount)->0,
                before.held.minus(amount)->0,
                before.locked,
            );
        },
        Event::Chargeback { .. } => {
            lemma_four_places_add_exactly(before.held, amount.negated());
            lemma_settles(before.available, before.held.minus(amount)->0, true);
        },
    }
}

/// An event that stays within the limit keeps worth within its bounds.
proof fn lemma_worth_stays_bounded(state: State, event: Event)
    requires
        state.sound(),
        event.fits(),
        state.holds_what_is_disputed(),
        state.worth_is_bounded(event.client()),
        state.step(event).1 is Applied ==> state.exact(event),
    ensures
        state.step(event).0.worth_is_bounded(event.client()),
{
    let client = event.client();
    let after = state.step(event).0;
    lemma_disputed_is_deposited(state, client, 0x1_0000_0000);
    assert(state.balances(client).held.value() == state.disputed(client));
    lemma_sums_after(state, event);
    law_money_is_conserved(state, event);
    law_an_event_keeps_the_state_sound(state, event);
    law_an_event_holds_what_is_disputed(state, event);
    assert(after.balances(client).held.value() == after.disputed(client));
    lemma_disputed_is_deposited(after, client, 0x1_0000_0000);
    if event is Withdrawal && state.step(event).1 is Applied {
        law_withdrawal_never_overdraws(state, event);
    }
}

/// What was deposited never shrinks.
proof fn lemma_deposited_grows(state: State, event: Event, client: ClientId)
    requires
        state.sound(),
        event.fits(),
    ensures
        state.deposited(client) <= state.step(event).0.deposited(client),
{
    if client == event.client() {
        lemma_sums_after(state, event);
    } else {
        lemma_sums_of_others(state, event, client);
    }
}

/// What holds of the state after events within the limit.
proof fn lemma_within_the_limit(events: Seq<Event>)
    requires
        all_fit(events),
        four_places(events),
        State::initial().replay(events).within_the_limit(),
    ensures
        State::initial().replays_exactly(events),
        State::initial().replay(events).four_places(),
        forall|client: ClientId| #[trigger]
            State::initial().replay(events).worth_is_bounded(client),
    decreases events.len(),
{
    if events.len() == 0 {
        let state = State::initial();
        lemma_value_sign(Number::zero());
        assert forall|client: ClientId| #[trigger] state.worth_is_bounded(client) by {
            lemma_nothing_recorded(client, false, 0x1_0000_0000);
        }
    } else {
        let earlier = events.drop_last();
        let event = events.last();
        let before = State::initial().replay(earlier);
        let after = State::initial().replay(events);
        assert(event == events[events.len() - 1]);
        law_every_state_is_sound(earlier);
        assert forall|client: ClientId| #[trigger] before.deposited(client) <= exact_limit() by {
            lemma_deposited_grows(before, event, client);
            assert(after.deposited(client) <= exact_limit());
        }
        lemma_within_the_limit(earlier);
        lemma_holds_what_is_disputed(earlier);
        assert(before.worth_is_bounded(event.client()));
        assert(before.deposited(event.client()) <= exact_limit());
        if before.step(event).1 is Applied {
            lemma_sums_after(before, event);
            assert(after.deposited(event.client()) <= exact_limit());
            lemma_one_more_within_the_limit(before, event);
        }
        lemma_worth_stays_bounded(before, event);
        assert forall|client: ClientId| #[trigger] after.worth_is_bounded(client) by {
            if client != event.client() {
                assert(before.worth_is_bounded(client));
                law_clients_are_isolated(before, event, client);
                lemma_sums_of_others(before, event, client);
            }
        }
    }
}

/// No money is lost or made by rounding: with amounts of at most four decimal
/// places, and while no client's recorded deposits come to more than leaves room for
/// them, no sum made on the way through the events is ever rounded.
pub proof fn law_nothing_is_rounded_within_the_limit(events: Seq<Event>)
    requires
        all_fit(events),
        four_places(events),
        State::initial().replay(events).within_the_limit(),
    ensures
        State::initial().replays_exactly(events),
{
    lemma_within_the_limit(events);
}

/// Within the same limit no event is ever declined for want of range, and no
/// resolve or chargeback for want of held funds.
pub proof fn law_nothing_overflows_within_the_limit(events: Seq<Event>, event: Event)
    requires
        all_fit(events.push(event)),
        four_places(events.push(event)),
        State::initial().replay(events).within_the_limit(),
        event is Deposit ==> State::initial().replay(events).deposited(event.client())
            + event.amount().value() <= exact_limit(),
    ensures
        ({
            let outcome = State::initial().replay(events).step(event).1;
            &&& outcome != Outcome::Rejected(RejectReason::Overflow)
            &&& !event.is_value() ==> outcome != Outcome::Rejected(RejectReason::InsufficientFunds)
        }),
{
    let all = events.push(event);
    let before = State::initial().replay(events);
    assert(event == all[events.len() as int]);
    assert forall|i: int| 0 <= i < events.len() implies (#[trigger] events[i]).fits()
        && events[i].amount().scale <= MAX_SCALE by {
        assert(events[i] == all[i]);
    }
    lemma_within_the_limit(events);
    lemma_holds_what_is_disputed(events);
    law_every_state_is_sound(events);
    assert(before.worth_is_bounded(event.client()));
    assert(before.deposited(event.client()) <= exact_limit());
    let outcome = before.step(event).1;
    if outcome == Outcome::Rejected(RejectReason::Overflow) || (!event.is_value() && outcome
        == Outcome::Rejected(RejectReason::InsufficientFunds)) {
        lemma_one_more_within_the_limit(before, event);
    }
}

/// Within the same limit every total is exactly what is available plus what is
/// held.
pub proof fn law_total_is_available_plus_held(events: Seq<Event>, client: ClientId)
    requires
        all_fit(events),
        four_places(events),
        State::initial().replay(events).within_the_limit(),
    ensures
        ({
            let balances = State::initial().replay(events).balances(client);
            balances.total() matches Some(total) && total.value() == balances.available.value()
                + balances.held.value()
        }),
{
    let state = State::initial().replay(events);
    lemma_within_the_limit(events);
    law_every_state_is_sound(events);
    lemma_value_sign(Number::zero());
    assert(state.worth_is_bounded(client));
    assert(state.deposited(client) <= exact_limit());
    lemma_disputed_is_deposited(state, client, 0x1_0000_0000);
    lemma_four_places_add_exactly(state.balances(client).available, state.balances(client).held);
}

/// An account is never worth less than nothing, unless a chargeback froze it:
/// only a reversed deposit shows a loss.
pub proof fn law_only_a_frozen_account_shows_a_loss(events: Seq<Event>, client: ClientId)
    requires
        all_fit(events),
        four_places(events),
        State::initial().replay(events).within_the_limit(),
    ensures
        ({
            let balances = State::initial().replay(events).balances(client);
            balances.worth() < 0 ==> balances.locked
        }),
{
    lemma_within_the_limit(events);
    assert(State::initial().replay(events).worth_is_bounded(client));
}

/// The largest amount of which any number of deposits stay within the limit: one
/// for each transaction id, a quadrillion each.
pub open spec fn small_amount() -> int {
    pow10(43)
}

/// Whether no event has an amount beyond a quadrillion.
pub open spec fn small_amounts(events: Seq<Event>) -> bool {
    forall|i: int| 0 <= i < events.len() ==> (#[trigger] events[i]).amount().value()
        <= small_amount()
}

/// Whether no record has an amount beyond a quadrillion.
pub open spec fn small_records(ledger: Map<u32, Entry>) -> bool {
    forall|tx: u32| #[trigger]
        ledger.contains_key(tx) ==> ledger[tx].amount.value() <= small_amount()
}

/// Small amounts make small records.
proof fn lemma_small_records(events: Seq<Event>)
    requires
        small_amounts(events),
    ensures
        small_records(State::initial().replay(events).ledger),
    decreases events.len(),
{
    if events.len() > 0 {
        lemma_small_records(events.drop_last());
        assert(events.last() == events[events.len() - 1]);
    }
}

/// Records of small amounts add up to no more than one for each transaction id.
proof fn lemma_small_sum(ledger: Map<u32, Entry>, client: ClientId, n: nat)
    requires
        small_records(ledger),
        n <= 0x1_0000_0000,
    ensures
        sum_below(ledger, client, false, n) <= n * small_amount(),
    decreases n,
{
    lemma_pow10_positive(43);
    if n > 0 {
        lemma_small_sum(ledger, client, (n - 1) as nat);
        let small = small_amount();
        assert((n - 1) * small + small == n * small) by (nonlinear_arith);
    }
}

/// One small amount for each transaction id stays within the limit.
proof fn lemma_small_amounts_stay_within(ledger: Map<u32, Entry>, client: ClientId)
    requires
        small_records(ledger),
    ensures
        sum_below(ledger, client, false, 0x1_0000_0000) <= exact_limit(),
{
    lemma_small_sum(ledger, client, 0x1_0000_0000);
    lemma_pow10_sum(19, 24);
    lemma_pow10_positive(24);
    assert(pow10(19) == 10_000_000_000_000_000_000) by {
        reveal_with_fuel(pow10, 20);
    }
    assert(0x1_0000_0000 * (pow10(19) * pow10(24)) <= MAX_MANTISSA * pow10(24)) by (nonlinear_arith)
        requires
            pow10(19) == 10_000_000_000_000_000_000,
            pow10(24) >= 1,
            MAX_MANTISSA == 79228162514264337593543950335,
    ;
}

/// Any sequence of events with small amounts, however long, stays within the limit:
/// each deposit that is recorded takes up a transaction id.
pub proof fn law_small_amounts_stay_within_the_limit(events: Seq<Event>)
    requires
        small_amounts(events),
    ensures
        State::initial().replay(events).within_the_limit(),
{
    lemma_small_records(events);
    assert forall|client: ClientId| #[trigger]
        State::initial().replay(events).deposited(client) <= exact_limit() by {
        lemma_small_amounts_stay_within(State::initial().replay(events).ledger, client);
    }
}

/// One more small deposit, under an id that is still free, stays within the limit
/// too.
pub proof fn lemma_one_deposit_more_stays_within(events: Seq<Event>, event: Event)
    requires
        small_amounts(events.push(event)),
        event is Deposit,
        !State::initial().replay(events).ledger.contains_key(event.tx().0),
    ensures
        State::initial().replay(events).deposited(event.client()) + event.amount().value()
            <= exact_limit(),
{
    let state = State::initial().replay(events);
    let all = events.push(event);
    let client = event.client();
    let tx = event.tx();
    let entry = Entry {
        client,
        amount: event.amount(),
        kind: ValueKind::Deposit,
        disputed: false,
    };
    let recorded = state.with_entry(tx, entry);
    assert(event == all[events.len() as int]);
    assert forall|i: int| 0 <= i < events.len() implies (#[trigger] events[i]).amount().value()
        <= small_amount() by {
        assert(events[i] == all[i]);
    }
    lemma_small_records(events);
    lemma_sum_changes(state.ledger, recorded.ledger, client, false, tx.0, 0x1_0000_0000);
    lemma_small_amounts_stay_within(recorded.ledger, client);
}

/// After any sequence of events with small amounts every total is what is available
/// plus what is held, and held funds are not negative.
pub proof fn law_invariants_hold_for_any_small_amounts(events: Seq<Event>, client: ClientId)
    requires
        all_fit(events),
        four_places(events),
        small_amounts(events),
    ensures
        ({
            let balances = State::initial().replay(events).balances(client);
            &&& balances.total() matches Some(total) && total.value()
                == balances.available.value() + balances.held.value()
            &&& balances.held.value() >= 0
        }),
{
    law_small_amounts_stay_within_the_limit(events);
    law_total_is_available_plus_held(events, client);
    law_held_is_never_negative(events, client);
}

} // verus!
