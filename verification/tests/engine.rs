use payments_engine::{
    Amount, BalanceError, ClientId, Engine, Outcome, RejectReason, Transaction, TxId,
};

fn deposit(c: u16, tx: u32, a: &str) -> Transaction {
    Transaction::Deposit {
        client: ClientId(c),
        tx: TxId(tx),
        amount: a.parse().unwrap(),
    }
}
fn withdrawal(c: u16, tx: u32, a: &str) -> Transaction {
    Transaction::Withdrawal {
        client: ClientId(c),
        tx: TxId(tx),
        amount: a.parse().unwrap(),
    }
}
fn dispute(c: u16, tx: u32) -> Transaction {
    Transaction::Dispute {
        client: ClientId(c),
        tx: TxId(tx),
    }
}
fn resolve(c: u16, tx: u32) -> Transaction {
    Transaction::Resolve {
        client: ClientId(c),
        tx: TxId(tx),
    }
}
fn chargeback(c: u16, tx: u32) -> Transaction {
    Transaction::Chargeback {
        client: ClientId(c),
        tx: TxId(tx),
    }
}

fn amt(s: &str) -> Amount {
    s.parse().unwrap()
}

/// Snapshot of one client's balances for terse assertions.
fn balances(engine: &Engine, client: u16) -> (Amount, Amount, Amount, bool) {
    let accounts = engine.accounts();
    let (_, a) = accounts
        .iter()
        .find(|(c, _)| *c == ClientId(client))
        .expect("account exists");
    (a.available(), a.held(), a.total(), a.is_locked())
}

#[test]
fn deposit_creates_and_accumulates() {
    let mut e = Engine::new();
    assert_eq!(e.apply(deposit(1, 1, "1.0")), Outcome::Applied);
    assert_eq!(e.apply(deposit(1, 2, "2.0")), Outcome::Applied);
    assert_eq!(balances(&e, 1), (amt("3.0"), amt("0"), amt("3.0"), false));
}

#[test]
fn multiple_clients_are_independent() {
    let mut e = Engine::new();
    e.apply(deposit(1, 1, "1.0"));
    e.apply(deposit(2, 2, "2.0"));
    assert_eq!(balances(&e, 1).0, amt("1.0"));
    assert_eq!(balances(&e, 2).0, amt("2.0"));
}

#[test]
fn zero_or_negative_deposit_rejected() {
    let mut e = Engine::new();
    assert_eq!(
        e.apply(deposit(1, 1, "0")),
        Outcome::Rejected(RejectReason::NonPositiveAmount)
    );
    assert_eq!(
        e.apply(deposit(1, 2, "-5")),
        Outcome::Rejected(RejectReason::NonPositiveAmount)
    );
    assert!(e.accounts().is_empty());
}

#[test]
fn duplicate_tx_id_ignored() {
    let mut e = Engine::new();
    e.apply(deposit(1, 1, "1.0"));
    assert_eq!(
        e.apply(deposit(1, 1, "9.0")),
        Outcome::Rejected(RejectReason::DuplicateTx)
    );
    assert_eq!(balances(&e, 1).0, amt("1.0"));
}

#[test]
fn withdrawal_success_and_insufficient() {
    let mut e = Engine::new();
    e.apply(deposit(1, 1, "5.0"));
    assert_eq!(e.apply(withdrawal(1, 2, "5.0")), Outcome::Applied);
    assert_eq!(balances(&e, 1).0, amt("0"));
    assert_eq!(
        e.apply(withdrawal(1, 3, "0.01")),
        Outcome::Rejected(RejectReason::InsufficientFunds)
    );
    assert_eq!(balances(&e, 1).0, amt("0"));
}

#[test]
fn withdrawal_for_unknown_client_fails_but_creates_zero_record() {
    let mut e = Engine::new();
    assert_eq!(
        e.apply(withdrawal(9, 1, "5.0")),
        Outcome::Rejected(RejectReason::InsufficientFunds)
    );
    assert_eq!(balances(&e, 9), (amt("0"), amt("0"), amt("0"), false));
}

#[test]
fn dispute_holds_funds_total_unchanged() {
    let mut e = Engine::new();
    e.apply(deposit(1, 1, "10.0"));
    assert_eq!(e.apply(dispute(1, 1)), Outcome::Applied);
    assert_eq!(balances(&e, 1), (amt("0"), amt("10.0"), amt("10.0"), false));
}

#[test]
fn dispute_unknown_mismatch_and_double_are_ignored() {
    let mut e = Engine::new();
    e.apply(deposit(1, 1, "10.0"));
    assert_eq!(
        e.apply(dispute(1, 99)),
        Outcome::Rejected(RejectReason::UnknownTx)
    );
    assert_eq!(
        e.apply(dispute(2, 1)),
        Outcome::Rejected(RejectReason::ClientMismatch)
    );
    assert_eq!(e.apply(dispute(1, 1)), Outcome::Applied);
    assert_eq!(
        e.apply(dispute(1, 1)),
        Outcome::Rejected(RejectReason::AlreadyDisputed)
    );
    assert_eq!(balances(&e, 1).1, amt("10.0"));
}

#[test]
fn withdrawals_are_not_disputable() {
    let mut e = Engine::new();
    e.apply(deposit(1, 1, "10.0"));
    e.apply(withdrawal(1, 2, "4.0"));
    assert_eq!(
        e.apply(dispute(1, 2)),
        Outcome::Rejected(RejectReason::NotDisputable)
    );
}

#[test]
fn dispute_can_drive_available_negative() {
    let mut e = Engine::new();
    e.apply(deposit(1, 1, "10.0"));
    e.apply(withdrawal(1, 2, "10.0")); // available now 0
    assert_eq!(e.apply(dispute(1, 1)), Outcome::Applied);
    assert_eq!(
        balances(&e, 1),
        (amt("-10.0"), amt("10.0"), amt("0"), false)
    );
}

#[test]
fn resolve_releases_held() {
    let mut e = Engine::new();
    e.apply(deposit(1, 1, "10.0"));
    e.apply(dispute(1, 1));
    assert_eq!(e.apply(resolve(1, 1)), Outcome::Applied);
    assert_eq!(balances(&e, 1), (amt("10.0"), amt("0"), amt("10.0"), false));
    // resolving again is a no-op (no longer disputed)
    assert_eq!(
        e.apply(resolve(1, 1)),
        Outcome::Rejected(RejectReason::NotDisputed)
    );
}

#[test]
fn resolve_of_non_disputed_ignored() {
    let mut e = Engine::new();
    e.apply(deposit(1, 1, "10.0"));
    assert_eq!(
        e.apply(resolve(1, 1)),
        Outcome::Rejected(RejectReason::NotDisputed)
    );
}

#[test]
fn chargeback_locks_and_removes_funds() {
    let mut e = Engine::new();
    e.apply(deposit(1, 1, "10.0"));
    e.apply(deposit(1, 2, "5.0"));
    e.apply(dispute(1, 1));
    assert_eq!(e.apply(chargeback(1, 1)), Outcome::Applied);
    assert_eq!(balances(&e, 1), (amt("5.0"), amt("0"), amt("5.0"), true));
}

#[test]
fn chargeback_of_non_disputed_ignored() {
    let mut e = Engine::new();
    e.apply(deposit(1, 1, "10.0"));
    assert_eq!(
        e.apply(chargeback(1, 1)),
        Outcome::Rejected(RejectReason::NotDisputed)
    );
    assert!(!balances(&e, 1).3);
}

#[test]
fn locked_account_freezes_all_later_events() {
    let mut e = Engine::new();
    e.apply(deposit(1, 1, "10.0"));
    e.apply(dispute(1, 1));
    e.apply(chargeback(1, 1)); // locks
    assert_eq!(
        e.apply(deposit(1, 3, "5.0")),
        Outcome::Rejected(RejectReason::AccountLocked)
    );
    assert_eq!(
        e.apply(withdrawal(1, 4, "1.0")),
        Outcome::Rejected(RejectReason::AccountLocked)
    );
    assert!(balances(&e, 1).3);
}

#[test]
fn redispute_after_resolve_is_allowed() {
    // dispute -> resolve returns the tx to "not disputed", so a second
    // dispute legitimately re-holds the funds (the state machine permits it).
    let mut e = Engine::new();
    e.apply(deposit(1, 1, "10.0"));
    assert_eq!(e.apply(dispute(1, 1)), Outcome::Applied);
    assert_eq!(e.apply(resolve(1, 1)), Outcome::Applied);
    assert_eq!(e.apply(dispute(1, 1)), Outcome::Applied);
    assert_eq!(balances(&e, 1), (amt("0"), amt("10.0"), amt("10.0"), false));
}

#[test]
fn four_dp_amount_is_preserved_exactly() {
    let mut e = Engine::new();
    e.apply(deposit(1, 1, "1.2345"));
    assert_eq!(balances(&e, 1).0, amt("1.2345"));
}

#[test]
fn fractional_arithmetic_has_no_float_drift() {
    // The reason for Decimal over f64: 0.1 + 0.2 must equal exactly 0.3.
    let mut e = Engine::new();
    e.apply(deposit(1, 1, "0.1"));
    e.apply(deposit(1, 2, "0.2"));
    assert_eq!(balances(&e, 1).0, amt("0.3"));
}

#[test]
fn total_invariant_holds_throughout() {
    let mut e = Engine::new();
    for tx in [
        deposit(1, 1, "10.0"),
        withdrawal(1, 2, "3.0"),
        deposit(1, 3, "1.2345"),
    ] {
        e.apply(tx);
        let (avail, held, total, _) = balances(&e, 1);
        assert_eq!(Some(total), avail.checked_add(held));
    }
}

const MAX: &str = "79228162514264337593543950335";

/// Two engines hold the same accounts.
fn same_accounts(a: &Engine, b: &Engine) -> bool {
    let (a, b) = (a.accounts(), b.accounts());
    a.len() == b.len() && a.iter().all(|(c, x)| b.iter().any(|(d, y)| c == d && x == y))
}

fn engine_after(events: &[Transaction]) -> Engine {
    let mut e = Engine::new();
    for event in events {
        e.apply(*event);
    }
    e
}

#[test]
fn zero_or_negative_withdrawal_rejected() {
    let mut e = Engine::new();
    assert_eq!(
        e.apply(withdrawal(1, 1, "0")),
        Outcome::Rejected(RejectReason::NonPositiveAmount)
    );
    assert_eq!(
        e.apply(withdrawal(1, 2, "-0.0001")),
        Outcome::Rejected(RejectReason::NonPositiveAmount)
    );
    assert!(e.accounts().is_empty());
}

#[test]
fn deposit_that_overflows_is_rejected_and_not_recorded() {
    let mut e = Engine::new();
    assert_eq!(e.apply(deposit(1, 1, MAX)), Outcome::Applied);
    assert_eq!(
        e.apply(deposit(1, 2, "1")),
        Outcome::Rejected(RejectReason::Overflow)
    );
    assert_eq!(balances(&e, 1).0, amt(MAX));
    assert_eq!(e.apply(dispute(1, 2)), Outcome::Rejected(RejectReason::UnknownTx));
}

#[test]
fn each_lifecycle_event_checks_tx_owner_and_state() {
    let mut e = Engine::new();
    e.apply(deposit(1, 1, "10.0"));
    assert_eq!(e.apply(resolve(1, 9)), Outcome::Rejected(RejectReason::UnknownTx));
    assert_eq!(e.apply(chargeback(1, 9)), Outcome::Rejected(RejectReason::UnknownTx));
    e.apply(dispute(1, 1));
    assert_eq!(e.apply(resolve(2, 1)), Outcome::Rejected(RejectReason::ClientMismatch));
    assert_eq!(e.apply(chargeback(2, 1)), Outcome::Rejected(RejectReason::ClientMismatch));
    assert_eq!(balances(&e, 1), (amt("0"), amt("10.0"), amt("10.0"), false));
}

#[test]
fn locked_account_rejects_the_dispute_lifecycle_too() {
    let mut e = Engine::new();
    e.apply(deposit(1, 1, "10.0"));
    e.apply(deposit(1, 2, "20.0"));
    e.apply(deposit(1, 3, "30.0"));
    e.apply(dispute(1, 1));
    e.apply(dispute(1, 2));
    assert_eq!(e.apply(chargeback(1, 1)), Outcome::Applied);
    let frozen = balances(&e, 1);
    assert_eq!(frozen, (amt("30"), amt("20"), amt("50"), true));
    assert_eq!(e.apply(dispute(1, 3)), Outcome::Rejected(RejectReason::AccountLocked));
    assert_eq!(e.apply(resolve(1, 2)), Outcome::Rejected(RejectReason::AccountLocked));
    assert_eq!(e.apply(chargeback(1, 2)), Outcome::Rejected(RejectReason::AccountLocked));
    assert_eq!(e.apply(chargeback(1, 1)), Outcome::Rejected(RejectReason::NotDisputed));
    assert_eq!(balances(&e, 1), frozen);
}

#[test]
fn an_event_twice_in_a_row_acts_once() {
    let events = [
        deposit(1, 1, "10.0"),
        withdrawal(1, 2, "4.0"),
        withdrawal(2, 3, "4.0"),
        dispute(1, 1),
        resolve(1, 1),
        dispute(1, 1),
        chargeback(1, 1),
        deposit(1, 4, "1.0"),
    ];
    let mut once = Engine::new();
    let mut twice = Engine::new();
    for event in events {
        once.apply(event);
        twice.apply(event);
        assert!(matches!(twice.apply(event), Outcome::Rejected(_)));
        assert!(same_accounts(&once, &twice));
    }
}

#[test]
fn a_tx_id_stays_taken_for_withdrawals_and_other_clients() {
    let mut e = Engine::new();
    e.apply(deposit(1, 1, "10.0"));
    e.apply(dispute(1, 1));
    e.apply(resolve(1, 1));
    assert_eq!(
        e.apply(withdrawal(1, 1, "1.0")),
        Outcome::Rejected(RejectReason::DuplicateTx)
    );
    assert_eq!(
        e.apply(deposit(2, 1, "1.0")),
        Outcome::Rejected(RejectReason::DuplicateTx)
    );
    assert_eq!(e.accounts().len(), 1);
}

#[test]
fn an_account_is_the_fold_of_its_own_events() {
    let mixed = engine_after(&[
        deposit(1, 1, "10.0"),
        deposit(2, 2, "7.5"),
        dispute(2, 1),
        withdrawal(2, 3, "2.5"),
        dispute(1, 1),
        dispute(2, 2),
        resolve(1, 1),
        chargeback(2, 2),
    ]);
    let alone = engine_after(&[
        deposit(2, 2, "7.5"),
        dispute(2, 1),
        withdrawal(2, 3, "2.5"),
        dispute(2, 2),
        chargeback(2, 2),
    ]);
    assert_eq!(balances(&mixed, 2), balances(&alone, 2));
    assert_eq!(balances(&mixed, 2), (amt("-2.5"), amt("0"), amt("-2.5"), true));
}

#[test]
fn money_is_conserved_event_by_event() {
    let mut e = Engine::new();
    let mut worth = amt("0");
    for (event, gain) in [
        (deposit(1, 1, "10.25"), "10.25"),
        (deposit(1, 2, "0.0001"), "0.0001"),
        (withdrawal(1, 3, "4.1"), "-4.1"),
        (withdrawal(1, 4, "100"), "0"),
        (dispute(1, 1), "0"),
        (resolve(1, 1), "0"),
        (dispute(1, 2), "0"),
        (chargeback(1, 2), "-0.0001"),
        (deposit(1, 5, "3"), "0"),
    ] {
        e.apply(event);
        worth = worth.checked_add(amt(gain)).unwrap();
        assert_eq!(balances(&e, 1).2, worth);
    }
}

#[test]
fn amounts_up_to_the_exact_limit_are_not_rounded() {
    // The largest value that leaves room for four decimal places.
    let limit = "7922816251426433759354395.0335";
    let mut e = Engine::new();
    assert_eq!(e.apply(deposit(1, 1, "7922816251426433759354394.9999")), Outcome::Applied);
    assert_eq!(e.apply(deposit(1, 2, "0.0336")), Outcome::Applied);
    assert_eq!(balances(&e, 1).0, amt(limit));
    e.apply(dispute(1, 2));
    assert_eq!(balances(&e, 1).1, amt("0.0336"));
    e.apply(resolve(1, 2));
    assert_eq!(balances(&e, 1), (amt(limit), amt("0"), amt(limit), false));
}

#[test]
fn held_is_not_negative_even_where_sums_are_rounded() {
    let mut e = Engine::new();
    e.apply(deposit(1, 1, "0.4"));
    e.apply(deposit(1, 2, MAX));
    assert_eq!(balances(&e, 1).0, amt(MAX));
    assert_eq!(e.apply(dispute(1, 1)), Outcome::Applied);
    assert_eq!(e.apply(dispute(1, 2)), Outcome::Applied);
    assert_eq!(e.apply(resolve(1, 2)), Outcome::Applied);
    assert_eq!(
        e.apply(resolve(1, 1)),
        Outcome::Rejected(RejectReason::InsufficientFunds)
    );
    assert_eq!(
        e.apply(chargeback(1, 1)),
        Outcome::Rejected(RejectReason::InsufficientFunds)
    );
    assert_eq!(balances(&e, 1), (amt(MAX), amt("0"), amt(MAX), false));
}

#[test]
fn deposit_that_takes_the_total_out_of_range_is_rejected() {
    let mut e = Engine::new();
    e.apply(deposit(1, 1, MAX));
    e.apply(dispute(1, 1));
    assert_eq!(
        e.apply(deposit(1, 2, MAX)),
        Outcome::Rejected(RejectReason::Overflow)
    );
    assert_eq!(balances(&e, 1), (amt("0"), amt(MAX), amt(MAX), false));
}

#[test]
fn resolve_puts_everything_back() {
    let events = [deposit(1, 1, "10.50"), deposit(2, 2, "3"), withdrawal(1, 3, "4.25")];
    let before = engine_after(&events);
    let mut e = engine_after(&events);
    assert_eq!(e.apply(dispute(1, 1)), Outcome::Applied);
    assert!(!same_accounts(&e, &before));
    assert_eq!(e.apply(resolve(1, 1)), Outcome::Applied);
    assert!(same_accounts(&e, &before));
    assert_eq!(balances(&e, 1), balances(&before, 1));
    assert_eq!(e.apply(resolve(1, 1)), Outcome::Rejected(RejectReason::NotDisputed));
    assert_eq!(e.apply(dispute(1, 1)), Outcome::Applied);
}

#[test]
fn reasons_in_words() {
    let words = [
        (RejectReason::NonPositiveAmount, "amount is not positive"),
        (RejectReason::DuplicateTx, "duplicate tx id"),
        (RejectReason::AccountLocked, "account is locked"),
        (RejectReason::InsufficientFunds, "insufficient funds"),
        (RejectReason::Overflow, "arithmetic overflow"),
        (RejectReason::UnknownTx, "references unknown tx"),
        (RejectReason::ClientMismatch, "client mismatch"),
        (RejectReason::NotDisputable, "tx is not disputable (not a deposit)"),
        (RejectReason::NotDisputed, "tx is not under dispute"),
        (RejectReason::AlreadyDisputed, "tx already disputed"),
        (RejectReason::UnknownAccount, "references unknown account"),
    ];
    for (reason, text) in words {
        assert_eq!(reason.to_text(), text);
        assert!(!text.is_empty());
        for (other, _) in words {
            assert_eq!(reason.to_text() == other.to_text(), reason == other);
        }
    }
    assert_eq!(
        RejectReason::from(BalanceError::InsufficientFunds),
        RejectReason::InsufficientFunds
    );
    assert_eq!(RejectReason::from(BalanceError::Overflow), RejectReason::Overflow);
}
