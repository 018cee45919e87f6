use payments_engine::{Account, Amount, BalanceError};

fn amt(s: &str) -> Amount {
    s.parse().unwrap()
}

const MAX: &str = "79228162514264337593543950335";

#[test]
fn total_is_available_plus_held() {
    let mut a = Account::default();
    a.credit(amt("10")).unwrap();
    a.hold(amt("3")).unwrap();
    assert_eq!(a.available(), amt("7"));
    assert_eq!(a.held(), amt("3"));
    assert_eq!(a.total(), amt("10"));
}

#[test]
fn debit_rejects_insufficient_funds() {
    let mut a = Account::default();
    a.credit(amt("5")).unwrap();
    assert_eq!(a.debit(amt("6")), Err(BalanceError::InsufficientFunds));
    assert_eq!(a.available(), amt("5"));
}

#[test]
fn hold_may_go_negative() {
    let mut a = Account::default();
    a.credit(amt("10")).unwrap();
    a.debit(amt("10")).unwrap();
    a.hold(amt("10")).unwrap();
    assert_eq!(a.available(), amt("-10"));
    assert_eq!(a.held(), amt("10"));
    assert_eq!(a.total(), amt("0"));
}

#[test]
fn chargeback_removes_held_and_locks() {
    let mut a = Account::default();
    a.credit(amt("10")).unwrap();
    a.hold(amt("10")).unwrap();
    a.chargeback(amt("10")).unwrap();
    assert_eq!(a.total(), amt("0"));
    assert!(a.is_locked());
}

#[test]
fn release_undoes_hold() {
    let mut a = Account::default();
    a.credit(amt("10.5")).unwrap();
    let before = a;
    a.hold(amt("4.25")).unwrap();
    assert_ne!(a, before);
    a.release(amt("4.25")).unwrap();
    assert_eq!(a, before);
}

#[test]
fn overflow_leaves_the_account_untouched() {
    let mut a = Account::default();
    a.credit(amt(MAX)).unwrap();
    let full = a;
    assert_eq!(a.credit(amt("1")), Err(BalanceError::Overflow));
    assert_eq!(a, full);
    assert_eq!(a.debit(amt("-1")), Err(BalanceError::Overflow));
    assert_eq!(a, full);

    a.hold(amt(MAX)).unwrap();
    let held = a;
    assert_eq!(a.hold(amt("1")), Err(BalanceError::Overflow));
    assert_eq!(a.release(amt("-1")), Err(BalanceError::Overflow));
    assert_eq!(a.chargeback(amt("-1")), Err(BalanceError::Overflow));
    assert_eq!(a, held);
    assert!(!a.is_locked());
}

#[test]
fn held_never_goes_negative() {
    let mut a = Account::default();
    a.credit(amt("10")).unwrap();
    a.hold(amt("3")).unwrap();
    let before = a;
    assert_eq!(a.release(amt("5")), Err(BalanceError::InsufficientFunds));
    assert_eq!(a, before);
    assert_eq!(a.chargeback(amt("3.0001")), Err(BalanceError::InsufficientFunds));
    assert_eq!(a, before);
    assert!(!a.is_locked());
    assert_eq!(a.hold(amt("-4")), Err(BalanceError::InsufficientFunds));
    assert_eq!(a, before);
    a.release(amt("3")).unwrap();
    assert_eq!((a.available(), a.held()), (amt("10"), amt("0")));
}

#[test]
fn an_operation_that_takes_the_total_out_of_range_is_refused() {
    let mut a = Account::default();
    assert_eq!(a.credit(amt(MAX)), Ok(()));
    assert_eq!(a.hold(amt(MAX)), Ok(()));
    assert_eq!(a.credit(amt(MAX)), Err(BalanceError::Overflow));
    assert_eq!((a.available(), a.held(), a.total()), (amt("0"), amt(MAX), amt(MAX)));
    assert_eq!(a.credit(amt("0.5")), Err(BalanceError::Overflow));
    assert_eq!(a.total(), amt(MAX));
}
