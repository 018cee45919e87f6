//! The per-client account projection and its balance operations.
//!
//! Fields are private; every mutation goes through a method that upholds the
//! invariants: checked arithmetic, `held >= 0`, and a derived `total` that is
//! always in range and can't desync. `available` and `total` may legitimately be
//! negative (a realized chargeback loss), so they are never clamped.

use vstd::prelude::*;

use crate::amount::Amount;
use crate::number::Number;
use crate::number::lemma_negated_value;
use crate::number::lemma_sum_keeps_sign;
use crate::number::lemma_value_sign;

verus! {

/// Why a balance operation could not be applied. Distinguishing these lets the
/// engine report an accurate reason (insufficient funds vs. range overflow).
#[derive(Debug, Clone, Copy, PartialEq, Eq, Structural)]
pub enum BalanceError {
    /// The operation takes more than there is: a withdrawal more than the
    /// available funds, a release or chargeback more than the held ones.
    InsufficientFunds,
    /// The operation would take a balance or the total out of the decimal range.
    Overflow,
}

/// A client's balances plus its frozen flag. `total` is derived, never stored.
#[derive(Debug, Clone, Copy, PartialEq, Eq)]
pub struct Account {
    available: Amount,
    held: Amount,
    locked: bool,
}

/// The balances of an account, as mathematical numbers.
pub struct Balances {
    pub available: Number,
    pub held: Number,
    pub locked: bool,
}

impl Balances {
    /// A new account: empty and not frozen.
    pub open spec fn empty() -> Balances {
        Balances { available: Number::zero(), held: Number::zero(), locked: false }
    }

    /// What every account upholds: both balances are decimals, held funds are
    /// never negative, and the total is in range.
    pub open spec fn valid(self) -> bool {
        &&& self.available.fits()
        &&& self.held.fits()
        &&& self.held.value() >= 0
        &&& self.total() is Some
    }

    /// What the account is worth, as the decimal sum of its two balances; `None`
    /// where that is out of range.
    pub open spec fn total(self) -> Option<Number> {
        self.available.plus(self.held)
    }

    /// What the account is worth exactly.
    pub open spec fn worth(self) -> int {
        self.available.value() + self.held.value()
    }

    /// The balances that an operation comes to: refused where a balance or the
    /// total is out of range.
    pub open spec fn settled(
        available: Option<Number>,
        held: Option<Number>,
        locked: bool,
    ) -> Result<Balances, BalanceError> {
        match (available, held) {
            (Some(available), Some(held)) => if available.plus(held) is Some {
                Ok(Balances { available, held, locked })
            } else {
                Err(BalanceError::Overflow)
            },
            _ => Err(BalanceError::Overflow),
        }
    }

    /// The balances after `amount` has come in.
    pub open spec fn credited(self, amount: Number) -> Result<Balances, BalanceError> {
        Balances::settled(self.available.plus(amount), Some(self.held), self.locked)
    }

    /// The balances after `amount` has gone out, which takes that much available
    /// funds.
    pub open spec fn debited(self, amount: Number) -> Result<Balances, BalanceError> {
        if self.available.value() < amount.value() {
            Err(BalanceError::InsufficientFunds)
        } else {
            Balances::settled(self.available.minus(amount), Some(self.held), self.locked)
        }
    }

    /// The balances after `amount` has moved from available to held. A negative
    /// amount moves the other way, which takes that much held funds.
    pub open spec fn holding(self, amount: Number) -> Result<Balances, BalanceError> {
        if self.held.value() + amount.value() < 0 {
            Err(BalanceError::InsufficientFunds)
        } else {
            Balances::settled(self.available.minus(amount), self.held.plus(amount), self.locked)
        }
    }

    /// The balances after `amount` has moved from held to available, which takes
    /// that much held funds.
    pub open spec fn released(self, amount: Number) -> Result<Balances, BalanceError> {
        if self.held.value() < amount.value() {
            Err(BalanceError::InsufficientFunds)
        } else {
            Balances::settled(self.available.plus(amount), self.held.minus(amount), self.locked)
        }
    }

    /// The balances after `amount` has been taken out of held, which takes that
    /// much held funds and freezes the account.
    pub open spec fn charged_back(self, amount: Number) -> Result<Balances, BalanceError> {
        if self.held.value() < amount.value() {
            Err(BalanceError::InsufficientFunds)
        } else {
            Balances::settled(Some(self.available), self.held.minus(amount), true)
        }
    }
}

/// Whether a balance operation did what `outcome` says: the account changed to
/// the balances given, or stayed as it was and the error was returned.
pub open spec fn became(
    before: Balances,
    after: Balances,
    returned: Result<(), BalanceError>,
    outcome: Result<Balances, BalanceError>,
) -> bool {
    match outcome {
        Ok(balances) => returned is Ok && after == balances,
        Err(error) => returned == Err::<(), BalanceError>(error) && after == before,
    }
}

/// The number in an optional amount.
pub open spec fn number_in(amount: Option<Amount>) -> Option<Number> {
    match amount {
        Some(amount) => Some(amount@),
        None => None,
    }
}

impl View for Account {
    type V = Balances;

    closed spec fn view(&self) -> Balances {
        Balances { available: self.available@, held: self.held@, locked: self.locked }
    }
}

impl Default for Account {
    /// A new account: empty and not frozen.
    fn default() -> (r: Account)
        ensures
            r@ == Balances::empty(),
    {
        proof {
            lemma_value_sign(Number::zero());
        }
        Account { available: Amount::zero(), held: Amount::zero(), locked: false }
    }
}

impl Account {
    #[verifier::type_invariant]
    spec fn upheld(self) -> bool {
        self.held@.value() >= 0 && self.available@.plus(self.held@) is Some
    }

    pub fn available(&self) -> (r: Amount)
        ensures
            r@ == self@.available,
    {
        self.available
    }

    pub fn held(&self) -> (r: Amount)
        ensures
            r@ == self@.held,
            r@.value() >= 0,
    {
        proof {
            use_type_invariant(self);
        }
        self.held
    }

    /// Derived as `available + held`; never stored, so it can't fall out of sync.
    pub fn total(&self) -> (r: Amount)
        ensures
            self@.total() == Some(r@),
    {
        proof {
            use_type_invariant(self);
        }
        self.available.checked_add(self.held).unwrap()
    }

    pub fn is_locked(&self) -> (r: bool)
        ensures
            r == self@.locked,
    {
        self.locked
    }

    /// Take on new balances, unless one of them or the total is out of range.
    fn settle(
        &mut self,
        available: Option<Amount>,
        held: Option<Amount>,
        locked: bool,
    ) -> (r: Result<(), BalanceError>)
        requires
            held matches Some(held) ==> held@.value() >= 0,
        ensures
            became(
                old(self)@,
                final(self)@,
                r,
                Balances::settled(number_in(available), number_in(held), locked),
            ),
    {
        match (available, held) {
            (Some(available), Some(held)) => {
                if available.checked_add(held).is_none() {
                    return Err(BalanceError::Overflow);
                }
                *self = Account { available, held, locked };
                Ok(())
            },
            _ => Err(BalanceError::Overflow),
        }
    }

    /// Credit available funds (deposit).
    pub fn credit(&mut self, amount: Amount) -> (r: Result<(), BalanceError>)
        ensures
            became(old(self)@, final(self)@, r, old(self)@.credited(amount@)),
    {
        proof {
            use_type_invariant(&*self);
        }
        let available = self.available.checked_add(amount);
        self.settle(available, Some(self.held), self.locked)
    }

    /// Debit available funds (withdrawal). Fails (no change) if funds are
    /// insufficient: a withdrawal can never drive the balance negative.
    pub fn debit(&mut self, amount: Amount) -> (r: Result<(), BalanceError>)
        ensures
            became(old(self)@, final(self)@, r, old(self)@.debited(amount@)),
    {
        proof {
            use_type_invariant(&*self);
        }
        if self.available.less_than(amount) {
            return Err(BalanceError::InsufficientFunds);
        }
        let available = self.available.checked_sub(amount);
        self.settle(available, Some(self.held), self.locked)
    }

    /// Move funds from available to held (dispute). May drive available
    /// negative: that is intentional and not an error. Computes both new
    /// balances before committing, so a failure leaves the account untouched.
    pub fn hold(&mut self, amount: Amount) -> (r: Result<(), BalanceError>)
        ensures
            became(old(self)@, final(self)@, r, old(self)@.holding(amount@)),
    {
        proof {
            lemma_negated_value(self.held@);
        }
        if amount.less_than(self.held.negated()) {
            return Err(BalanceError::InsufficientFunds);
        }
        let available = self.available.checked_sub(amount);
        let held = self.held.checked_add(amount);
        proof {
            lemma_sum_keeps_sign(self.held@, amount@);
        }
        self.settle(available, held, self.locked)
    }

    /// Move funds from held back to available (resolve). Fails (no change) if less
    /// is held: a release can never drive the held funds negative.
    pub fn release(&mut self, amount: Amount) -> (r: Result<(), BalanceError>)
        ensures
            became(old(self)@, final(self)@, r, old(self)@.released(amount@)),
    {
        if self.held.less_than(amount) {
            return Err(BalanceError::InsufficientFunds);
        }
        let held = self.held.checked_sub(amount);
        let available = self.available.checked_add(amount);
        proof {
            lemma_negated_value(amount@);
            lemma_sum_keeps_sign(self.held@, amount@.negated());
        }
        self.settle(available, held, self.locked)
    }

    /// Remove held funds and freeze the account (chargeback). `total` drops by
    /// `amount` because `held` does. Fails (no change) if less is held.
    pub fn chargeback(&mut self, amount: Amount) -> (r: Result<(), BalanceError>)
        ensures
            became(old(self)@, final(self)@, r, old(self)@.charged_back(amount@)),
    {
        if self.held.less_than(amount) {
            return Err(BalanceError::InsufficientFunds);
        }
        let held = self.held.checked_sub(amount);
        proof {
            lemma_negated_value(amount@);
            lemma_sum_keeps_sign(self.held@, amount@.negated());
        }
        self.settle(Some(self.available), held, true)
    }
}

} // verus!
