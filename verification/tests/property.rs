//! Whatever sequence of events the engine is fed, the core invariants hold for
//! every resulting account, and it agrees with a naive model of the rules.

use std::collections::HashMap;

use payments_engine::{Amount, ClientId, Engine, Transaction, TxId};

/// A small deterministic generator.
struct Random(u64);

impl Random {
    fn below(&mut self, n: u64) -> u64 {
        self.0 = self.0.wrapping_mul(6364136223846793005).wrapping_add(1442695040888963407);
        (self.0 >> 33) % n
    }

    /// A bounded alphabet of clients and txs: small enough that disputes and
    /// chargebacks frequently hit existing transactions, wide enough that long
    /// sequences keep producing fresh deposits.
    fn event(&mut self) -> Transaction {
        let client = ClientId(1 + self.below(5) as u16);
        let tx = TxId(1 + self.below(100) as u32);
        // Amounts up to 4 dp.
        let amount = Amount::new(self.below(1_000_001) as i64, 4);
        match self.below(5) {
            0 => Transaction::Deposit { client, tx, amount },
            1 => Transaction::Withdrawal { client, tx, amount },
            2 => Transaction::Dispute { client, tx },
            3 => Transaction::Resolve { client, tx },
            _ => Transaction::Chargeback { client, tx },
        }
    }

    fn events(&mut self) -> Vec<Transaction> {
        let n = self.below(1000);
        (0..n).map(|_| self.event()).collect()
    }
}

#[test]
fn invariants_hold_for_any_event_sequence() {
    let mut random = Random(1);
    for _ in 0..256 {
        let mut engine = Engine::new();
        for event in random.events() {
            engine.apply(event);
            for (_, account) in engine.accounts() {
                // total is derived as available + held: must never desync.
                assert_eq!(
                    Some(account.total()),
                    account.available().checked_add(account.held())
                );
                // held funds can only ever be released back, never go negative.
                assert!(!account.held().less_than(Amount::zero()));
                // only a charged-back account shows a loss.
                assert!(account.is_locked() || !account.total().less_than(Amount::zero()));
            }
        }
    }
}

/// Expected state of one account in the model, in ten-thousandths.
#[derive(Clone, Default, PartialEq, Eq)]
struct RefAccount {
    available: i64,
    held: i64,
    locked: bool,
}

/// A ledger entry in the model.
#[derive(Clone)]
struct RefEntry {
    client: u16,
    amount: i64,
    is_deposit: bool,
    disputed: bool,
}

/// An amount in ten-thousandths.
fn units(amount: Amount) -> i64 {
    let text = amount.to_text();
    let (whole, fraction) = match text.split_once('.') {
        Some((whole, fraction)) => (whole.to_string(), fraction.to_string()),
        None => (text, String::new()),
    };
    format!("{}{:0<4}", whole, fraction).parse().unwrap()
}

/// A deliberately naive, independent model of the rules: plain `+=` and `-=` on raw
/// maps, with no account abstraction and no checked arithmetic. It shares no code
/// with the engine, so any divergence in how the rules are applied (guard order, a
/// flipped sign, a wrong condition) shows up as a mismatch.
fn reference(events: &[Transaction]) -> HashMap<u16, RefAccount> {
    let mut accounts: HashMap<u16, RefAccount> = HashMap::new();
    let mut ledger: HashMap<u32, RefEntry> = HashMap::new();

    for event in events {
        match *event {
            Transaction::Deposit { client, tx, amount } => {
                let amount = units(amount);
                if amount <= 0 || ledger.contains_key(&tx.0) {
                    continue;
                }
                let acct = accounts.entry(client.0).or_default();
                if acct.locked {
                    continue;
                }
                acct.available += amount;
                ledger.insert(
                    tx.0,
                    RefEntry {
                        client: client.0,
                        amount,
                        is_deposit: true,
                        disputed: false,
                    },
                );
            }
            Transaction::Withdrawal { client, tx, amount } => {
                let amount = units(amount);
                if amount <= 0 || ledger.contains_key(&tx.0) {
                    continue;
                }
                let acct = accounts.entry(client.0).or_default();
                if acct.locked || acct.available < amount {
                    continue;
                }
                acct.available -= amount;
                ledger.insert(
                    tx.0,
                    RefEntry {
                        client: client.0,
                        amount,
                        is_deposit: false,
                        disputed: false,
                    },
                );
            }
            Transaction::Dispute { client, tx } => {
                let Some(entry) = ledger.get_mut(&tx.0) else {
                    continue;
                };
                if entry.client != client.0 || !entry.is_deposit || entry.disputed {
                    continue;
                }
                let Some(acct) = accounts.get_mut(&client.0) else {
                    continue;
                };
                if acct.locked {
                    continue;
                }
                acct.available -= entry.amount;
                acct.held += entry.amount;
                entry.disputed = true;
            }
            Transaction::Resolve { client, tx } => {
                let Some(entry) = ledger.get_mut(&tx.0) else {
                    continue;
                };
                if entry.client != client.0 || !entry.disputed {
                    continue;
                }
                let Some(acct) = accounts.get_mut(&client.0) else {
                    continue;
                };
                if acct.locked {
                    continue;
                }
                acct.held -= entry.amount;
                acct.available += entry.amount;
                entry.disputed = false;
            }
            Transaction::Chargeback { client, tx } => {
                let Some(entry) = ledger.get_mut(&tx.0) else {
                    continue;
                };
                if entry.client != client.0 || !entry.disputed {
                    continue;
                }
                let Some(acct) = accounts.get_mut(&client.0) else {
                    continue;
                };
                if acct.locked {
                    continue;
                }
                acct.held -= entry.amount;
                acct.locked = true;
                entry.disputed = false;
            }
        }
    }
    accounts
}

#[test]
fn engine_matches_reference_model() {
    let mut random = Random(2);
    for _ in 0..256 {
        let events = random.events();
        let mut engine = Engine::new();
        for event in &events {
            engine.apply(*event);
        }

        let expected = reference(&events);

        let got: HashMap<u16, RefAccount> = engine
            .accounts()
            .into_iter()
            .map(|(client, a)| {
                let account = RefAccount {
                    available: units(a.available()),
                    held: units(a.held()),
                    locked: a.is_locked(),
                };
                (client.0, account)
            })
            .collect();

        // Same set of clients...
        assert_eq!(got.len(), expected.len());
        // ...and identical balances and lock state for each.
        for (client, want) in &expected {
            let have = got.get(client).expect("engine is missing a client the model produced");
            assert_eq!(have.available, want.available);
            assert_eq!(have.held, want.held);
            assert_eq!(have.locked, want.locked);
        }
    }
}
