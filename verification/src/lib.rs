//! A streaming, event-sourced payments engine.
//!
//! Each CSV row is an immutable event; [`Engine::apply`] folds events into
//! per-client [`Account`] projections. Parsing ([`io`], [`types`]) is separate
//! from applying ([`engine`]), with [`Transaction`] as the only contract between
//! them. What the engine does to its state is stated as mathematics in
//! [`engine::State`], over the decimals of [`number`].

pub mod account;
pub mod amount;
pub mod books;
pub mod conservation;
pub mod decimal;
pub mod engine;
pub mod error;
pub mod io;
pub mod laws;
pub mod number;
pub mod printing;
pub mod processing;
pub mod projection;
pub mod rows;
pub mod text;
pub mod types;

pub use account::Account;
pub use account::BalanceError;
pub use amount::Amount;
pub use engine::Engine;
pub use engine::Outcome;
pub use engine::RejectReason;
pub use error::EngineError;
pub use io::TransactionReader;
pub use io::write_accounts;
pub use processing::Stats;
pub use processing::run;
pub use types::ClientId;
pub use types::Record;
pub use types::Transaction;
pub use types::TxId;
pub use types::ValueKind;
