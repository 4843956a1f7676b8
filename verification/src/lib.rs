//! Transactional ledger core of a personal-finance tracker.
//!
//! The crate keeps accounts and their transactions in an in-memory ledger,
//! maintains account balances consistent with transaction history, detects
//! and synchronizes paired transfer transactions between accounts, and
//! resolves exchange rates between currencies from live market rates and
//! user-supplied overrides. Persistence and the user interface live outside
//! this crate and talk to it through plain values.

pub mod balances;
pub mod data;
pub mod laws;
pub mod ledger;
pub mod model;
pub mod rates;
pub mod settings;
pub mod textutil;

pub use balances::{calculate_account_balances, CurrencySum};
pub use data::{
    Account, CreateBrokerageTransactionArgs, CreateTransactionArgs, LedgerError, Rule,
    Transaction, UpdateBrokerageTransactionArgs, UpdateTransactionArgs,
};
pub use ledger::Ledger;
pub use rates::{resolve_rate, Rate, RateMap};
pub use settings::settings_file_path_for_dir;
