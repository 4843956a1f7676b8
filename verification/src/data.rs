//! The ledger's data: accounts, transactions, categorization rules, the
//! errors operations can raise, and the ghost views of all of them.

use crate::rates::Rate;
use vstd::prelude::*;

verus! {

/// A named money container with a running balance in minor units of its
/// own currency. `currency` of `None` means the global target currency.
/// `exchange_rate` is derived on read, never stored; it defaults to one.
#[derive(Debug)]
pub struct Account {
    pub id: i64,
    pub name: String,
    pub balance: i64,
    pub currency: Option<String>,
    pub kind: String,
    pub exchange_rate: Rate,
}

/// One signed monetary event attributed to one account. `amount` is in
/// minor units, positive for a credit to the owning account. `linked`
/// points to the counterpart row of a transfer pair, which points back.
#[derive(Debug)]
pub struct Transaction {
    pub id: i64,
    pub account_id: i64,
    pub date: String,
    pub payee: String,
    pub notes: Option<String>,
    pub category: Option<String>,
    pub amount: i64,
    pub ticker: Option<String>,
    pub shares: Option<i64>,
    pub price_per_share: Option<i64>,
    pub fee: Option<i64>,
    pub currency: Option<String>,
    pub linked: Option<i64>,
}

/// One ordered pattern-match-to-action categorization record.
#[derive(Debug)]
pub struct Rule {
    pub id: i64,
    pub priority: i64,
    pub match_field: String,
    pub match_pattern: String,
    pub action_field: String,
    pub action_value: String,
}

/// What a ledger operation can fail with.
#[derive(Clone, Copy, Debug, PartialEq, Eq, Structural)]
pub enum LedgerError {
    /// An empty or duplicate account name.
    Validation,
    /// An operation on an id that does not exist, or a reference to one.
    NotFound,
    /// A balance or amount that does not fit the stored integer width.
    Overflow,
}

impl LedgerError {
    /// A human-readable description of the error.
    pub fn message(&self) -> String {
        match self {
            LedgerError::Validation => "account name is empty or already taken".to_owned(),
            LedgerError::NotFound => "no row with the given id".to_owned(),
            LedgerError::Overflow => "amount out of range".to_owned(),
        }
    }
}

/// The ghost value of an optional machine integer.
pub open spec fn opt_int(o: Option<i64>) -> Option<int> {
    match o {
        Some(v) => Some(v as int),
        None => None,
    }
}

/// An account as specifications see it.
#[verifier::ext_equal]
pub struct AccountV {
    pub id: int,
    pub name: Seq<char>,
    pub balance: int,
    pub currency: Option<Seq<char>>,
    pub kind: Seq<char>,
    pub rate: Rate,
}

/// A transaction as specifications see it.
#[verifier::ext_equal]
pub struct TxV {
    pub id: int,
    pub account_id: int,
    pub date: Seq<char>,
    pub payee: Seq<char>,
    pub notes: Option<Seq<char>>,
    pub category: Option<Seq<char>>,
    pub amount: int,
    pub ticker: Option<Seq<char>>,
    pub shares: Option<int>,
    pub price_per_share: Option<int>,
    pub fee: Option<int>,
    pub currency: Option<Seq<char>>,
    pub linked: Option<int>,
}

/// A rule as specifications see it.
#[verifier::ext_equal]
pub struct RuleV {
    pub id: int,
    pub priority: int,
    pub match_field: Seq<char>,
    pub match_pattern: Seq<char>,
    pub action_field: Seq<char>,
    pub action_value: Seq<char>,
}

impl View for Account {
    type V = AccountV;

    open spec fn view(&self) -> AccountV {
        AccountV {
            id: self.id as int,
            name: self.name@,
            balance: self.balance as int,
            currency: self.currency.deep_view(),
            kind: self.kind@,
            rate: self.exchange_rate,
        }
    }
}

impl View for Transaction {
    type V = TxV;

    open spec fn view(&self) -> TxV {
        TxV {
            id: self.id as int,
            account_id: self.account_id as int,
            date: self.date@,
            payee: self.payee@,
            notes: self.notes.deep_view(),
            category: self.category.deep_view(),
            amount: self.amount as int,
            ticker: self.ticker.deep_view(),
            shares: opt_int(self.shares),
            price_per_share: opt_int(self.price_per_share),
            fee: opt_int(self.fee),
            currency: self.currency.deep_view(),
            linked: opt_int(self.linked),
        }
    }
}

impl View for Rule {
    type V = RuleV;

    open spec fn view(&self) -> RuleV {
        RuleV {
            id: self.id as int,
            priority: self.priority as int,
            match_field: self.match_field@,
            match_pattern: self.match_pattern@,
            action_field: self.action_field@,
            action_value: self.action_value@,
        }
    }
}

/// The inputs of `create_transaction`.
#[derive(Debug)]
pub struct CreateTransactionArgs {
    pub account_id: i64,
    pub date: String,
    pub payee: String,
    pub notes: Option<String>,
    pub category: Option<String>,
    pub amount: i64,
    pub ticker: Option<String>,
    pub shares: Option<i64>,
    pub price_per_share: Option<i64>,
    pub fee: Option<i64>,
    pub currency: Option<String>,
}

/// The inputs of `create_transaction`, as specifications see them.
#[verifier::ext_equal]
pub struct CreateTxArgsV {
    pub account_id: int,
    pub date: Seq<char>,
    pub payee: Seq<char>,
    pub notes: Option<Seq<char>>,
    pub category: Option<Seq<char>>,
    pub amount: int,
    pub ticker: Option<Seq<char>>,
    pub shares: Option<int>,
    pub price_per_share: Option<int>,
    pub fee: Option<int>,
    pub currency: Option<Seq<char>>,
}

impl View for CreateTransactionArgs {
    type V = CreateTxArgsV;

    open spec fn view(&self) -> CreateTxArgsV {
        CreateTxArgsV {
            account_id: self.account_id as int,
            date: self.date@,
            payee: self.payee@,
            notes: self.notes.deep_view(),
            category: self.category.deep_view(),
            amount: self.amount as int,
            ticker: self.ticker.deep_view(),
            shares: opt_int(self.shares),
            price_per_share: opt_int(self.price_per_share),
            fee: opt_int(self.fee),
            currency: self.currency.deep_view(),
        }
    }
}

/// The inputs of `update_transaction`.
#[derive(Debug)]
pub struct UpdateTransactionArgs {
    pub id: i64,
    pub account_id: i64,
    pub date: String,
    pub payee: String,
    pub notes: Option<String>,
    pub category: Option<String>,
    pub amount: i64,
    pub currency: Option<String>,
}

/// The inputs of `update_transaction`, as specifications see them.
#[verifier::ext_equal]
pub struct UpdateTxArgsV {
    pub id: int,
    pub account_id: int,
    pub date: Seq<char>,
    pub payee: Seq<char>,
    pub notes: Option<Seq<char>>,
    pub category: Option<Seq<char>>,
    pub amount: int,
    pub currency: Option<Seq<char>>,
}

impl View for UpdateTransactionArgs {
    type V = UpdateTxArgsV;

    open spec fn view(&self) -> UpdateTxArgsV {
        UpdateTxArgsV {
            id: self.id as int,
            account_id: self.account_id as int,
            date: self.date@,
            payee: self.payee@,
            notes: self.notes.deep_view(),
            category: self.category.deep_view(),
            amount: self.amount as int,
            currency: self.currency.deep_view(),
        }
    }
}

/// The inputs of `create_brokerage_transaction`: an investment trade with
/// its cash leg.
#[derive(Debug)]
pub struct CreateBrokerageTransactionArgs {
    pub brokerage_account_id: i64,
    pub cash_account_id: i64,
    pub date: String,
    pub ticker: String,
    pub shares: i64,
    pub price_per_share: i64,
    pub fee: i64,
    pub is_buy: bool,
}

/// The inputs of `create_brokerage_transaction`, as specifications see
/// them.
#[verifier::ext_equal]
pub struct CreateBrokerageArgsV {
    pub brokerage_account_id: int,
    pub cash_account_id: int,
    pub date: Seq<char>,
    pub ticker: Seq<char>,
    pub shares: int,
    pub price_per_share: int,
    pub fee: int,
    pub is_buy: bool,
}

impl View for CreateBrokerageTransactionArgs {
    type V = CreateBrokerageArgsV;

    open spec fn view(&self) -> CreateBrokerageArgsV {
        CreateBrokerageArgsV {
            brokerage_account_id: self.brokerage_account_id as int,
            cash_account_id: self.cash_account_id as int,
            date: self.date@,
            ticker: self.ticker@,
            shares: self.shares as int,
            price_per_share: self.price_per_share as int,
            fee: self.fee as int,
            is_buy: self.is_buy,
        }
    }
}

/// The inputs of `update_brokerage_transaction`.
#[derive(Debug)]
pub struct UpdateBrokerageTransactionArgs {
    pub id: i64,
    pub brokerage_account_id: i64,
    pub date: String,
    pub ticker: String,
    pub shares: i64,
    pub price_per_share: i64,
    pub fee: i64,
    pub is_buy: bool,
    pub notes: Option<String>,
}

/// The inputs of `update_brokerage_transaction`, as specifications see
/// them.
#[verifier::ext_equal]
pub struct UpdateBrokerageArgsV {
    pub id: int,
    pub brokerage_account_id: int,
    pub date: Seq<char>,
    pub ticker: Seq<char>,
    pub shares: int,
    pub price_per_share: int,
    pub fee: int,
    pub is_buy: bool,
    pub notes: Option<Seq<char>>,
}

impl View for UpdateBrokerageTransactionArgs {
    type V = UpdateBrokerageArgsV;

    open spec fn view(&self) -> UpdateBrokerageArgsV {
        UpdateBrokerageArgsV {
            id: self.id as int,
            brokerage_account_id: self.brokerage_account_id as int,
            date: self.date@,
            ticker: self.ticker@,
            shares: self.shares as int,
            price_per_share: self.price_per_share as int,
            fee: self.fee as int,
            is_buy: self.is_buy,
            notes: self.notes.deep_view(),
        }
    }
}

/// A copy of an optional string.
pub fn duplicate_opt_string(o: &Option<String>) -> (r: Option<String>)
    ensures
        r == *o,
{
    match o {
        Some(s) => Some(s.clone()),
        None => None,
    }
}

impl Account {
    /// A field-for-field copy.
    pub fn duplicate(&self) -> (r: Account)
        ensures
            r == *self,
    {
        Account {
            id: self.id,
            name: self.name.clone(),
            balance: self.balance,
            currency: duplicate_opt_string(&self.currency),
            kind: self.kind.clone(),
            exchange_rate: self.exchange_rate,
        }
    }
}

impl Transaction {
    /// A field-for-field copy.
    pub fn duplicate(&self) -> (r: Transaction)
        ensures
            r == *self,
    {
        Transaction {
            id: self.id,
            account_id: self.account_id,
            date: self.date.clone(),
            payee: self.payee.clone(),
            notes: duplicate_opt_string(&self.notes),
            category: duplicate_opt_string(&self.category),
            amount: self.amount,
            ticker: duplicate_opt_string(&self.ticker),
            shares: self.shares,
            price_per_share: self.price_per_share,
            fee: self.fee,
            currency: duplicate_opt_string(&self.currency),
            linked: self.linked,
        }
    }
}

impl Rule {
    /// A field-for-field copy.
    pub fn duplicate(&self) -> (r: Rule)
        ensures
            r == *self,
    {
        Rule {
            id: self.id,
            priority: self.priority,
            match_field: self.match_field.clone(),
            match_pattern: self.match_pattern.clone(),
            action_field: self.action_field.clone(),
            action_value: self.action_value.clone(),
        }
    }
}

} // verus!
