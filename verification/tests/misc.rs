//! Error variants, the settings path, and number formatting seen through
//! the generated trade notes.

use honeybear::{
    settings_file_path_for_dir, Account, CreateBrokerageTransactionArgs, CreateTransactionArgs,
    Ledger, LedgerError, Rate,
};

#[test]
fn test_settings_file_path_for_dir() {
    let p = settings_file_path_for_dir("/tmp/appdata");
    assert_eq!(p, "/tmp/appdata/settings.json");
}

#[test]
fn test_create_transaction_overflow_is_rejected_without_effect() {
    let mut ledger = Ledger::new();
    let acc = ledger
        .create_account("Limits", i64::MAX, "cash", None, "2024-01-01")
        .unwrap();
    let res = ledger.create_transaction(CreateTransactionArgs {
        account_id: acc.id,
        date: "2023-01-01".to_string(),
        payee: "Anyone".to_string(),
        notes: None,
        category: None,
        amount: 1,
        ticker: None,
        shares: None,
        price_per_share: None,
        fee: None,
        currency: None,
    });
    assert_eq!(res.unwrap_err(), LedgerError::Overflow);
    // Nothing was applied.
    assert_eq!(ledger.get_accounts()[0].balance, i64::MAX);
    assert_eq!(ledger.get_transactions(acc.id).len(), 1);
}

#[test]
fn test_negative_share_count_is_rejected() {
    let mut ledger = Ledger::new();
    let cash = ledger
        .create_account("Cash", 10000, "cash", None, "2024-01-01")
        .unwrap();
    let broker = ledger
        .create_account("Broker", 0, "investment", None, "2024-01-01")
        .unwrap();
    let res = ledger.create_brokerage_transaction(CreateBrokerageTransactionArgs {
        brokerage_account_id: broker.id,
        cash_account_id: cash.id,
        date: "2023-01-01".to_string(),
        ticker: "FOO".to_string(),
        shares: -3,
        price_per_share: 100,
        fee: 0,
        is_buy: true,
    });
    assert_eq!(res.unwrap_err(), LedgerError::Validation);
}

#[test]
fn test_generated_trade_notes_spell_the_share_count() {
    let mut ledger = Ledger::new();
    let cash = ledger
        .create_account("Cash", 10000000, "cash", None, "2024-01-01")
        .unwrap();
    let broker = ledger
        .create_account("Broker", 0, "investment", None, "2024-01-01")
        .unwrap();
    let created = ledger
        .create_brokerage_transaction(CreateBrokerageTransactionArgs {
            brokerage_account_id: broker.id,
            cash_account_id: cash.id,
            date: "2023-01-01".to_string(),
            ticker: "XYZ".to_string(),
            shares: 105,
            price_per_share: 100,
            fee: 0,
            is_buy: false,
        })
        .unwrap();
    assert_eq!(created.notes.as_deref(), Some("Sold 105 shares of XYZ"));
    let cash_txs = ledger.get_transactions(cash.id);
    let leg = cash_txs
        .iter()
        .find(|t| t.category.as_deref() == Some("Transfer"))
        .unwrap();
    assert_eq!(leg.notes.as_deref(), Some("Sell 105 shares of XYZ"));
    assert_eq!(leg.payee, "Broker");
}

#[test]
fn test_from_rows_rejects_duplicate_account_names() {
    let accounts = vec![
        Account {
            id: 1,
            name: "Same".to_string(),
            balance: 0,
            currency: None,
            kind: "cash".to_string(),
            exchange_rate: Rate::new(1, 1),
        },
        Account {
            id: 2,
            name: "sAME".to_string(),
            balance: 0,
            currency: None,
            kind: "cash".to_string(),
            exchange_rate: Rate::new(1, 1),
        },
    ];
    let res = Ledger::from_rows(accounts, Vec::new(), Vec::new());
    assert!(res.is_err());
}

#[test]
fn test_error_messages_are_nonempty() {
    assert!(!LedgerError::Validation.message().is_empty());
    assert!(!LedgerError::NotFound.message().is_empty());
    assert!(!LedgerError::Overflow.message().is_empty());
}
