//! Account creation, renaming and deletion.

use honeybear::{CreateTransactionArgs, Ledger, LedgerError};

#[test]
fn test_delete_account() {
    let mut ledger = Ledger::new();
    let account = ledger
        .create_account("To Delete", 0, "cash", None, "2024-01-01")
        .unwrap();
    ledger.delete_account(account.id).unwrap();
    let accounts = ledger.get_accounts();
    assert!(accounts.is_empty());
}

#[test]
fn test_delete_account_with_transactions() {
    let mut ledger = Ledger::new();
    let account = ledger
        .create_account("ToDelete", 10000, "cash", None, "2024-01-01")
        .unwrap();
    ledger
        .create_transaction(CreateTransactionArgs {
            account_id: account.id,
            date: "2023-01-02".to_string(),
            payee: "Payee".to_string(),
            notes: None,
            category: None,
            amount: -2000,
            ticker: None,
            shares: None,
            price_per_share: None,
            fee: None,
            currency: None,
        })
        .unwrap();
    let txs_before = ledger.get_transactions(account.id);
    assert!(!txs_before.is_empty());

    ledger.delete_account(account.id).unwrap();

    let accounts = ledger.get_accounts();
    assert!(accounts.iter().all(|a| a.id != account.id));

    let txs_after = ledger.get_transactions(account.id);
    assert!(txs_after.is_empty());
}

#[test]
fn test_create_account_rejects_blank_name() {
    let mut ledger = Ledger::new();
    let res = ledger.create_account("   ", 0, "cash", None, "2024-01-01");
    assert_eq!(res.unwrap_err(), LedgerError::Validation);
}

#[test]
fn test_create_account_rejects_duplicate_name_case_insensitively() {
    let mut ledger = Ledger::new();
    ledger
        .create_account("Groceries", 0, "cash", None, "2024-01-01")
        .unwrap();
    let res = ledger.create_account("gROCERIES", 0, "cash", None, "2024-01-01");
    assert_eq!(res.unwrap_err(), LedgerError::Validation);
}

#[test]
fn test_rename_account_updates_name() {
    let mut ledger = Ledger::new();
    let account = ledger
        .create_account("Old Name", 0, "cash", None, "2024-01-01")
        .unwrap();
    let renamed = ledger.rename_account(account.id, "New Name").unwrap();
    assert_eq!(renamed.name, "New Name");
    let accounts = ledger.get_accounts();
    assert_eq!(accounts[0].name, "New Name");
}

#[test]
fn test_rename_account_missing_id_should_error() {
    let mut ledger = Ledger::new();
    let res = ledger.rename_account(-999, "Anything");
    assert_eq!(res.unwrap_err(), LedgerError::NotFound);
}

#[test]
fn test_update_account_sets_currency() {
    let mut ledger = Ledger::new();
    let account = ledger
        .create_account("Euro Account", 0, "cash", None, "2024-01-01")
        .unwrap();
    let updated = ledger
        .update_account(account.id, "Euro Account", Some("EUR".to_string()))
        .unwrap();
    assert_eq!(updated.currency.as_deref(), Some("EUR"));
}

#[test]
fn test_opening_balance_writes_income_row() {
    let mut ledger = Ledger::new();
    let account = ledger
        .create_account("Funded", 12345, "cash", None, "2024-01-01")
        .unwrap();
    let txs = ledger.get_transactions(account.id);
    assert_eq!(txs.len(), 1);
    assert_eq!(txs[0].payee, "Opening Balance");
    assert_eq!(txs[0].category.as_deref(), Some("Income"));
    assert_eq!(txs[0].amount, 12345);
    assert_eq!(account.balance, 12345);
}
