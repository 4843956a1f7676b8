//! Updating transactions: balances, moves, and counterpart
//! synchronization.

use honeybear::{
    Account, CreateTransactionArgs, Ledger, Rate, Transaction, UpdateTransactionArgs,
};

fn plain_args(account_id: i64, date: &str, payee: &str, amount: i64) -> CreateTransactionArgs {
    CreateTransactionArgs {
        account_id,
        date: date.to_string(),
        payee: payee.to_string(),
        notes: None,
        category: None,
        amount,
        ticker: None,
        shares: None,
        price_per_share: None,
        fee: None,
        currency: None,
    }
}

fn plain_account(id: i64, name: &str, balance: i64) -> Account {
    Account {
        id,
        name: name.to_string(),
        balance,
        currency: None,
        kind: "cash".to_string(),
        exchange_rate: Rate::new(1, 1),
    }
}

fn transfer_row(id: i64, account_id: i64, payee: &str, notes: &str, amount: i64) -> Transaction {
    Transaction {
        id,
        account_id,
        date: "2023-01-01".to_string(),
        payee: payee.to_string(),
        notes: Some(notes.to_string()),
        category: Some("Transfer".to_string()),
        amount,
        ticker: None,
        shares: None,
        price_per_share: None,
        fee: None,
        currency: None,
        linked: None,
    }
}

#[test]
fn test_update_transaction() {
    let mut ledger = Ledger::new();
    let account = ledger
        .create_account("Test", 10000, "cash", None, "2024-01-01")
        .unwrap();
    let tx = ledger
        .create_transaction(plain_args(account.id, "2023-01-01", "Payee", -1000))
        .unwrap();

    ledger
        .update_transaction(UpdateTransactionArgs {
            id: tx.id,
            account_id: account.id,
            date: "2023-01-02".to_string(),
            payee: "New Payee".to_string(),
            notes: Some("Updated".to_string()),
            category: Some("Food".to_string()),
            amount: -2000,
            currency: None,
        })
        .unwrap();

    let accounts = ledger.get_accounts();
    // 100 - 20 = 80.
    assert_eq!(accounts[0].balance, 8000);
}

#[test]
fn test_update_transaction_missing_id_should_error() {
    let mut ledger = Ledger::new();
    ledger
        .create_account("Any", 0, "cash", None, "2024-01-01")
        .unwrap();
    let res = ledger.update_transaction(UpdateTransactionArgs {
        id: -999,
        account_id: 1,
        date: "2023-01-01".to_string(),
        payee: "X".to_string(),
        notes: None,
        category: None,
        amount: 1000,
        currency: None,
    });
    assert!(res.is_err());
}

#[test]
fn test_update_transaction_finds_counterpart_by_notes() {
    // Two rows with matching notes, no stored links, balances already
    // reflecting them.
    let accounts = vec![plain_account(1, "Acc1", 5000), plain_account(2, "Acc2", 5000)];
    let txs = vec![
        transfer_row(1, 1, "Acc2", "XFER", -5000),
        transfer_row(2, 2, "Acc1", "XFER", 5000),
        Transaction {
            id: 3,
            account_id: 1,
            date: "2023-01-02".to_string(),
            payee: "Opening".to_string(),
            notes: None,
            category: None,
            amount: 10000,
            ticker: None,
            shares: None,
            price_per_share: None,
            fee: None,
            currency: None,
            linked: None,
        },
    ];
    let mut ledger = Ledger::from_rows(accounts, txs, Vec::new()).unwrap();

    ledger
        .update_transaction(UpdateTransactionArgs {
            id: 1,
            account_id: 1,
            date: "2023-01-02".to_string(),
            payee: "Acc2".to_string(),
            notes: Some("XFER".to_string()),
            category: Some("Transfer".to_string()),
            amount: -6000,
            currency: None,
        })
        .unwrap();

    // Balances follow the new amount: 100 - 60 = 40 and 0 + 60 = 60.
    let accounts = ledger.get_accounts();
    let a1 = accounts.iter().find(|a| a.id == 1).unwrap();
    let a2 = accounts.iter().find(|a| a.id == 2).unwrap();
    assert_eq!(a1.balance, 4000);
    assert_eq!(a2.balance, 6000);

    // The counterpart mirrors the update: opposite amount, payee the
    // owning account's name.
    let txs2 = ledger.get_transactions(2);
    assert_eq!(txs2.len(), 1);
    assert_eq!(txs2[0].amount, 6000);
    assert_eq!(txs2[0].payee, "Acc1");
}

#[test]
fn test_update_transaction_updates_counterpart_when_linked() {
    let mut ledger = Ledger::new();
    let acc1 = ledger
        .create_account("Acc1", 10000, "cash", None, "2024-01-01")
        .unwrap();
    let acc2 = ledger
        .create_account("Acc2", 0, "cash", None, "2024-01-01")
        .unwrap();

    let tx = ledger
        .create_transaction(CreateTransactionArgs {
            account_id: acc1.id,
            date: "2023-01-01".to_string(),
            payee: acc2.name.clone(),
            notes: Some("X".to_string()),
            category: None,
            amount: -4000,
            ticker: None,
            shares: None,
            price_per_share: None,
            fee: None,
            currency: None,
        })
        .unwrap();

    let txs2 = ledger.get_transactions(acc2.id);
    assert_eq!(txs2.len(), 1);

    ledger
        .update_transaction(UpdateTransactionArgs {
            id: tx.id,
            account_id: acc1.id,
            date: "2023-01-02".to_string(),
            payee: acc2.name.clone(),
            notes: Some("X".to_string()),
            category: Some("Transfer".to_string()),
            amount: -5000,
            currency: None,
        })
        .unwrap();

    let accounts = ledger.get_accounts();
    let a1 = accounts.iter().find(|a| a.id == acc1.id).unwrap();
    let a2 = accounts.iter().find(|a| a.id == acc2.id).unwrap();

    assert_eq!(a1.balance, 5000);
    assert_eq!(a2.balance, 5000);

    let txs2_after = ledger.get_transactions(acc2.id);
    assert_eq!(txs2_after.len(), 1);
    assert_eq!(txs2_after[0].amount, 5000);
    assert_eq!(txs2_after[0].payee, acc1.name);
}

#[test]
fn test_update_transaction_no_amount_change_doesnt_alter_balances() {
    let mut ledger = Ledger::new();
    let account = ledger
        .create_account("T", 10000, "cash", None, "2024-01-01")
        .unwrap();
    let tx = ledger
        .create_transaction(plain_args(account.id, "2023-01-01", "Payee", -2000))
        .unwrap();

    ledger
        .update_transaction(UpdateTransactionArgs {
            id: tx.id,
            account_id: account.id,
            date: "2023-01-02".to_string(),
            payee: "Payee2".to_string(),
            notes: Some("Note".to_string()),
            category: Some("Misc".to_string()),
            amount: -2000,
            currency: None,
        })
        .unwrap();

    let accounts = ledger.get_accounts();
    assert_eq!(
        accounts.iter().find(|a| a.id == account.id).unwrap().balance,
        8000
    );
}

#[test]
fn test_update_transaction_move_between_accounts() {
    let mut ledger = Ledger::new();
    let acc1 = ledger
        .create_account("From", 10000, "cash", None, "2024-01-01")
        .unwrap();
    let acc2 = ledger
        .create_account("To", 5000, "cash", None, "2024-01-01")
        .unwrap();

    let tx = ledger
        .create_transaction(plain_args(acc1.id, "2023-01-01", "Payee", -2000))
        .unwrap();

    ledger
        .update_transaction(UpdateTransactionArgs {
            id: tx.id,
            account_id: acc2.id,
            date: "2023-01-02".to_string(),
            payee: "Payee Updated".to_string(),
            notes: Some("Moved".to_string()),
            category: Some("Misc".to_string()),
            amount: -2000,
            currency: None,
        })
        .unwrap();

    // After the move the old account is restored and the new one pays.
    let accounts = ledger.get_accounts();
    let a1 = accounts.iter().find(|a| a.id == acc1.id).unwrap();
    let a2 = accounts.iter().find(|a| a.id == acc2.id).unwrap();

    assert_eq!(a1.balance, 10000);
    assert_eq!(a2.balance, 3000);

    let txs_acc1 = ledger.get_transactions(acc1.id);
    let txs_acc2 = ledger.get_transactions(acc2.id);

    assert!(txs_acc1.iter().all(|t| t.id != tx.id));
    assert!(txs_acc2.iter().any(|t| t.id == tx.id));
}
