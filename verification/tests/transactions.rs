//! Creating, listing and deleting transactions, including transfers.
//! Amounts are in minor units: one hundred per major unit.

use honeybear::{Account, CreateTransactionArgs, Ledger, Rate, Transaction};

fn plain_args(account_id: i64, date: &str, payee: &str, amount: i64) -> CreateTransactionArgs {
    CreateTransactionArgs {
        account_id,
        date: date.to_string(),
        payee: payee.to_string(),
        notes: None,
        category: None,
        amount,
        ticker: None,
        shares: None,
        price_per_share: None,
        fee: None,
        currency: None,
    }
}

#[test]
fn test_create_transaction() {
    let mut ledger = Ledger::new();
    let account = ledger
        .create_account("Test Account", 10000, "cash", None, "2024-01-01")
        .unwrap();

    let tx = ledger
        .create_transaction(CreateTransactionArgs {
            account_id: account.id,
            date: "2023-01-01".to_string(),
            payee: "Payee".to_string(),
            notes: Some("Notes".to_string()),
            category: Some("Category".to_string()),
            amount: -5000,
            ticker: None,
            shares: None,
            price_per_share: None,
            fee: None,
            currency: None,
        })
        .unwrap();

    assert_eq!(tx.amount, -5000);

    let accounts = ledger.get_accounts();
    assert_eq!(accounts[0].balance, 5000); // 100 - 50
}

#[test]
fn test_get_all_transactions() {
    let mut ledger = Ledger::new();
    let acc1 = ledger
        .create_account("A1", 10000, "cash", None, "2024-01-01")
        .unwrap();
    let acc2 = ledger
        .create_account("A2", 10000, "cash", None, "2024-01-01")
        .unwrap();

    ledger
        .create_transaction(plain_args(acc1.id, "2023-01-01", "P1", -1000))
        .unwrap();
    ledger
        .create_transaction(plain_args(acc2.id, "2023-01-02", "P2", -2000))
        .unwrap();

    let all = ledger.get_all_transactions();
    // Both accounts had opening balance rows plus the two created rows.
    assert_eq!(all.len(), 4);
    assert!(all.iter().any(|t| t.date == "2023-01-02"));
}

#[test]
fn test_create_transaction_transfer_details() {
    let mut ledger = Ledger::new();
    let acc1 = ledger
        .create_account("A1", 10000, "cash", None, "2024-01-01")
        .unwrap();
    let acc2 = ledger
        .create_account("A2", 0, "cash", None, "2024-01-01")
        .unwrap();

    let tx = ledger
        .create_transaction(plain_args(acc1.id, "2023-01-05", &acc2.name, -5000))
        .unwrap();
    assert_eq!(tx.category.as_deref(), Some("Transfer"));

    // The counterpart exists in the second account.
    let txs2 = ledger.get_transactions(acc2.id);
    assert_eq!(txs2.len(), 1);
    assert_eq!(txs2[0].amount, 5000);
    assert_eq!(txs2[0].payee, acc1.name);
}

#[test]
fn test_get_transactions_ordering() {
    let mut ledger = Ledger::new();
    let acc = ledger
        .create_account("Ord", 0, "cash", None, "2024-01-01")
        .unwrap();
    ledger
        .create_transaction(plain_args(acc.id, "2023-01-01", "P1", -1000))
        .unwrap();
    ledger
        .create_transaction(plain_args(acc.id, "2023-02-01", "P2", -2000))
        .unwrap();
    let txs = ledger.get_transactions(acc.id);
    assert!(txs.len() >= 2);
    assert_eq!(txs[0].date, "2023-02-01");
    assert_eq!(txs[1].date, "2023-01-01");
}

#[test]
fn test_create_transaction_with_nonexistent_account_errors_due_to_foreign_key() {
    let mut ledger = Ledger::new();
    let res = ledger.create_transaction(CreateTransactionArgs {
        account_id: -999,
        date: "2023-01-01".to_string(),
        payee: "Someone".to_string(),
        notes: None,
        category: Some("Food".to_string()),
        amount: -1000,
        ticker: None,
        shares: None,
        price_per_share: None,
        fee: None,
        currency: None,
    });
    assert!(res.is_err());

    // No account appeared with that id.
    let accounts = ledger.get_accounts();
    assert!(accounts.iter().all(|a| a.id != -999));
}

#[test]
fn test_create_transaction_preserves_nontransfer_category() {
    let mut ledger = Ledger::new();
    let acc = ledger
        .create_account("A", 10000, "cash", None, "2024-01-01")
        .unwrap();
    let tx = ledger
        .create_transaction(CreateTransactionArgs {
            account_id: acc.id,
            date: "2023-01-02".to_string(),
            payee: "NonAccountPayee".to_string(),
            notes: None,
            category: Some("Entertainment".to_string()),
            amount: -1500,
            ticker: None,
            shares: None,
            price_per_share: None,
            fee: None,
            currency: None,
        })
        .unwrap();
    assert_eq!(tx.category.as_deref(), Some("Entertainment"));
}

#[test]
fn test_create_transaction_with_ticker_shares_price_fee() {
    let mut ledger = Ledger::new();
    let acc = ledger
        .create_account("Invest", 100000, "cash", None, "2024-01-01")
        .unwrap();

    let tx = ledger
        .create_transaction(CreateTransactionArgs {
            account_id: acc.id,
            date: "2023-01-03".to_string(),
            payee: "Broker".to_string(),
            notes: Some("Bought shares".to_string()),
            category: Some("Investment".to_string()),
            amount: -150500,
            ticker: Some("AAPL".to_string()),
            shares: Some(10),
            price_per_share: Some(15000),
            fee: Some(500),
            currency: None,
        })
        .unwrap();

    assert_eq!(tx.ticker.as_deref(), Some("AAPL"));
    assert_eq!(tx.shares, Some(10));
    assert_eq!(tx.price_per_share, Some(15000));
    assert_eq!(tx.fee, Some(500));

    let txs = ledger.get_transactions(acc.id);
    let found = txs.iter().find(|t| t.id == tx.id).unwrap();
    assert_eq!(found.ticker, tx.ticker);
    assert_eq!(found.shares, tx.shares);
    assert_eq!(found.price_per_share, tx.price_per_share);
    assert_eq!(found.fee, tx.fee);

    let account = ledger
        .get_accounts()
        .into_iter()
        .find(|a| a.id == acc.id)
        .unwrap();
    assert_eq!(account.balance, -50500);
}

#[test]
fn test_transfer() {
    let mut ledger = Ledger::new();
    let acc1 = ledger
        .create_account("Acc1", 10000, "cash", None, "2024-01-01")
        .unwrap();
    let acc2 = ledger
        .create_account("Acc2", 0, "cash", None, "2024-01-01")
        .unwrap();

    // Transfer 50 from Acc1 to Acc2: the payee is "Acc2".
    ledger
        .create_transaction(plain_args(acc1.id, "2023-01-01", "Acc2", -5000))
        .unwrap();

    let accounts = ledger.get_accounts();
    let acc1_new = accounts.iter().find(|a| a.id == acc1.id).unwrap();
    let acc2_new = accounts.iter().find(|a| a.id == acc2.id).unwrap();

    assert_eq!(acc1_new.balance, 5000);
    assert_eq!(acc2_new.balance, 5000);

    let txs1 = ledger.get_transactions(acc1.id);
    let txs2 = ledger.get_transactions(acc2.id);

    // The first account holds the opening balance and the transfer; the
    // opening balance is dated newer, so the transfer is second.
    assert_eq!(txs1.len(), 2);
    assert_eq!(txs1[1].category.as_deref(), Some("Transfer"));

    // A zero opening balance writes no row, so only the counterpart is
    // in the second account.
    assert_eq!(txs2.len(), 1);
    assert_eq!(txs2[0].category.as_deref(), Some("Transfer"));
    assert_eq!(txs2[0].amount, 5000);
}

#[test]
fn test_create_transaction_payee_same_account_name_no_transfer_created() {
    let mut ledger = Ledger::new();
    let acc = ledger
        .create_account("SelfAcc", 10000, "cash", None, "2024-01-01")
        .unwrap();

    // A payee equal to the same account's name is no transfer.
    let tx = ledger
        .create_transaction(plain_args(acc.id, "2023-01-01", "SelfAcc", -1000))
        .unwrap();
    assert_eq!(tx.category, None);

    let txs = ledger.get_transactions(acc.id);
    assert!(txs.iter().filter(|t| t.payee == acc.name).count() >= 1);
}

#[test]
fn test_delete_transaction() {
    let mut ledger = Ledger::new();
    let account = ledger
        .create_account("Test", 10000, "cash", None, "2024-01-01")
        .unwrap();
    let tx = ledger
        .create_transaction(plain_args(account.id, "2023-01-01", "Payee", -1000))
        .unwrap();

    ledger.delete_transaction(tx.id).unwrap();

    let accounts = ledger.get_accounts();
    assert_eq!(accounts[0].balance, 10000);
}

#[test]
fn test_delete_transaction_missing_id_should_error() {
    let mut ledger = Ledger::new();
    let res = ledger.delete_transaction(-999);
    assert!(res.is_err());
}

#[test]
fn test_delete_transaction_deletes_linked_counterpart() {
    let mut ledger = Ledger::new();
    let acc1 = ledger
        .create_account("A1", 10000, "cash", None, "2024-01-01")
        .unwrap();
    let acc2 = ledger
        .create_account("A2", 0, "cash", None, "2024-01-01")
        .unwrap();

    // A transfer created through the library links the pair.
    let tx = ledger
        .create_transaction(plain_args(acc1.id, "2023-01-01", &acc2.name, -3000))
        .unwrap();

    let linked_id_opt = tx.linked;
    assert!(linked_id_opt.is_some());

    let accounts = ledger.get_accounts();
    let a1_before = accounts.iter().find(|a| a.id == acc1.id).unwrap().balance;
    let a2_before = accounts.iter().find(|a| a.id == acc2.id).unwrap().balance;
    assert_eq!(a1_before, 7000);
    assert_eq!(a2_before, 3000);

    ledger.delete_transaction(tx.id).unwrap();

    let txs1 = ledger.get_transactions(acc1.id);
    let txs2 = ledger.get_transactions(acc2.id);

    assert!(txs1.iter().all(|t| t.id != tx.id));
    if let Some(linked_id) = linked_id_opt {
        assert!(txs2.iter().all(|t| t.id != linked_id));
    }

    let accounts_after = ledger.get_accounts();
    let a1_after = accounts_after.iter().find(|a| a.id == acc1.id).unwrap().balance;
    let a2_after = accounts_after.iter().find(|a| a.id == acc2.id).unwrap().balance;

    assert_eq!(a1_after, 10000);
    assert_eq!(a2_after, 0);
}

#[test]
fn test_delete_transaction_fallback_by_notes() {
    // Two rows with matching notes and no stored links, balances already
    // reflecting them, loaded as raw rows.
    let accounts = vec![
        Account {
            id: 1,
            name: "Acc1".to_string(),
            balance: 8000,
            currency: None,
            kind: "cash".to_string(),
            exchange_rate: Rate::new(1, 1),
        },
        Account {
            id: 2,
            name: "Acc2".to_string(),
            balance: 2000,
            currency: None,
            kind: "cash".to_string(),
            exchange_rate: Rate::new(1, 1),
        },
    ];
    let txs = vec![
        Transaction {
            id: 1,
            account_id: 1,
            date: "2023-01-01".to_string(),
            payee: "Acc2".to_string(),
            notes: Some("XFER".to_string()),
            category: Some("Transfer".to_string()),
            amount: -2000,
            ticker: None,
            shares: None,
            price_per_share: None,
            fee: None,
            currency: None,
            linked: None,
        },
        Transaction {
            id: 2,
            account_id: 2,
            date: "2023-01-01".to_string(),
            payee: "Acc1".to_string(),
            notes: Some("XFER".to_string()),
            category: Some("Transfer".to_string()),
            amount: 2000,
            ticker: None,
            shares: None,
            price_per_share: None,
            fee: None,
            currency: None,
            linked: None,
        },
        Transaction {
            id: 3,
            account_id: 1,
            date: "2023-01-02".to_string(),
            payee: "Opening".to_string(),
            notes: None,
            category: None,
            amount: 10000,
            ticker: None,
            shares: None,
            price_per_share: None,
            fee: None,
            currency: None,
            linked: None,
        },
    ];
    let mut ledger = Ledger::from_rows(accounts, txs, Vec::new()).unwrap();

    // Deleting the first row finds the counterpart by notes and removes
    // both.
    ledger.delete_transaction(1).unwrap();

    let txs1 = ledger.get_transactions(1);
    let txs2 = ledger.get_transactions(2);
    assert!(txs1.iter().all(|t| t.id != 1));
    assert!(txs2.iter().all(|t| t.id != 2));

    let accounts_after = ledger.get_accounts();
    let a1_after = accounts_after.iter().find(|a| a.id == 1).unwrap().balance;
    let a2_after = accounts_after.iter().find(|a| a.id == 2).unwrap().balance;
    assert_eq!(a1_after, 10000);
    assert_eq!(a2_after, 0);
}
