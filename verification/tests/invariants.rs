//! Ledger-wide properties exercised over longer operation sequences:
//! every account's balance equals the sum of its rows' amounts, and
//! every stored link points at a row that points back.

use honeybear::{
    CreateBrokerageTransactionArgs, CreateTransactionArgs, Ledger, Transaction,
    UpdateTransactionArgs,
};

fn plain_args(account_id: i64, date: &str, payee: &str, amount: i64) -> CreateTransactionArgs {
    CreateTransactionArgs {
        account_id,
        date: date.to_string(),
        payee: payee.to_string(),
        notes: None,
        category: None,
        amount,
        ticker: None,
        shares: None,
        price_per_share: None,
        fee: None,
        currency: None,
    }
}

fn check_invariants(ledger: &Ledger) {
    let accounts = ledger.get_accounts();
    let all: Vec<Transaction> = ledger.get_all_transactions();
    for acc in &accounts {
        let sum: i64 = all
            .iter()
            .filter(|t| t.account_id == acc.id)
            .map(|t| t.amount)
            .sum();
        assert_eq!(acc.balance, sum, "balance mismatch for account {}", acc.id);
    }
    for t in &all {
        if let Some(linked) = t.linked {
            let back = all.iter().find(|u| u.id == linked).expect("dangling link");
            assert_eq!(back.linked, Some(t.id), "asymmetric link");
        }
    }
}

#[test]
fn test_balance_and_link_invariants_over_mixed_operations() {
    let mut ledger = Ledger::new();
    let a = ledger
        .create_account("Acc0", 25000, "cash", None, "2024-01-01")
        .unwrap();
    let b = ledger
        .create_account("Acc1", 40000, "cash", None, "2024-01-01")
        .unwrap();
    let c = ledger
        .create_account("Acc2", 0, "cash", None, "2024-01-01")
        .unwrap();
    check_invariants(&ledger);

    // Plain rows.
    let t1 = ledger
        .create_transaction(plain_args(a.id, "2023-01-01", "RandPay", -12000))
        .unwrap();
    let t2 = ledger
        .create_transaction(plain_args(b.id, "2023-01-02", "RandPay", 7000))
        .unwrap();
    check_invariants(&ledger);

    // Transfers in both directions.
    let t3 = ledger
        .create_transaction(plain_args(a.id, "2023-01-03", "Acc1", -5000))
        .unwrap();
    ledger
        .create_transaction(plain_args(c.id, "2023-01-04", "Acc0", -2500))
        .unwrap();
    check_invariants(&ledger);

    // A trade with its cash leg.
    ledger
        .create_brokerage_transaction(CreateBrokerageTransactionArgs {
            brokerage_account_id: c.id,
            cash_account_id: a.id,
            date: "2023-01-05".to_string(),
            ticker: "RND".to_string(),
            shares: 3,
            price_per_share: 900,
            fee: 50,
            is_buy: true,
        })
        .unwrap();
    check_invariants(&ledger);

    // Updates: amount changes, a move, and a transfer resync.
    ledger
        .update_transaction(UpdateTransactionArgs {
            id: t1.id,
            account_id: a.id,
            date: "2023-01-06".to_string(),
            payee: "RandPay".to_string(),
            notes: None,
            category: None,
            amount: 3000,
            currency: None,
        })
        .unwrap();
    ledger
        .update_transaction(UpdateTransactionArgs {
            id: t2.id,
            account_id: c.id,
            date: "2023-01-07".to_string(),
            payee: "Moved".to_string(),
            notes: None,
            category: Some("Misc".to_string()),
            amount: 7000,
            currency: None,
        })
        .unwrap();
    ledger
        .update_transaction(UpdateTransactionArgs {
            id: t3.id,
            account_id: a.id,
            date: "2023-01-08".to_string(),
            payee: "Acc1".to_string(),
            notes: None,
            category: Some("Transfer".to_string()),
            amount: -6500,
            currency: None,
        })
        .unwrap();
    check_invariants(&ledger);

    // Deletions, including one side of a linked pair.
    ledger.delete_transaction(t3.id).unwrap();
    ledger.delete_transaction(t1.id).unwrap();
    check_invariants(&ledger);

    // Dropping a whole account keeps the others consistent.
    ledger.delete_account(c.id).unwrap();
    check_invariants(&ledger);
}

#[test]
fn test_transfer_create_then_delete_restores_balances() {
    let mut ledger = Ledger::new();
    let a = ledger
        .create_account("Left", 10000, "cash", None, "2024-01-01")
        .unwrap();
    let b = ledger
        .create_account("Right", 2500, "cash", None, "2024-01-01")
        .unwrap();

    let tx = ledger
        .create_transaction(plain_args(a.id, "2023-03-01", "Right", -4000))
        .unwrap();
    // Deleting the counterpart side also removes the caller's row.
    let counterpart = tx.linked.unwrap();
    ledger.delete_transaction(counterpart).unwrap();

    let accounts = ledger.get_accounts();
    assert_eq!(accounts.iter().find(|x| x.id == a.id).unwrap().balance, 10000);
    assert_eq!(accounts.iter().find(|x| x.id == b.id).unwrap().balance, 2500);
    assert!(ledger.get_all_transactions().iter().all(|t| t.id != tx.id));
}
