//! Investment trades: creating and updating the linked pair of a
//! brokerage row and its cash leg. Prices and fees are in minor units.

use honeybear::{
    Account, CreateBrokerageTransactionArgs, Ledger, Rate, Transaction,
    UpdateBrokerageTransactionArgs,
};

fn two_accounts(ledger: &mut Ledger, cash_balance: i64) -> (i64, i64) {
    let cash = ledger
        .create_account("Cash", cash_balance, "cash", None, "2024-01-01")
        .unwrap();
    let broker = ledger
        .create_account("Brokerage", 0, "investment", None, "2024-01-01")
        .unwrap();
    (cash.id, broker.id)
}

fn buy_args(
    brokerage_account_id: i64,
    cash_account_id: i64,
    shares: i64,
    price_per_share: i64,
    fee: i64,
) -> CreateBrokerageTransactionArgs {
    CreateBrokerageTransactionArgs {
        brokerage_account_id,
        cash_account_id,
        date: "2023-01-01".to_string(),
        ticker: "FOO".to_string(),
        shares,
        price_per_share,
        fee,
        is_buy: true,
    }
}

fn balance_of(ledger: &Ledger, id: i64) -> i64 {
    ledger
        .get_accounts()
        .into_iter()
        .find(|a| a.id == id)
        .unwrap()
        .balance
}

#[test]
fn test_update_brokerage_transaction_missing_id_should_error() {
    let mut ledger = Ledger::new();
    let (_cash, broker) = two_accounts(&mut ledger, 100000);
    let res = ledger.update_brokerage_transaction(UpdateBrokerageTransactionArgs {
        id: -999,
        brokerage_account_id: broker,
        date: "2023-01-01".to_string(),
        ticker: "AAPL".to_string(),
        shares: 1,
        price_per_share: 10000,
        fee: 100,
        is_buy: true,
        notes: None,
    });
    assert!(res.is_err());
}

#[test]
fn test_update_brokerage_transaction_updates_cash_counterpart() {
    let mut ledger = Ledger::new();
    let (cash, broker) = two_accounts(&mut ledger, 100000);

    // Buy ten at one hundred with a fee of two: brokerage +1000, cash
    // down to -2.
    let created = ledger
        .create_brokerage_transaction(buy_args(broker, cash, 10, 10000, 200))
        .unwrap();

    assert_eq!(balance_of(&ledger, cash), -200);
    assert_eq!(balance_of(&ledger, broker), 100000);

    // Update to five at two hundred with a fee of one: the trade value
    // is unchanged, the cash leg improves by one.
    ledger
        .update_brokerage_transaction(UpdateBrokerageTransactionArgs {
            id: created.id,
            brokerage_account_id: broker,
            date: "2023-01-02".to_string(),
            ticker: "FOO".to_string(),
            shares: 5,
            price_per_share: 20000,
            fee: 100,
            is_buy: true,
            notes: None,
        })
        .unwrap();

    assert_eq!(balance_of(&ledger, broker), 100000);
    assert_eq!(balance_of(&ledger, cash), -100);
}

#[test]
fn test_update_brokerage_transaction_fallback_by_notes() {
    // The pair carries no links; the cash row's notes equal the
    // brokerage row's old notes, so the fallback finds it.
    let accounts = vec![
        Account {
            id: 1,
            name: "Cash".to_string(),
            balance: -200,
            currency: None,
            kind: "cash".to_string(),
            exchange_rate: Rate::new(1, 1),
        },
        Account {
            id: 2,
            name: "Brokerage".to_string(),
            balance: 100000,
            currency: None,
            kind: "investment".to_string(),
            exchange_rate: Rate::new(1, 1),
        },
    ];
    let txs = vec![
        Transaction {
            id: 1,
            account_id: 2,
            date: "2023-01-01".to_string(),
            payee: "Buy".to_string(),
            notes: Some("Bought 10 shares of FOO".to_string()),
            category: Some("Investment".to_string()),
            amount: 100000,
            ticker: Some("FOO".to_string()),
            shares: Some(10),
            price_per_share: Some(10000),
            fee: Some(200),
            currency: None,
            linked: None,
        },
        Transaction {
            id: 2,
            account_id: 1,
            date: "2023-01-01".to_string(),
            payee: "Brokerage".to_string(),
            notes: Some("Bought 10 shares of FOO".to_string()),
            category: Some("Transfer".to_string()),
            amount: -100200,
            ticker: None,
            shares: None,
            price_per_share: None,
            fee: None,
            currency: None,
            linked: None,
        },
    ];
    let mut ledger = Ledger::from_rows(accounts, txs, Vec::new()).unwrap();

    ledger
        .update_brokerage_transaction(UpdateBrokerageTransactionArgs {
            id: 1,
            brokerage_account_id: 2,
            date: "2023-01-02".to_string(),
            ticker: "FOO".to_string(),
            shares: 5,
            price_per_share: 20000,
            fee: 100,
            is_buy: true,
            notes: None,
        })
        .unwrap();

    // The cash leg now costs the new total plus the new fee.
    let cash_txs = ledger.get_transactions(1);
    let transfer_tx = cash_txs
        .iter()
        .find(|t| t.category.as_deref() == Some("Transfer"))
        .expect("Transfer tx not found");
    assert_eq!(transfer_tx.amount, -100100);

    assert_eq!(balance_of(&ledger, 2), 100000);
    assert_eq!(balance_of(&ledger, 1), -100);
}

#[test]
fn test_update_brokerage_transaction_custom_notes_updates_counterpart() {
    let mut ledger = Ledger::new();
    let (cash, broker) = two_accounts(&mut ledger, 100000);

    let created = ledger
        .create_brokerage_transaction(buy_args(broker, cash, 10, 10000, 200))
        .unwrap();

    let custom_note = "CUSTOM NOTE 123".to_string();
    ledger
        .update_brokerage_transaction(UpdateBrokerageTransactionArgs {
            id: created.id,
            brokerage_account_id: broker,
            date: "2023-01-02".to_string(),
            ticker: "FOO".to_string(),
            shares: 5,
            price_per_share: 20000,
            fee: 100,
            is_buy: true,
            notes: Some(custom_note.clone()),
        })
        .unwrap();

    let brokerage_txs = ledger.get_transactions(broker);
    let brokerage_tx = brokerage_txs
        .iter()
        .find(|t| t.id == created.id)
        .expect("Brokerage tx not found");
    assert_eq!(brokerage_tx.notes.as_deref(), Some(custom_note.as_str()));

    let cash_txs = ledger.get_transactions(cash);
    let transfer_tx = cash_txs
        .iter()
        .find(|t| t.category.as_deref() == Some("Transfer"))
        .expect("Transfer tx not found");
    assert_eq!(transfer_tx.notes.as_deref(), Some(custom_note.as_str()));
}

#[test]
fn test_update_brokerage_transaction_sell_changes_amounts() {
    let mut ledger = Ledger::new();
    let (cash, broker) = two_accounts(&mut ledger, 100000);

    let created = ledger
        .create_brokerage_transaction(buy_args(broker, cash, 10, 10000, 200))
        .unwrap();

    // Flip the same trade to a sale.
    ledger
        .update_brokerage_transaction(UpdateBrokerageTransactionArgs {
            id: created.id,
            brokerage_account_id: broker,
            date: "2023-01-02".to_string(),
            ticker: "FOO".to_string(),
            shares: 10,
            price_per_share: 10000,
            fee: 200,
            is_buy: false,
            notes: None,
        })
        .unwrap();

    assert_eq!(balance_of(&ledger, broker), -100000);
    assert_eq!(balance_of(&ledger, cash), 199800);
}

#[test]
fn test_update_brokerage_transaction_no_change_when_same_values() {
    let mut ledger = Ledger::new();
    let (cash, broker) = two_accounts(&mut ledger, 100000);

    let created = ledger
        .create_brokerage_transaction(buy_args(broker, cash, 5, 20000, 100))
        .unwrap();

    let cash_before = balance_of(&ledger, cash);
    let broker_before = balance_of(&ledger, broker);

    ledger
        .update_brokerage_transaction(UpdateBrokerageTransactionArgs {
            id: created.id,
            brokerage_account_id: broker,
            date: "2023-01-01".to_string(),
            ticker: "FOO".to_string(),
            shares: 5,
            price_per_share: 20000,
            fee: 100,
            is_buy: true,
            notes: None,
        })
        .unwrap();

    assert_eq!(balance_of(&ledger, cash), cash_before);
    assert_eq!(balance_of(&ledger, broker), broker_before);
}

#[test]
fn test_update_brokerage_transaction_when_counterpart_missing() {
    // The brokerage row's link points at a row that no longer exists;
    // the update adjusts only the brokerage account.
    let accounts = vec![
        Account {
            id: 1,
            name: "Cash".to_string(),
            balance: -100500,
            currency: None,
            kind: "cash".to_string(),
            exchange_rate: Rate::new(1, 1),
        },
        Account {
            id: 2,
            name: "Brokerage".to_string(),
            balance: 100000,
            currency: None,
            kind: "investment".to_string(),
            exchange_rate: Rate::new(1, 1),
        },
    ];
    let txs = vec![Transaction {
        id: 1,
        account_id: 2,
        date: "2023-01-01".to_string(),
        payee: "Buy".to_string(),
        notes: Some("Bought 10 shares of FOO".to_string()),
        category: Some("Investment".to_string()),
        amount: 100000,
        ticker: Some("FOO".to_string()),
        shares: Some(10),
        price_per_share: Some(10000),
        fee: Some(500),
        currency: None,
        linked: Some(99),
    }];
    let mut ledger = Ledger::from_rows(accounts, txs, Vec::new()).unwrap();

    let cash_before = balance_of(&ledger, 1);
    let broker_before = balance_of(&ledger, 2);

    let updated = ledger
        .update_brokerage_transaction(UpdateBrokerageTransactionArgs {
            id: 1,
            brokerage_account_id: 2,
            date: "2023-01-02".to_string(),
            ticker: "FOO".to_string(),
            shares: 5,
            price_per_share: 12000,
            fee: 200,
            is_buy: true,
            notes: None,
        })
        .unwrap();

    let diff = updated.amount - 100000;
    assert_eq!(balance_of(&ledger, 2), broker_before + diff);
    assert_eq!(balance_of(&ledger, 1), cash_before);

    assert_eq!(updated.ticker.as_deref(), Some("FOO"));
    assert_eq!(updated.shares, Some(5));
    assert_eq!(updated.price_per_share, Some(12000));
    assert_eq!(updated.fee, Some(200));
    assert_eq!(updated.category.as_deref(), Some("Investment"));
}

#[test]
fn test_update_brokerage_transaction_move_between_broker_accounts() {
    let mut ledger = Ledger::new();
    let cash = ledger
        .create_account("Cash", 100000, "cash", None, "2024-01-01")
        .unwrap();
    let broker_a = ledger
        .create_account("BrokerA", 0, "investment", None, "2024-01-01")
        .unwrap();
    let broker_b = ledger
        .create_account("BrokerB", 0, "investment", None, "2024-01-01")
        .unwrap();

    let created = ledger
        .create_brokerage_transaction(CreateBrokerageTransactionArgs {
            brokerage_account_id: broker_a.id,
            cash_account_id: cash.id,
            date: "2023-01-01".to_string(),
            ticker: "FOO".to_string(),
            shares: 2,
            price_per_share: 10000,
            fee: 100,
            is_buy: true,
        })
        .unwrap();

    // Cash pays the total plus the fee; the broker holds the value.
    let cash_after = balance_of(&ledger, cash.id);
    assert_eq!(cash_after, 79900);
    assert_eq!(balance_of(&ledger, broker_a.id), 20000);

    // Move the trade to the other brokerage account, amounts unchanged.
    ledger
        .update_brokerage_transaction(UpdateBrokerageTransactionArgs {
            id: created.id,
            brokerage_account_id: broker_b.id,
            date: "2023-01-02".to_string(),
            ticker: "FOO".to_string(),
            shares: 2,
            price_per_share: 10000,
            fee: 100,
            is_buy: true,
            notes: None,
        })
        .unwrap();

    assert_eq!(balance_of(&ledger, broker_a.id), 0);
    assert_eq!(balance_of(&ledger, broker_b.id), 20000);
    assert_eq!(balance_of(&ledger, cash.id), cash_after);

    let txs_b = ledger.get_transactions(broker_b.id);
    assert!(txs_b.iter().any(|t| t.id == created.id));
}

#[test]
fn test_update_brokerage_transaction_no_cash_counterpart_does_not_change_cash_account() {
    // The brokerage row is unlinked and the cash row's notes differ, so
    // the fallback finds nothing and cash stays as it was.
    let accounts = vec![
        Account {
            id: 1,
            name: "Cash".to_string(),
            balance: 94900,
            currency: None,
            kind: "cash".to_string(),
            exchange_rate: Rate::new(1, 1),
        },
        Account {
            id: 2,
            name: "Broker".to_string(),
            balance: 5000,
            currency: None,
            kind: "investment".to_string(),
            exchange_rate: Rate::new(1, 1),
        },
    ];
    let txs = vec![
        Transaction {
            id: 1,
            account_id: 2,
            date: "2023-01-01".to_string(),
            payee: "Buy".to_string(),
            notes: Some("Bought 5 shares of BAR".to_string()),
            category: Some("Investment".to_string()),
            amount: 5000,
            ticker: Some("BAR".to_string()),
            shares: Some(5),
            price_per_share: Some(1000),
            fee: Some(100),
            currency: None,
            linked: None,
        },
        Transaction {
            id: 2,
            account_id: 1,
            date: "2023-01-01".to_string(),
            payee: "Broker".to_string(),
            notes: Some("DIFFERENT".to_string()),
            category: Some("Transfer".to_string()),
            amount: -5100,
            ticker: None,
            shares: None,
            price_per_share: None,
            fee: None,
            currency: None,
            linked: None,
        },
    ];
    let mut ledger = Ledger::from_rows(accounts, txs, Vec::new()).unwrap();

    ledger
        .update_brokerage_transaction(UpdateBrokerageTransactionArgs {
            id: 1,
            brokerage_account_id: 2,
            date: "2023-01-02".to_string(),
            ticker: "BAR".to_string(),
            shares: 10,
            price_per_share: 1000,
            fee: 100,
            is_buy: true,
            notes: None,
        })
        .unwrap();

    assert_eq!(balance_of(&ledger, 1), 94900);
}

#[test]
fn test_delete_brokerage_transaction_deletes_linked_cash_counterpart() {
    let mut ledger = Ledger::new();
    let cash_acc = ledger
        .create_account("Cash", 50000, "cash", None, "2024-01-01")
        .unwrap();
    let brokerage_acc = ledger
        .create_account("Broker", 0, "investment", None, "2024-01-01")
        .unwrap();

    let created = ledger
        .create_brokerage_transaction(CreateBrokerageTransactionArgs {
            brokerage_account_id: brokerage_acc.id,
            cash_account_id: cash_acc.id,
            date: "2023-01-01".to_string(),
            ticker: "FOO".to_string(),
            shares: 2,
            price_per_share: 10000,
            fee: 100,
            is_buy: true,
        })
        .unwrap();

    let brokerage_txs = ledger.get_transactions(brokerage_acc.id);
    let cash_txs = ledger.get_transactions(cash_acc.id);
    assert!(!brokerage_txs.is_empty());
    assert!(cash_txs
        .iter()
        .any(|t| t.category.as_deref() == Some("Transfer")));

    ledger.delete_transaction(created.id).unwrap();

    let brokerage_txs_after = ledger.get_transactions(brokerage_acc.id);
    let cash_txs_after = ledger.get_transactions(cash_acc.id);

    assert!(brokerage_txs_after.iter().all(|t| t.id != created.id));
    assert!(cash_txs_after
        .iter()
        .all(|t| t.category.as_deref() != Some("Transfer")));

    assert_eq!(balance_of(&ledger, cash_acc.id), 50000);
    assert_eq!(balance_of(&ledger, brokerage_acc.id), 0);
}
