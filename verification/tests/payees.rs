//! Distinct payee and category listings.

use honeybear::{CreateTransactionArgs, Ledger};

fn args(
    account_id: i64,
    date: &str,
    payee: &str,
    category: Option<&str>,
    notes: Option<&str>,
    amount: i64,
) -> CreateTransactionArgs {
    CreateTransactionArgs {
        account_id,
        date: date.to_string(),
        payee: payee.to_string(),
        notes: notes.map(|n| n.to_string()),
        category: category.map(|c| c.to_string()),
        amount,
        ticker: None,
        shares: None,
        price_per_share: None,
        fee: None,
        currency: None,
    }
}

#[test]
fn test_get_payees_and_categories() {
    let mut ledger = Ledger::new();
    let acc = ledger
        .create_account("A", 10000, "cash", None, "2024-01-01")
        .unwrap();

    ledger
        .create_transaction(args(acc.id, "2023-01-01", "Payee1", Some("Food"), None, -1000))
        .unwrap();
    ledger
        .create_transaction(args(acc.id, "2023-01-02", "Payee2", Some("Bills"), None, -2000))
        .unwrap();

    // A transfer is categorized as Transfer and must not show as a
    // category.
    let acc2 = ledger
        .create_account("Acc2", 0, "cash", None, "2024-01-01")
        .unwrap();
    ledger
        .create_transaction(args(acc.id, "2023-01-03", &acc2.name, None, Some("XFER"), -3000))
        .unwrap();

    let payees = ledger.get_payees();
    assert!(payees.contains(&"Payee1".to_string()));
    assert!(payees.contains(&"Payee2".to_string()));
    assert!(payees.contains(&acc2.name));

    let cats = ledger.get_categories();
    assert!(cats.contains(&"Food".to_string()));
    assert!(cats.contains(&"Bills".to_string()));
    assert!(!cats.contains(&"Transfer".to_string()));
}

#[test]
fn test_get_payees_and_categories_empty() {
    let ledger = Ledger::new();
    let payees = ledger.get_payees();
    let cats = ledger.get_categories();
    assert!(payees.is_empty());
    assert!(cats.is_empty());
}

#[test]
fn test_payees_and_categories_sorted() {
    let mut ledger = Ledger::new();
    // A zero opening balance avoids the "Opening Balance" payee.
    let acc = ledger
        .create_account("A", 0, "cash", None, "2024-01-01")
        .unwrap();
    ledger
        .create_transaction(args(acc.id, "2023-01-03", "ZPay", Some("ZCat"), None, -1000))
        .unwrap();
    ledger
        .create_transaction(args(acc.id, "2023-01-02", "APay", Some("ACat"), None, -500))
        .unwrap();

    let payees = ledger.get_payees();
    assert_eq!(payees, vec!["APay".to_string(), "ZPay".to_string()]);

    let cats = ledger.get_categories();
    assert_eq!(cats, vec!["ACat".to_string(), "ZCat".to_string()]);
}
