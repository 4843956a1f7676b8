//! Currency resolution and balance aggregation. Rates are exact
//! rationals; amounts are in minor units.

use honeybear::{
    calculate_account_balances, Account, CreateTransactionArgs, CurrencySum, Ledger, Rate,
    RateMap,
};

fn account_with_currency(id: i64, name: &str, currency: Option<&str>) -> Account {
    Account {
        id,
        name: name.to_string(),
        balance: 0,
        currency: currency.map(|c| c.to_string()),
        kind: "cash".to_string(),
        exchange_rate: Rate::new(1, 1),
    }
}

#[test]
fn test_transactions_store_currency() {
    let mut ledger = Ledger::new();
    let acc = ledger
        .create_account("A", 100000, "cash", None, "2024-01-01")
        .unwrap();

    let tx = ledger
        .create_transaction(CreateTransactionArgs {
            account_id: acc.id,
            date: "2023-01-01".to_string(),
            payee: "Payee".to_string(),
            notes: None,
            category: None,
            amount: -1000,
            ticker: None,
            shares: None,
            price_per_share: None,
            fee: None,
            currency: Some("EUR".to_string()),
        })
        .unwrap();

    let txs = ledger.get_transactions(acc.id);
    assert!(txs
        .iter()
        .any(|t| t.id == tx.id && t.currency.as_deref() == Some("EUR")));
}

#[test]
fn test_custom_rate_application() {
    let accounts = vec![account_with_currency(1, "TestAcc", Some("EUR"))];

    // One hundred EUR on a EUR account, target USD.
    let raw_data = vec![CurrencySum {
        account_id: 1,
        currency: "EUR".to_string(),
        amount: 10000,
    }];

    let rates = RateMap::new();
    let mut custom_rates = RateMap::new();
    custom_rates.insert("EUR", Rate::new(11, 10)); // 1 EUR = 1.1 USD

    let updated = calculate_account_balances(accounts, raw_data, "USD", &rates, &custom_rates);

    // EUR into EUR needs no conversion.
    assert_eq!(updated[0].balance, 10000);

    // The exchange rate to the target uses the override: 1.1.
    assert_eq!(
        updated[0].exchange_rate.num() * 10,
        updated[0].exchange_rate.den() * 11
    );
}

#[test]
fn test_cross_rate_conversion() {
    // Account in GBP, transaction in EUR, overrides EUR = 1.2 USD and
    // GBP = 1.5 USD: the EUR amount converts at 1.2 / 1.5 = 0.8.
    let accounts = vec![account_with_currency(1, "GBP Acc", Some("GBP"))];

    let raw_data = vec![CurrencySum {
        account_id: 1,
        currency: "EUR".to_string(),
        amount: 10000,
    }];

    let rates = RateMap::new();
    let mut custom_rates = RateMap::new();
    custom_rates.insert("EUR", Rate::new(12, 10));
    custom_rates.insert("GBP", Rate::new(15, 10));

    let updated = calculate_account_balances(accounts, raw_data, "USD", &rates, &custom_rates);

    assert_eq!(updated.len(), 1);
    // 10000 * (1.2 / 1.5) = 8000.
    assert_eq!(updated[0].balance, 8000);

    // The account's own exchange rate, GBP to USD, is 1.5.
    assert_eq!(
        updated[0].exchange_rate.num() * 10,
        updated[0].exchange_rate.den() * 15
    );
}

#[test]
fn test_direct_rate_priority() {
    // A direct EUR to GBP rate of 0.9 wins over the 0.8 the overrides
    // would imply through USD.
    let accounts = vec![account_with_currency(1, "GBP Acc", Some("GBP"))];

    let raw_data = vec![CurrencySum {
        account_id: 1,
        currency: "EUR".to_string(),
        amount: 10000,
    }];

    let mut rates = RateMap::new();
    rates.insert("EURGBP=X", Rate::new(9, 10));

    let mut custom_rates = RateMap::new();
    custom_rates.insert("EUR", Rate::new(12, 10));
    custom_rates.insert("GBP", Rate::new(15, 10));

    let updated = calculate_account_balances(accounts, raw_data, "USD", &rates, &custom_rates);

    // 10000 * 0.9 = 9000, not 8000.
    assert_eq!(updated[0].balance, 9000);
}

#[test]
fn test_fallback_when_direct_rate_missing() {
    // No direct pair: the rate pivots through USD with the live rates
    // EURUSD = 1.2 and GBPUSD = 1.5.
    let accounts = vec![account_with_currency(1, "GBP Acc", Some("GBP"))];

    let raw_data = vec![CurrencySum {
        account_id: 1,
        currency: "EUR".to_string(),
        amount: 10000,
    }];

    let mut rates = RateMap::new();
    rates.insert("EURUSD=X", Rate::new(12, 10));
    rates.insert("GBPUSD=X", Rate::new(15, 10));

    let custom_rates = RateMap::new();

    let updated = calculate_account_balances(accounts, raw_data, "USD", &rates, &custom_rates);

    // 10000 * (1.2 / 1.5) = 8000.
    assert_eq!(updated[0].balance, 8000);
}

#[test]
fn test_resolve_rate_same_currency_is_one() {
    let rates = RateMap::new();
    let custom = RateMap::new();
    let r = honeybear::resolve_rate("EUR", "EUR", &rates, &custom);
    assert_eq!(r.num(), 1);
    assert_eq!(r.den(), 1);
}

#[test]
fn test_resolve_rate_zero_pivot_falls_back_to_one() {
    // A zero rate for the destination's pivot cannot divide; the
    // resolver degrades to the identity rate.
    let mut rates = RateMap::new();
    rates.insert("EURUSD=X", Rate::new(12, 10));
    rates.insert("GBPUSD=X", Rate::new(0, 1));
    let custom = RateMap::new();
    let r = honeybear::resolve_rate("EUR", "GBP", &rates, &custom);
    assert_eq!(r.num(), 1);
    assert_eq!(r.den(), 1);
}

#[test]
fn test_set_and_get_custom_exchange_rate() {
    let mut ledger = Ledger::new();
    assert!(ledger.get_custom_exchange_rate("EUR").is_none());
    ledger.set_custom_exchange_rate("EUR", Rate::new(11, 10));
    let r = ledger.get_custom_exchange_rate("EUR").unwrap();
    assert_eq!(r.num(), 11);
    assert_eq!(r.den(), 10);
    // Setting again replaces the stored rate.
    ledger.set_custom_exchange_rate("EUR", Rate::new(12, 10));
    let r2 = ledger.get_custom_exchange_rate("EUR").unwrap();
    assert_eq!(r2.num(), 12);
}
