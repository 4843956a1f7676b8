//! Categorization rules: create, list, update, delete, reorder.

use honeybear::Ledger;

#[test]
fn test_create_and_get_rules() {
    let mut ledger = Ledger::new();

    let id = ledger
        .create_rule(
            10,
            "payee".to_string(),
            "Starbucks".to_string(),
            "category".to_string(),
            "Coffee".to_string(),
        )
        .expect("failed to create rule");

    assert!(id > 0);

    let rules = ledger.get_rules();
    assert_eq!(rules.len(), 1);

    let rule = &rules[0];
    assert_eq!(rule.id, id);
    assert_eq!(rule.priority, 10);
    assert_eq!(rule.match_field, "payee");
    assert_eq!(rule.match_pattern, "Starbucks");
    assert_eq!(rule.action_field, "category");
    assert_eq!(rule.action_value, "Coffee");
}

#[test]
fn test_delete_rule() {
    let mut ledger = Ledger::new();

    let id = ledger
        .create_rule(
            10,
            "payee".to_string(),
            "Delete Me".to_string(),
            "category".to_string(),
            "N/A".to_string(),
        )
        .unwrap();

    let rules_before = ledger.get_rules();
    assert_eq!(rules_before.len(), 1);

    ledger.delete_rule(id).expect("failed to delete rule");

    let rules_after = ledger.get_rules();
    assert_eq!(rules_after.len(), 0);
}

#[test]
fn test_reorder_rules() {
    let mut ledger = Ledger::new();

    let id1 = ledger
        .create_rule(0, "f".to_string(), "p".to_string(), "a".to_string(), "v".to_string())
        .unwrap();
    let id2 = ledger
        .create_rule(0, "f".to_string(), "p".to_string(), "a".to_string(), "v".to_string())
        .unwrap();
    let id3 = ledger
        .create_rule(0, "f".to_string(), "p".to_string(), "a".to_string(), "v".to_string())
        .unwrap();

    // New order, top to bottom: the first listed id gets the highest
    // priority.
    let new_order = vec![id2, id3, id1];

    ledger.update_rules_order(new_order);

    let rules = ledger.get_rules();

    assert_eq!(rules.len(), 3);
    assert_eq!(rules[0].id, id2);
    assert_eq!(rules[1].id, id3);
    assert_eq!(rules[2].id, id1);

    assert_eq!(rules[0].priority, 3);
    assert_eq!(rules[1].priority, 2);
    assert_eq!(rules[2].priority, 1);
}

#[test]
fn test_update_rule() {
    let mut ledger = Ledger::new();

    let id = ledger
        .create_rule(
            10,
            "payee".to_string(),
            "Starbucks".to_string(),
            "category".to_string(),
            "Coffee".to_string(),
        )
        .unwrap();

    ledger
        .update_rule(
            id,
            20,
            "notes".to_string(),
            "My Note".to_string(),
            "amount".to_string(),
            "50.00".to_string(),
        )
        .expect("failed to update rule");

    let rules = ledger.get_rules();
    let rule = &rules[0];

    assert_eq!(rule.priority, 20);
    assert_eq!(rule.match_field, "notes");
    assert_eq!(rule.match_pattern, "My Note");
    assert_eq!(rule.action_field, "amount");
    assert_eq!(rule.action_value, "50.00");
}
