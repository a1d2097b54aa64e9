use ledger::complete::SimpleCompletion;
use ledger::event::ExpenseEvent;
use ledger::event::ValidationError;

fn names(items: &[&str]) -> Vec<String> {
    items.iter().map(|s| s.to_string()).collect()
}

#[test]
fn valid_input_builds_a_sorted_event() {
    let e = ExpenseEvent::new(
        "alice".to_string(),
        names(&["carol", "bob", "carol"]),
        "dinner".to_string(),
        300,
    )
    .unwrap();
    assert_eq!(e.payer, "alice");
    assert_eq!(e.payees, vec!["bob", "carol"]);
    assert_eq!(e.description, "dinner");
    assert_eq!(e.amount, 300);
}

#[test]
fn zero_amount_is_rejected() {
    let r = ExpenseEvent::new("alice".to_string(), names(&["bob"]), "x".to_string(), 0);
    assert_eq!(r.unwrap_err(), ValidationError::NonPositiveAmount);
}

#[test]
fn empty_payer_is_rejected() {
    let r = ExpenseEvent::new("".to_string(), names(&["bob"]), "x".to_string(), 10);
    assert_eq!(r.unwrap_err(), ValidationError::EmptyPayer);
}

#[test]
fn empty_description_is_rejected() {
    let r = ExpenseEvent::new("alice".to_string(), names(&["bob"]), "".to_string(), 10);
    assert_eq!(r.unwrap_err(), ValidationError::EmptyDescription);
}

#[test]
fn empty_payee_list_is_rejected() {
    let r = ExpenseEvent::new("alice".to_string(), Vec::new(), "x".to_string(), 10);
    assert_eq!(r.unwrap_err(), ValidationError::EmptyPayees);
}

#[test]
fn empty_payee_id_is_rejected() {
    let r = ExpenseEvent::new("alice".to_string(), names(&["bob", ""]), "x".to_string(), 10);
    assert_eq!(r.unwrap_err(), ValidationError::EmptyPayeeId);
}

#[test]
fn completion_returns_first_option_with_the_prefix() {
    let c = SimpleCompletion { options: names(&["bob", "alice", "alina"]) };
    assert_eq!(c.get("al"), Some("alice".to_string()));
    assert_eq!(c.get("alin"), Some("alina".to_string()));
    assert_eq!(c.get("b"), Some("bob".to_string()));
    assert_eq!(c.get(""), Some("bob".to_string()));
    assert_eq!(c.get("z"), None);
}

#[test]
fn completion_of_empty_history_is_none() {
    let c = SimpleCompletion { options: Vec::new() };
    assert_eq!(c.get("a"), None);
}
