use ledger::balance::BalanceEntry;
use ledger::compute::compute_balances;
use ledger::event::ExpenseEvent;
use ledger::settle::settle;
use ledger::settle::SettlementError;
use ledger::settle::Transfer;

fn ev(payer: &str, payees: &[&str], description: &str, amount: u64) -> ExpenseEvent {
    ExpenseEvent::new(
        payer.to_string(),
        payees.iter().map(|s| s.to_string()).collect(),
        description.to_string(),
        amount,
    )
    .unwrap()
}

fn balance_sum(balances: &[BalanceEntry]) -> i128 {
    balances.iter().map(|b| b.amount).sum()
}

#[test]
fn remainder_goes_to_lexicographically_first_payees() {
    // 100 split three ways: 34 + 33 + 33, the extra cent to the first id.
    let events = vec![ev("dave", &["alice", "bob", "carol"], "lunch", 100)];
    let balances = compute_balances(&events);
    assert_eq!(balances.len(), 4);
    assert_eq!(balances[0].id, "alice");
    assert_eq!(balances[0].amount, -34);
    assert_eq!(balances[1].id, "bob");
    assert_eq!(balances[1].amount, -33);
    assert_eq!(balances[2].id, "carol");
    assert_eq!(balances[2].amount, -33);
    assert_eq!(balances[3].id, "dave");
    assert_eq!(balances[3].amount, 100);
    assert_eq!(balance_sum(&balances), 0);
}

#[test]
fn two_party_scenario_settles_with_one_transfer() {
    let events = vec![ev("alice", &["alice", "bob"], "groceries", 2000)];
    let balances = compute_balances(&events);
    assert_eq!(balances.len(), 2);
    assert_eq!(balances[0].id, "alice");
    assert_eq!(balances[0].amount, 1000);
    assert_eq!(balances[1].id, "bob");
    assert_eq!(balances[1].amount, -1000);
    let transfers = settle(&balances).unwrap();
    assert_eq!(
        transfers,
        vec![Transfer { from: "bob".to_string(), to: "alice".to_string(), amount: 1000 }]
    );
}

#[test]
fn three_party_scenario_sums_to_zero_and_needs_at_most_two_transfers() {
    let events = vec![
        ev("alice", &["alice", "bob", "carol"], "dinner", 300),
        ev("bob", &["bob", "carol"], "taxi", 60),
    ];
    let balances = compute_balances(&events);
    assert_eq!(balance_sum(&balances), 0);
    assert_eq!(balances[0].id, "alice");
    assert_eq!(balances[0].amount, 200);
    assert_eq!(balances[1].id, "bob");
    assert_eq!(balances[1].amount, -70);
    assert_eq!(balances[2].id, "carol");
    assert_eq!(balances[2].amount, -130);
    let transfers = settle(&balances).unwrap();
    assert!(transfers.len() <= 2);
    // Largest debtor first, ties by identifier.
    assert_eq!(transfers[0].from, "carol");
    assert_eq!(transfers[0].to, "alice");
    assert_eq!(transfers[0].amount, 130);
    assert_eq!(transfers[1].from, "bob");
    assert_eq!(transfers[1].to, "alice");
    assert_eq!(transfers[1].amount, 70);
}

#[test]
fn conservation_holds_for_uneven_splits() {
    let events = vec![
        ev("a", &["b", "c", "d"], "one", 101),
        ev("b", &["a", "b", "c", "d"], "two", 7),
        ev("c", &["a"], "three", 9999),
        ev("d", &["a", "d"], "four", 1),
    ];
    let balances = compute_balances(&events);
    assert_eq!(balance_sum(&balances), 0);
}

#[test]
fn repeated_runs_agree() {
    let events = vec![
        ev("a", &["b", "c"], "one", 35),
        ev("b", &["a", "c"], "two", 77),
    ];
    let b1 = compute_balances(&events);
    let b2 = compute_balances(&events);
    assert_eq!(b1, b2);
    let t1 = settle(&b1).unwrap();
    let t2 = settle(&b2).unwrap();
    assert_eq!(t1, t2);
}

#[test]
fn applying_transfers_zeroes_all_balances() {
    let events = vec![
        ev("a", &["b", "c", "d"], "one", 100),
        ev("b", &["a", "c"], "two", 31),
        ev("c", &["a", "b", "c", "d"], "three", 57),
    ];
    let mut balances = compute_balances(&events);
    let transfers = settle(&balances).unwrap();
    for t in &transfers {
        for b in balances.iter_mut() {
            if b.id == t.from {
                b.amount += t.amount;
            }
            if b.id == t.to {
                b.amount -= t.amount;
            }
        }
    }
    for b in &balances {
        assert_eq!(b.amount, 0, "{} not settled", b.id);
    }
}

#[test]
fn transfer_count_stays_below_participant_count() {
    let events = vec![
        ev("a", &["b", "c", "d", "e"], "one", 97),
        ev("b", &["a", "c"], "two", 31),
    ];
    let balances = compute_balances(&events);
    let nonzero = balances.iter().filter(|b| b.amount != 0).count();
    let transfers = settle(&balances).unwrap();
    assert!(nonzero > 0);
    assert!(transfers.len() <= nonzero - 1);
}

#[test]
fn unbalanced_input_is_rejected() {
    let balances = vec![BalanceEntry { id: "a".to_string(), amount: 5 }];
    assert_eq!(settle(&balances).unwrap_err(), SettlementError::Unbalanced);
}

#[test]
fn empty_and_all_zero_balances_settle_with_no_transfers() {
    let empty: Vec<BalanceEntry> = Vec::new();
    assert_eq!(settle(&empty).unwrap(), Vec::new());
    let zeros = vec![
        BalanceEntry { id: "a".to_string(), amount: 0 },
        BalanceEntry { id: "b".to_string(), amount: 0 },
    ];
    assert_eq!(settle(&zeros).unwrap(), Vec::new());
}

#[test]
fn payer_among_payees_is_both_credited_and_debited() {
    let events = vec![ev("alice", &["alice"], "solo", 500)];
    let balances = compute_balances(&events);
    assert_eq!(balances.len(), 1);
    assert_eq!(balances[0].id, "alice");
    assert_eq!(balances[0].amount, 0);
    assert_eq!(settle(&balances).unwrap(), Vec::new());
}

#[test]
fn no_events_yield_no_balances_and_no_transfers() {
    let events: Vec<ExpenseEvent> = Vec::new();
    let balances = compute_balances(&events);
    assert!(balances.is_empty());
    assert_eq!(settle(&balances).unwrap(), Vec::new());
}

#[test]
fn five_party_settlement_zeroes_everyone() {
    let events = vec![
        ev("a", &["a", "b", "c", "d", "e"], "rent", 100000),
        ev("b", &["a", "c"], "coffee", 777),
        ev("c", &["b", "d", "e"], "fuel", 3130),
        ev("e", &["a", "b", "c", "d", "e"], "food", 991),
    ];
    let mut balances = compute_balances(&events);
    assert_eq!(balance_sum(&balances), 0);
    let transfers = settle(&balances).unwrap();
    let nonzero = balances.iter().filter(|b| b.amount != 0).count();
    assert!(transfers.len() <= nonzero.saturating_sub(1));
    for t in &transfers {
        assert!(t.amount > 0);
        assert_ne!(t.from, t.to);
        for b in balances.iter_mut() {
            if b.id == t.from {
                b.amount += t.amount;
            }
            if b.id == t.to {
                b.amount -= t.amount;
            }
        }
    }
    assert!(balances.iter().all(|b| b.amount == 0));
}
