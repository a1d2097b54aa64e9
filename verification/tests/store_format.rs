use ledger::event::ExpenseEvent;
use ledger::store::encode_record;
use ledger::store::parse_record;
use ledger::store::read_records;

#[test]
fn corrupt_line_is_skipped_and_reported() {
    // Three lines, one malformed: exactly two events come back, with the
    // corrupt position reported.
    let lines = vec![
        "alice,alice bob,dinner,2000".to_string(),
        "this is not a record".to_string(),
        "bob,bob carol,taxi,60".to_string(),
    ];
    let (events, bad) = read_records(&lines);
    assert_eq!(events.len(), 2);
    assert_eq!(bad, vec![1]);
    assert_eq!(events[0].payer, "alice");
    assert_eq!(events[0].amount, 2000);
    assert_eq!(events[1].payer, "bob");
    assert_eq!(events[1].amount, 60);
}

#[test]
fn parse_reads_all_fields() {
    let e = parse_record("carol,alice bob carol,shared dinner,305").unwrap();
    assert_eq!(e.payer, "carol");
    assert_eq!(e.payees, vec!["alice", "bob", "carol"]);
    assert_eq!(e.description, "shared dinner");
    assert_eq!(e.amount, 305);
}

#[test]
fn parse_sorts_and_deduplicates_payees() {
    let e = parse_record("a,zoe bob zoe alice,trip,10").unwrap();
    assert_eq!(e.payees, vec!["alice", "bob", "zoe"]);
}

#[test]
fn malformed_lines_are_rejected() {
    assert!(parse_record("").is_none());
    assert!(parse_record("too,few,fields").is_none());
    assert!(parse_record("a,b,c,d,e").is_none());
    assert!(parse_record(",bob,dinner,10").is_none()); // empty payer
    assert!(parse_record("al ice,bob,dinner,10").is_none()); // space in payer
    assert!(parse_record("alice,,dinner,10").is_none()); // no payees
    assert!(parse_record("alice,bob  carol,dinner,10").is_none()); // empty payee
    assert!(parse_record("alice,bob,,10").is_none()); // empty description
    assert!(parse_record("alice,bob,dinner,").is_none()); // no amount
    assert!(parse_record("alice,bob,dinner,0").is_none()); // zero amount
    assert!(parse_record("alice,bob,dinner,12x4").is_none()); // non-digit
    assert!(parse_record("alice,bob,dinner,-5").is_none()); // sign not allowed
}

#[test]
fn amount_bounds_are_exact() {
    // u64::MAX parses; one more does not.
    let max = parse_record("a,b,d,18446744073709551615").unwrap();
    assert_eq!(max.amount, u64::MAX);
    assert!(parse_record("a,b,d,18446744073709551616").is_none());
}

#[test]
fn encode_renders_the_record_line() {
    let e = ExpenseEvent::new(
        "alice".to_string(),
        vec!["bob".to_string(), "alice".to_string()],
        "dinner".to_string(),
        2000,
    )
    .unwrap();
    let line = encode_record(&e).unwrap();
    assert_eq!(line, "alice,alice bob,dinner,2000");
}

#[test]
fn encode_then_parse_round_trips() {
    let e = ExpenseEvent::new(
        "dave".to_string(),
        vec!["alice".to_string(), "bob".to_string(), "carol".to_string()],
        "pizza night".to_string(),
        101,
    )
    .unwrap();
    let line = encode_record(&e).unwrap();
    let back = parse_record(line.as_str()).unwrap();
    assert_eq!(back.payer, e.payer);
    assert_eq!(back.payees, e.payees);
    assert_eq!(back.description, e.description);
    assert_eq!(back.amount, e.amount);
}

#[test]
fn encode_refuses_fields_that_collide_with_the_format() {
    let comma = ExpenseEvent::new(
        "alice".to_string(),
        vec!["bob".to_string()],
        "soup, salad".to_string(),
        10,
    )
    .unwrap();
    assert!(encode_record(&comma).is_none());
    let newline = ExpenseEvent::new(
        "alice".to_string(),
        vec!["bob".to_string()],
        "two\nlines".to_string(),
        10,
    )
    .unwrap();
    assert!(encode_record(&newline).is_none());
}
