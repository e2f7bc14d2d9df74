//! The engine's behaviour, command by command: the tests feed normalized
//! raw rows to the ledger and inspect the resulting accounts.

use payments_engine::ledger::Command;
use payments_engine::ledger::DisputeState;
use payments_engine::ledger::Engine;
use payments_engine::ledger::TxDetail;
use payments_engine::normalize::RawRecord;
use payments_engine::normalize::normalize;

/// Parse a plain decimal literal into ten-thousandths.
fn units(s: &str) -> i64 {
    let neg = s.starts_with('-');
    let t = if neg { &s[1..] } else { s };
    let (whole, frac) = match t.split_once('.') {
        Some((w, f)) => (w, f),
        None => (t, ""),
    };
    let mut fr = String::from(frac);
    while fr.len() < 4 {
        fr.push('0');
    }
    let w: i64 = if whole.is_empty() { 0 } else { whole.parse().expect("whole part parses") };
    let f: i64 = fr[..4].parse().expect("fractional part parses");
    let mag = w * 10000 + f;
    if neg { -mag } else { mag }
}

fn raw(kind: &str, client: u16, tx: u32, amount: Option<&str>) -> Command {
    let rec = RawRecord {
        tx_type: kind.to_string(),
        client,
        tx,
        amount: amount.map(units),
    };
    normalize(&rec).expect("Raw transaction failed to convert into a command")
}

#[test]
fn deposit_and_withdraw() {
    let mut engine = Engine::default();
    engine.process_record(raw("deposit", 1, 1, Some("1.24")));
    engine.process_record(raw("withdrawal", 1, 2, Some("0.5")));

    let account = engine.get_account(1).unwrap();
    assert_eq!(account.available, units("0.74"));
    assert_eq!(account.held, 0);
    assert!(!account.locked);
}

#[test]
fn dispute_and_resolve_cycle() {
    let mut engine = Engine::default();
    engine.process_record(raw("deposit", 1, 1, Some("2.0")));
    engine.process_record(raw("deposit", 1, 2, Some("1.0")));
    engine.process_record(raw("dispute", 1, 1, None));
    engine.process_record(raw("resolve", 1, 1, None));

    let account = engine.get_account(1).unwrap();
    assert_eq!(account.available, units("3.0"));
    assert_eq!(account.held, 0);
    assert!(!account.locked);
}

#[test]
fn chargeback_locks_account() {
    let mut engine = Engine::default();
    engine.process_record(raw("deposit", 1, 1, Some("3.5")));
    engine.process_record(raw("dispute", 1, 1, None));
    engine.process_record(raw("deposit", 1, 2, Some("5.0")));
    engine.process_record(raw("chargeback", 1, 1, None));
    engine.process_record(raw("deposit", 1, 3, Some("1.0")));

    let account = engine.get_account(1).unwrap();
    assert_eq!(account.available, units("5.0"));
    assert_eq!(account.held, 0);
    assert!(account.locked);
}

#[test]
fn withdrawal_before_any_deposit_is_ignored() {
    let mut engine = Engine::default();
    engine.process_record(raw("withdrawal", 1, 1, Some("1.0")));

    let account = engine.get_account(1).unwrap();
    assert_eq!(account.available, 0);
    assert_eq!(account.held, 0);
    assert!(account.transaction_count() == 0);
}

#[test]
fn skips_insufficient_withdrawal() {
    let mut engine = Engine::default();
    engine.process_record(raw("deposit", 1, 1, Some("1.0")));
    engine.process_record(raw("deposit", 1, 3, Some("1.0")));
    engine.process_record(raw("withdrawal", 1, 2, Some("2.01")));

    let account = engine.get_account(1).unwrap();
    assert_eq!(account.available, units("2.0"));
}

#[test]
fn withdrawal_does_not_use_held_funds() {
    let mut engine = Engine::default();
    engine.process_record(raw("deposit", 1, 1, Some("5.0")));
    engine.process_record(raw("deposit", 1, 5, Some("2.0")));
    engine.process_record(raw("dispute", 1, 1, None));
    engine.process_record(raw("withdrawal", 1, 2, Some("3.0")));

    let account = engine.get_account(1).unwrap();
    assert_eq!(account.available, units("2.0"));
    assert_eq!(account.held, units("5.0"));
    assert!(!account.locked);
}

#[test]
fn disputing_already_disputed_transaction_is_ignored() {
    let mut engine = Engine::default();
    engine.process_record(raw("deposit", 1, 1, Some("2.0")));
    engine.process_record(raw("dispute", 1, 1, None));
    engine.process_record(raw("dispute", 1, 1, None));

    let account = engine.get_account(1).unwrap();
    assert_eq!(account.available, 0);
    assert_eq!(account.held, units("2.0"));
    let TxDetail::Deposit { state, .. } = account.find_transaction(1).unwrap().detail else {
        panic!("expected deposit transaction");
    };
    assert!(matches!(state, DisputeState::Disputed));
}

#[test]
fn resolve_not_in_dispute_is_ignored() {
    let mut engine = Engine::default();
    engine.process_record(raw("deposit", 1, 1, Some("2.0")));
    engine.process_record(raw("resolve", 1, 1, None));

    let account = engine.get_account(1).unwrap();
    assert_eq!(account.available, units("2.0"));
    assert_eq!(account.held, 0);
    let TxDetail::Deposit { state, .. } = account.find_transaction(1).unwrap().detail else {
        panic!("expected deposit transaction");
    };
    assert!(matches!(state, DisputeState::Normal));
}

#[test]
fn chargeback_not_in_dispute_is_ignored() {
    let mut engine = Engine::default();
    engine.process_record(raw("deposit", 1, 1, Some("2.0")));
    engine.process_record(raw("chargeback", 1, 1, None));

    let account = engine.get_account(1).unwrap();
    assert_eq!(account.available, units("2.0"));
    assert_eq!(account.held, 0);
    assert!(!account.locked);
    let TxDetail::Deposit { state, .. } = account.find_transaction(1).unwrap().detail else {
        panic!("expected deposit transaction");
    };
    assert!(matches!(state, DisputeState::Normal));
}

#[test]
fn dispute_or_resolution_on_withdrawal_is_ignored() {
    let mut engine = Engine::default();
    engine.process_record(raw("deposit", 1, 1, Some("2.0")));
    engine.process_record(raw("withdrawal", 1, 2, Some("1.0")));
    engine.process_record(raw("dispute", 1, 2, None));
    engine.process_record(raw("resolve", 1, 2, None));
    engine.process_record(raw("chargeback", 1, 2, None));

    let account = engine.get_account(1).unwrap();
    assert_eq!(account.available, units("1.0"));
    assert_eq!(account.held, 0);
    assert!(!account.locked);
    let TxDetail::Withdrawal { amount } = account.find_transaction(2).unwrap().detail else {
        panic!("expected withdrawal transaction");
    };
    assert_eq!(amount, units("1.0"));
}

#[test]
fn dispute_or_resolution_on_missing_transaction_is_ignored() {
    let mut engine = Engine::default();
    engine.process_record(raw("deposit", 1, 1, Some("2.0")));
    engine.process_record(raw("dispute", 1, 98, None));
    engine.process_record(raw("resolve", 1, 99, None));
    engine.process_record(raw("chargeback", 1, 99, None));

    let account = engine.get_account(1).unwrap();
    assert_eq!(account.available, units("2.0"));
    assert_eq!(account.held, 0);
    assert!(!account.locked);
    assert!(matches!(
        account.find_transaction(1).unwrap().detail,
        TxDetail::Deposit { .. }
    ));
}

#[test]
fn all_transaction_types_are_ignored_on_locked_account() {
    let mut engine = Engine::default();
    engine.process_record(raw("deposit", 1, 1, Some("3.0")));
    engine.process_record(raw("dispute", 1, 1, None));
    engine.process_record(raw("chargeback", 1, 1, None));

    engine.process_record(raw("deposit", 1, 2, Some("1.0")));
    engine.process_record(raw("withdrawal", 1, 3, Some("1.0")));
    engine.process_record(raw("dispute", 1, 1, None));
    engine.process_record(raw("resolve", 1, 1, None));
    engine.process_record(raw("chargeback", 1, 1, None));

    let account = engine.get_account(1).unwrap();
    assert_eq!(account.available, 0);
    assert_eq!(account.held, 0);
    assert!(account.locked);
    assert_eq!(account.transaction_count(), 1);
    let TxDetail::Deposit { state, .. } = account.find_transaction(1).unwrap().detail else {
        panic!("expected deposit transaction");
    };
    assert!(matches!(state, DisputeState::ChargedBack));
}

#[test]
fn duplicate_transactions_ids_ignored() {
    let mut engine = Engine::default();
    engine.process_record(raw("deposit", 1, 1, Some("1.24")));
    engine.process_record(raw("withdrawal", 1, 2, Some("0.5")));
    engine.process_record(raw("deposit", 1, 2, Some("5")));

    let account = engine.get_account(1).unwrap();
    assert_eq!(account.available, units("0.74"));
    assert_eq!(account.held, 0);
    assert!(!account.locked);
}

#[test]
fn processes_end_to_end_csv() {
    // the rows of the input stream, in order: type, client, tx, amount
    let rows: Vec<(&str, u16, u32, Option<&str>)> = vec![
        ("deposit", 1, 1, Some("5.0")),
        ("deposit", 1, 2, Some("2.5")),
        ("withdrawal", 1, 3, Some("1.0")),
        ("dispute", 1, 1, None),
        ("resolve", 1, 1, None),
        ("dispute", 1, 2, None),
        ("chargeback", 1, 2, None),
        ("deposit", 1, 4, Some("1.0")),
        ("deposit", 2, 5, Some("3.0")),
        ("withdrawal", 2, 6, Some("1.0")),
    ];
    let mut engine = Engine::default();
    for (kind, client, tx, amount) in rows {
        engine.process_record(raw(kind, client, tx, amount));
    }

    let a1 = engine.get_account(1).expect("client 1 exists");
    assert_eq!(a1.available, units("4"));
    assert_eq!(a1.held, 0);
    assert_eq!(a1.total(), units("4") as i128);
    assert!(a1.locked);

    let a2 = engine.get_account(2).expect("client 2 exists");
    assert_eq!(a2.available, units("2"));
    assert_eq!(a2.held, 0);
    assert_eq!(a2.total(), units("2") as i128);
    assert!(!a2.locked);
}
