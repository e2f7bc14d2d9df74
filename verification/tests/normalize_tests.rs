//! Normalization of raw rows into commands: the five type tags matched
//! ignoring ASCII case, the amount rules, and the rejections.

use payments_engine::ledger::Command;
use payments_engine::normalize::RawRecord;
use payments_engine::normalize::RejectReason;
use payments_engine::normalize::normalize;

fn rec(tx_type: &str, client: u16, tx: u32, amount: Option<i64>) -> RawRecord {
    RawRecord { tx_type: tx_type.to_string(), client, tx, amount }
}

#[test]
fn known_types_normalize_to_commands() {
    assert_eq!(
        normalize(&rec("deposit", 1, 2, Some(12400))),
        Ok(Command::Deposit { client: 1, tx: 2, amount: 12400 })
    );
    assert_eq!(
        normalize(&rec("withdrawal", 3, 4, Some(5000))),
        Ok(Command::Withdrawal { client: 3, tx: 4, amount: 5000 })
    );
    assert_eq!(normalize(&rec("dispute", 5, 6, None)), Ok(Command::Dispute { client: 5, tx: 6 }));
    assert_eq!(normalize(&rec("resolve", 7, 8, None)), Ok(Command::Resolve { client: 7, tx: 8 }));
    assert_eq!(
        normalize(&rec("chargeback", 9, 10, None)),
        Ok(Command::Chargeback { client: 9, tx: 10 })
    );
}

#[test]
fn type_tags_match_ignoring_ascii_case() {
    assert_eq!(
        normalize(&rec("DePoSiT", 1, 2, Some(100))),
        Ok(Command::Deposit { client: 1, tx: 2, amount: 100 })
    );
    assert_eq!(
        normalize(&rec("WITHDRAWAL", 1, 2, Some(100))),
        Ok(Command::Withdrawal { client: 1, tx: 2, amount: 100 })
    );
    assert_eq!(normalize(&rec("Chargeback", 1, 2, None)), Ok(Command::Chargeback {
        client: 1,
        tx: 2,
    }));
}

#[test]
fn unknown_type_is_rejected() {
    assert_eq!(normalize(&rec("transfer", 1, 2, Some(100))), Err(RejectReason::UnknownType));
    assert_eq!(normalize(&rec("", 1, 2, None)), Err(RejectReason::UnknownType));
    assert_eq!(normalize(&rec("deposits", 1, 2, Some(100))), Err(RejectReason::UnknownType));
    // a tag with surrounding whitespace is the source adapter's to trim
    assert_eq!(normalize(&rec(" deposit", 1, 2, Some(100))), Err(RejectReason::UnknownType));
}

#[test]
fn missing_amount_is_rejected() {
    assert_eq!(normalize(&rec("deposit", 1, 2, None)), Err(RejectReason::MissingAmount));
    assert_eq!(normalize(&rec("withdrawal", 1, 2, None)), Err(RejectReason::MissingAmount));
}

#[test]
fn amount_on_dispute_commands_is_ignored() {
    assert_eq!(normalize(&rec("dispute", 1, 2, Some(999))), Ok(Command::Dispute {
        client: 1,
        tx: 2,
    }));
    assert_eq!(normalize(&rec("resolve", 1, 2, Some(999))), Ok(Command::Resolve {
        client: 1,
        tx: 2,
    }));
    assert_eq!(normalize(&rec("chargeback", 1, 2, Some(999))), Ok(Command::Chargeback {
        client: 1,
        tx: 2,
    }));
}
