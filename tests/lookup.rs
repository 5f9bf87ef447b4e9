use ledger_engine::amount::{format_amount, parse_amount};
use ledger_engine::ops::{RawRecord, TransactionOp, TransactionType};
use ledger_engine::pipeline::fits_in_memory;
use ledger_engine::replay::{find_transaction, find_transaction_amount};

#[test]
fn find_transaction_returns_first_match() {
    let log = vec![
        TransactionOp::Deposit(1, 10),
        TransactionOp::Dispute(2),
        TransactionOp::Withdraw(2, 20),
    ];
    assert_eq!(find_transaction(2, &log), Some(TransactionOp::Dispute(2)));
    assert_eq!(find_transaction(1, &log), Some(TransactionOp::Deposit(1, 10)));
    assert_eq!(find_transaction(3, &log), None);
    assert_eq!(find_transaction(0, &[]), None);
}

#[test]
fn find_transaction_amount_of_each_kind() {
    assert_eq!(find_transaction_amount(&TransactionOp::Deposit(1, 10)), Some(10));
    assert_eq!(find_transaction_amount(&TransactionOp::Withdraw(1, 20)), Some(20));
    assert_eq!(find_transaction_amount(&TransactionOp::Dispute(1)), None);
    assert_eq!(find_transaction_amount(&TransactionOp::Resolve(1)), None);
    assert_eq!(find_transaction_amount(&TransactionOp::Chargeback(1)), None);
}

#[test]
fn record_converts_to_operation() {
    let record = |t: TransactionType| RawRecord { transaction_type: t, client: 3, transaction: 8, amount: 25 };
    assert_eq!(TransactionOp::from(record(TransactionType::Deposit)), TransactionOp::Deposit(8, 25));
    assert_eq!(TransactionOp::from(record(TransactionType::Withdrawal)), TransactionOp::Withdraw(8, 25));
    assert_eq!(TransactionOp::from(record(TransactionType::Dispute)), TransactionOp::Dispute(8));
    assert_eq!(TransactionOp::from(record(TransactionType::Resolve)), TransactionOp::Resolve(8));
    assert_eq!(TransactionOp::from(record(TransactionType::Chargeback)), TransactionOp::Chargeback(8));
}

#[test]
fn fits_in_memory_compares_line_estimate() {
    // 350 bytes is about 10 lines; 1000 bytes of memory hold 10 accounts of 100 bytes
    assert!(fits_in_memory(350, 1000, 100));
    assert!(!fits_in_memory(385, 1000, 100));
    assert!(fits_in_memory(0, 0, 8));
    assert!(!fits_in_memory(35, 99, 100));
}

#[test]
fn parse_amount_reads_four_decimal_places() {
    assert_eq!(parse_amount(b"100"), Some(1_000_000));
    assert_eq!(parse_amount(b"2.5"), Some(25_000));
    assert_eq!(parse_amount(b"0.0001"), Some(1));
    assert_eq!(parse_amount(b"1.2345"), Some(12_345));
    assert_eq!(parse_amount(b"-3.25"), Some(-32_500));
    assert_eq!(parse_amount(b"007.10"), Some(71_000));
    assert_eq!(parse_amount(b"922337203685477.5807"), Some(i64::MAX));
    assert_eq!(parse_amount(b".5"), Some(5_000));
    assert_eq!(parse_amount(b"5."), Some(50_000));
    assert_eq!(parse_amount(b"-.25"), Some(-2_500));
}

#[test]
fn parse_amount_rejects_malformed_text() {
    assert_eq!(parse_amount(b""), None);
    assert_eq!(parse_amount(b"-"), None);
    assert_eq!(parse_amount(b"."), None);
    assert_eq!(parse_amount(b"-."), None);
    assert_eq!(parse_amount(b"1.23456"), None);
    assert_eq!(parse_amount(b"1.2.3"), None);
    assert_eq!(parse_amount(b"12a"), None);
    assert_eq!(parse_amount(b" 1"), None);
    assert_eq!(parse_amount(b"922337203685477.5808"), None);
    assert_eq!(parse_amount(b"99999999999999999999"), None);
}

#[test]
fn record_from_fields_reads_amount_of_value_moves_only() {
    let d = RawRecord::from_fields(TransactionType::Deposit, 1, 2, b"1.5").unwrap();
    assert_eq!(d.amount, 15_000);
    assert!(RawRecord::from_fields(TransactionType::Withdrawal, 1, 2, b"").is_none());
    let c = RawRecord::from_fields(TransactionType::Dispute, 1, 2, b"").unwrap();
    assert_eq!((c.client, c.transaction, c.amount), (1, 2, 0));
}

#[test]
fn format_amount_writes_decimal_text() {
    assert_eq!(format_amount(0), b"0".to_vec());
    assert_eq!(format_amount(250_000), b"25".to_vec());
    assert_eq!(format_amount(25_000), b"2.5".to_vec());
    assert_eq!(format_amount(12_345), b"1.2345".to_vec());
    assert_eq!(format_amount(1), b"0.0001".to_vec());
    assert_eq!(format_amount(-32_500), b"-3.25".to_vec());
    assert_eq!(format_amount(-10_000), b"-1".to_vec());
    assert_eq!(format_amount(1_000_100), b"100.01".to_vec());
    assert_eq!(format_amount(i128::MIN), b"-17014118346046923173168730371588410.5728".to_vec());
}

#[test]
fn format_then_parse_gives_the_amount_back() {
    for v in [0i64, 1, 9999, 10_000, 123_456_789, -42, i64::MAX] {
        let text = format_amount(v as i128);
        assert_eq!(parse_amount(&text), Some(v));
    }
}
