use ledger_engine::account::{Account, BALANCE_BOUND};
use ledger_engine::replay::can_settle;
use ledger_engine::ops::{RawRecord, TransactionOp, TransactionType, AMOUNT_SCALE};
use ledger_engine::pipeline::run_in_memory;
use ledger_engine::registry::ClientRegistry;
use ledger_engine::store::{append_op, finalize, ingest, settle_one, store_record, AccountStore, MemoryStore, StoreError};

fn rec(t: TransactionType, client: u16, tx: u32, amount: i64) -> RawRecord {
    RawRecord { transaction_type: t, client, transaction: tx, amount: amount * AMOUNT_SCALE }
}

fn units(n: i64) -> i128 {
    (n * AMOUNT_SCALE) as i128
}

#[test]
fn registry_lists_marked_ids_ascending_once() {
    let mut registry = ClientRegistry::new();
    assert!(registry.iter_marked().is_empty());
    registry.mark(65535);
    registry.mark(3);
    registry.mark(0);
    registry.mark(3);
    registry.mark(1000);
    assert_eq!(registry.iter_marked(), vec![0, 3, 1000, 65535]);
}

#[test]
fn store_get_or_create_does_not_store() {
    let store = MemoryStore::new();
    let a = store.get_or_create(4);
    assert_eq!(a.id, 4);
    assert_eq!(a.total_funds, 0);
    assert!(a.transaction_log.is_empty());
    assert!(store.load(4).unwrap().is_none());
}

#[test]
fn store_put_replaces_whole_record() {
    let mut store = MemoryStore::new();
    let mut a = Account::new(2);
    a.push_op(TransactionOp::Deposit(1, 5));
    store.put(2, a).unwrap();
    store.put(2, Account::new(2)).unwrap();
    assert!(store.load(2).unwrap().unwrap().transaction_log.is_empty());
}

#[test]
fn store_record_appends_and_marks() {
    let mut store = MemoryStore::new();
    let mut registry = ClientRegistry::new();
    store_record(&mut store, &rec(TransactionType::Deposit, 9, 1, 10), &mut registry).unwrap();
    store_record(&mut store, &rec(TransactionType::Dispute, 9, 1, 0), &mut registry).unwrap();
    let a = store.load(9).unwrap().unwrap();
    assert_eq!(a.transaction_log, vec![TransactionOp::Deposit(1, 10 * AMOUNT_SCALE), TransactionOp::Dispute(1)]);
    assert_eq!(a.total_funds, 0);
    assert_eq!(registry.iter_marked(), vec![9]);
}

#[test]
fn append_op_starts_fresh_account() {
    let a = append_op(None, 5, TransactionOp::Deposit(1, 10));
    assert_eq!(a.id, 5);
    assert_eq!(a.transaction_log, vec![TransactionOp::Deposit(1, 10)]);
    let b = append_op(Some(a), 5, TransactionOp::Withdraw(2, 4));
    assert_eq!(b.transaction_log.len(), 2);
}

#[test]
fn settle_one_settles_or_reports() {
    assert!(settle_one(5, None).unwrap().is_none());
    let mut big = Account::new(5);
    big.held_funds = -BALANCE_BOUND - 1;
    match settle_one(5, Some(big)) {
        Err(StoreError::Unsettleable(c)) => assert_eq!(c, 5),
        _ => panic!("expected an unsettleable account"),
    }
    let a = append_op(None, 5, TransactionOp::Deposit(1, 10));
    let s = settle_one(5, Some(a)).unwrap().unwrap();
    assert_eq!(s.available_funds, 10);
    assert!(s.transaction_log.is_empty());
}

#[test]
fn finalize_reports_missing_clients() {
    let mut store = MemoryStore::new();
    let mut registry = ClientRegistry::new();
    store_record(&mut store, &rec(TransactionType::Deposit, 2, 1, 10), &mut registry).unwrap();
    registry.mark(1);
    let out = finalize(&store, &registry).unwrap();
    assert_eq!(out.missing, vec![1]);
    assert_eq!(out.accounts.len(), 1);
    assert_eq!(out.accounts[0].id, 2);
    assert_eq!(out.accounts[0].available_funds, units(10));
}

#[test]
fn registry_holds_exactly_the_clients_seen() {
    let records = vec![
        rec(TransactionType::Deposit, 7, 1, 1),
        rec(TransactionType::Deposit, 2, 2, 1),
        rec(TransactionType::Withdrawal, 7, 3, 1),
        rec(TransactionType::Dispute, 40000, 4, 0),
    ];
    let mut store = MemoryStore::new();
    let mut registry = ClientRegistry::new();
    ingest(&mut store, &records, &mut registry).unwrap();
    assert_eq!(registry.iter_marked(), vec![2, 7, 40000]);
}

#[test]
fn scenario_deposit_and_withdrawals() {
    let records = vec![
        rec(TransactionType::Deposit, 1, 1, 100),
        rec(TransactionType::Withdrawal, 1, 2, 50),
        rec(TransactionType::Withdrawal, 1, 3, 25),
    ];
    let out = run_in_memory(&records);
    assert!(out.missing.is_empty());
    assert_eq!(out.accounts.len(), 1);
    let a = &out.accounts[0];
    assert_eq!((a.id, a.available_funds, a.held_funds, a.total_funds, a.locked), (1, units(25), 0, units(25), false));
}

fn dispute_records() -> Vec<RawRecord> {
    vec![
        rec(TransactionType::Deposit, 1, 1, 100),
        rec(TransactionType::Deposit, 1, 2, 100),
        rec(TransactionType::Withdrawal, 1, 3, 50),
        rec(TransactionType::Dispute, 1, 2, 0),
    ]
}

#[test]
fn scenario_dispute() {
    let out = run_in_memory(&dispute_records());
    let a = &out.accounts[0];
    assert_eq!((a.available_funds, a.held_funds, a.total_funds), (units(50), units(100), units(150)));
}

#[test]
fn scenario_chargeback() {
    let mut records = dispute_records();
    records.push(rec(TransactionType::Chargeback, 1, 2, 0));
    let out = run_in_memory(&records);
    let a = &out.accounts[0];
    assert_eq!((a.available_funds, a.held_funds, a.total_funds, a.locked), (units(50), 0, units(50), true));
}

#[test]
fn scenario_resolve() {
    let mut records = dispute_records();
    records.push(rec(TransactionType::Resolve, 1, 2, 0));
    let out = run_in_memory(&records);
    let a = &out.accounts[0];
    assert_eq!((a.available_funds, a.held_funds, a.total_funds, a.locked), (units(150), 0, units(150), false));
}

#[test]
fn run_in_memory_orders_clients_ascending() {
    let records = vec![
        rec(TransactionType::Deposit, 30, 1, 1),
        rec(TransactionType::Deposit, 4, 2, 2),
        rec(TransactionType::Deposit, 17, 3, 3),
        rec(TransactionType::Dispute, 4, 9, 0),
        rec(TransactionType::Deposit, 4, 5, 5),
    ];
    let out = run_in_memory(&records);
    let ids: Vec<u16> = out.accounts.iter().map(|a| a.id).collect();
    assert_eq!(ids, vec![4, 17, 30]);
    // client 4's replay stops at the dispute of unknown transaction 9
    assert_eq!(out.accounts[0].available_funds, units(2));
    assert_eq!(out.accounts[0].transaction_log.len(), 3);
}

#[test]
fn run_in_memory_of_nothing_is_empty() {
    let out = run_in_memory(&vec![]);
    assert!(out.accounts.is_empty());
    assert!(out.missing.is_empty());
}

#[test]
fn run_generic_matches_in_memory_run() {
    let records = dispute_records();
    let mut store = MemoryStore::new();
    let a = ledger_engine::pipeline::run(&mut store, &records).unwrap();
    let b = run_in_memory(&records);
    assert_eq!(a.accounts.len(), b.accounts.len());
    for (x, y) in a.accounts.iter().zip(b.accounts.iter()) {
        assert_eq!((x.id, x.available_funds, x.held_funds, x.total_funds, x.locked), (y.id, y.available_funds, y.held_funds, y.total_funds, y.locked));
    }
}

#[test]
fn finalize_refuses_account_too_large_to_settle() {
    let mut store = MemoryStore::new();
    let mut registry = ClientRegistry::new();
    let mut big = Account::new(3);
    big.total_funds = i128::MAX;
    store.put(3, big).unwrap();
    registry.mark(3);
    match finalize(&store, &registry) {
        Err(StoreError::Unsettleable(c)) => assert_eq!(c, 3),
        other => panic!("unexpected result: {:?}", other.map(|f| f.accounts.len())),
    }
}

#[test]
fn can_settle_checks_balance_bounds() {
    let mut a = Account::new(1);
    assert!(can_settle(&a));
    a.available_funds = BALANCE_BOUND;
    assert!(can_settle(&a));
    a.available_funds = BALANCE_BOUND + 1;
    assert!(!can_settle(&a));
    a.available_funds = 0;
    a.held_funds = -BALANCE_BOUND - 1;
    assert!(!can_settle(&a));
}

#[test]
fn finalize_of_empty_registry_is_empty() {
    let store = MemoryStore::new();
    let out = finalize(&store, &ClientRegistry::new()).unwrap();
    assert!(out.accounts.is_empty() && out.missing.is_empty());
}
