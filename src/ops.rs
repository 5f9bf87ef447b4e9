use vstd::prelude::*;
use crate::amount::{amount_value, parse_amount};

verus! {

/// Number of minor units in one unit of currency: amounts carry four decimal places.
pub const AMOUNT_SCALE: i64 = 10000;

/// The kind of an input record.
#[derive(Clone, Copy, Debug, PartialEq, Eq, Structural)]
pub enum TransactionType {
    Deposit,
    Withdrawal,
    Dispute,
    Resolve,
    Chargeback,
}

/// One typed input record: its kind, client, transaction id, and amount in
/// minor units (only meaningful for deposits and withdrawals).
#[derive(Clone, Copy, Debug, PartialEq, Eq, Structural)]
pub struct RawRecord {
    pub transaction_type: TransactionType,
    pub client: u16,
    pub transaction: u32,
    pub amount: i64,
}

/// Whether records of this kind carry an amount.
pub open spec fn moves_value(t: TransactionType) -> bool {
    t == TransactionType::Deposit || t == TransactionType::Withdrawal
}

impl RawRecord {
    /// A record from its fields, the amount given as decimal text. Deposits
    /// and withdrawals need an amount that `amount_value` reads and that fits
    /// in `i64`; the other kinds ignore the text and carry zero.
    pub fn from_fields(transaction_type: TransactionType, client: u16, transaction: u32, amount: &[u8]) -> (r: Option<RawRecord>)
        ensures
            moves_value(transaction_type) ==> match amount_value(amount@) {
                Some(v) => if -i64::MAX <= v <= i64::MAX {
                    r == Some(RawRecord { transaction_type, client, transaction, amount: v as i64 })
                } else {
                    r is None
                },
                None => r is None,
            },
            !moves_value(transaction_type) ==> r == Some(
                RawRecord { transaction_type, client, transaction, amount: 0 },
            ),
    {
        match transaction_type {
            TransactionType::Deposit | TransactionType::Withdrawal => match parse_amount(amount) {
                Some(v) => Some(RawRecord { transaction_type, client, transaction, amount: v }),
                None => None,
            },
            _ => Some(RawRecord { transaction_type, client, transaction, amount: 0 }),
        }
    }
}

/// A single operation on an account: the transaction id, and for the
/// value-moving operations the amount in minor units.
#[derive(Clone, Copy, Debug, PartialEq, Eq, Structural)]
pub enum TransactionOp {
    Deposit(u32, i64),
    Withdraw(u32, i64),
    Dispute(u32),
    Resolve(u32),
    Chargeback(u32),
}

impl TransactionOp {
    /// The transaction id that the operation carries.
    pub open spec fn tx_id(self) -> u32 {
        match self {
            TransactionOp::Deposit(id, _) => id,
            TransactionOp::Withdraw(id, _) => id,
            TransactionOp::Dispute(id) => id,
            TransactionOp::Resolve(id) => id,
            TransactionOp::Chargeback(id) => id,
        }
    }

    /// The amount that a value-moving operation carries; none for the others.
    pub open spec fn amount_spec(self) -> Option<i64> {
        match self {
            TransactionOp::Deposit(_, amount) => Some(amount),
            TransactionOp::Withdraw(_, amount) => Some(amount),
            _ => None,
        }
    }

    pub fn id(&self) -> (r: u32)
        ensures
            r == self.tx_id(),
    {
        match self {
            TransactionOp::Deposit(id, _) => *id,
            TransactionOp::Withdraw(id, _) => *id,
            TransactionOp::Dispute(id) => *id,
            TransactionOp::Resolve(id) => *id,
            TransactionOp::Chargeback(id) => *id,
        }
    }
}

/// The operation that an input record stands for.
pub open spec fn op_of_record(record: RawRecord) -> TransactionOp {
    match record.transaction_type {
        TransactionType::Deposit => TransactionOp::Deposit(record.transaction, record.amount),
        TransactionType::Withdrawal => TransactionOp::Withdraw(record.transaction, record.amount),
        TransactionType::Dispute => TransactionOp::Dispute(record.transaction),
        TransactionType::Resolve => TransactionOp::Resolve(record.transaction),
        TransactionType::Chargeback => TransactionOp::Chargeback(record.transaction),
    }
}

impl From<RawRecord> for TransactionOp {
    fn from(record: RawRecord) -> (r: TransactionOp)
        ensures
            r == op_of_record(record),
    {
        match record.transaction_type {
            TransactionType::Deposit => TransactionOp::Deposit(record.transaction, record.amount),
            TransactionType::Withdrawal => TransactionOp::Withdraw(
                record.transaction,
                record.amount,
            ),
            TransactionType::Dispute => TransactionOp::Dispute(record.transaction),
            TransactionType::Resolve => TransactionOp::Resolve(record.transaction),
            TransactionType::Chargeback => TransactionOp::Chargeback(record.transaction),
        }
    }
}

impl vstd::std_specs::convert::FromSpecImpl<RawRecord> for TransactionOp {
    open spec fn obeys_from_spec() -> bool {
        true
    }

    open spec fn from_spec(record: RawRecord) -> TransactionOp {
        op_of_record(record)
    }
}

} // verus!
