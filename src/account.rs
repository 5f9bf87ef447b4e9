use vstd::prelude::*;
use crate::ops::TransactionOp;

verus! {

/// Largest magnitude of any balance that replay accepts as a starting point.
pub const BALANCE_BOUND: i128 = 0x1_0000_0000_0000_0000_0000_0000;

/// Largest number of pending operations that replay accepts.
pub const MAX_LOG_LEN: usize = 0xFFFF_FFFF;

/// The balances and flags of an account, as mathematical values.
pub struct Ledger {
    pub available: int,
    pub held: int,
    pub total: int,
    pub locked: bool,
    pub in_dispute: bool,
    pub last_tx: u32,
}

/// The whole state of an account, as mathematical values.
pub struct AccountView {
    pub id: u16,
    pub ledger: Ledger,
    pub log: Seq<TransactionOp>,
}

/// One client's account: balances in minor units, flags, and the pending
/// operations that have not yet been folded into the balances.
#[derive(Debug)]
pub struct Account {
    pub id: u16,
    pub available_funds: i128,
    pub held_funds: i128,
    pub total_funds: i128,
    pub locked: bool,
    pub in_dispute: bool,
    pub last_processed_transaction: u32,
    pub transaction_log: Vec<TransactionOp>,
}

/// A ledger with zero balances and no flags set.
pub open spec fn zero_ledger() -> Ledger {
    Ledger { available: 0, held: 0, total: 0, locked: false, in_dispute: false, last_tx: 0 }
}

/// A fresh account for a client: zero balances and an empty log.
pub open spec fn fresh_view(id: u16) -> AccountView {
    AccountView { id, ledger: zero_ledger(), log: Seq::empty() }
}

impl View for Account {
    type V = AccountView;

    open spec fn view(&self) -> AccountView {
        AccountView {
            id: self.id,
            ledger: Ledger {
                available: self.available_funds as int,
                held: self.held_funds as int,
                total: self.total_funds as int,
                locked: self.locked,
                in_dispute: self.in_dispute,
                last_tx: self.last_processed_transaction,
            },
            log: self.transaction_log@,
        }
    }
}

impl Account {
    /// A new account for `id` with zero balances and an empty log.
    pub fn new(id: u16) -> (r: Account)
        ensures
            r@ == fresh_view(id),
    {
        Account {
            id,
            available_funds: 0,
            held_funds: 0,
            total_funds: 0,
            locked: false,
            in_dispute: false,
            last_processed_transaction: 0,
            transaction_log: Vec::new(),
        }
    }

    /// A copy of the account, log included.
    pub fn duplicate(&self) -> (r: Account)
        ensures
            r@ == self@,
    {
        let mut log: Vec<TransactionOp> = Vec::new();
        let n = self.transaction_log.len();
        let mut i: usize = 0;
        while i < n
            invariant
                n == self.transaction_log@.len(),
                i <= n,
                log@ == self.transaction_log@.subrange(0, i as int),
            decreases n - i,
        {
            log.push(self.transaction_log[i]);
            i += 1;
            assert(log@ =~= self.transaction_log@.subrange(0, i as int));
        }
        assert(log@ =~= self.transaction_log@);
        Account {
            id: self.id,
            available_funds: self.available_funds,
            held_funds: self.held_funds,
            total_funds: self.total_funds,
            locked: self.locked,
            in_dispute: self.in_dispute,
            last_processed_transaction: self.last_processed_transaction,
            transaction_log: log,
        }
    }

    /// Appends an operation to the pending log, leaving the balances alone.
    pub fn push_op(&mut self, op: TransactionOp)
        ensures
            final(self)@ == (AccountView { log: old(self)@.log.push(op), ..old(self)@ }),
    {
        self.transaction_log.push(op);
    }
}

} // verus!
