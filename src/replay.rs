use vstd::prelude::*;
use crate::account::{Account, AccountView, Ledger, BALANCE_BOUND, MAX_LOG_LEN};
use crate::ops::TransactionOp;

verus! {

/// The first operation of `log`, at or after position `i`, whose transaction id is `id`.
pub open spec fn find_from(log: Seq<TransactionOp>, id: u32, i: int) -> Option<TransactionOp>
    decreases log.len() - i,
{
    if i < 0 || i >= log.len() {
        None
    } else if log[i].tx_id() == id {
        Some(log[i])
    } else {
        find_from(log, id, i + 1)
    }
}

/// The first operation of `log` whose transaction id is `id`, of any kind.
pub open spec fn find_spec(log: Seq<TransactionOp>, id: u32) -> Option<TransactionOp> {
    find_from(log, id, 0)
}

/// The amount that a dispute, resolve or chargeback of `id` acts on: the
/// amount of the first operation with that id, when it moves value.
pub open spec fn referenced_amount(log: Seq<TransactionOp>, id: u32) -> Option<i64> {
    match find_spec(log, id) {
        Some(op) => op.amount_spec(),
        None => None,
    }
}

/// The effect of one operation on a ledger; `None` when the operation refers
/// to a transaction that `log` does not hold as a deposit or withdrawal.
/// A locked ledger ignores every operation: it is kept as it is, and the
/// replay goes on past the operation.
pub open spec fn step(l: Ledger, log: Seq<TransactionOp>, op: TransactionOp) -> Option<Ledger> {
    if l.locked {
        Some(l)
    } else {
        step_unlocked(l, log, op)
    }
}

/// The effect of one operation on a ledger that is not locked.
pub open spec fn step_unlocked(l: Ledger, log: Seq<TransactionOp>, op: TransactionOp) -> Option<
    Ledger,
> {
    match op {
        TransactionOp::Deposit(id, amount) => Some(
            Ledger {
                available: l.available + amount,
                total: l.total + amount,
                last_tx: id,
                ..l
            },
        ),
        TransactionOp::Withdraw(id, amount) => Some(
            Ledger {
                available: l.available - amount,
                total: l.total - amount,
                last_tx: id,
                ..l
            },
        ),
        TransactionOp::Dispute(id) => match referenced_amount(log, id) {
            Some(a) => Some(
                Ledger {
                    available: l.available - a,
                    held: l.held + a,
                    in_dispute: true,
                    last_tx: id,
                    ..l
                },
            ),
            None => None,
        },
        TransactionOp::Resolve(id) => match referenced_amount(log, id) {
            Some(a) => Some(Ledger { available: l.available + a, held: l.held - a, ..l }),
            None => None,
        },
        TransactionOp::Chargeback(id) => match referenced_amount(log, id) {
            Some(a) => Some(
                Ledger { held: l.held - a, total: l.total - a, locked: true, last_tx: id, ..l },
            ),
            None => None,
        },
    }
}

/// The ledger after replaying `log` from position `i` on, stopping at the
/// first operation whose reference cannot be resolved.
pub open spec fn replay_from(l: Ledger, log: Seq<TransactionOp>, i: int) -> Ledger
    decreases log.len() - i,
{
    if i < 0 || i >= log.len() {
        l
    } else {
        match step(l, log, log[i]) {
            Some(next) => replay_from(next, log, i + 1),
            None => l,
        }
    }
}

/// Whether replaying `log` from position `i` on reaches its end.
pub open spec fn completes_from(l: Ledger, log: Seq<TransactionOp>, i: int) -> bool
    decreases log.len() - i,
{
    if i < 0 || i >= log.len() {
        true
    } else {
        match step(l, log, log[i]) {
            Some(next) => completes_from(next, log, i + 1),
            None => false,
        }
    }
}

/// The ledger after replaying the whole of `log` onto `l`.
pub open spec fn replay(l: Ledger, log: Seq<TransactionOp>) -> Ledger {
    replay_from(l, log, 0)
}

/// Whether replaying the whole of `log` onto `l` applies every operation.
pub open spec fn replay_completes(l: Ledger, log: Seq<TransactionOp>) -> bool {
    completes_from(l, log, 0)
}

/// An account after finalization: its ledger replayed, and its log cleared
/// when the replay applied every operation (kept as it was otherwise).
pub open spec fn settled(a: AccountView) -> AccountView {
    AccountView {
        id: a.id,
        ledger: replay(a.ledger, a.log),
        log: if replay_completes(a.ledger, a.log) {
            Seq::empty()
        } else {
            a.log
        },
    }
}

/// Balances small enough that any replay of an accepted log stays in range.
pub open spec fn balances_in_bounds(a: AccountView) -> bool {
    &&& -BALANCE_BOUND <= a.ledger.available <= BALANCE_BOUND
    &&& -BALANCE_BOUND <= a.ledger.held <= BALANCE_BOUND
    &&& -BALANCE_BOUND <= a.ledger.total <= BALANCE_BOUND
}

/// Whether an account can be finalized without leaving the machine's integer range.
pub open spec fn replayable(a: AccountView) -> bool {
    balances_in_bounds(a) && a.log.len() <= MAX_LOG_LEN
}

/// Whether the account can be settled within the machine's integer range.
pub fn can_settle(account: &Account) -> (r: bool)
    ensures
        r == replayable(account@),
{
    account.transaction_log.len() <= MAX_LOG_LEN && -BALANCE_BOUND <= account.available_funds
        && account.available_funds <= BALANCE_BOUND && -BALANCE_BOUND <= account.held_funds
        && account.held_funds <= BALANCE_BOUND && -BALANCE_BOUND <= account.total_funds
        && account.total_funds <= BALANCE_BOUND
}

/// The amount of a value-moving operation; none for the others.
pub fn find_transaction_amount(transaction_op: &TransactionOp) -> (r: Option<i64>)
    ensures
        r == transaction_op.amount_spec(),
{
    match transaction_op {
        TransactionOp::Deposit(_, amount) => Some(*amount),
        TransactionOp::Withdraw(_, amount) => Some(*amount),
        _ => None,
    }
}

/// The first operation of the log whose transaction id is `id`, of any kind.
pub fn find_transaction(id: u32, transaction_log: &[TransactionOp]) -> (r: Option<TransactionOp>)
    ensures
        r == find_spec(transaction_log@, id),
{
    let n = transaction_log.len();
    let mut i: usize = 0;
    while i < n
        invariant
            n == transaction_log@.len(),
            i <= n,
            find_spec(transaction_log@, id) == find_from(transaction_log@, id, i as int),
        decreases n - i,
    {
        let op = transaction_log[i];
        if op.id() == id {
            return Some(op);
        }
        i += 1;
    }
    None
}

/// The amount that a dispute, resolve or chargeback of `id` acts on.
fn lookup_amount(id: u32, transaction_log: &[TransactionOp]) -> (r: Option<i64>)
    ensures
        r == referenced_amount(transaction_log@, id),
{
    match find_transaction(id, transaction_log) {
        Some(op) => find_transaction_amount(&op),
        None => None,
    }
}

/// Replays the account's pending operations in order onto its balances, then
/// clears the log. Once a chargeback has locked the account, the operations
/// after it are ignored. An operation that refers to a transaction the log does not
/// hold as a deposit or withdrawal ends the replay there: the operations after
/// it are not applied and the log is kept.
pub fn process_account(account: &mut Account)
    requires
        replayable(old(account)@),
    ensures
        final(account)@ == settled(old(account)@),
{
    let ghost start = account@;
    let n = account.transaction_log.len();
    let mut i: usize = 0;
    while i < n
        invariant
            n == account.transaction_log@.len(),
            n <= MAX_LOG_LEN,
            i <= n,
            start == old(account)@,
            account.id == start.id,
            account.transaction_log@ == start.log,
            replay(start.ledger, start.log) == replay_from(account@.ledger, start.log, i as int),
            replay_completes(start.ledger, start.log) == completes_from(
                account@.ledger,
                start.log,
                i as int,
            ),
            -BALANCE_BOUND - i * 0x1_0000_0000_0000_0000 <= account.available_funds
                <= BALANCE_BOUND + i * 0x1_0000_0000_0000_0000,
            -BALANCE_BOUND - i * 0x1_0000_0000_0000_0000 <= account.held_funds <= BALANCE_BOUND
                + i * 0x1_0000_0000_0000_0000,
            -BALANCE_BOUND - i * 0x1_0000_0000_0000_0000 <= account.total_funds <= BALANCE_BOUND
                + i * 0x1_0000_0000_0000_0000,
        decreases n - i,
    {
        let op = account.transaction_log[i];
        if account.locked {
            i += 1;
            continue;
        }
        match op {
            TransactionOp::Deposit(tx_id, amount) => {
                account.available_funds = account.available_funds + amount as i128;
                account.total_funds = account.total_funds + amount as i128;
                account.last_processed_transaction = tx_id;
            },
            TransactionOp::Withdraw(tx_id, amount) => {
                account.available_funds = account.available_funds - amount as i128;
                account.total_funds = account.total_funds - amount as i128;
                account.last_processed_transaction = tx_id;
            },
            TransactionOp::Dispute(tx_id) => {
                let amount = match lookup_amount(tx_id, account.transaction_log.as_slice()) {
                    Some(amount) => amount,
                    None => {
                        proof {
                            assert(step(account@.ledger, start.log, start.log[i as int]) is None);
                        }
                        return ;
                    },
                };
                account.in_dispute = true;
                account.available_funds = account.available_funds - amount as i128;
                account.held_funds = account.held_funds + amount as i128;
                account.last_processed_transaction = tx_id;
            },
            TransactionOp::Resolve(tx_id) => {
                let amount = match lookup_amount(tx_id, account.transaction_log.as_slice()) {
                    Some(amount) => amount,
                    None => {
                        proof {
                            assert(step(account@.ledger, start.log, start.log[i as int]) is None);
                        }
                        return ;
                    },
                };
                account.held_funds = account.held_funds - amount as i128;
                account.available_funds = account.available_funds + amount as i128;
            },
            TransactionOp::Chargeback(tx_id) => {
                let amount = match lookup_amount(tx_id, account.transaction_log.as_slice()) {
                    Some(amount) => amount,
                    None => {
                        proof {
                            assert(step(account@.ledger, start.log, start.log[i as int]) is None);
                        }
                        return ;
                    },
                };
                account.held_funds = account.held_funds - amount as i128;
                account.total_funds = account.total_funds - amount as i128;
                account.locked = true;
                account.last_processed_transaction = tx_id;
            },
        }
        i += 1;
    }
    account.transaction_log.clear();
}

/// The sum of the deposits less the sum of the withdrawals in `log`, from
/// position `i` on.
pub open spec fn net_from(log: Seq<TransactionOp>, i: int) -> int
    decreases log.len() - i,
{
    if i < 0 || i >= log.len() {
        0
    } else {
        let delta = match log[i] {
            TransactionOp::Deposit(_, amount) => amount as int,
            TransactionOp::Withdraw(_, amount) => -(amount as int),
            _ => 0,
        };
        delta + net_from(log, i + 1)
    }
}

/// Whether every operation of the log is a deposit or a withdrawal.
pub open spec fn only_value_ops(log: Seq<TransactionOp>) -> bool {
    forall|k: int| 0 <= k < log.len() ==> (#[trigger] log[k]).amount_spec() is Some
}

/// Every operation keeps `total == available + held`: replaying any log from
/// any position onto a ledger where the identity holds yields one where it holds.
pub proof fn lemma_replay_keeps_balance(l: Ledger, log: Seq<TransactionOp>, i: int)
    requires
        l.total == l.available + l.held,
    ensures
        replay_from(l, log, i).total == replay_from(l, log, i).available + replay_from(
            l,
            log,
            i,
        ).held,
    decreases log.len() - i,
{
    if 0 <= i < log.len() {
        match step(l, log, log[i]) {
            Some(next) => lemma_replay_keeps_balance(next, log, i + 1),
            None => {},
        }
    }
}

/// A log of deposits and withdrawals alone, replayed from position `i` onto a
/// ledger with nothing held and `total == available`, is applied to its end
/// and leaves nothing held and `total == available + held`; on a ledger that
/// is not locked, available grows by the deposits less the withdrawals.
pub proof fn lemma_value_ops_from(l: Ledger, log: Seq<TransactionOp>, i: int)
    requires
        only_value_ops(log),
        l.held == 0,
        l.total == l.available,
    ensures
        completes_from(l, log, i),
        !l.locked ==> replay_from(l, log, i).available == l.available + net_from(log, i),
        replay_from(l, log, i).held == 0,
        replay_from(l, log, i).total == replay_from(l, log, i).available + replay_from(
            l,
            log,
            i,
        ).held,
    decreases log.len() - i,
{
    if 0 <= i < log.len() {
        assert(log[i].amount_spec() is Some);
        lemma_value_ops_from(step(l, log, log[i])->Some_0, log, i + 1);
    }
}

/// Settling an account whose log holds only deposits and withdrawals, from
/// zero held funds and `total == available`, applies the whole log and ends
/// with nothing held and `total == available + held`; on an account that is
/// not locked, available grows by the deposits less the withdrawals.
pub proof fn lemma_value_ops_settle(a: AccountView)
    requires
        only_value_ops(a.log),
        a.ledger.held == 0,
        a.ledger.total == a.ledger.available,
    ensures
        settled(a).log.len() == 0,
        settled(a).ledger.held == 0,
        settled(a).ledger.total == settled(a).ledger.available + settled(a).ledger.held,
        !a.ledger.locked ==> settled(a).ledger.available == a.ledger.available + net_from(
            a.log,
            0,
        ),
{
    lemma_value_ops_from(a.ledger, a.log, 0);
}

/// On an account that is not locked, a dispute of a transaction that the
/// log holds as a deposit or withdrawal of amount `A` moves exactly `A` from
/// available to held, keeps the total, and marks the account as in dispute.
pub proof fn lemma_dispute_holds_amount(l: Ledger, log: Seq<TransactionOp>, id: u32)
    requires
        !l.locked,
        referenced_amount(log, id) is Some,
    ensures
        ({
            let a = referenced_amount(log, id)->Some_0 as int;
            let d = step(l, log, TransactionOp::Dispute(id));
            &&& d is Some
            &&& d->Some_0.available == l.available - a
            &&& d->Some_0.held == l.held + a
            &&& d->Some_0.total == l.total
            &&& d->Some_0.in_dispute
            &&& d->Some_0.locked == l.locked
        }),
{
}

/// On an account that is not locked, a resolve that follows a successful dispute of the same transaction
/// releases the hold exactly: held falls and available rises by the disputed
/// amount, the total is kept, and the balances are back where they were
/// before the dispute.
pub proof fn lemma_resolve_reverses_dispute(l: Ledger, log: Seq<TransactionOp>, id: u32)
    requires
        !l.locked,
        referenced_amount(log, id) is Some,
    ensures
        ({
            let a = referenced_amount(log, id)->Some_0 as int;
            let d = step(l, log, TransactionOp::Dispute(id))->Some_0;
            let r = step(d, log, TransactionOp::Resolve(id));
            &&& r is Some
            &&& r->Some_0.held == d.held - a
            &&& r->Some_0.available == d.available + a
            &&& r->Some_0.total == d.total
            &&& r->Some_0.available == l.available
            &&& r->Some_0.held == l.held
            &&& r->Some_0.total == l.total
            &&& r->Some_0.locked == l.locked
        }),
{
}

/// On an account that is not locked, a chargeback that follows a successful dispute of the same transaction
/// takes the disputed amount out of held and total, and locks the account.
pub proof fn lemma_chargeback_after_dispute(l: Ledger, log: Seq<TransactionOp>, id: u32)
    requires
        !l.locked,
        referenced_amount(log, id) is Some,
    ensures
        ({
            let a = referenced_amount(log, id)->Some_0 as int;
            let d = step(l, log, TransactionOp::Dispute(id))->Some_0;
            let c = step(d, log, TransactionOp::Chargeback(id));
            &&& c is Some
            &&& c->Some_0.held == d.held - a
            &&& c->Some_0.total == d.total - a
            &&& c->Some_0.available == d.available
            &&& c->Some_0.held == l.held
            &&& c->Some_0.total == l.total - a
            &&& c->Some_0.locked
        }),
{
}

/// Once locked, an account stays as it is: replaying any log from any
/// position keeps it locked and keeps its balances and last transaction,
/// and the replay runs to the end.
pub proof fn lemma_locked_stays_locked(l: Ledger, log: Seq<TransactionOp>, i: int)
    requires
        l.locked,
    ensures
        replay_from(l, log, i) == l,
        completes_from(l, log, i),
    decreases log.len() - i,
{
    if 0 <= i < log.len() {
        lemma_locked_stays_locked(l, log, i + 1);
    }
}

/// A chargeback that succeeds at position `i` is the last change to the
/// account: the ledger it leaves is locked and is the final one, whatever
/// operations follow it in the log.
pub proof fn lemma_nothing_after_chargeback(l: Ledger, log: Seq<TransactionOp>, i: int)
    requires
        0 <= i < log.len(),
        log[i] is Chargeback,
        step(l, log, log[i]) is Some,
    ensures
        step(l, log, log[i])->Some_0.locked,
        replay_from(l, log, i) == step(l, log, log[i])->Some_0,
{
    lemma_locked_stays_locked(step(l, log, log[i])->Some_0, log, i + 1);
}

/// On an account that is not locked, a dispute, resolve or chargeback whose
/// transaction the log does not hold
/// as a deposit or withdrawal ends the replay where it stands: whatever the
/// ledger reached at that position, it is the final one, none of the later
/// operations is applied, and the replay is reported as not completed.
pub proof fn lemma_unresolved_reference_stops(l: Ledger, log: Seq<TransactionOp>, i: int)
    requires
        !l.locked,
        0 <= i < log.len(),
        log[i].amount_spec() is None,
        referenced_amount(log, log[i].tx_id()) is None,
    ensures
        replay_from(l, log, i) == l,
        !completes_from(l, log, i),
{
}

} // verus!
