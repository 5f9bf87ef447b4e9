use vstd::prelude::*;
use crate::account::{zero_ledger, AccountView, MAX_LOG_LEN};
use crate::ops::RawRecord;
use crate::registry::{registered_ids, strictly_ascending, ClientRegistry};
use crate::ops::TransactionOp;
use crate::store::{
    ops_for,
    clients_of, finalize, ingest, ingest_spec, missing_all, settle_all, views, AccountStore,
    Finalized, MemoryStore, StoreError,
};

verus! {

/// Rough number of bytes that one input line takes at most.
pub const BYTES_PER_LINE: u64 = 35;

/// Whether one account per input line fits in the available memory: the
/// line count is estimated as the input's size over `BYTES_PER_LINE`, and
/// compared with how many accounts of `account_size` bytes the memory holds.
pub fn fits_in_memory(input_len: u64, available_memory: u64, account_size: u64) -> (r: bool)
    requires
        account_size > 0,
    ensures
        r == (input_len / BYTES_PER_LINE <= available_memory / account_size),
{
    let lines = input_len / BYTES_PER_LINE;
    let max_accounts = available_memory / account_size;
    lines <= max_accounts
}

/// Ingesting records into an empty store (one `store_record` per record, in
/// order) leaves an account for exactly the clients that occur, no more and
/// no fewer. Each is keyed by its own id, has zero balances, and its pending
/// log holds the operations of that client's records in arrival order.
pub proof fn lemma_ingest_from_empty(records: Seq<RawRecord>)
    ensures
        ingest_spec(Map::empty(), records).dom() == clients_of(records),
        forall|c: u16|
            ingest_spec(Map::empty(), records).contains_key(c) ==> {
                let a = #[trigger] ingest_spec(Map::empty(), records)[c];
                &&& a.id == c
                &&& a.ledger == zero_ledger()
                &&& a.log == ops_for(records, c)
                &&& a.log.len() <= records.len()
            },
        forall|c: u16|
            !ingest_spec(Map::empty(), records).contains_key(c) ==> #[trigger] ops_for(records, c)
                == Seq::<TransactionOp>::empty(),
    decreases records.len(),
{
    if records.len() > 0 {
        let prev = records.drop_last();
        lemma_ingest_from_empty(prev);
        assert(clients_of(records) =~= clients_of(prev).insert(records.last().client)) by {
            assert forall|c: u16| clients_of(prev).contains(c) implies clients_of(
                records,
            ).contains(c) by {
                let k = choose|k: int| 0 <= k < prev.len() && prev[k].client == c;
                assert(records[k] == prev[k]);
            }
            assert forall|c: u16| #[trigger] clients_of(records).contains(c) implies (
            clients_of(prev).contains(c) || c == records.last().client) by {
                let k = choose|k: int| 0 <= k < records.len() && records[k].client == c;
                if k < records.len() - 1 {
                    assert(prev[k] == records[k]);
                }
            }
        }
        assert(ingest_spec(Map::empty(), records).dom() =~= clients_of(records));
        let m = ingest_spec(Map::<u16, AccountView>::empty(), prev);
        let m2 = ingest_spec(Map::<u16, AccountView>::empty(), records);
        let last = records.last();
        assert forall|c: u16| m2.contains_key(c) implies {
            let a = #[trigger] m2[c];
            &&& a.id == c
            &&& a.ledger == zero_ledger()
            &&& a.log == ops_for(records, c)
            &&& a.log.len() <= records.len()
        } by {
            if c == last.client {
                if !m.contains_key(c) {
                    assert(ops_for(prev, c) == Seq::<TransactionOp>::empty());
                }
            }
        }
        assert forall|c: u16| !m2.contains_key(c) implies #[trigger] ops_for(records, c)
            == Seq::<TransactionOp>::empty() by {
            assert(c != last.client);
            assert(!m.contains_key(c));
            assert(ops_for(prev, c) == Seq::<TransactionOp>::empty());
        }
    } else {
        assert(clients_of(records) =~= Set::empty());
        assert(ingest_spec(Map::empty(), records).dom() =~= Set::empty());
    }
}

/// Nothing is missing when every listed client is held by the store.
proof fn lemma_none_missing(m: Map<u16, AccountView>, ids: Seq<u16>)
    requires
        forall|i: int| 0 <= i < ids.len() ==> m.contains_key(#[trigger] ids[i]),
    ensures
        missing_all(m, ids).len() == 0,
    decreases ids.len(),
{
    if ids.len() > 0 {
        lemma_none_missing(m, ids.drop_last());
    }
}

/// Whether `out` is what a whole run makes of `records`: one settled
/// account for each client that occurs, in ascending client order.
pub open spec fn run_output(records: Seq<RawRecord>, out: Seq<AccountView>) -> bool {
    exists|ids: Seq<u16>|
        {
            &&& strictly_ascending(ids)
            &&& forall|c: u16| ids.contains(c) <==> clients_of(records).contains(c)
            &&& out == settle_all(ingest_spec(Map::empty(), records), ids)
        }
}

/// Runs the whole batch on an empty store: every record is appended to its
/// client's account in order, then every client that occurs is settled, in
/// ascending client order. No client is reported missing. Stops at the
/// first failing read or write of the store.
pub fn run<S: AccountStore>(store: &mut S, records: &Vec<RawRecord>) -> (r: Result<
    Finalized,
    StoreError,
>)
    requires
        old(store).modeled() ==> old(store).stored() == Map::<u16, AccountView>::empty(),
        records@.len() <= MAX_LOG_LEN,
    ensures
        old(store).modeled() && old(store).infallible() ==> r is Ok,
        old(store).modeled() ==> (r matches Ok(f) ==> f.missing@.len() == 0 && run_output(
            records@,
            views(f.accounts@),
        )),
        records@.len() == 0 ==> (r matches Ok(f) && f.accounts@.len() == 0 && f.missing@.len()
            == 0),
        r matches Ok(f) ==> {
            &&& strictly_ascending(f.missing@)
            &&& forall|c: u16| f.missing@.contains(c) ==> clients_of(records@).contains(c)
            &&& f.accounts@.len() + f.missing@.len() == clients_of(records@).len()
        },
{
    let mut registry = ClientRegistry::new();
    match ingest(store, records, &mut registry) {
        Ok(()) => {},
        Err(e) => {
            return Err(e);
        },
    }
    proof {
        lemma_ingest_from_empty(records@);
        assert(registered_ids(registry) =~= clients_of(records@));
        if records@.len() == 0 {
            assert(clients_of(records@) =~= Set::<u16>::empty());
        }
    }
    let r = finalize(&*store, &registry);
    proof {
        if r is Ok {
            let f = r->Ok_0;
            let ids = choose|ids: Seq<u16>|
                #![trigger strictly_ascending(ids)]
                {
                    &&& strictly_ascending(ids)
                    &&& forall|c: u16| ids.contains(c) <==> registered_ids(registry).contains(c)
                    &&& f.accounts@.len() + f.missing@.len() == ids.len()
                    &&& strictly_ascending(f.missing@)
                    &&& forall|c: u16| f.missing@.contains(c) ==> ids.contains(c)
                };
            assert(registered_ids(registry) == clients_of(records@));
            assert(f.accounts@.len() + f.missing@.len() == registered_ids(registry).len());
            assert forall|c: u16| f.missing@.contains(c) implies clients_of(records@).contains(c) by {
                assert(ids.contains(c));
            }
        }
        if store.modeled() && r is Ok {
            let f = r->Ok_0;
            let ids = choose|ids: Seq<u16>|
                {
                    &&& strictly_ascending(ids)
                    &&& forall|c: u16| ids.contains(c) <==> registered_ids(registry).contains(c)
                    &&& views(f.accounts@) == settle_all(store.stored(), ids)
                    &&& f.missing@ == missing_all(store.stored(), ids)
                };
            assert forall|i: int| 0 <= i < ids.len() implies store.stored().contains_key(
                #[trigger] ids[i],
            ) by {
                assert(ids.contains(ids[i]));
            }
            lemma_none_missing(store.stored(), ids);
        }
    }
    r
}

/// Runs the whole batch in memory; the in-memory store never fails.
pub fn run_in_memory(records: &Vec<RawRecord>) -> (r: Finalized)
    requires
        records@.len() <= MAX_LOG_LEN,
    ensures
        r.missing@.len() == 0,
        run_output(records@, views(r.accounts@)),
{
    let mut store = MemoryStore::new();
    match run(&mut store, records) {
        Ok(f) => f,
        Err(_) => {
            proof {
                assert(false);
            }
            Finalized { accounts: Vec::new(), missing: Vec::new() }
        },
    }
}

/// Two strictly ascending sequences with the same elements are the same.
proof fn lemma_ascending_unique(a: Seq<u16>, b: Seq<u16>)
    requires
        strictly_ascending(a),
        strictly_ascending(b),
        forall|c: u16| a.contains(c) <==> b.contains(c),
    ensures
        a == b,
    decreases a.len() + b.len(),
{
    if a.len() == 0 {
        if b.len() > 0 {
            assert(b.contains(b[0]));
        }
        assert(a =~= b);
    } else if b.len() == 0 {
        assert(a.contains(a[0]));
    } else {
        let x = a.last();
        let y = b.last();
        assert(a.contains(x));
        assert(b.contains(y));
        let ia = choose|i: int| 0 <= i < a.len() && a[i] == y;
        let ib = choose|i: int| 0 <= i < b.len() && b[i] == x;
        assert(y <= x) by {
            if ia < a.len() - 1 {
                assert(a[ia] < a[a.len() - 1]);
            }
        }
        assert(x <= y) by {
            if ib < b.len() - 1 {
                assert(b[ib] < b[b.len() - 1]);
            }
        }
        let a2 = a.drop_last();
        let b2 = b.drop_last();
        assert forall|c: u16| a2.contains(c) implies b2.contains(c) by {
            let i = choose|i: int| 0 <= i < a2.len() && a2[i] == c;
            assert(a[i] == c && a[i] < x);
            assert(b.contains(c));
            let j = choose|j: int| 0 <= j < b.len() && b[j] == c;
            assert(j != b.len() - 1);
            assert(b2[j] == c);
        }
        assert forall|c: u16| b2.contains(c) implies a2.contains(c) by {
            let j = choose|j: int| 0 <= j < b2.len() && b2[j] == c;
            assert(b[j] == c && b[j] < y);
            assert(a.contains(c));
            let i = choose|i: int| 0 <= i < a.len() && a[i] == c;
            assert(i != a.len() - 1);
            assert(a2[i] == c);
        }
        lemma_ascending_unique(a2, b2);
        assert(a =~= a2.push(x));
        assert(b =~= b2.push(y));
    }
}

/// The output of a run depends on the records alone: whichever store held
/// the accounts, any two successful runs over the same records give the
/// same settled accounts in the same order.
pub proof fn lemma_output_independent_of_store(
    records: Seq<RawRecord>,
    a: Seq<AccountView>,
    b: Seq<AccountView>,
)
    requires
        run_output(records, a),
        run_output(records, b),
    ensures
        a == b,
{
    let ids_a = choose|ids: Seq<u16>|
        {
            &&& strictly_ascending(ids)
            &&& forall|c: u16| ids.contains(c) <==> clients_of(records).contains(c)
            &&& a == settle_all(ingest_spec(Map::empty(), records), ids)
        };
    let ids_b = choose|ids: Seq<u16>|
        {
            &&& strictly_ascending(ids)
            &&& forall|c: u16| ids.contains(c) <==> clients_of(records).contains(c)
            &&& b == settle_all(ingest_spec(Map::empty(), records), ids)
        };
    lemma_ascending_unique(ids_a, ids_b);
}

} // verus!
