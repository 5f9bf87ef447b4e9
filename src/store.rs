use vstd::prelude::*;
use std::collections::HashMap;
use crate::account::{fresh_view, Account, AccountView};
use crate::ops::{op_of_record, RawRecord, TransactionOp};
use crate::registry::{registered_ids, strictly_ascending, ClientRegistry};
use crate::replay::{can_settle, process_account, replayable, settled};

verus! {

broadcast use vstd::std_specs::hash::group_hash_axioms;

/// The stored account of `client`, or a fresh one where none is stored.
pub open spec fn current(m: Map<u16, AccountView>, client: u16) -> AccountView {
    if m.contains_key(client) {
        m[client]
    } else {
        fresh_view(client)
    }
}

/// An account with one more operation at the end of its pending log.
pub open spec fn with_op(a: AccountView, op: TransactionOp) -> AccountView {
    AccountView { log: a.log.push(op), ..a }
}

/// The store after one operation has been appended to its client's account.
pub open spec fn record_into(m: Map<u16, AccountView>, client: u16, op: TransactionOp) -> Map<
    u16,
    AccountView,
> {
    m.insert(client, with_op(current(m, client), op))
}

/// The store after every record has been appended, in order.
pub open spec fn ingest_spec(m: Map<u16, AccountView>, records: Seq<RawRecord>) -> Map<
    u16,
    AccountView,
>
    decreases records.len(),
{
    if records.len() == 0 {
        m
    } else {
        let last = records.last();
        record_into(ingest_spec(m, records.drop_last()), last.client, op_of_record(last))
    }
}

/// The operations of the records addressed to `client`, in arrival order.
pub open spec fn ops_for(records: Seq<RawRecord>, client: u16) -> Seq<TransactionOp>
    decreases records.len(),
{
    if records.len() == 0 {
        Seq::empty()
    } else {
        let prev = ops_for(records.drop_last(), client);
        if records.last().client == client {
            prev.push(op_of_record(records.last()))
        } else {
            prev
        }
    }
}

/// The client ids that occur in at least one record.
pub open spec fn clients_of(records: Seq<RawRecord>) -> Set<u16> {
    Set::new(|c: u16| exists|k: int| 0 <= k < records.len() && records[k].client == c)
}

/// The settled accounts of the listed clients that the store holds, in list order.
pub open spec fn settle_all(m: Map<u16, AccountView>, ids: Seq<u16>) -> Seq<AccountView>
    decreases ids.len(),
{
    if ids.len() == 0 {
        Seq::empty()
    } else {
        let prev = settle_all(m, ids.drop_last());
        if m.contains_key(ids.last()) {
            prev.push(settled(m[ids.last()]))
        } else {
            prev
        }
    }
}

/// The listed clients that the store does not hold, in list order.
pub open spec fn missing_all(m: Map<u16, AccountView>, ids: Seq<u16>) -> Seq<u16>
    decreases ids.len(),
{
    if ids.len() == 0 {
        Seq::empty()
    } else {
        let prev = missing_all(m, ids.drop_last());
        if m.contains_key(ids.last()) {
            prev
        } else {
            prev.push(ids.last())
        }
    }
}

/// The views of a sequence of accounts.
pub open spec fn views(accounts: Seq<Account>) -> Seq<AccountView> {
    accounts.map_values(|a: Account| a@)
}

/// Whether every stored account can be settled within the machine's integer range.
pub open spec fn all_replayable(m: Map<u16, AccountView>) -> bool {
    forall|c: u16| m.contains_key(c) ==> replayable(#[trigger] m[c])
}

/// Why a run over an account store stopped.
#[derive(Debug)]
pub enum StoreError {
    /// The store could not carry out a read or a write.
    Backend(String),
    /// The store handed out an account for this client whose balances or
    /// log are too large to settle.
    Unsettleable(u16),
}

/// Where accounts are kept between ingestion and finalization: a whole
/// account is read or written at a time, keyed by client id.
///
/// A store that exposes its contents to verification overrides `modeled`,
/// `stored` and `infallible`; one that does not (a store on disk) keeps the
/// defaults, and its reads and writes then promise nothing.
pub trait AccountStore {
    /// Whether `stored` and `infallible` describe the store.
    open spec fn modeled(&self) -> bool {
        false
    }

    /// The accounts that the store holds, by client id.
    open spec fn stored(&self) -> Map<u16, AccountView> {
        Map::empty()
    }

    /// Whether the store's reads and writes never fail.
    open spec fn infallible(&self) -> bool {
        false
    }

    /// The stored account of `client`, if there is one.
    fn load(&self, client: u16) -> (r: Result<Option<Account>, StoreError>)
        ensures
            self.modeled() && self.infallible() ==> r is Ok,
            self.modeled() ==> (r matches Err(e) ==> e is Backend),
            self.modeled() ==> (r matches Ok(o) ==> match o {
                Some(a) => self.stored().contains_key(client) && a@ == self.stored()[client],
                None => !self.stored().contains_key(client),
            }),
    ;

    /// Replaces the stored account of `client` as a whole.
    fn put(&mut self, client: u16, account: Account) -> (r: Result<(), StoreError>)
        ensures
            final(self).modeled() == old(self).modeled(),
            old(self).modeled() ==> final(self).infallible() == old(self).infallible(),
            old(self).modeled() && old(self).infallible() ==> r is Ok,
            old(self).modeled() ==> (r is Ok ==> final(self).stored() == old(self).stored().insert(
                client,
                account@,
            )),
    ;
}

/// What finalization hands out: the settled accounts in ascending client
/// order, and the registered clients for which no account was stored.
pub struct Finalized {
    pub accounts: Vec<Account>,
    pub missing: Vec<u16>,
}

/// Adds an operation at the end of the addressed account's log, starting
/// from a fresh account when none was loaded.
pub fn append_op(existing: Option<Account>, client: u16, op: TransactionOp) -> (r: Account)
    ensures
        r@ == with_op(
            match existing {
                Some(a) => a@,
                None => fresh_view(client),
            },
            op,
        ),
{
    let mut account = match existing {
        Some(a) => a,
        None => Account::new(client),
    };
    account.push_op(op);
    account
}

/// Settles the account loaded for client `c`: nothing to emit when none was
/// stored, the settled account when it can be settled, and an error naming
/// `c` when its balances or log are too large to settle.
pub fn settle_one(c: u16, loaded: Option<Account>) -> (r: Result<Option<Account>, StoreError>)
    ensures
        match loaded {
            None => r matches Ok(None),
            Some(a) => if replayable(a@) {
                r matches Ok(Some(s)) && s@ == settled(a@)
            } else {
                r matches Err(StoreError::Unsettleable(d)) && d == c
            },
        },
{
    match loaded {
        None => Ok(None),
        Some(a) => {
            if can_settle(&a) {
                let mut account = a;
                process_account(&mut account);
                Ok(Some(account))
            } else {
                Err(StoreError::Unsettleable(c))
            }
        },
    }
}

/// The in-memory account store: a map from client id to account.
pub struct MemoryStore {
    accounts: HashMap<u16, Account>,
}

impl View for MemoryStore {
    type V = Map<u16, AccountView>;

    closed spec fn view(&self) -> Map<u16, AccountView> {
        self.accounts@.map_values(|a: Account| a@)
    }
}

impl MemoryStore {
    /// An empty store.
    pub fn new() -> (r: MemoryStore)
        ensures
            r@ == Map::<u16, AccountView>::empty(),
    {
        let r = MemoryStore { accounts: HashMap::new() };
        assert(r@ =~= Map::<u16, AccountView>::empty());
        r
    }

    /// A copy of the stored account of `client`, or a fresh one; reading
    /// does not store anything.
    pub fn get_or_create(&self, client: u16) -> (r: Account)
        ensures
            r@ == current(self@, client),
    {
        match self.accounts.get(&client) {
            Some(a) => a.duplicate(),
            None => Account::new(client),
        }
    }
}

impl AccountStore for MemoryStore {
    open spec fn modeled(&self) -> bool {
        true
    }

    open spec fn stored(&self) -> Map<u16, AccountView> {
        self@
    }

    open spec fn infallible(&self) -> bool {
        true
    }

    fn load(&self, client: u16) -> (r: Result<Option<Account>, StoreError>) {
        match self.accounts.get(&client) {
            Some(a) => Ok(Some(a.duplicate())),
            None => Ok(None),
        }
    }

    fn put(&mut self, client: u16, account: Account) -> (r: Result<(), StoreError>) {
        let ghost v = account@;
        self.accounts.insert(client, account);
        assert(self@ =~= old(self)@.insert(client, v));
        Ok(())
    }
}

/// Appends the record's operation to its client's account and marks the
/// client in the registry.
pub fn store_record<S: AccountStore>(
    store: &mut S,
    record: &RawRecord,
    registry: &mut ClientRegistry,
) -> (r: Result<(), StoreError>)
    ensures
        final(store).modeled() == old(store).modeled(),
        old(store).modeled() ==> final(store).infallible() == old(store).infallible(),
        old(store).modeled() && old(store).infallible() ==> r is Ok,
        old(store).modeled() ==> (r is Ok ==> final(store).stored() == record_into(
            old(store).stored(),
            record.client,
            op_of_record(*record),
        )),
        r is Ok ==> registered_ids(*final(registry)) == registered_ids(*old(registry)).insert(
            record.client,
        ),
{
    let existing = match store.load(record.client) {
        Ok(existing) => existing,
        Err(e) => {
            return Err(e);
        },
    };
    let account = append_op(existing, record.client, TransactionOp::from(*record));
    match store.put(record.client, account) {
        Ok(()) => {},
        Err(e) => {
            return Err(e);
        },
    }
    registry.mark(record.client);
    Ok(())
}

/// Appends every record, in order, and marks every client that occurs;
/// stops at the first failing read or write.
pub fn ingest<S: AccountStore>(
    store: &mut S,
    records: &Vec<RawRecord>,
    registry: &mut ClientRegistry,
) -> (r: Result<(), StoreError>)
    ensures
        final(store).modeled() == old(store).modeled(),
        old(store).modeled() ==> final(store).infallible() == old(store).infallible(),
        old(store).modeled() && old(store).infallible() ==> r is Ok,
        records@.len() == 0 ==> r is Ok,
        old(store).modeled() ==> (r is Ok ==> final(store).stored() == ingest_spec(
            old(store).stored(),
            records@,
        )),
        r is Ok ==> registered_ids(*final(registry)) == registered_ids(*old(registry)).union(
            clients_of(records@),
        ),
{
    let n = records.len();
    let mut i: usize = 0;
    while i < n
        invariant
            n == records@.len(),
            i <= n,
            store.modeled() == old(store).modeled(),
            old(store).modeled() ==> store.infallible() == old(store).infallible(),
            old(store).modeled() ==> store.stored() == ingest_spec(
                old(store).stored(),
                records@.subrange(0, i as int),
            ),
            registered_ids(*registry) == registered_ids(*old(registry)).union(
                clients_of(records@.subrange(0, i as int)),
            ),
        decreases n - i,
    {
        let ghost before = records@.subrange(0, i as int);
        let ghost after = records@.subrange(0, i as int + 1);
        match store_record(store, &records[i], registry) {
            Ok(()) => {},
            Err(e) => {
                return Err(e);
            },
        }
        proof {
            assert(after.drop_last() =~= before);
            assert(clients_of(after) =~= clients_of(before).insert(records@[i as int].client)) by {
                assert(after[i as int] == records@[i as int]);
                assert forall|c: u16| clients_of(before).contains(c) implies clients_of(
                    after,
                ).contains(c) by {
                    let k = choose|k: int| 0 <= k < before.len() && before[k].client == c;
                    assert(after[k] == before[k]);
                }
                assert forall|c: u16| #[trigger] clients_of(after).contains(c) implies (
                clients_of(before).contains(c) || c == records@[i as int].client) by {
                    let k = choose|k: int| 0 <= k < after.len() && after[k].client == c;
                    if k < i {
                        assert(before[k] == after[k]);
                    }
                }
            }
        }
        i += 1;
    }
    assert(records@.subrange(0, n as int) =~= records@);
    assert(registered_ids(*registry) =~= registered_ids(*old(registry)).union(
        clients_of(records@),
    ));
    Ok(())
}

/// Settles the account of every registered client, in ascending client
/// order; registered clients without a stored account are listed apart.
/// Stops at the first failing read, or at an account too large to settle
/// (which a modelled store whose accounts all can be settled never hands out).
pub fn finalize<S: AccountStore>(store: &S, registry: &ClientRegistry) -> (r: Result<
    Finalized,
    StoreError,
>)
    ensures
        store.modeled() && store.infallible() && all_replayable(store.stored()) ==> r is Ok,
        r matches Ok(f) ==> exists|ids: Seq<u16>|
            #![trigger strictly_ascending(ids)]
            {
                &&& strictly_ascending(ids)
                &&& forall|c: u16| ids.contains(c) <==> registered_ids(*registry).contains(c)
                &&& f.accounts@.len() + f.missing@.len() == ids.len()
                &&& strictly_ascending(f.missing@)
                &&& forall|c: u16| f.missing@.contains(c) ==> ids.contains(c)
                &&& store.modeled() ==> views(f.accounts@) == settle_all(store.stored(), ids)
                &&& store.modeled() ==> f.missing@ == missing_all(store.stored(), ids)
            },
        r matches Ok(f) ==> f.accounts@.len() + f.missing@.len() == registered_ids(
            *registry,
        ).len(),
        registered_ids(*registry).len() == 0 ==> (r matches Ok(f) && f.accounts@.len() == 0
            && f.missing@.len() == 0),
        store.modeled() ==> (r matches Err(StoreError::Unsettleable(c)) ==> (
        store.stored().contains_key(c) && !replayable(store.stored()[c]))),
{
    let ids = registry.iter_marked();
    proof {
        lemma_ascending_count(ids@, registered_ids(*registry));
    }
    let n = ids.len();
    let mut accounts: Vec<Account> = Vec::new();
    let mut missing: Vec<u16> = Vec::new();
    let mut i: usize = 0;
    while i < n
        invariant
            n == ids@.len(),
            n == registered_ids(*registry).len(),
            i <= n,
            strictly_ascending(ids@),
            accounts@.len() + missing@.len() == i,
            strictly_ascending(missing@),
            forall|k: int|
                0 <= k < missing@.len() ==> exists|j: int|
                    0 <= j < i && ids@[j] == #[trigger] missing@[k],
            store.modeled() ==> views(accounts@) == settle_all(
                store.stored(),
                ids@.subrange(0, i as int),
            ),
            store.modeled() ==> missing@ == missing_all(store.stored(), ids@.subrange(0, i as int)),
        decreases n - i,
    {
        let c = ids[i];
        proof {
            assert(ids@.subrange(0, i as int + 1).drop_last() =~= ids@.subrange(0, i as int));
        }
        let loaded = match store.load(c) {
            Ok(loaded) => loaded,
            Err(e) => {
                return Err(e);
            },
        };
        let ghost prev = accounts@;
        let ghost prev_missing = missing@;
        let settled_one = match settle_one(c, loaded) {
            Ok(settled_one) => settled_one,
            Err(e) => {
                return Err(e);
            },
        };
        match settled_one {
            Some(account) => {
                let ghost v = account@;
                accounts.push(account);
                assert(views(accounts@) =~= views(prev).push(v));
            },
            None => {
                missing.push(c);
                proof {
                    assert forall|k: int| 0 <= k < prev_missing.len() implies prev_missing[k]
                        < c by {
                        let j = choose|j: int| 0 <= j < i && ids@[j] == #[trigger] prev_missing[k];
                    }
                    assert forall|k: int| 0 <= k < missing@.len() implies exists|j: int|
                        0 <= j < i + 1 && ids@[j] == #[trigger] missing@[k] by {
                        if k < prev_missing.len() {
                            assert(missing@[k] == prev_missing[k]);
                            let j = choose|j: int| 0 <= j < i && ids@[j] == #[trigger] prev_missing[k];
                            assert(ids@[j] == missing@[k]);
                        } else {
                            assert(ids@[i as int] == missing@[k]);
                        }
                    }
                }
            },
        }
        i += 1;
    }
    proof {
        assert(ids@.subrange(0, n as int) =~= ids@);
        assert forall|c: u16| missing@.contains(c) implies ids@.contains(c) by {
            let k = choose|k: int| 0 <= k < missing@.len() && missing@[k] == c;
            let j = choose|j: int| 0 <= j < n && ids@[j] == #[trigger] missing@[k];
        }
        lemma_ascending_count(ids@, registered_ids(*registry));
    }
    let r = Finalized { accounts, missing };
    assert({
        &&& strictly_ascending(ids@)
        &&& forall|c: u16| ids@.contains(c) <==> registered_ids(*registry).contains(c)
        &&& r.accounts@.len() + r.missing@.len() == ids@.len()
        &&& strictly_ascending(r.missing@)
        &&& forall|c: u16| r.missing@.contains(c) ==> ids@.contains(c)
        &&& store.modeled() ==> views(r.accounts@) == settle_all(store.stored(), ids@)
        &&& store.modeled() ==> r.missing@ == missing_all(store.stored(), ids@)
    });
    Ok(r)
}

/// A strictly ascending sequence that lists a set has as many elements as the set.
proof fn lemma_ascending_count(ids: Seq<u16>, s: Set<u16>)
    requires
        strictly_ascending(ids),
        forall|c: u16| ids.contains(c) <==> s.contains(c),
    ensures
        ids.len() == s.len(),
{
    assert(ids.no_duplicates()) by {
        assert forall|i: int, j: int| 0 <= i < ids.len() && 0 <= j < ids.len() && i != j implies ids[i]
            != ids[j] by {
            if i < j {
                assert(ids[i] < ids[j]);
            } else {
                assert(ids[j] < ids[i]);
            }
        }
    }
    ids.unique_seq_to_set();
    assert(ids.to_set() =~= s);
}

} // verus!
