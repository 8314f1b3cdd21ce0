//! The LMDB backend: a memory-mapped transactional store. Every operation
//! runs in its own transaction; reads abort theirs, writes commit.
use super::api::{
    after_start, bytes_opt, is_record_count, no_records, apply_writes, lookup, Batch, Config, Db,
    DbStat, Driver, IterOptions, KeyList, MutationOp, };
use super::keys::{key_less, key_lt, lemma_key_lt_asymmetric, lemma_key_lt_total};
use super::page::{collect_page, is_next_key, KeyCursor};
use vstd::prelude::*;

verus! {

#[verifier::external_type_specification]
#[verifier::external_body]
pub struct ExEnvironment(::lmdb::Environment);

#[verifier::external_type_specification]
#[verifier::external_body]
pub struct ExEnvironmentBuilder(::lmdb::EnvironmentBuilder);

#[verifier::external_type_specification]
#[verifier::external_body]
pub struct ExDatabase(::lmdb::Database);

#[verifier::external_type_specification]
#[verifier::external_body]
pub struct ExRoTransaction<'env>(::lmdb::RoTransaction<'env>);

#[verifier::external_type_specification]
#[verifier::external_body]
pub struct ExRwTransaction<'env>(::lmdb::RwTransaction<'env>);

#[verifier::external_type_specification]
#[verifier::external_body]
pub struct ExRoCursor<'txn>(::lmdb::RoCursor<'txn>);

#[verifier::external_type_specification]
#[verifier::external_body]
pub struct ExLmdbError(::lmdb::Error);

/// An open LMDB environment with its default database, owned by one
/// `LmdbWrapper`. The environment is shared by reference count so that a
/// transaction can borrow it while the store itself is lent out to commit.
#[verifier::external_body]
pub struct LmdbStore {
    env: std::sync::Arc<::lmdb::Environment>,
    db: ::lmdb::Database,
}

/// The committed records of the default database of a store's environment.
pub uninterp spec fn lmdb_contents(store: LmdbStore) -> Map<Seq<u8>, Seq<u8>>;

/// The environment handle that a store holds.
pub uninterp spec fn lmdb_store_env(store: LmdbStore) -> std::sync::Arc<::lmdb::Environment>;

/// The store whose environment a read-only transaction was begun in.
pub uninterp spec fn lmdb_ro_origin(txn: ::lmdb::RoTransaction) -> LmdbStore;

/// The store whose environment a read-write transaction was begun in.
pub uninterp spec fn lmdb_rw_origin(txn: ::lmdb::RwTransaction) -> LmdbStore;

/// The records that a read-only transaction sees (its snapshot).
pub uninterp spec fn lmdb_ro_records(txn: ::lmdb::RoTransaction) -> Map<Seq<u8>, Seq<u8>>;

/// The records as a read-write transaction has changed them so far.
pub uninterp spec fn lmdb_rw_records(txn: ::lmdb::RwTransaction) -> Map<Seq<u8>, Seq<u8>>;

/// The records that a cursor walks.
pub uninterp spec fn lmdb_cursor_records(cur: ::lmdb::RoCursor) -> Map<Seq<u8>, Seq<u8>>;

/// The key that a cursor stands on, if it has been placed.
pub uninterp spec fn lmdb_cursor_at(cur: ::lmdb::RoCursor) -> Option<Seq<u8>>;

/// `r` is the least key of the finite set `keys` that does not sort before
/// `key`, or `None` when every key sorts before it.
pub open spec fn is_least_from(keys: Set<Seq<u8>>, key: Seq<u8>, r: Option<Seq<u8>>) -> bool {
    &&& keys.finite()
    &&& match r {
        Some(k) => {
            &&& keys.contains(k)
            &&& !key_lt(k, key)
            &&& forall|m: Seq<u8>| #[trigger] keys.contains(m) && !key_lt(m, key) ==> !key_lt(m, k)
        },
        None => forall|m: Seq<u8>| #[trigger] keys.contains(m) ==> key_lt(m, key),
    }
}

/// Relies on `Environment::new`: a builder with default settings.
#[verifier::external_body]
fn lmdb_env_builder() -> (r: ::lmdb::EnvironmentBuilder) {
    ::lmdb::Environment::new()
}

/// Relies on `EnvironmentBuilder::set_flags`: environments it opens are read-only.
#[verifier::external_body]
fn lmdb_set_read_only(b: &mut ::lmdb::EnvironmentBuilder) {
    b.set_flags(::lmdb::EnvironmentFlags::READ_ONLY);
}

/// Relies on `EnvironmentBuilder::open`: opens the environment in the directory `path`.
#[verifier::external_body]
fn lmdb_open(b: &::lmdb::EnvironmentBuilder, path: &str) -> (r: Result<
    ::lmdb::Environment,
    ::lmdb::Error,
>) {
    b.open(std::path::Path::new(path))
}

/// Relies on `Environment::create_db`: a handle to the default database, created if missing.
#[verifier::external_body]
fn lmdb_create_db(env: &::lmdb::Environment) -> (r: Result<::lmdb::Database, ::lmdb::Error>) {
    env.create_db(None, ::lmdb::DatabaseFlags::empty())
}

/// Relies on `Environment::open_db`: a handle to the existing default database.
#[verifier::external_body]
fn lmdb_open_db(env: &::lmdb::Environment) -> (r: Result<::lmdb::Database, ::lmdb::Error>) {
    env.open_db(None)
}

/// Relies on `Arc::new`: makes a store of an environment and its default
/// database `db`.
#[verifier::external_body]
fn lmdb_store_new(env: ::lmdb::Environment, db: ::lmdb::Database) -> (r: LmdbStore) {
    LmdbStore { env: std::sync::Arc::new(env), db }
}

/// Relies on `Arc::clone`: another handle to the store's environment.
#[verifier::external_body]
fn lmdb_share_env(store: &LmdbStore) -> (r: std::sync::Arc<::lmdb::Environment>)
    ensures
        r == lmdb_store_env(*store),
{
    store.env.clone()
}

/// Relies on `Environment::stat`: the number of entries of the default
/// database, the one a store uses.
#[verifier::external_body]
fn lmdb_entries(store: &LmdbStore) -> (r: Result<usize, ::lmdb::Error>)
    ensures
        r is Ok ==> is_record_count(lmdb_contents(*store), r->Ok_0 as nat),
{
    store.env.stat().map(|st| st.entries())
}

/// Relies on `Environment::begin_ro_txn`: a snapshot of the committed records.
#[verifier::external_body]
fn lmdb_begin_ro<'e>(env: &'e std::sync::Arc<::lmdb::Environment>, store: &LmdbStore) -> (r:
    Result<::lmdb::RoTransaction<'e>, ::lmdb::Error>)
    requires
        *env == lmdb_store_env(*store),
    ensures
        r is Ok ==> lmdb_ro_records(r->Ok_0) == lmdb_contents(*store),
        r is Ok ==> lmdb_ro_origin(r->Ok_0) == *store,
{
    env.begin_ro_txn()
}

/// Relies on `Environment::begin_rw_txn`: a write transaction that starts
/// from the committed records.
#[verifier::external_body]
fn lmdb_begin_rw<'e>(env: &'e std::sync::Arc<::lmdb::Environment>, store: &LmdbStore) -> (r:
    Result<::lmdb::RwTransaction<'e>, ::lmdb::Error>)
    requires
        *env == lmdb_store_env(*store),
    ensures
        r is Ok ==> lmdb_rw_records(r->Ok_0) == lmdb_contents(*store),
        r is Ok ==> lmdb_rw_origin(r->Ok_0) == *store,
{
    env.begin_rw_txn()
}

/// Relies on `Transaction::get`: the value of `key`; `NotFound` means there is none.
#[verifier::external_body]
fn lmdb_get(txn: &::lmdb::RoTransaction, store: &LmdbStore, key: &[u8]) -> (r: Result<
    Option<Vec<u8>>,
    ::lmdb::Error,
>)
    requires
        lmdb_ro_origin(*txn) == *store,
    ensures
        r is Ok ==> bytes_opt(r->Ok_0) == lookup(lmdb_ro_records(*txn), key@),
{
    match ::lmdb::Transaction::get(txn, store.db, &key) {
        Ok(v) => Ok(Some(v.to_vec())),
        Err(::lmdb::Error::NotFound) => Ok(None),
        Err(e) => Err(e),
    }
}

/// Relies on `Transaction::abort`: ends a read-only transaction.
#[verifier::external_body]
fn lmdb_abort(txn: ::lmdb::RoTransaction) {
    ::lmdb::Transaction::abort(txn)
}

/// Relies on `RwTransaction::put`: stores `val` under `key`.
#[verifier::external_body]
fn lmdb_put(txn: &mut ::lmdb::RwTransaction, store: &LmdbStore, key: &[u8], val: &[u8]) -> (r:
    Result<(), ::lmdb::Error>)
    requires
        lmdb_rw_origin(*old(txn)) == *store,
    ensures
        lmdb_rw_origin(*final(txn)) == lmdb_rw_origin(*old(txn)),
        r is Ok ==> lmdb_rw_records(*final(txn)) == lmdb_rw_records(*old(txn)).insert(key@, val@),
{
    txn.put(store.db, &key, &val, ::lmdb::WriteFlags::empty())
}

/// Relies on `RwTransaction::del`: removes the record of `key`; `NotFound`
/// means there was none.
#[verifier::external_body]
fn lmdb_del(txn: &mut ::lmdb::RwTransaction, store: &LmdbStore, key: &[u8]) -> (r: Result<
    bool,
    ::lmdb::Error,
>)
    requires
        lmdb_rw_origin(*old(txn)) == *store,
    ensures
        lmdb_rw_origin(*final(txn)) == lmdb_rw_origin(*old(txn)),
        r is Ok ==> r->Ok_0 == lmdb_rw_records(*old(txn)).contains_key(key@),
        r is Ok ==> lmdb_rw_records(*final(txn)) == lmdb_rw_records(*old(txn)).remove(key@),
{
    match txn.del(store.db, &key, None) {
        Ok(()) => Ok(true),
        Err(::lmdb::Error::NotFound) => Ok(false),
        Err(e) => Err(e),
    }
}

/// Relies on `RwTransaction::clear_db`: removes every record.
#[verifier::external_body]
fn lmdb_clear(txn: &mut ::lmdb::RwTransaction, store: &LmdbStore) -> (r: Result<
    (),
    ::lmdb::Error,
>)
    requires
        lmdb_rw_origin(*old(txn)) == *store,
    ensures
        lmdb_rw_origin(*final(txn)) == lmdb_rw_origin(*old(txn)),
        r is Ok ==> lmdb_rw_records(*final(txn)) == no_records(),
{
    txn.clear_db(store.db)
}

/// Relies on `Transaction::commit`: on success the transaction's records
/// become the committed records of the store it was begun on; a failed
/// commit aborts, leaving them as they were.
#[verifier::external_body]
fn lmdb_commit(txn: ::lmdb::RwTransaction, store: &mut LmdbStore) -> (r: Result<
    (),
    ::lmdb::Error,
>)
    requires
        lmdb_rw_origin(txn) == *old(store),
    ensures
        lmdb_store_env(*final(store)) == lmdb_store_env(*old(store)),
        r is Ok ==> lmdb_contents(*final(store)) == lmdb_rw_records(txn),
        r is Err ==> lmdb_contents(*final(store)) == lmdb_contents(*old(store)),
{
    ::lmdb::Transaction::commit(txn)
}

/// Relies on `Transaction::open_ro_cursor`: a cursor over the transaction's records.
#[verifier::external_body]
fn lmdb_open_cursor<'t>(txn: &'t ::lmdb::RoTransaction, store: &LmdbStore) -> (r: Result<
    ::lmdb::RoCursor<'t>,
    ::lmdb::Error,
>)
    requires
        lmdb_ro_origin(*txn) == *store,
    ensures
        r is Ok ==> lmdb_cursor_records(r->Ok_0) == lmdb_ro_records(*txn),
{
    ::lmdb::Transaction::open_ro_cursor(txn, store.db)
}

/// Relies on `Cursor::get` with `MDB_FIRST`: places the cursor on the least
/// key; `NotFound` means there is none.
#[verifier::external_body]
fn lmdb_first(cur: &mut ::lmdb::RoCursor) -> (r: Result<Option<Vec<u8>>, ::lmdb::Error>)
    ensures
        lmdb_cursor_records(*final(cur)) == lmdb_cursor_records(*old(cur)),
        r is Ok ==> is_next_key(
            lmdb_cursor_records(*old(cur)).dom(),
            None,
            bytes_opt(r->Ok_0),
        ),
        r matches Ok(Some(k)) ==> lmdb_cursor_at(*final(cur)) == Some(k@),
{
    match ::lmdb::Cursor::get(cur, None, None, ::lmdb_sys::MDB_FIRST) {
        Ok((k, _v)) => Ok(k.map(|k| k.to_vec())),
        Err(::lmdb::Error::NotFound) => Ok(None),
        Err(e) => Err(e),
    }
}

/// Relies on `Cursor::get` with `MDB_SET_RANGE`: places the cursor on the
/// least key not before `key`; `NotFound` means there is none.
#[verifier::external_body]
fn lmdb_seek(cur: &mut ::lmdb::RoCursor, key: &[u8]) -> (r: Result<
    Option<Vec<u8>>,
    ::lmdb::Error,
>)
    ensures
        lmdb_cursor_records(*final(cur)) == lmdb_cursor_records(*old(cur)),
        r is Ok ==> is_least_from(
            lmdb_cursor_records(*old(cur)).dom(),
            key@,
            bytes_opt(r->Ok_0),
        ),
        r matches Ok(Some(k)) ==> lmdb_cursor_at(*final(cur)) == Some(k@),
{
    match ::lmdb::Cursor::get(cur, Some(key), None, ::lmdb_sys::MDB_SET_RANGE) {
        Ok((k, _v)) => Ok(k.map(|k| k.to_vec())),
        Err(::lmdb::Error::NotFound) => Ok(None),
        Err(e) => Err(e),
    }
}

/// Relies on `Cursor::get` with `MDB_NEXT`: moves a placed cursor to the
/// next key; `NotFound` means it stood on the last one.
#[verifier::external_body]
fn lmdb_next(cur: &mut ::lmdb::RoCursor) -> (r: Result<Option<Vec<u8>>, ::lmdb::Error>)
    requires
        lmdb_cursor_at(*old(cur)) is Some,
    ensures
        lmdb_cursor_records(*final(cur)) == lmdb_cursor_records(*old(cur)),
        r is Ok ==> is_next_key(
            lmdb_cursor_records(*old(cur)).dom(),
            lmdb_cursor_at(*old(cur)),
            bytes_opt(r->Ok_0),
        ),
        r matches Ok(Some(k)) ==> lmdb_cursor_at(*final(cur)) == Some(k@),
{
    match ::lmdb::Cursor::get(cur, None, None, ::lmdb_sys::MDB_NEXT) {
        Ok((k, _v)) => Ok(k.map(|k| k.to_vec())),
        Err(::lmdb::Error::NotFound) => Ok(None),
        Err(e) => Err(e),
    }
}

/// The keys of a cursor, visited in ascending order.
pub struct LmdbKeys<'t> {
    cur: ::lmdb::RoCursor<'t>,
}

impl<'t> KeyCursor for LmdbKeys<'t> {
    closed spec fn cursor_keys(&self) -> Set<Seq<u8>> {
        lmdb_cursor_records(self.cur).dom()
    }

    open spec fn infallible(&self) -> bool {
        false
    }

    fn next_key(&mut self, bound: Option<&[u8]>) -> (r: Result<Option<Vec<u8>>, &'static str>) {
        let b = match bound {
            None => {
                return match lmdb_first(&mut self.cur) {
                    Ok(k) => Ok(k),
                    Err(_e) => Err("iter failed"),
                };
            },
            Some(b) => b,
        };
        // LMDB keys are never empty, and it refuses an empty key to seek to.
        let res = if b.len() == 0 {
            lmdb_first(&mut self.cur)
        } else {
            lmdb_seek(&mut self.cur, b)
        };
        let ghost keys = lmdb_cursor_records(self.cur).dom();
        proof {
            // either way, `res` is the least key not before `b`
            if b@.len() == 0 && res is Ok {
                assert(is_least_from(keys, b@, bytes_opt(res->Ok_0)));
            }
        }
        let found = match res {
            Err(_e) => {
                return Err("iter failed");
            },
            Ok(None) => {
                proof {
                    assert forall|m: Seq<u8>| #[trigger] keys.contains(m) implies !after_start(
                        Some(b@),
                        m,
                    ) by {
                        lemma_key_lt_asymmetric(m, b@);
                    }
                }
                return Ok(None);
            },
            Ok(Some(k)) => k,
        };
        if key_less(b, found.as_slice()) {
            proof {
                assert forall|m: Seq<u8>| #[trigger]
                    keys.contains(m) && after_start(Some(b@), m) implies !key_lt(m, found@) by {
                    lemma_key_lt_asymmetric(b@, m);
                }
            }
            Ok(Some(found))
        } else {
            // the cursor stands on `b` itself: the next key is the one after it
            proof {
                lemma_key_lt_total(b@, found@);
            }
            match lmdb_next(&mut self.cur) {
                Ok(k) => Ok(k),
                Err(_e) => Err("iter failed"),
            }
        }
    }
}

/// A database stored by LMDB: an environment and its default database.
pub struct LmdbWrapper {
    store: LmdbStore,
}

impl Db for LmdbWrapper {
    closed spec fn contents(&self) -> Map<Seq<u8>, Seq<u8>> {
        lmdb_contents(self.store)
    }

    fn clear(&mut self) -> (r: Result<bool, &'static str>)
        ensures
            r is Err ==> final(self).contents() == old(self).contents(),
    {
        let env = lmdb_share_env(&self.store);
        let mut txn = match lmdb_begin_rw(&env, &self.store) {
            Err(_e) => {
                return Err("begin-rw-txn failed");
            },
            Ok(t) => t,
        };
        match lmdb_clear(&mut txn, &self.store) {
            Err(_e) => {
                return Err("clear_db failed");
            },
            Ok(()) => {},
        }
        match lmdb_commit(txn, &mut self.store) {
            Err(_e) => Err("commit failed"),
            Ok(()) => Ok(true),
        }
    }

    fn stat(&self) -> (r: Result<DbStat, &'static str>) {
        match lmdb_entries(&self.store) {
            Err(_e) => Err("db stat failed"),
            Ok(n) => Ok(DbStat { n_records: n as u64 }),
        }
    }

    fn get(&self, key: &[u8]) -> (r: Result<Option<Vec<u8>>, &'static str>) {
        let env = lmdb_share_env(&self.store);
        let txn = match lmdb_begin_ro(&env, &self.store) {
            Err(_e) => {
                return Err("begin-ro-txn failed");
            },
            Ok(t) => t,
        };
        match lmdb_get(&txn, &self.store, key) {
            Err(_e) => Err("get failed"),
            Ok(v) => {
                lmdb_abort(txn);
                Ok(v)
            },
        }
    }

    fn put(&mut self, key: &[u8], val: &[u8]) -> (r: Result<bool, &'static str>)
        ensures
            r is Err ==> final(self).contents() == old(self).contents(),
    {
        let env = lmdb_share_env(&self.store);
        let mut txn = match lmdb_begin_rw(&env, &self.store) {
            Err(_e) => {
                return Err("begin-rw-txn failed");
            },
            Ok(t) => t,
        };
        match lmdb_put(&mut txn, &self.store, key, val) {
            Err(_e) => {
                return Err("put failed");
            },
            Ok(()) => {},
        }
        match lmdb_commit(txn, &mut self.store) {
            Err(_e) => Err("commit failed"),
            Ok(()) => Ok(true),
        }
    }

    fn del(&mut self, key: &[u8]) -> (r: Result<bool, &'static str>)
        ensures
            r is Err ==> final(self).contents() == old(self).contents(),
    {
        let env = lmdb_share_env(&self.store);
        let mut txn = match lmdb_begin_rw(&env, &self.store) {
            Err(_e) => {
                return Err("begin-rw-txn failed");
            },
            Ok(t) => t,
        };
        match lmdb_del(&mut txn, &self.store, key) {
            Err(_e) => Err("del failed"),
            Ok(false) => {
                assert(lmdb_contents(self.store).remove(key@) =~= lmdb_contents(self.store));
                Ok(false)
            },
            Ok(true) => match lmdb_commit(txn, &mut self.store) {
                Err(_e) => Err("commit failed"),
                Ok(()) => Ok(true),
            },
        }
    }

    fn apply_batch(&mut self, batch: &Batch) -> (r: Result<bool, &'static str>)
        ensures
            r is Err ==> final(self).contents() == old(self).contents(),
    {
        let ghost c = lmdb_contents(self.store);
        let env = lmdb_share_env(&self.store);
        let mut txn = match lmdb_begin_rw(&env, &self.store) {
            Err(_e) => {
                return Err("begin-rw-txn failed");
            },
            Ok(t) => t,
        };
        let mut i: usize = 0;
        while i < batch.ops.len()
            invariant
                batch.wf(),
                i <= batch.ops@.len(),
                c == lmdb_contents(self.store),
                self.store == old(self).store,
                lmdb_rw_origin(txn) == self.store,
                lmdb_rw_records(txn) == apply_writes(c, batch@.take(i as int)),
            decreases batch.ops@.len() - i,
        {
            let m = &batch.ops[i];
            proof {
                assert(batch@.take(i + 1).drop_last() =~= batch@.take(i as int));
                assert(batch@.take(i + 1).last() == m.write());
                assert(batch.ops@[i as int].wf());
            }
            match m.op {
                MutationOp::Insert => {
                    match &m.value {
                        Some(v) => {
                            if lmdb_put(&mut txn, &self.store, m.key.as_slice(), v.as_slice()).is_err() {
                                return Err("txn.put failed");
                            }
                        },
                        None => {},
                    }
                },
                MutationOp::Remove => {
                    if lmdb_del(&mut txn, &self.store, m.key.as_slice()).is_err() {
                        return Err("txn.del failed");
                    }
                },
            }
            i = i + 1;
        }
        assert(batch@.take(batch.ops@.len() as int) =~= batch@);
        match lmdb_commit(txn, &mut self.store) {
            Err(_e) => Err("commit failed"),
            Ok(()) => Ok(true),
        }
    }

    fn iter_keys(&self, opts: IterOptions) -> (r: Result<KeyList, &'static str>) {
        // A cursor must not be opened on an empty database: check first.
        let st = match self.stat() {
            Err(e) => {
                return Err(e);
            },
            Ok(st) => st,
        };
        if st.n_records == 0 {
            let r = KeyList { keys: Vec::new(), list_end: true };
            proof {
                let keys = lmdb_contents(self.store).dom();
                assert(keys.len() == 0);
                assert(r@ =~= Seq::<Seq<u8>>::empty());
                assert forall|k: Seq<u8>| !keys.contains(k) by {
                    if keys.contains(k) {
                        vstd::set_lib::lemma_len_subset(set![k], keys);
                    }
                }
            }
            return Ok(r);
        }
        let env = lmdb_share_env(&self.store);
        let txn = match lmdb_begin_ro(&env, &self.store) {
            Err(_e) => {
                return Err("begin-ro-txn failed");
            },
            Ok(t) => t,
        };
        let res = {
            let cur = match lmdb_open_cursor(&txn, &self.store) {
                Err(_e) => {
                    return Err("open-ro-cursor failed");
                },
                Ok(c) => c,
            };
            let mut walk = LmdbKeys { cur };
            collect_page(&mut walk, opts)
        };
        lmdb_abort(txn);
        res
    }
}

/// Opens LMDB environments.
pub struct LmdbDriver {}

impl Driver for LmdbDriver {
    fn start_db(&self, cfg: Config) -> (r: Result<Box<dyn Db>, &'static str>)
        ensures
            r matches Err(e) ==> e@ == "env-open failed"@ || e@ == "db-open failed"@,
    {
        let mut builder = lmdb_env_builder();
        if cfg.read_only {
            lmdb_set_read_only(&mut builder);
        }
        let env = match lmdb_open(&builder, cfg.path.as_str()) {
            Err(_e) => {
                return Err("env-open failed");
            },
            Ok(env) => env,
        };
        let db = if cfg.read_only {
            lmdb_open_db(&env)
        } else {
            lmdb_create_db(&env)
        };
        match db {
            Err(_e) => Err("db-open failed"),
            Ok(db) => Ok(Box::new(LmdbWrapper { store: lmdb_store_new(env, db) })),
        }
    }
}

/// A driver for LMDB databases.
pub fn new_driver() -> Box<dyn Driver> {
    Box::new(LmdbDriver {})
}

} // verus!
