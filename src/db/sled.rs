//! The sled backend: a log-structured embedded store with ordered keys.
use super::api::{
    apply_write, bytes_opt, is_record_count, no_records, apply_writes, lookup, Batch, Config, Db, DbStat, Driver, IterOptions, KeyList,
    MutationOp,
};
use super::page::{collect_page, count_keys, is_next_key, KeyCursor};
use vstd::prelude::*;

verus! {

/// An open sled database. The handle is opaque to proofs, which see it only
/// through `sled_contents`.
#[verifier::external_body]
pub struct SledStore {
    db: ::sled::Db,
}

#[verifier::external_type_specification]
#[verifier::external_body]
pub struct ExSledError(::sled::Error);

/// A sled batch under construction, seen through `sled_batch_writes`.
#[verifier::external_body]
pub struct SledBatch {
    batch: ::sled::Batch,
}

/// The records of the default tree of an open sled database.
pub uninterp spec fn sled_contents(db: SledStore) -> Map<Seq<u8>, Seq<u8>>;

/// The writes a sled batch holds: for each key, its new value, or `None` to remove it.
pub uninterp spec fn sled_batch_writes(b: SledBatch) -> Map<Seq<u8>, Option<Seq<u8>>>;

/// `c` after the writes `w`.
pub open spec fn overlay(c: Map<Seq<u8>, Seq<u8>>, w: Map<Seq<u8>, Option<Seq<u8>>>) -> Map<
    Seq<u8>,
    Seq<u8>,
> {
    Map::new(
        |k: Seq<u8>|
            if w.contains_key(k) {
                w[k] is Some
            } else {
                c.contains_key(k)
            },
        |k: Seq<u8>|
            if w.contains_key(k) {
                w[k]->Some_0
            } else {
                c[k]
            },
    )
}

pub open spec fn no_writes() -> Map<Seq<u8>, Option<Seq<u8>>> {
    Map::empty()
}

/// Relies on `sled::open`: opens (or creates) the database at `path`.
#[verifier::external_body]
fn sled_open(path: &str) -> (r: Result<SledStore, ::sled::Error>) {
    ::sled::open(path).map(|db| SledStore { db })
}

/// Relies on `Tree::get`: the value stored under `key`, if any.
#[verifier::external_body]
fn sled_get(db: &SledStore, key: &[u8]) -> (r: Result<Option<Vec<u8>>, ::sled::Error>)
    ensures
        r is Ok ==> bytes_opt(r->Ok_0) == lookup(sled_contents(*db), key@),
{
    db.db.get(key).map(|o| o.map(|v| v.to_vec()))
}

/// Relies on `Tree::insert`: stores `val` under `key` and hands back the
/// value it replaced.
#[verifier::external_body]
fn sled_insert(db: &mut SledStore, key: &[u8], val: &[u8]) -> (r: Result<
    Option<Vec<u8>>,
    ::sled::Error,
>)
    ensures
        r is Ok ==> bytes_opt(r->Ok_0) == lookup(sled_contents(*old(db)), key@),
        r is Ok ==> sled_contents(*final(db)) == sled_contents(*old(db)).insert(key@, val@),
{
    db.db.insert(key, val).map(|o| o.map(|v| v.to_vec()))
}

/// Relies on `Tree::remove`: removes the record of `key` and hands back its value.
#[verifier::external_body]
fn sled_remove(db: &mut SledStore, key: &[u8]) -> (r: Result<Option<Vec<u8>>, ::sled::Error>)
    ensures
        r is Ok ==> bytes_opt(r->Ok_0) == lookup(sled_contents(*old(db)), key@),
        r is Ok ==> sled_contents(*final(db)) == sled_contents(*old(db)).remove(key@),
{
    db.db.remove(key).map(|o| o.map(|v| v.to_vec()))
}

/// Relies on `Tree::clear`: removes every record.
#[verifier::external_body]
fn sled_clear(db: &mut SledStore) -> (r: Result<(), ::sled::Error>)
    ensures
        r is Ok ==> sled_contents(*final(db)) == no_records(),
{
    db.db.clear()
}

/// Relies on `Tree::first`: the least key, in ascending byte order.
#[verifier::external_body]
fn sled_first_key(db: &SledStore) -> (r: Result<Option<Vec<u8>>, ::sled::Error>)
    ensures
        r is Ok ==> is_next_key(sled_contents(*db).dom(), None, bytes_opt(r->Ok_0)),
{
    db.db.first().map(|o| o.map(|kv| kv.0.to_vec()))
}

/// Relies on `Tree::get_gt`: the least key after `key`, in ascending byte order.
#[verifier::external_body]
fn sled_key_after(db: &SledStore, key: &[u8]) -> (r: Result<Option<Vec<u8>>, ::sled::Error>)
    ensures
        r is Ok ==> is_next_key(sled_contents(*db).dom(), Some(key@), bytes_opt(r->Ok_0)),
{
    db.db.get_gt(key).map(|o| o.map(|kv| kv.0.to_vec()))
}

/// Relies on `Batch::default`: a batch with no writes.
#[verifier::external_body]
fn sled_batch_new() -> (r: SledBatch)
    ensures
        sled_batch_writes(r) == no_writes(),
{
    SledBatch { batch: ::sled::Batch::default() }
}

/// Relies on `Batch::insert`: records a write of `val` under `key`,
/// replacing an earlier write of that key.
#[verifier::external_body]
fn sled_batch_insert(b: &mut SledBatch, key: &[u8], val: &[u8])
    ensures
        sled_batch_writes(*final(b)) == sled_batch_writes(*old(b)).insert(key@, Some(val@)),
{
    b.batch.insert(key, val)
}

/// Relies on `Batch::remove`: records a removal of `key`, replacing an
/// earlier write of that key.
#[verifier::external_body]
fn sled_batch_remove(b: &mut SledBatch, key: &[u8])
    ensures
        sled_batch_writes(*final(b)) == sled_batch_writes(*old(b)).insert(key@, None),
{
    b.batch.remove(key)
}

/// Relies on `Tree::apply_batch`: applies every write of `batch`.
#[verifier::external_body]
fn sled_apply_batch(db: &mut SledStore, batch: SledBatch) -> (r: Result<(), ::sled::Error>)
    ensures
        r is Ok ==> sled_contents(*final(db)) == overlay(
            sled_contents(*old(db)),
            sled_batch_writes(batch),
        ),
{
    db.db.apply_batch(batch.batch)
}

/// Recording one more write extends the overlay by that write.
proof fn lemma_overlay_write(
    c: Map<Seq<u8>, Seq<u8>>,
    w: Map<Seq<u8>, Option<Seq<u8>>>,
    x: (Seq<u8>, Option<Seq<u8>>),
)
    ensures
        overlay(c, w.insert(x.0, x.1)) == apply_write(overlay(c, w), x),
{
    assert(overlay(c, w.insert(x.0, x.1)) =~= apply_write(overlay(c, w), x));
}

/// A database stored by sled.
///
/// sled does not make every failed write leave the records as they were:
/// `apply_batch` inserts the batch's writes one by one and can stop with an
/// error part way (its log only makes the batch atomic across a crash), and
/// `clear` removes records one by one. A failed `del`, `apply_batch` or
/// `clear` may therefore have changed some records; only the LMDB backend
/// and the in-memory one leave the records unchanged when a write fails.
pub struct SledDb {
    db: SledStore,
}

/// The keys of a `SledDb`, visited in ascending order.
pub struct SledKeys<'a> {
    db: &'a SledStore,
}

impl<'a> KeyCursor for SledKeys<'a> {
    closed spec fn cursor_keys(&self) -> Set<Seq<u8>> {
        sled_contents(*self.db).dom()
    }

    open spec fn infallible(&self) -> bool {
        false
    }

    fn next_key(&mut self, bound: Option<&[u8]>) -> (r: Result<Option<Vec<u8>>, &'static str>) {
        let res = match bound {
            None => sled_first_key(self.db),
            Some(b) => sled_key_after(self.db, b),
        };
        match res {
            Ok(k) => Ok(k),
            Err(_e) => Err("iter failed"),
        }
    }
}

impl Db for SledDb {
    closed spec fn contents(&self) -> Map<Seq<u8>, Seq<u8>> {
        sled_contents(self.db)
    }

    fn apply_batch(&mut self, batch_in: &Batch) -> (r: Result<bool, &'static str>) {
        let mut batch = sled_batch_new();
        let ghost c = sled_contents(self.db);
        let mut i: usize = 0;
        while i < batch_in.ops.len()
            invariant
                batch_in.wf(),
                i <= batch_in.ops@.len(),
                c == sled_contents(old(self).db),
                self.db == old(self).db,
                overlay(c, sled_batch_writes(batch)) == apply_writes(c, batch_in@.take(i as int)),
            decreases batch_in.ops@.len() - i,
        {
            let m = &batch_in.ops[i];
            proof {
                assert(batch_in@.take(i + 1).drop_last() =~= batch_in@.take(i as int));
                assert(batch_in@.take(i + 1).last() == m.write());
                assert(batch_in.ops@[i as int].wf());
                lemma_overlay_write(c, sled_batch_writes(batch), m.write());
            }
            match m.op {
                MutationOp::Insert => {
                    match &m.value {
                        Some(v) => sled_batch_insert(&mut batch, m.key.as_slice(), v.as_slice()),
                        None => {},
                    }
                },
                MutationOp::Remove => sled_batch_remove(&mut batch, m.key.as_slice()),
            }
            i = i + 1;
        }
        assert(batch_in@.take(batch_in.ops@.len() as int) =~= batch_in@);
        match sled_apply_batch(&mut self.db, batch) {
            Ok(()) => Ok(true),
            Err(_e) => Err("batch failed"),
        }
    }

    fn clear(&mut self) -> (r: Result<bool, &'static str>) {
        match sled_clear(&mut self.db) {
            Ok(()) => Ok(true),
            Err(_e) => Err("clear failed"),
        }
    }

    fn del(&mut self, key: &[u8]) -> (r: Result<bool, &'static str>) {
        match sled_remove(&mut self.db, key) {
            Ok(old_val) => Ok(old_val.is_some()),
            Err(_e) => Err("del failed"),
        }
    }

    fn get(&self, key: &[u8]) -> (r: Result<Option<Vec<u8>>, &'static str>) {
        match sled_get(&self.db, key) {
            Ok(v) => Ok(v),
            Err(_e) => Err("get failed"),
        }
    }

    fn put(&mut self, key: &[u8], val: &[u8]) -> (r: Result<bool, &'static str>) {
        match sled_insert(&mut self.db, key, val) {
            Ok(_old_val) => Ok(true),
            Err(_e) => Err("put failed"),
        }
    }

    fn iter_keys(&self, opts: IterOptions) -> (r: Result<KeyList, &'static str>) {
        let mut walk = SledKeys { db: &self.db };
        collect_page(&mut walk, opts)
    }

    fn stat(&self) -> (r: Result<DbStat, &'static str>) {
        let mut walk = SledKeys { db: &self.db };
        match count_keys(&mut walk) {
            Ok(n) => Ok(DbStat { n_records: n }),
            Err(e) => Err(e),
        }
    }
}

/// Opens sled databases.
pub struct SledDriver {}

impl Driver for SledDriver {
    fn start_db(&self, cfg: Config) -> (r: Result<Box<dyn Db>, &'static str>)
        ensures
            r matches Err(e) ==> e@ == "db open failed"@,
    {
        match sled_open(cfg.path.as_str()) {
            Ok(db) => Ok(Box::new(SledDb { db })),
            Err(_e) => Err("db open failed"),
        }
    }
}

/// A driver for sled databases.
pub fn new_driver() -> Box<dyn Driver> {
    Box::new(SledDriver {})
}

} // verus!
