//! The storage interface shared by every backend: point operations, atomic
//! batches, record counts and resumable, prefix-filtered key pagination.
use super::keys::{key_lt, keys_ascending, starts_with};
use vstd::prelude::*;

verus! {

/// The most keys that one call of `iter_keys` returns.
pub const MAX_ITER_KEYS: usize = 1000;

pub enum MutationOp {
    Insert,
    Remove,
}

/// One write of a batch: an insert carries its value, a removal none.
pub struct Mutation {
    pub op: MutationOp,
    pub key: Vec<u8>,
    pub value: Option<Vec<u8>>,
}

impl Mutation {
    /// The write as a key and, for an insert, the value it stores.
    pub open spec fn write(&self) -> (Seq<u8>, Option<Seq<u8>>) {
        match self.op {
            MutationOp::Insert => (self.key@, Some(self.value->Some_0@)),
            MutationOp::Remove => (self.key@, None),
        }
    }

    /// An insert carries a value and a removal none.
    pub open spec fn wf(&self) -> bool {
        match self.op {
            MutationOp::Insert => self.value is Some,
            MutationOp::Remove => self.value is None,
        }
    }
}

/// An ordered sequence of writes, applied as one unit.
pub struct Batch {
    pub ops: Vec<Mutation>,
}

/// The contents after one write: a value stores it, `None` removes the key.
pub open spec fn apply_write(m: Map<Seq<u8>, Seq<u8>>, w: (Seq<u8>, Option<Seq<u8>>)) -> Map<
    Seq<u8>,
    Seq<u8>,
> {
    match w.1 {
        Some(v) => m.insert(w.0, v),
        None => m.remove(w.0),
    }
}

/// The contents after applying `ws` in order: a later write to a key wins.
pub open spec fn apply_writes(m: Map<Seq<u8>, Seq<u8>>, ws: Seq<(Seq<u8>, Option<Seq<u8>>)>) -> Map<
    Seq<u8>,
    Seq<u8>,
>
    decreases ws.len(),
{
    if ws.len() == 0 {
        m
    } else {
        apply_write(apply_writes(m, ws.drop_last()), ws.last())
    }
}

/// The value stored under `k`, if any.
pub open spec fn lookup(m: Map<Seq<u8>, Seq<u8>>, k: Seq<u8>) -> Option<Seq<u8>> {
    if m.contains_key(k) {
        Some(m[k])
    } else {
        None
    }
}

/// The bytes of an optional buffer.
pub open spec fn bytes_opt(o: Option<Vec<u8>>) -> Option<Seq<u8>> {
    match o {
        Some(v) => Some(v@),
        None => None,
    }
}

/// A database without records.
pub open spec fn no_records() -> Map<Seq<u8>, Seq<u8>> {
    Map::empty()
}

/// `n` is the number of records of `c`, which has finitely many.
pub open spec fn is_record_count(c: Map<Seq<u8>, Seq<u8>>, n: nat) -> bool {
    c.dom().finite() && c.len() == n
}

impl View for Batch {
    type V = Seq<(Seq<u8>, Option<Seq<u8>>)>;

    open spec fn view(&self) -> Seq<(Seq<u8>, Option<Seq<u8>>)> {
        self.ops@.map_values(|m: Mutation| m.write())
    }
}

impl Batch {
    /// Every write of the batch is well formed.
    pub open spec fn wf(&self) -> bool {
        forall|i: int| 0 <= i < self.ops@.len() ==> (#[trigger] self.ops@[i]).wf()
    }

    /// An empty batch.
    pub fn default() -> (b: Batch)
        ensures
            b@ == Seq::<(Seq<u8>, Option<Seq<u8>>)>::empty(),
            b.wf(),
    {
        Batch { ops: Vec::new() }
    }

    /// Appends a write of `value_in` under `key_in`.
    pub fn insert(&mut self, key_in: &[u8], value_in: &[u8])
        ensures
            final(self)@ == old(self)@.push((key_in@, Some(value_in@))),
            final(self).ops@.len() == old(self).ops@.len() + 1,
            final(self).ops@.drop_last() == old(self).ops@,
            final(self).ops@.last().op is Insert,
            final(self).ops@.last().key@ == key_in@,
            final(self).ops@.last().value matches Some(v) && v@ == value_in@,
            old(self).wf() ==> final(self).wf(),
    {
        self.ops.push(
            Mutation {
                op: MutationOp::Insert,
                key: vstd::slice::slice_to_vec(key_in),
                value: Some(vstd::slice::slice_to_vec(value_in)),
            },
        );
        assert(self@ =~= old(self)@.push((key_in@, Some(value_in@))));
        assert(self.ops@.drop_last() =~= old(self).ops@);
    }

    /// Appends a removal of `key_in`.
    pub fn remove(&mut self, key_in: &[u8])
        ensures
            final(self)@ == old(self)@.push((key_in@, None::<Seq<u8>>)),
            final(self).ops@.len() == old(self).ops@.len() + 1,
            final(self).ops@.drop_last() == old(self).ops@,
            final(self).ops@.last().op is Remove,
            final(self).ops@.last().key@ == key_in@,
            final(self).ops@.last().value is None,
            old(self).wf() ==> final(self).wf(),
    {
        self.ops.push(
            Mutation { op: MutationOp::Remove, key: vstd::slice::slice_to_vec(key_in), value: None },
        );
        assert(self@ =~= old(self)@.push((key_in@, None::<Seq<u8>>)));
        assert(self.ops@.drop_last() =~= old(self).ops@);
    }
}

/// How a backend opens its database.
pub struct Config {
    pub path: String,
    pub read_only: bool,
}

/// One page of keys; `list_end` is false when more pages may follow.
pub struct KeyList {
    pub keys: Vec<Vec<u8>>,
    pub list_end: bool,
}

impl View for KeyList {
    type V = Seq<Seq<u8>>;

    open spec fn view(&self) -> Seq<Seq<u8>> {
        self.keys@.map_values(|k: Vec<u8>| k@)
    }
}

/// Where a key listing resumes (strictly after `start_key`, the last key
/// of the previous page) and which leading bytes its keys must have.
pub struct IterOptions {
    pub start_key: Option<Vec<u8>>,
    pub prefix: Option<Vec<u8>>,
}

impl IterOptions {
    pub open spec fn start_spec(&self) -> Option<Seq<u8>> {
        bytes_opt(self.start_key)
    }

    pub open spec fn prefix_spec(&self) -> Option<Seq<u8>> {
        bytes_opt(self.prefix)
    }

    /// Options that list every key from the beginning.
    pub fn new() -> (r: IterOptions)
        ensures
            r.start_key is None,
            r.prefix is None,
    {
        IterOptions { start_key: None, prefix: None }
    }

    /// Resumes the listing after `key`.
    pub fn start(&mut self, key: &[u8]) -> (r: &mut IterOptions)
        ensures
            r.start_spec() == Some(key@),
            r.prefix_spec() == old(self).prefix_spec(),
            *final(self) == *final(r),
    {
        self.start_key = Some(vstd::slice::slice_to_vec(key));
        self
    }

    /// Restricts the listing to keys that begin with `prefix`.
    pub fn prefix(&mut self, prefix: &[u8]) -> (r: &mut IterOptions)
        ensures
            r.prefix_spec() == Some(prefix@),
            r.start_spec() == old(self).start_spec(),
            *final(self) == *final(r),
    {
        self.prefix = Some(vstd::slice::slice_to_vec(prefix));
        self
    }
}

/// The number of records in a database.
pub struct DbStat {
    pub n_records: u64,
}

/// `k` lies after the resume point, if there is one.
pub open spec fn after_start(start: Option<Seq<u8>>, k: Seq<u8>) -> bool {
    match start {
        Some(s) => key_lt(s, k),
        None => true,
    }
}

/// `k` has the required leading bytes, if any are required.
pub open spec fn within_prefix(prefix: Option<Seq<u8>>, k: Seq<u8>) -> bool {
    match prefix {
        Some(p) => starts_with(k, p),
        None => true,
    }
}

/// The keys of `keys` that a listing with these options may return.
pub open spec fn matching_keys(
    keys: Set<Seq<u8>>,
    start: Option<Seq<u8>>,
    prefix: Option<Seq<u8>>,
) -> Set<Seq<u8>> {
    keys.filter(|k: Seq<u8>| after_start(start, k) && within_prefix(prefix, k))
}

/// `keys` is the page that lists `candidates`: the smallest of them in
/// ascending order, at most `MAX_ITER_KEYS`; the listing ends exactly when
/// the page is not full, and then it holds every candidate.
pub open spec fn is_page(keys: Seq<Seq<u8>>, list_end: bool, candidates: Set<Seq<u8>>) -> bool {
    &&& keys_ascending(keys)
    &&& keys.len() <= MAX_ITER_KEYS
    &&& list_end == (keys.len() < MAX_ITER_KEYS)
    &&& forall|i: int| 0 <= i < keys.len() ==> candidates.contains(#[trigger] keys[i])
    &&& forall|k: Seq<u8>| #[trigger]
        candidates.contains(k) ==> keys.contains(k) || (!list_end && key_lt(keys.last(), k))
}

/// A database handle. `contents` is the map from key to value that it holds.
pub trait Db: Send {
    spec fn contents(&self) -> Map<Seq<u8>, Seq<u8>>;

    /// Applies every write of `batch` in order, as one unit.
    fn apply_batch(&mut self, batch: &Batch) -> (r: Result<bool, &'static str>)
        requires
            batch.wf(),
        ensures
            r is Ok ==> r == Ok::<bool, &'static str>(true),
            r is Ok ==> final(self).contents() == apply_writes(old(self).contents(), batch@),
    ;

    /// Removes every record.
    fn clear(&mut self) -> (r: Result<bool, &'static str>)
        ensures
            r is Ok ==> r == Ok::<bool, &'static str>(true),
            r is Ok ==> final(self).contents() == Map::<Seq<u8>, Seq<u8>>::empty(),
    ;

    /// Removes the record of `key`; tells whether there was one.
    fn del(&mut self, key: &[u8]) -> (r: Result<bool, &'static str>)
        ensures
            r is Ok ==> r->Ok_0 == old(self).contents().contains_key(key@),
            r is Ok ==> final(self).contents() == old(self).contents().remove(key@),
    ;

    /// The value stored under `key`, if any.
    fn get(&self, key: &[u8]) -> (r: Result<Option<Vec<u8>>, &'static str>)
        ensures
            r is Ok ==> bytes_opt(r->Ok_0) == lookup(self.contents(), key@),
    ;

    /// Stores `val` under `key`, replacing any earlier value.
    fn put(&mut self, key: &[u8], val: &[u8]) -> (r: Result<bool, &'static str>)
        ensures
            r is Ok ==> r == Ok::<bool, &'static str>(true),
            r is Ok ==> final(self).contents() == old(self).contents().insert(key@, val@),
    ;

    /// The next page of keys that `opts` selects, in ascending order.
    fn iter_keys(&self, opts: IterOptions) -> (r: Result<KeyList, &'static str>)
        ensures
            r is Ok ==> is_page(
                r->Ok_0@,
                r->Ok_0.list_end,
                matching_keys(self.contents().dom(), opts.start_spec(), opts.prefix_spec()),
            ),
    ;

    /// The number of records.
    fn stat(&self) -> (r: Result<DbStat, &'static str>)
        ensures
            r is Ok ==> self.contents().dom().finite(),
            r is Ok ==> r->Ok_0.n_records == self.contents().len(),
    ;
}

/// Opens databases of one backend.
pub trait Driver {
    fn start_db(&self, cfg: Config) -> Result<Box<dyn Db>, &'static str>;
}

/// Builds a `Config`; an unset path is "./db", an unset flag is false.
pub struct ConfigBuilder {
    pub path: Option<String>,
    pub read_only: Option<bool>,
}

impl ConfigBuilder {
    pub fn new() -> (r: ConfigBuilder)
        ensures
            r.path is None,
            r.read_only is None,
    {
        ConfigBuilder { path: None, read_only: None }
    }

    pub fn path(&mut self, path_in: String) -> (r: &mut ConfigBuilder)
        ensures
            r.path == Some(path_in),
            r.read_only == old(self).read_only,
            *final(self) == *final(r),
    {
        self.path = Some(path_in);
        self
    }

    pub fn read_only(&mut self, val_in: bool) -> (r: &mut ConfigBuilder)
        ensures
            r.read_only == Some(val_in),
            r.path == old(self).path,
            *final(self) == *final(r),
    {
        self.read_only = Some(val_in);
        self
    }

    pub fn build(&self) -> (r: Config)
        ensures
            r.path@ == (match self.path {
                Some(p) => p@,
                None => "./db"@,
            }),
            r.read_only == (match self.read_only {
                Some(v) => v,
                None => false,
            }),
    {
        Config {
            path: match &self.path {
                None => String::from_str("./db"),
                Some(p) => p.clone(),
            },
            read_only: match &self.read_only {
                None => false,
                Some(v) => *v,
            },
        }
    }
}

} // verus!
