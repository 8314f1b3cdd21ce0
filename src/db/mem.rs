//! An in-memory backend: records kept in a vector sorted by key.
use super::api::{
    after_start, apply_writes, Batch, Config, Db, DbStat, Driver, IterOptions,
    KeyList, MutationOp,
};
use super::keys::{
    key_less, key_lt, keys_ascending, lemma_key_lt_asymmetric, lemma_key_lt_irreflexive,
    lemma_key_lt_total, lemma_key_lt_transitive,
};
use super::page::{bound_view, collect_page, KeyCursor};
use vstd::prelude::*;

verus! {

/// Records as (key, value) pairs.
pub open spec fn entry_pairs(e: Seq<(Vec<u8>, Vec<u8>)>) -> Seq<(Seq<u8>, Seq<u8>)> {
    e.map_values(|p: (Vec<u8>, Vec<u8>)| (p.0@, p.1@))
}

pub open spec fn pair_keys(p: Seq<(Seq<u8>, Seq<u8>)>) -> Seq<Seq<u8>> {
    p.map_values(|q: (Seq<u8>, Seq<u8>)| q.0)
}

/// The map that a list of records describes (a later record of a key wins).
pub open spec fn pairs_map(p: Seq<(Seq<u8>, Seq<u8>)>) -> Map<Seq<u8>, Seq<u8>>
    decreases p.len(),
{
    if p.len() == 0 {
        Map::empty()
    } else {
        pairs_map(p.drop_last()).insert(p.last().0, p.last().1)
    }
}

pub open spec fn sorted_pairs(p: Seq<(Seq<u8>, Seq<u8>)>) -> bool {
    keys_ascending(pair_keys(p))
}

proof fn lemma_pairs_map(p: Seq<(Seq<u8>, Seq<u8>)>)
    requires
        sorted_pairs(p),
    ensures
        pairs_map(p).dom().finite(),
        pairs_map(p).len() == p.len(),
        forall|i: int|
            0 <= i < p.len() ==> #[trigger] pairs_map(p).contains_key(pair_keys(p)[i])
                && pairs_map(p)[pair_keys(p)[i]] == p[i].1,
        forall|k: Seq<u8>| #[trigger]
            pairs_map(p).contains_key(k) ==> exists|i: int|
                0 <= i < p.len() && #[trigger] pair_keys(p)[i] == k,
    decreases p.len(),
{
    if p.len() > 0 {
        let q = p.drop_last();
        assert(pair_keys(q) =~= pair_keys(p).drop_last());
        lemma_pairs_map(q);
        let n = p.len() - 1;
        let last = pair_keys(p)[n];
        assert(last == p.last().0);
        assert forall|i: int| 0 <= i < q.len() implies pair_keys(q)[i] != last by {
            assert(key_lt(pair_keys(p)[i], pair_keys(p)[n]));
            lemma_key_lt_irreflexive(last);
        }
        assert(!pairs_map(q).contains_key(last));
        assert forall|i: int| 0 <= i < p.len() implies #[trigger] pairs_map(p).contains_key(
            pair_keys(p)[i],
        ) && pairs_map(p)[pair_keys(p)[i]] == p[i].1 by {
            if i < n {
                assert(pair_keys(q)[i] == pair_keys(p)[i]);
            }
        }
        assert forall|k: Seq<u8>| #[trigger] pairs_map(p).contains_key(k) implies exists|i: int|
            0 <= i < p.len() && #[trigger] pair_keys(p)[i] == k by {
            if k != last {
                let i = choose|i: int| 0 <= i < q.len() && #[trigger] pair_keys(q)[i] == k;
                assert(pair_keys(p)[i] == k);
            } else {
                assert(pair_keys(p)[n] == k);
            }
        }
    }
}

/// A sorted record list is described by `m` when both hold the same keys
/// with the same values.
proof fn lemma_pairs_map_ext(p: Seq<(Seq<u8>, Seq<u8>)>, m: Map<Seq<u8>, Seq<u8>>)
    requires
        sorted_pairs(p),
        forall|i: int|
            0 <= i < p.len() ==> #[trigger] m.contains_key(pair_keys(p)[i]) && m[pair_keys(p)[i]]
                == p[i].1,
        forall|k: Seq<u8>| #[trigger]
            m.contains_key(k) ==> exists|i: int| 0 <= i < p.len() && #[trigger] pair_keys(p)[i] == k,
    ensures
        pairs_map(p) == m,
{
    lemma_pairs_map(p);
    assert forall|k: Seq<u8>| #[trigger] pairs_map(p).contains_key(k) implies m.contains_key(k)
        && pairs_map(p)[k] == m[k] by {
        let i = choose|i: int| 0 <= i < p.len() && #[trigger] pair_keys(p)[i] == k;
    }
    assert forall|k: Seq<u8>| #[trigger] m.contains_key(k) implies pairs_map(p).contains_key(k) by {
        let i = choose|i: int| 0 <= i < p.len() && #[trigger] pair_keys(p)[i] == k;
    }
    assert(pairs_map(p) =~= m);
}

/// The first index whose key does not sort before `key`.
fn find_slot(e: &Vec<(Vec<u8>, Vec<u8>)>, key: &[u8]) -> (r: usize)
    requires
        sorted_pairs(entry_pairs(e@)),
    ensures
        r <= e@.len(),
        forall|i: int| 0 <= i < r ==> key_lt(#[trigger] pair_keys(entry_pairs(e@))[i], key@),
        forall|i: int|
            r <= i < e@.len() ==> !key_lt(#[trigger] pair_keys(entry_pairs(e@))[i], key@),
{
    let ghost ks = pair_keys(entry_pairs(e@));
    // binary search: keys before `lo` sort before `key`, keys from `hi` on do not
    let mut lo: usize = 0;
    let mut hi: usize = e.len();
    while lo < hi
        invariant
            ks == pair_keys(entry_pairs(e@)),
            sorted_pairs(entry_pairs(e@)),
            lo <= hi <= e@.len(),
            forall|j: int| 0 <= j < lo ==> key_lt(#[trigger] ks[j], key@),
            forall|j: int| hi <= j < e@.len() ==> !key_lt(#[trigger] ks[j], key@),
        decreases hi - lo,
    {
        let mid = lo + (hi - lo) / 2;
        assert(ks[mid as int] == e@[mid as int].0@);
        if key_less(e[mid].0.as_slice(), key) {
            assert forall|j: int| 0 <= j <= mid implies key_lt(#[trigger] ks[j], key@) by {
                if j < mid {
                    lemma_key_lt_transitive(ks[j], ks[mid as int], key@);
                }
            }
            lo = mid + 1;
        } else {
            assert forall|j: int| mid <= j < e@.len() implies !key_lt(#[trigger] ks[j], key@) by {
                if j > mid && key_lt(ks[j], key@) {
                    lemma_key_lt_transitive(ks[mid as int], ks[j], key@);
                }
            }
            hi = mid;
        }
    }
    lo
}

/// Records held in ascending key order; each key appears once.
pub struct MemDb {
    entries: Vec<(Vec<u8>, Vec<u8>)>,
}

impl MemDb {
    #[verifier::type_invariant]
    spec fn sorted(&self) -> bool {
        sorted_pairs(entry_pairs(self.entries@))
    }

    /// An empty database.
    pub fn new() -> (r: MemDb)
        ensures
            r.contents() == Map::<Seq<u8>, Seq<u8>>::empty(),
    {
        let r = MemDb { entries: Vec::new() };
        assert(pairs_map(entry_pairs(r.entries@)) =~= Map::<Seq<u8>, Seq<u8>>::empty());
        r
    }

    /// Index and presence of `key`.
    fn locate(&self, key: &[u8]) -> (r: (usize, bool))
        ensures
            r.0 <= self.entries@.len(),
            forall|i: int|
                0 <= i < r.0 ==> key_lt(
                    #[trigger] pair_keys(entry_pairs(self.entries@))[i],
                    key@,
                ),
            forall|i: int|
                r.0 <= i < self.entries@.len() ==> !key_lt(
                    #[trigger] pair_keys(entry_pairs(self.entries@))[i],
                    key@,
                ),
            r.1 == (r.0 < self.entries@.len() && self.entries@[r.0 as int].0@ == key@),
            r.1 == self.contents().contains_key(key@),
            r.1 ==> self.contents()[key@] == self.entries@[r.0 as int].1@,
    {
        proof {
            use_type_invariant(self);
        }
        let ghost p = entry_pairs(self.entries@);
        let ghost ks = pair_keys(p);
        let i = find_slot(&self.entries, key);
        let found = i < self.entries.len() && !key_less(key, self.entries[i].0.as_slice());
        proof {
            lemma_pairs_map(p);
            if i < self.entries@.len() {
                assert(ks[i as int] == self.entries@[i as int].0@);
                lemma_key_lt_total(ks[i as int], key@);
            }
            if self.contents().contains_key(key@) && !found {
                let j = choose|j: int| 0 <= j < p.len() && #[trigger] ks[j] == key@;
                lemma_key_lt_irreflexive(key@);
                if j > i {
                    assert(key_lt(ks[i as int], ks[j]));
                }
            }
        }
        (i, found)
    }

    /// Stores `val` under `key`.
    fn store(&mut self, key: &[u8], val: &[u8])
        ensures
            final(self).contents() == old(self).contents().insert(key@, val@),
    {
        proof {
            use_type_invariant(&*self);
        }
        let (i, found) = self.locate(key);
        let mut e: Vec<(Vec<u8>, Vec<u8>)> = Vec::new();
        std::mem::swap(&mut e, &mut self.entries);
        let ghost prev = entry_pairs(e@);
        let ghost ks0 = pair_keys(prev);
        let ghost m = old(self).contents().insert(key@, val@);
        let rec = (vstd::slice::slice_to_vec(key), vstd::slice::slice_to_vec(val));
        if found {
            e.remove(i);
        }
        e.insert(i, rec);
        proof {
            let p = entry_pairs(e@);
            let ks = pair_keys(p);
            lemma_pairs_map(prev);
            assert(ks[i as int] == key@);
            assert(p[i as int].1 == val@);
            // positions of the other records, before and after the change
            assert forall|j: int| 0 <= j < p.len() && j != i implies #[trigger] ks[j] == ks0[if j
                < i {
                j
            } else if found {
                j
            } else {
                j - 1
            }] && p[j] == prev[if j < i {
                j
            } else if found {
                j
            } else {
                j - 1
            }] by {}
            assert(keys_ascending(ks)) by {
                assert forall|a: int, b: int| 0 <= a < b < ks.len() implies key_lt(
                    #[trigger] ks[a],
                    #[trigger] ks[b],
                ) by {
                    let a0 = if a < i {
                        a
                    } else if found {
                        a
                    } else {
                        a - 1
                    };
                    let b0 = if b < i {
                        b
                    } else if found {
                        b
                    } else {
                        b - 1
                    };
                    if a == i {
                        if found {
                            assert(key_lt(ks0[a0], ks0[b0]));
                        } else {
                            assert(!key_lt(ks0[b0], key@));
                            lemma_key_lt_total(ks0[b0], key@);
                        }
                    } else if b == i {
                        assert(key_lt(ks0[a0], key@));
                    } else {
                        assert(key_lt(ks0[a0], ks0[b0]));
                    }
                }
            }
            assert forall|j: int| 0 <= j < p.len() implies #[trigger] m.contains_key(ks[j])
                && m[ks[j]] == p[j].1 by {
                if j != i {
                    let j0 = if j < i {
                        j
                    } else if found {
                        j
                    } else {
                        j - 1
                    };
                    assert(ks0[j0] == ks[j]);
                    assert(p[j] == prev[j0]);
                    assert(prev == entry_pairs(old(self).entries@));
                    assert(pairs_map(prev).contains_key(ks0[j0]));
                    lemma_key_lt_irreflexive(key@);
                    if found {
                        assert(ks0[i as int] == key@);
                        if j0 < i {
                            assert(key_lt(ks0[j0], ks0[i as int]));
                        } else {
                            assert(key_lt(ks0[i as int], ks0[j0]));
                        }
                    }
                    assert(ks[j] != key@);
                }
            }
            assert forall|k: Seq<u8>| #[trigger] m.contains_key(k) implies exists|j: int|
                0 <= j < p.len() && #[trigger] ks[j] == k by {
                if k == key@ {
                    assert(ks[i as int] == k);
                } else {
                    let j0 = choose|j0: int| 0 <= j0 < prev.len() && #[trigger] ks0[j0] == k;
                    let j = if j0 < i {
                        j0
                    } else if found {
                        j0
                    } else {
                        j0 + 1
                    };
                    if found && j0 == i {
                        assert(false);
                    }
                    assert(ks[j] == k);
                }
            }
            lemma_pairs_map_ext(p, m);
        }
        self.entries = e;
    }
    /// Removes the record of `key`; tells whether there was one.
    fn erase(&mut self, key: &[u8]) -> (r: bool)
        ensures
            r == old(self).contents().contains_key(key@),
            final(self).contents() == old(self).contents().remove(key@),
    {
        proof {
            use_type_invariant(&*self);
        }
        let (i, found) = self.locate(key);
        if !found {
            assert(old(self).contents().remove(key@) =~= old(self).contents());
            return false;
        }
        let mut e: Vec<(Vec<u8>, Vec<u8>)> = Vec::new();
        std::mem::swap(&mut e, &mut self.entries);
        let ghost prev = entry_pairs(e@);
        let ghost ks0 = pair_keys(prev);
        let ghost m = old(self).contents().remove(key@);
        e.remove(i);
        proof {
            let p = entry_pairs(e@);
            let ks = pair_keys(p);
            lemma_pairs_map(prev);
            assert forall|j: int| 0 <= j < p.len() implies #[trigger] ks[j] == ks0[if j < i {
                j
            } else {
                j + 1
            }] && p[j] == prev[if j < i {
                j
            } else {
                j + 1
            }] by {}
            assert(keys_ascending(ks)) by {
                assert forall|a: int, b: int| 0 <= a < b < ks.len() implies key_lt(
                    #[trigger] ks[a],
                    #[trigger] ks[b],
                ) by {
                    let a0 = if a < i {
                        a
                    } else {
                        a + 1
                    };
                    let b0 = if b < i {
                        b
                    } else {
                        b + 1
                    };
                    assert(key_lt(ks0[a0], ks0[b0]));
                }
            }
            assert forall|j: int| 0 <= j < p.len() implies #[trigger] m.contains_key(ks[j])
                && m[ks[j]] == p[j].1 by {
                let j0 = if j < i {
                    j
                } else {
                    j + 1
                };
                assert(ks0[j0] == ks[j]);
                assert(p[j] == prev[j0]);
                assert(sorted_pairs(prev));
                assert(ks0[i as int] == key@);
                assert(prev == entry_pairs(old(self).entries@));
                assert(pairs_map(prev).contains_key(ks0[j0]));
                assert(old(self).contents()[ks0[j0]] == prev[j0].1);
                if j0 < i {
                    assert(key_lt(ks0[j0], ks0[i as int]));
                } else {
                    assert(key_lt(ks0[i as int], ks0[j0]));
                }
                lemma_key_lt_irreflexive(key@);
            }
            assert forall|k: Seq<u8>| #[trigger] m.contains_key(k) implies exists|j: int|
                0 <= j < p.len() && #[trigger] ks[j] == k by {
                let j0 = choose|j0: int| 0 <= j0 < prev.len() && #[trigger] ks0[j0] == k;
                assert(j0 != i);
                let j = if j0 < i {
                    j0
                } else {
                    j0 - 1
                };
                assert(ks[j] == k);
            }
            lemma_pairs_map_ext(p, m);
        }
        self.entries = e;
        true
    }

    /// The first index whose key lies after `bound`.
    fn first_after(&self, bound: Option<&[u8]>) -> (r: usize)
        ensures
            r <= self.entries@.len(),
            forall|i: int|
                0 <= i < r ==> !after_start(
                    bound_view(bound),
                    #[trigger] pair_keys(entry_pairs(self.entries@))[i],
                ),
            forall|i: int|
                r <= i < self.entries@.len() ==> after_start(
                    bound_view(bound),
                    #[trigger] pair_keys(entry_pairs(self.entries@))[i],
                ),
    {
        proof {
            use_type_invariant(self);
        }
        let ghost ks = pair_keys(entry_pairs(self.entries@));
        match bound {
            None => 0,
            Some(b) => {
                let (i, found) = self.locate(b);
                proof {
                    assert forall|j: int| 0 <= j < i implies !key_lt(b@, #[trigger] ks[j]) by {
                        lemma_key_lt_asymmetric(ks[j], b@);
                    }
                    lemma_key_lt_irreflexive(b@);
                    assert forall|j: int| i < j < self.entries@.len() implies key_lt(
                        b@,
                        #[trigger] ks[j],
                    ) by {
                        assert(!key_lt(ks[j], b@));
                        lemma_key_lt_total(ks[j], b@);
                        if ks[j] == b@ {
                            assert(key_lt(ks[i as int], ks[j]));
                            if !found {
                                lemma_key_lt_total(ks[i as int], b@);
                                lemma_key_lt_transitive(b@, ks[i as int], ks[j]);
                            }
                        }
                    }
                    if i < self.entries@.len() && !found {
                        assert(ks[i as int] == self.entries@[i as int].0@);
                        lemma_key_lt_total(ks[i as int], b@);
                    }
                }
                let n = self.entries.len();
                if found {
                    assert(i < n);
                    i + 1
                } else {
                    i
                }
            },
        }
    }
}

/// The keys of a `MemDb`, visited in ascending order.
pub struct MemKeys<'a> {
    db: &'a MemDb,
}

impl<'a> KeyCursor for MemKeys<'a> {
    closed spec fn cursor_keys(&self) -> Set<Seq<u8>> {
        self.db.contents().dom()
    }

    open spec fn infallible(&self) -> bool {
        true
    }

    fn next_key(&mut self, bound: Option<&[u8]>) -> (r: Result<Option<Vec<u8>>, &'static str>) {
        proof {
            use_type_invariant(self.db);
        }
        let ghost p = entry_pairs(self.db.entries@);
        let ghost ks = pair_keys(p);
        let i = self.db.first_after(bound);
        proof {
            lemma_pairs_map(p);
        }
        if i < self.db.entries.len() {
            let k = vstd::slice::slice_to_vec(self.db.entries[i].0.as_slice());
            proof {
                assert(ks[i as int] == k@);
                assert forall|m: Seq<u8>| #[trigger]
                    self.cursor_keys().contains(m) && after_start(bound_view(bound), m) implies !key_lt(
                    m,
                    k@,
                ) by {
                    let j = choose|j: int| 0 <= j < p.len() && #[trigger] ks[j] == m;
                    if j > i {
                        lemma_key_lt_asymmetric(k@, m);
                    } else if j == i {
                        lemma_key_lt_irreflexive(m);
                    }
                }
            }
            Ok(Some(k))
        } else {
            proof {
                assert forall|m: Seq<u8>| #[trigger] self.cursor_keys().contains(m) implies !after_start(
                    bound_view(bound),
                    m,
                ) by {
                    let j = choose|j: int| 0 <= j < p.len() && #[trigger] ks[j] == m;
                }
            }
            Ok(None)
        }
    }
}

impl Db for MemDb {
    closed spec fn contents(&self) -> Map<Seq<u8>, Seq<u8>> {
        pairs_map(entry_pairs(self.entries@))
    }

    fn apply_batch(&mut self, batch: &Batch) -> (r: Result<bool, &'static str>)
        ensures
            r is Ok,
    {
        let mut i: usize = 0;
        while i < batch.ops.len()
            invariant
                batch.wf(),
                i <= batch.ops@.len(),
                self.contents() == apply_writes(old(self).contents(), batch@.take(i as int)),
            decreases batch.ops@.len() - i,
        {
            let m = &batch.ops[i];
            proof {
                assert(batch@.take(i + 1).drop_last() =~= batch@.take(i as int));
                assert(batch@.take(i + 1).last() == m.write());
                assert(batch.ops@[i as int].wf());
            }
            match m.op {
                MutationOp::Insert => {
                    match &m.value {
                        Some(v) => self.store(m.key.as_slice(), v.as_slice()),
                        None => {},
                    }
                },
                MutationOp::Remove => {
                    self.erase(m.key.as_slice());
                },
            }
            i = i + 1;
        }
        assert(batch@.take(batch.ops@.len() as int) =~= batch@);
        Ok(true)
    }

    fn clear(&mut self) -> (r: Result<bool, &'static str>)
        ensures
            r is Ok,
    {
        self.entries = Vec::new();
        assert(pairs_map(entry_pairs(self.entries@)) =~= Map::<Seq<u8>, Seq<u8>>::empty());
        Ok(true)
    }

    fn del(&mut self, key: &[u8]) -> (r: Result<bool, &'static str>)
        ensures
            r is Ok,
    {
        Ok(self.erase(key))
    }

    fn get(&self, key: &[u8]) -> (r: Result<Option<Vec<u8>>, &'static str>)
        ensures
            r is Ok,
    {
        let (i, found) = self.locate(key);
        if found {
            Ok(Some(vstd::slice::slice_to_vec(self.entries[i].1.as_slice())))
        } else {
            Ok(None)
        }
    }

    fn put(&mut self, key: &[u8], val: &[u8]) -> (r: Result<bool, &'static str>)
        ensures
            r is Ok,
    {
        self.store(key, val);
        Ok(true)
    }

    fn iter_keys(&self, opts: IterOptions) -> (r: Result<KeyList, &'static str>)
        ensures
            r is Ok,
    {
        let mut walk = MemKeys { db: self };
        collect_page(&mut walk, opts)
    }

    fn stat(&self) -> (r: Result<DbStat, &'static str>)
        ensures
            r is Ok,
    {
        proof {
            use_type_invariant(self);
            lemma_pairs_map(entry_pairs(self.entries@));
        }
        Ok(DbStat { n_records: self.entries.len() as u64 })
    }
}

/// Opens in-memory databases; the configuration is not used.
pub struct MemDriver {}

impl Driver for MemDriver {
    fn start_db(&self, _cfg: Config) -> (r: Result<Box<dyn Db>, &'static str>)
        ensures
            r is Ok,
    {
        Ok(Box::new(MemDb::new()))
    }
}

/// A driver for in-memory databases.
pub fn new_driver() -> Box<dyn Driver> {
    Box::new(MemDriver {})
}

} // verus!
