//! The pagination walk shared by the backends: from the resume point, visit
//! the keys in ascending order, keep those with the prefix, stop at a full page.
use super::api::{after_start, bytes_opt, is_page, matching_keys, within_prefix, IterOptions, KeyList, MAX_ITER_KEYS};
use super::keys::{
    key_has_prefix, key_lt, keys_ascending, lemma_key_lt_irreflexive, lemma_key_lt_total,
    lemma_key_lt_transitive, lemma_key_lt_asymmetric,
};
use vstd::prelude::*;

verus! {

/// The keys of `keys` after `bound` (all of them when there is no bound).
pub open spec fn keys_after(keys: Set<Seq<u8>>, bound: Option<Seq<u8>>) -> Set<Seq<u8>> {
    keys.filter(|m: Seq<u8>| after_start(bound, m))
}

/// The resume point given as a slice, as a key.
pub open spec fn bound_view(bound: Option<&[u8]>) -> Option<Seq<u8>> {
    match bound {
        Some(b) => Some(b@),
        None => None,
    }
}

/// `r` is the least key of the finite set `keys` after `bound`, or `None`
/// when no key lies after it.
pub open spec fn is_next_key(keys: Set<Seq<u8>>, bound: Option<Seq<u8>>, r: Option<Seq<u8>>) -> bool {
    &&& keys.finite()
    &&& match r {
        Some(k) => {
            &&& keys.contains(k)
            &&& after_start(bound, k)
            &&& forall|m: Seq<u8>| #[trigger]
                keys.contains(m) && after_start(bound, m) ==> !key_lt(m, k)
        },
        None => forall|m: Seq<u8>| #[trigger] keys.contains(m) ==> !after_start(bound, m),
    }
}

/// An ordered view of a key set that can step from a key to the next one.
pub trait KeyCursor {
    spec fn cursor_keys(&self) -> Set<Seq<u8>>;

    /// Stepping never fails (no storage is involved).
    spec fn infallible(&self) -> bool;

    /// The least key after `bound`, or the least key when `bound` is `None`.
    fn next_key(&mut self, bound: Option<&[u8]>) -> (r: Result<Option<Vec<u8>>, &'static str>)
        ensures
            final(self).cursor_keys() == old(self).cursor_keys(),
            final(self).infallible() == old(self).infallible(),
            old(self).infallible() ==> r is Ok,
            r is Ok ==> is_next_key(
                old(self).cursor_keys(),
                bound_view(bound),
                bytes_opt(r->Ok_0),
            ),
    ;
}

/// The keys of a key list as byte strings.
pub open spec fn key_views(keys: Seq<Vec<u8>>) -> Seq<Seq<u8>> {
    keys.map_values(|k: Vec<u8>| k@)
}

/// Collects the page of keys that `opts` selects from `src`.
pub fn collect_page<C: KeyCursor>(src: &mut C, opts: IterOptions) -> (r: Result<KeyList, &'static str>)
    ensures
        old(src).infallible() ==> r is Ok,
        r is Ok ==> is_page(
            r->Ok_0@,
            r->Ok_0.list_end,
            matching_keys(old(src).cursor_keys(), opts.start_spec(), opts.prefix_spec()),
        ),
{
    let ghost keys_set = src.cursor_keys();
    let ghost start = opts.start_spec();
    let ghost pfx = opts.prefix_spec();
    let ghost cands = matching_keys(keys_set, start, pfx);
    let mut keys: Vec<Vec<u8>> = Vec::new();
    let mut next = match &opts.start_key {
        Some(s) => src.next_key(Some(s.as_slice())),
        None => src.next_key(None),
    };
    let ghost mut bound: Option<Seq<u8>> = start;
    loop
        invariant
            keys_set == src.cursor_keys(),
            keys_set == old(src).cursor_keys(),
            cands == matching_keys(keys_set, start, pfx),
            start == opts.start_spec(),
            pfx == opts.prefix_spec(),
            keys@.len() < MAX_ITER_KEYS,
            keys_ascending(key_views(keys@)),
            forall|i: int|
                0 <= i < keys@.len() ==> cands.contains(#[trigger] keys@[i]@) && !after_start(
                    bound,
                    keys@[i]@,
                ),
            forall|m: Seq<u8>|
                #[trigger] cands.contains(m) && !after_start(bound, m) ==> key_views(
                    keys@,
                ).contains(m),
            forall|m: Seq<u8>| #[trigger] after_start(bound, m) ==> after_start(start, m),
            next is Ok ==> is_next_key(keys_set, bound, bytes_opt(next->Ok_0)),
            src.infallible() == old(src).infallible(),
            old(src).infallible() ==> next is Ok,
        ensures
            forall|m: Seq<u8>| #[trigger] cands.contains(m) ==> key_views(keys@).contains(m),
        decreases
            (if next is Ok && keys_set.finite() {
                keys_after(keys_set, bound).len()
            } else {
                0
            }),
    {
        let k = match next {
            Err(e) => {
                return Err(e);
            },
            Ok(None) => {
                assert forall|m: Seq<u8>| #[trigger] cands.contains(m) implies key_views(
                    keys@,
                ).contains(m) by {
                    assert(keys_set.contains(m));
                }
                break ;
            },
            Ok(Some(k)) => k,
        };
        let ghost old_bound = bound;
        let ghost old_keys = keys@;
        let want = match &opts.prefix {
            Some(p) => key_has_prefix(k.as_slice(), p.as_slice()),
            None => true,
        };
        proof {
            assert(within_prefix(pfx, k@) == want);
            // every key kept so far sorts before `k`
            assert forall|i: int| 0 <= i < old_keys.len() implies key_lt(
                #[trigger] old_keys[i]@,
                k@,
            ) by {
                let x = old_keys[i]@;
                let b = old_bound->Some_0;
                lemma_key_lt_total(b, x);
                if key_lt(x, b) {
                    lemma_key_lt_transitive(x, b, k@);
                }
            }
        }
        if want {
            keys.push(vstd::slice::slice_to_vec(k.as_slice()));
        }
        proof {
            bound = Some(k@);
            lemma_key_lt_irreflexive(k@);
            assert(key_views(keys@) =~= if want {
                key_views(old_keys).push(k@)
            } else {
                key_views(old_keys)
            });
            assert forall|i: int| 0 <= i < keys@.len() implies cands.contains(
                #[trigger] keys@[i]@,
            ) && !after_start(bound, keys@[i]@) by {
                if i < old_keys.len() {
                    assert(keys@[i] == old_keys[i]);
                    lemma_key_lt_asymmetric(old_keys[i]@, k@);
                }
            }
            assert forall|m: Seq<u8>| #[trigger]
                cands.contains(m) && !after_start(bound, m) implies key_views(keys@).contains(
                m,
            ) by {
                if after_start(old_bound, m) {
                    lemma_key_lt_total(m, k@);
                    assert(keys@[keys@.len() - 1]@ == k@);
                    assert(key_views(keys@)[keys@.len() - 1] == m);
                } else {
                    let j = choose|j: int| 0 <= j < old_keys.len() && key_views(old_keys)[j] == m;
                    assert(key_views(keys@)[j] == m);
                }
            }
            assert forall|m: Seq<u8>| #[trigger] after_start(bound, m) implies after_start(
                start,
                m,
            ) by {
                if start is Some {
                    lemma_key_lt_transitive(start->Some_0, k@, m);
                }
            }
            assert(keys_ascending(key_views(keys@))) by {
                if want {
                    assert forall|i: int, j: int|
                        0 <= i < j < keys@.len() implies key_lt(
                        #[trigger] key_views(keys@)[i],
                        #[trigger] key_views(keys@)[j],
                    ) by {
                        if j == old_keys.len() {
                            assert(key_views(keys@)[i] == old_keys[i]@);
                        } else {
                            assert(key_views(keys@)[i] == key_views(old_keys)[i]);
                            assert(key_views(keys@)[j] == key_views(old_keys)[j]);
                        }
                    }
                }
            }
            if keys@.len() >= MAX_ITER_KEYS {
                assert(want);
                assert(key_views(keys@).last() == k@);
            }
            assert(keys_after(keys_set, bound).len() < keys_after(keys_set, old_bound).len()) by {
                keys_set.lemma_len_filter(|m: Seq<u8>| after_start(old_bound, m));
                assert(keys_after(keys_set, bound) =~= keys_after(keys_set, bound).remove(k@));
                assert(keys_after(keys_set, bound).subset_of(
                    keys_after(keys_set, old_bound).remove(k@),
                )) by {
                    assert forall|m: Seq<u8>| #[trigger]
                        keys_after(keys_set, bound).contains(m) implies keys_after(
                        keys_set,
                        old_bound,
                    ).remove(k@).contains(m) by {
                        if old_bound is Some {
                            lemma_key_lt_transitive(old_bound->Some_0, k@, m);
                        }
                    }
                }
                vstd::set_lib::lemma_len_subset(
                    keys_after(keys_set, bound),
                    keys_after(keys_set, old_bound).remove(k@),
                );
            }
        }
        if keys.len() >= MAX_ITER_KEYS {
            let r = KeyList { keys: keys, list_end: false };
            assert(r@ == key_views(r.keys@));
            return Ok(r);
        }
        next = src.next_key(Some(k.as_slice()));
    }
    let r = KeyList { keys: keys, list_end: true };
    assert(r@ == key_views(r.keys@));
    Ok(r)
}

/// Counts the keys of `src` by stepping through them in ascending order.
pub fn count_keys<C: KeyCursor>(src: &mut C) -> (r: Result<u64, &'static str>)
    ensures
        r is Ok ==> old(src).cursor_keys().finite(),
        r is Ok ==> r->Ok_0 == old(src).cursor_keys().len(),
{
    let ghost keys = src.cursor_keys();
    let mut n: u64 = 0;
    let mut next = src.next_key(None);
    let ghost mut bound: Option<Seq<u8>> = None;
    proof {
        if next is Ok {
            assert(keys_after(keys, bound) =~= keys);
        }
    }
    loop
        invariant
            keys == src.cursor_keys(),
            keys == old(src).cursor_keys(),
            next is Ok ==> is_next_key(keys, bound, bytes_opt(next->Ok_0)),
            next is Ok ==> n + keys_after(keys, bound).len() == keys.len(),
        ensures
            keys.finite(),
            n == keys.len(),
        decreases
            (if next is Ok && keys.finite() {
                keys_after(keys, bound).len()
            } else {
                0
            }),
    {
        let k = match next {
            Err(e) => {
                return Err(e);
            },
            Ok(None) => {
                proof {
                    assert(keys_after(keys, bound) =~= Set::<Seq<u8>>::empty());
                }
                break ;
            },
            Ok(Some(k)) => k,
        };
        if n == u64::MAX {
            return Err("too many records");
        }
        n = n + 1;
        proof {
            let old_bound = bound;
            bound = Some(k@);
            assert(keys_after(keys, bound) =~= keys_after(keys, old_bound).remove(k@)) by {
                assert forall|m: Seq<u8>| #[trigger]
                    keys_after(keys, old_bound).remove(k@).contains(m) implies keys_after(
                    keys,
                    bound,
                ).contains(m) by {
                    lemma_key_lt_total(m, k@);
                }
                assert forall|m: Seq<u8>| #[trigger] keys_after(keys, bound).contains(m) implies keys_after(
                    keys,
                    old_bound,
                ).remove(k@).contains(m) by {
                    lemma_key_lt_irreflexive(k@);
                    if old_bound is Some {
                        lemma_key_lt_transitive(old_bound->Some_0, k@, m);
                    }
                }
            }
            keys.lemma_len_filter(|m: Seq<u8>| after_start(old_bound, m));
        }
        next = src.next_key(Some(k.as_slice()));
    }
    Ok(n)
}

} // verus!
