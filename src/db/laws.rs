//! Properties of the storage interface, stated over the models that the
//! contracts of `Db` use and proved from them.
use super::api::{apply_writes, is_page, lookup, matching_keys};
use super::keys::{
    key_lt, keys_ascending, lemma_key_lt_irreflexive, lemma_key_lt_transitive,
};
use vstd::prelude::*;

verus! {

/// A value stored by `put` is what `get` then returns.
pub proof fn law_put_then_get(c: Map<Seq<u8>, Seq<u8>>, key: Seq<u8>, value: Seq<u8>)
    ensures
        lookup(c.insert(key, value), key) == Some(value),
{
}

/// `del` of an absent key reports `false` and changes nothing; after a
/// delete the key is absent, so deleting it again reports `false` too.
pub proof fn law_delete_reports_absence(c: Map<Seq<u8>, Seq<u8>>, key: Seq<u8>)
    ensures
        !c.contains_key(key) ==> c.remove(key) == c,
        !c.remove(key).contains_key(key),
        c.remove(key).remove(key) == c.remove(key),
{
    assert(!c.contains_key(key) ==> c.remove(key) =~= c);
    assert(c.remove(key).remove(key) =~= c.remove(key));
}

/// A batch that removes one key and inserts two others leaves the first
/// absent and the other two holding their new values.
pub proof fn law_batch_remove_insert_insert(
    c: Map<Seq<u8>, Seq<u8>>,
    k1: Seq<u8>,
    k2: Seq<u8>,
    v2: Seq<u8>,
    k3: Seq<u8>,
    v3: Seq<u8>,
)
    requires
        k1 != k2,
        k1 != k3,
        k2 != k3,
    ensures
        ({
            let after = apply_writes(c, seq![(k1, None), (k2, Some(v2)), (k3, Some(v3))]);
            &&& lookup(after, k1) == None::<Seq<u8>>
            &&& lookup(after, k2) == Some(v2)
            &&& lookup(after, k3) == Some(v3)
        }),
{
    let ws: Seq<(Seq<u8>, Option<Seq<u8>>)> = seq![(k1, None), (k2, Some(v2)), (k3, Some(v3))];
    assert(ws.drop_last() =~= seq![(k1, None), (k2, Some(v2))]);
    assert(ws.drop_last().drop_last() =~= seq![(k1, None::<Seq<u8>>)]);
    assert(ws.drop_last().drop_last().drop_last() =~= Seq::<(Seq<u8>, Option<Seq<u8>>)>::empty());
    let a1 = apply_writes(c, ws.drop_last().drop_last());
    let a2 = apply_writes(c, ws.drop_last());
    let a3 = apply_writes(c, ws);
    let w1 = ws.drop_last().drop_last();
    assert(w1.len() == 1);
    assert(w1.last() == (k1, None::<Seq<u8>>));
    assert(apply_writes(c, w1.drop_last()) == c);
    assert(a1 == c.remove(k1));
    assert(a2 == a1.insert(k2, v2));
    assert(a3 == a2.insert(k3, v3));
}

/// Listing an empty database gives no keys and ends the listing.
pub proof fn law_empty_listing(
    start: Option<Seq<u8>>,
    prefix: Option<Seq<u8>>,
    keys: Seq<Seq<u8>>,
    list_end: bool,
)
    requires
        is_page(keys, list_end, matching_keys(Map::<Seq<u8>, Seq<u8>>::empty().dom(), start, prefix)),
    ensures
        keys.len() == 0,
        list_end,
{
    if keys.len() > 0 {
        assert(matching_keys(Map::<Seq<u8>, Seq<u8>>::empty().dom(), start, prefix).contains(
            keys[0],
        ));
    }
}

/// Three distinct keys inserted into an empty database and one of them
/// deleted leave two records.
pub proof fn law_count_after_inserts_and_delete(
    k1: Seq<u8>,
    v1: Seq<u8>,
    k2: Seq<u8>,
    v2: Seq<u8>,
    k3: Seq<u8>,
    v3: Seq<u8>,
    gone: Seq<u8>,
)
    requires
        k1 != k2,
        k1 != k3,
        k2 != k3,
        gone == k1 || gone == k2 || gone == k3,
    ensures
        Map::<Seq<u8>, Seq<u8>>::empty().insert(k1, v1).insert(k2, v2).insert(k3, v3).remove(
            gone,
        ).dom().finite(),
        Map::<Seq<u8>, Seq<u8>>::empty().insert(k1, v1).insert(k2, v2).insert(k3, v3).remove(
            gone,
        ).len() == 2,
{
    let m = Map::<Seq<u8>, Seq<u8>>::empty().insert(k1, v1).insert(k2, v2).insert(k3, v3);
    assert(m.dom() =~= set![k1, k2, k3]);
    assert(set![k1, k2, k3].len() == 3) by {
        assert(set![k1].len() == 1);
        assert(set![k1, k2].len() == 2);
    }
}

/// After `clear`, no key has a value and there are no records.
pub proof fn law_clear_empties(key: Seq<u8>)
    ensures
        lookup(Map::<Seq<u8>, Seq<u8>>::empty(), key) == None::<Seq<u8>>,
        Map::<Seq<u8>, Seq<u8>>::empty().len() == 0,
{
    assert(Map::<Seq<u8>, Seq<u8>>::empty().dom() =~= Set::<Seq<u8>>::empty());
}

/// Where page `i` of a listing resumes: at `first` for the first page, and
/// after the last key of the page before for the others.
pub open spec fn resume_point(pages: Seq<Seq<Seq<u8>>>, first: Option<Seq<u8>>, i: int) -> Option<
    Seq<u8>,
> {
    if i == 0 {
        first
    } else {
        Some(pages[i - 1].last())
    }
}

/// `pages` are the pages of a listing of `keys`: each resumes after the last
/// key of the one before, and only the last one ends the listing.
pub open spec fn is_listing(
    keys: Set<Seq<u8>>,
    first: Option<Seq<u8>>,
    prefix: Option<Seq<u8>>,
    pages: Seq<Seq<Seq<u8>>>,
) -> bool {
    &&& pages.len() > 0
    &&& forall|i: int|
        0 <= i < pages.len() ==> is_page(
            #[trigger] pages[i],
            i == pages.len() - 1,
            matching_keys(keys, resume_point(pages, first, i), prefix),
        )
}

proof fn lemma_listing(
    keys: Set<Seq<u8>>,
    first: Option<Seq<u8>>,
    prefix: Option<Seq<u8>>,
    pages: Seq<Seq<Seq<u8>>>,
)
    requires
        is_listing(keys, first, prefix, pages),
    ensures
        keys_ascending(pages.flatten()),
        pages.flatten().to_set() == matching_keys(keys, first, prefix),
    decreases pages.len(),
{
    let head = pages[0];
    let m = matching_keys(keys, first, prefix);
    assert(is_page(head, pages.len() == 1, m));
    let rest = pages.drop_first();
    assert(pages.flatten() == head + rest.flatten());
    if pages.len() == 1 {
        assert(rest.flatten() =~= Seq::<Seq<u8>>::empty());
        assert(pages.flatten() =~= head);
        assert(head.to_set() =~= m);
    } else {
        let last0 = head.last();
        assert forall|i: int| 0 <= i < rest.len() implies is_page(
            #[trigger] rest[i],
            i == rest.len() - 1,
            matching_keys(keys, resume_point(rest, Some(last0), i), prefix),
        ) by {
            assert(rest[i] == pages[i + 1]);
            assert(is_page(
                pages[i + 1],
                i + 1 == pages.len() - 1,
                matching_keys(keys, resume_point(pages, first, i + 1), prefix),
            ));
            if i > 0 {
                assert(rest[i - 1] == pages[i]);
            }
        }
        lemma_listing(keys, Some(last0), prefix, rest);
        let tail = rest.flatten();
        let m2 = matching_keys(keys, Some(last0), prefix);
        assert(m.contains(head[head.len() - 1]));
        // every later key sorts after the last key of the first page
        assert forall|j: int| 0 <= j < tail.len() implies key_lt(last0, #[trigger] tail[j]) by {
            assert(tail.to_set().contains(tail[j]));
        }
        let all = head + tail;
        assert(keys_ascending(all)) by {
            assert forall|a: int, b: int| 0 <= a < b < all.len() implies key_lt(
                #[trigger] all[a],
                #[trigger] all[b],
            ) by {
                if b < head.len() {
                    assert(all[a] == head[a] && all[b] == head[b]);
                } else if a >= head.len() {
                    assert(all[a] == tail[a - head.len()] && all[b] == tail[b - head.len()]);
                } else {
                    assert(all[a] == head[a] && all[b] == tail[b - head.len()]);
                    if a < head.len() - 1 {
                        lemma_key_lt_transitive(head[a], last0, tail[b - head.len()]);
                    }
                }
            }
        }
        assert(all.to_set() =~= m) by {
            assert forall|k: Seq<u8>| #[trigger] m.contains(k) implies all.to_set().contains(k) by {
                if head.contains(k) {
                    let i = choose|i: int| 0 <= i < head.len() && head[i] == k;
                    assert(all[i] == k);
                } else {
                    assert(m2.contains(k));
                    assert(tail.to_set().contains(k));
                    let j = choose|j: int| 0 <= j < tail.len() && tail[j] == k;
                    assert(all[head.len() + j] == k);
                }
            }
            assert forall|k: Seq<u8>| #[trigger] all.to_set().contains(k) implies m.contains(k) by {
                let i = choose|i: int| 0 <= i < all.len() && all[i] == k;
                if i < head.len() {
                    assert(head[i] == k);
                } else {
                    assert(tail[i - head.len()] == k);
                    assert(tail.to_set().contains(k));
                    assert(m2.contains(k));
                    if first is Some {
                        lemma_key_lt_transitive(first->Some_0, last0, k);
                    }
                }
            }
        }
    }
}

/// Paging through a database: starting from no resume point and resuming
/// each time after the last key of the previous page until a page ends the
/// listing, the pages together hold every key with the prefix exactly once,
/// in ascending order; with no prefix, every key of the database.
pub proof fn law_pagination_complete(
    c: Map<Seq<u8>, Seq<u8>>,
    prefix: Option<Seq<u8>>,
    pages: Seq<Seq<Seq<u8>>>,
)
    requires
        is_listing(c.dom(), None, prefix, pages),
    ensures
        keys_ascending(pages.flatten()),
        pages.flatten().no_duplicates(),
        pages.flatten().to_set() == matching_keys(c.dom(), None, prefix),
        prefix is None ==> pages.flatten().to_set() == c.dom(),
{
    lemma_listing(c.dom(), None, prefix, pages);
    let all = pages.flatten();
    assert forall|a: int, b: int| 0 <= a < all.len() && 0 <= b < all.len() && a != b implies all[a]
        != all[b] by {
        if a < b {
            assert(key_lt(all[a], all[b]));
        } else {
            assert(key_lt(all[b], all[a]));
        }
        lemma_key_lt_irreflexive(all[a]);
    }
    if prefix is None {
        assert(matching_keys(c.dom(), None, prefix) =~= c.dom());
    }
}

} // verus!
