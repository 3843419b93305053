//! The general laws of the store, stated over the model that every
//! operation's contract speaks: a table is a strictly ascending pair
//! sequence, and a transaction's view maps each id to one.
use vstd::prelude::*;

use crate::engine::{ReadTx, Tx, TxRead, WriteTx};
use crate::model::{
    at_or_after, del_result, has_key, insert_pair, lemma_insert_fresh_key, lemma_insert_pair,
    lemma_keyed_projections, lemma_lower_bound, lemma_no_key, lemma_remove_exact, one_spec,
    origin_index, pair_lt, pairs_with_key, pairs_without_key, rev_origin_take, sorted, table_of,
    wf_state,
};

verus! {

/// Idempotent creation.  Entering a fresh empty tree for an id the
/// directory lacks changes no table's contents: an absent table
/// already reads as empty.  So binding a table from any number of
/// transactions resolves to one table whose contents are exactly what
/// prior commits put there, and creating it twice is impossible — the
/// directory holds the id afterwards.
pub proof fn lemma_creation_invisible(
    dir: Map<int, u64>,
    trees: Map<u64, Seq<(u64, u64)>>,
    id: int,
    fresh: u64,
)
    requires
        wf_state(dir, trees),
        !dir.dom().contains(id),
        !trees.dom().contains(fresh),
        fresh > 0,
    ensures
        wf_state(dir.insert(id, fresh), trees.insert(fresh, Seq::<(u64, u64)>::empty())),
        forall|j: int|
            table_of(
                dir.insert(id, fresh),
                trees.insert(fresh, Seq::<(u64, u64)>::empty()),
                j,
            ) == table_of(dir, trees, j),
        dir.insert(id, fresh).dom().contains(id),
{
    let dir1 = dir.insert(id, fresh);
    let trees1 = trees.insert(fresh, Seq::<(u64, u64)>::empty());
    assert forall|j: int| table_of(dir1, trees1, j) == table_of(dir, trees, j) by {
        if j == id {
            assert(table_of(dir, trees, j) =~= Seq::<(u64, u64)>::empty());
        } else if dir.dom().contains(j) {
            assert(dir[j] != fresh);
        }
    }
}

/// Ordering.  A full forward scan starts at the whole table and a
/// table is strictly ascending in (key, value) order, so the pairs
/// come out strictly ascending; a full reverse scan starts at the
/// table reversed, the exact mirror, pair for pair.
pub proof fn lemma_scan_order(s: Seq<(u64, u64)>)
    requires
        sorted(s),
    ensures
        s.skip(origin_index(s, None)) == s,
        forall|i: int, j: int| 0 <= i < j < s.len() ==> pair_lt(s[i], s[j]),
        rev_origin_take(s, None) == s.reverse(),
        s.reverse().len() == s.len(),
        forall|i: int| 0 <= i < s.len() ==> s.reverse()[i] == s[s.len() - 1 - i],
{
    assert(s.skip(0) =~= s);
}

/// Key-scoped exactness.  The key-scoped scan produces
/// `pairs_with_key`: exactly the table's pairs of that key, in the
/// table's ascending order, and nothing when the key is absent.
pub proof fn lemma_key_scope(s: Seq<(u64, u64)>, k: u64)
    requires
        sorted(s),
    ensures
        forall|q: (u64, u64)|
            #[trigger] pairs_with_key(s, k).contains(q) <==> (s.contains(q) && q.0 == k),
        sorted(pairs_with_key(s, k)),
        !has_key(s, k) ==> pairs_with_key(s, k) == Seq::<(u64, u64)>::empty(),
{
    lemma_keyed_projections(s, k);
    if !has_key(s, k) {
        lemma_no_key(s, k);
    }
}

/// The point lookup answers the smallest value.  What `one_spec`
/// names positionally — the pair at the keyed lower bound — is the
/// stored pair of that key with the least value, and it is nothing
/// exactly when the key is absent.
pub proof fn lemma_one_is_minimum(s: Seq<(u64, u64)>, k: u64)
    requires
        sorted(s),
    ensures
        match one_spec(s, k) {
            Some(v) => s.contains((k, v)) && forall|q: (u64, u64)|
                s.contains(q) && q.0 == k ==> v <= q.1,
            None => !has_key(s, k),
        },
{
    lemma_lower_bound(s, k, None);
    let i = crate::model::lower_bound(s, k, None);
    if i < s.len() && s[i].0 == k {
        assert(s.contains((k, s[i].1))) by {
            assert(s[i] == (k, s[i].1));
        }
        assert forall|q: (u64, u64)| s.contains(q) && q.0 == k implies s[i].1 <= q.1 by {
            let m = choose|m: int| 0 <= m < s.len() && s[m] == q;
            assert(at_or_after(k, None, s[m]));
            assert(i <= m);
            if i < m {
                assert(pair_lt(s[i], s[m]));
            }
        }
    } else {
        if has_key(s, k) {
            let m = choose|m: int| 0 <= m < s.len() && s[m].0 == k;
            assert(at_or_after(k, None, s[m]));
            assert(i <= m < s.len());
            if i < m {
                assert(pair_lt(s[i], s[m]));
            }
            assert(s[i].0 == k);
            assert(false);
        }
    }
}

/// Round trip.  Putting `(k, v)` makes `exist(k, v)` hold; removing
/// that exact pair makes it fail; removing every pair of `k` leaves
/// the point lookup of `k` empty.
pub proof fn lemma_round_trip(s: Seq<(u64, u64)>, k: u64, v: u64)
    requires
        sorted(s),
    ensures
        insert_pair(s, (k, v)).contains((k, v)),
        !del_result(insert_pair(s, (k, v)), k, Some(v)).contains((k, v)),
        one_spec(pairs_without_key(s, k), k) is None,
{
    lemma_insert_pair(s, (k, v));
    let s1 = insert_pair(s, (k, v));
    lemma_remove_exact(s1, (k, v));
    let wo = pairs_without_key(s, k);
    lemma_keyed_projections(s, k);
    lemma_lower_bound(wo, k, None);
    let i = crate::model::lower_bound(wo, k, None);
    if i < wo.len() && wo[i].0 == k {
        assert(wo.contains(wo[i]));
        assert(false);
    }
}

/// Upsert.  After `put(k, v1)`, `put(k, v2)`, `upsert(k, v3)`, the
/// key-scoped scan of `k` yields exactly `[(k, v3)]`.
pub proof fn lemma_upsert_single(s: Seq<(u64, u64)>, k: u64, v1: u64, v2: u64, v3: u64)
    requires
        sorted(s),
    ensures
        ({
            let s1 = insert_pair(s, (k, v1));
            let s2 = insert_pair(s1, (k, v2));
            let s3 = insert_pair(pairs_without_key(s2, k), (k, v3));
            pairs_with_key(s3, k) == seq![(k, v3)]
        }),
{
    lemma_insert_pair(s, (k, v1));
    let s1 = insert_pair(s, (k, v1));
    lemma_insert_pair(s1, (k, v2));
    let s2 = insert_pair(s1, (k, v2));
    lemma_keyed_projections(s2, k);
    let wo = pairs_without_key(s2, k);
    assert(!has_key(wo, k)) by {
        if has_key(wo, k) {
            let i = choose|i: int| 0 <= i < wo.len() && wo[i].0 == k;
            assert(wo.contains(wo[i]));
            assert(false);
        }
    }
    lemma_insert_fresh_key(wo, k, v3);
}

/// Visibility.  A transaction's view of a table is fixed by the
/// committed state at its beginning, as the lifecycle contracts state:
/// a reader begun before a commit keeps showing the old contents after
/// it, and a reader begun after the commit shows exactly the tables
/// the writer committed.
pub proof fn lemma_visibility(
    tx_before: &Tx,
    early: &ReadTx,
    w: &WriteTx,
    tx_after: &Tx,
    late: &ReadTx,
    id: int,
)
    requires
        TxRead::dir(early) == tx_before.dir(),
        TxRead::trees(early) == tx_before.trees(),
        tx_after.dir() == TxRead::dir(w),
        tx_after.trees() == TxRead::trees(w),
        TxRead::dir(late) == tx_after.dir(),
        TxRead::trees(late) == tx_after.trees(),
    ensures
        early.table(id) == tx_before.table(id),
        late.table(id) == w.table(id),
{
}

} // verus!
