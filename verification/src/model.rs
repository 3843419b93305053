//! Mathematical model of an ordered multimap table: a strictly
//! ascending sequence of (key, value) pairs, plus the operations the
//! store performs on such sequences.
use vstd::prelude::*;

verus! {

/// Strict lexicographic order on (key, value) pairs.
pub open spec fn pair_lt(a: (u64, u64), b: (u64, u64)) -> bool {
    a.0 < b.0 || (a.0 == b.0 && a.1 < b.1)
}

pub open spec fn pair_le(a: (u64, u64), b: (u64, u64)) -> bool {
    pair_lt(a, b) || a == b
}

/// A table's contents are strictly ascending in (key, value) order,
/// so no pair occurs twice.
pub open spec fn sorted(s: Seq<(u64, u64)>) -> bool {
    forall|i: int, j: int| 0 <= i < j < s.len() ==> pair_lt(s[i], s[j])
}

/// Does `p` lie at or after the search origin `(k, ov)`?  With a
/// value the order is lexicographic; without one only the key counts.
pub open spec fn at_or_after(k: u64, ov: Option<u64>, p: (u64, u64)) -> bool {
    match ov {
        Some(v) => pair_le((k, v), p),
        None => p.0 >= k,
    }
}

/// Index of the first pair at or after the origin (`s.len()` if none).
pub open spec fn lower_bound(s: Seq<(u64, u64)>, k: u64, ov: Option<u64>) -> int
    decreases s.len(),
{
    if s.len() == 0 {
        0
    } else if at_or_after(k, ov, s[0]) {
        0
    } else {
        1 + lower_bound(s.drop_first(), k, ov)
    }
}

/// What the engine's positioned lookup returns: the first pair at or
/// after the origin, if any.
pub open spec fn first_at_or_after(s: Seq<(u64, u64)>, k: u64, ov: Option<u64>) -> Option<(u64, u64)> {
    let i = lower_bound(s, k, ov);
    if i < s.len() {
        Some(s[i])
    } else {
        None
    }
}

/// Insertion keeping the strictly ascending order; inserting a pair
/// that is already present leaves the sequence unchanged.
pub open spec fn insert_pair(s: Seq<(u64, u64)>, p: (u64, u64)) -> Seq<(u64, u64)>
    decreases s.len(),
{
    if s.len() == 0 {
        seq![p]
    } else if pair_lt(p, s[0]) {
        seq![p] + s
    } else if p == s[0] {
        s
    } else {
        seq![s[0]] + insert_pair(s.drop_first(), p)
    }
}

/// Is some value stored under key `k`?
pub open spec fn has_key(s: Seq<(u64, u64)>, k: u64) -> bool {
    exists|i: int| 0 <= i < s.len() && #[trigger] s[i].0 == k
}

/// All pairs stored under key `k`, in order.
pub open spec fn pairs_with_key(s: Seq<(u64, u64)>, k: u64) -> Seq<(u64, u64)>
    decreases s.len(),
{
    if s.len() == 0 {
        Seq::empty()
    } else if s[0].0 == k {
        seq![s[0]] + pairs_with_key(s.drop_first(), k)
    } else {
        pairs_with_key(s.drop_first(), k)
    }
}

/// The table without any pair of key `k`.
pub open spec fn pairs_without_key(s: Seq<(u64, u64)>, k: u64) -> Seq<(u64, u64)>
    decreases s.len(),
{
    if s.len() == 0 {
        Seq::empty()
    } else if s[0].0 != k {
        seq![s[0]] + pairs_without_key(s.drop_first(), k)
    } else {
        pairs_without_key(s.drop_first(), k)
    }
}

/// What a point lookup of `k` answers: the smallest value under `k`.
pub open spec fn one_spec(s: Seq<(u64, u64)>, k: u64) -> Option<u64> {
    let i = lower_bound(s, k, None);
    if i < s.len() && s[i].0 == k {
        Some(s[i].1)
    } else {
        None
    }
}

/// Does a deletion with key `k` and optional value `ov` find a pair?
pub open spec fn del_hits(s: Seq<(u64, u64)>, k: u64, ov: Option<u64>) -> bool {
    match ov {
        Some(v) => s.contains((k, v)),
        None => has_key(s, k),
    }
}

/// The table after a single deletion: the pair at the lower bound of
/// the origin goes away when the deletion finds one.
pub open spec fn del_result(s: Seq<(u64, u64)>, k: u64, ov: Option<u64>) -> Seq<(u64, u64)> {
    if del_hits(s, k, ov) {
        s.remove(lower_bound(s, k, ov))
    } else {
        s
    }
}

/// Where iteration starts for an optional origin: at the first pair
/// at or after it, or at the very first pair when none is given.
pub open spec fn origin_index(s: Seq<(u64, u64)>, origin: Option<(u64, Option<u64>)>) -> int {
    match origin {
        None => 0,
        Some((k, ov)) => lower_bound(s, k, ov),
    }
}

/// The root stored in the directory for table `id`, if any.
pub open spec fn dir_root(dir: Map<int, u64>, id: int) -> Option<u64> {
    if dir.dom().contains(id) {
        Some(dir[id])
    } else {
        None
    }
}

/// Well-formed store state: every directory entry names a live tree,
/// no two tables share a tree, every tree is strictly ascending, and
/// no tree outgrows what the machine can count.
pub open spec fn wf_state(dir: Map<int, u64>, trees: Map<u64, Seq<(u64, u64)>>) -> bool {
    &&& forall|id: int| dir.dom().contains(id) ==> trees.dom().contains(#[trigger] dir[id]) && dir[id] > 0
    &&& forall|i: int, j: int|
        dir.dom().contains(i) && dir.dom().contains(j) && i != j ==> #[trigger] dir[i] != #[trigger] dir[j]
    &&& forall|r: u64| #[trigger] trees.dom().contains(r) ==> sorted(trees[r]) && trees[r].len() < usize::MAX
}

/// The contents of table `id` under a directory and tree map: a table
/// never created holds nothing.
pub open spec fn table_of(dir: Map<int, u64>, trees: Map<u64, Seq<(u64, u64)>>, id: int) -> Seq<(u64, u64)> {
    if dir.dom().contains(id) {
        trees[dir[id]]
    } else {
        Seq::empty()
    }
}

/// What a reverse scan from an optional origin yields, in descending
/// order: the whole table reversed when no origin is given; from the
/// origin's pair inclusive when the table holds it (for a keyed
/// origin: from the first pair of that key); else from the next pair
/// below the origin.
pub open spec fn rev_origin_take(
    s: Seq<(u64, u64)>,
    origin: Option<(u64, Option<u64>)>,
) -> Seq<(u64, u64)> {
    match origin {
        None => s.reverse(),
        Some((k, ov)) => {
            let lo = lower_bound(s, k, ov);
            if lo < s.len() && (match ov {
                Some(v) => s[lo] == (k, v),
                None => s[lo].0 == k,
            }) {
                s.take(lo + 1).reverse()
            } else {
                s.take(lo).reverse()
            }
        },
    }
}

/// Peeling one pair off a reversed prefix: the head is the prefix's
/// last pair, and the tail is the next shorter prefix reversed.
pub proof fn lemma_rev_take_step(s: Seq<(u64, u64)>, j: int)
    requires
        0 < j <= s.len(),
    ensures
        s.take(j).reverse().len() == j,
        s.take(j).reverse()[0] == s[j - 1],
        s.take(j).reverse().drop_first() == s.take(j - 1).reverse(),
{
    let a = s.take(j).reverse();
    let b = s.take(j - 1).reverse();
    assert(a[0] == s.take(j)[j - 1]);
    assert(a.drop_first() =~= b) by {
        assert forall|i: int| 0 <= i < b.len() implies a.drop_first()[i] == b[i] by {
            assert(a.drop_first()[i] == a[i + 1]);
            assert(a[i + 1] == s.take(j)[j - 1 - (i + 1)]);
            assert(b[i] == s.take(j - 1)[j - 2 - i]);
        }
    }
}

/// The longest prefix of `s` whose pairs all have key `k`.
pub open spec fn key_run(s: Seq<(u64, u64)>, k: u64) -> Seq<(u64, u64)>
    decreases s.len(),
{
    if s.len() > 0 && s[0].0 == k {
        seq![s[0]] + key_run(s.drop_first(), k)
    } else {
        Seq::empty()
    }
}

/// Membership in a sequence with one pair stuck on the front.
pub proof fn lemma_cons_contains(h: (u64, u64), s: Seq<(u64, u64)>, q: (u64, u64))
    ensures
        (seq![h] + s).contains(q) <==> (q == h || s.contains(q)),
{
    let t = seq![h] + s;
    if t.contains(q) {
        let i = choose|i: int| 0 <= i < t.len() && t[i] == q;
        if i > 0 {
            assert(s[i - 1] == q);
        }
    }
    if s.contains(q) {
        let i = choose|i: int| 0 <= i < s.len() && s[i] == q;
        assert(t[i + 1] == q);
    }
    assert(t[0] == h);
}

/// Membership decomposed at the head.
pub proof fn lemma_head_contains(s: Seq<(u64, u64)>, q: (u64, u64))
    requires
        s.len() > 0,
    ensures
        s.contains(q) <==> (q == s[0] || s.drop_first().contains(q)),
{
    assert(s =~= seq![s[0]] + s.drop_first());
    lemma_cons_contains(s[0], s.drop_first(), q);
}

/// A strictly ascending sequence stays so with its head removed.
pub proof fn lemma_sorted_drop_first(s: Seq<(u64, u64)>)
    requires
        sorted(s),
        s.len() > 0,
    ensures
        sorted(s.drop_first()),
        forall|i: int| 0 <= i < s.drop_first().len() ==> pair_lt(s[0], #[trigger] s.drop_first()[i]),
{
    assert forall|i: int| 0 <= i < s.drop_first().len() implies pair_lt(s[0], #[trigger] s.drop_first()[i]) by {
        assert(s.drop_first()[i] == s[i + 1]);
    }
}

/// The lower bound lies within the sequence, nothing before it is at
/// or after the origin, and the pair at it (if any) is.
pub proof fn lemma_lower_bound(s: Seq<(u64, u64)>, k: u64, ov: Option<u64>)
    ensures
        0 <= lower_bound(s, k, ov) <= s.len(),
        forall|i: int| 0 <= i < lower_bound(s, k, ov) ==> !at_or_after(k, ov, #[trigger] s[i]),
        lower_bound(s, k, ov) < s.len() ==> at_or_after(k, ov, s[lower_bound(s, k, ov)]),
    decreases s.len(),
{
    if s.len() == 0 {
    } else if at_or_after(k, ov, s[0]) {
    } else {
        lemma_lower_bound(s.drop_first(), k, ov);
        let lb = lower_bound(s, k, ov);
        assert forall|i: int| 0 <= i < lb implies !at_or_after(k, ov, #[trigger] s[i]) by {
            if i > 0 {
                assert(s.drop_first()[i - 1] == s[i]);
            }
        }
        if lb < s.len() {
            assert(s[lb] == s.drop_first()[lb - 1]);
        }
    }
}

/// In a strictly ascending sequence, a pair is present exactly when
/// the lower bound of its own origin lands on it.
pub proof fn lemma_contains_lower_bound(s: Seq<(u64, u64)>, p: (u64, u64))
    requires
        sorted(s),
    ensures
        s.contains(p) <==> (lower_bound(s, p.0, Some(p.1)) < s.len() && s[lower_bound(
            s,
            p.0,
            Some(p.1),
        )] == p),
{
    let lb = lower_bound(s, p.0, Some(p.1));
    lemma_lower_bound(s, p.0, Some(p.1));
    if s.contains(p) {
        let i = choose|i: int| 0 <= i < s.len() && s[i] == p;
        assert(at_or_after(p.0, Some(p.1), s[i]));
        assert(lb <= i);
        if lb < i {
            assert(pair_lt(s[lb], s[i]));
            assert(false);
        }
    }
}

/// What insertion does: order kept, membership extended by the new
/// pair, length grown only when the pair was absent, and the result
/// still short enough for a machine count when it grew from a table
/// the machine could count.
pub proof fn lemma_insert_pair(s: Seq<(u64, u64)>, p: (u64, u64))
    requires
        sorted(s),
    ensures
        sorted(insert_pair(s, p)),
        forall|q: (u64, u64)| insert_pair(s, p).contains(q) <==> (s.contains(q) || q == p),
        insert_pair(s, p).len() == if s.contains(p) {
            s.len() as int
        } else {
            s.len() + 1 as int
        },
        s.contains(p) ==> insert_pair(s, p) == s,
    decreases s.len(),
{
    let t = insert_pair(s, p);
    if s.len() == 0 {
        assert forall|q: (u64, u64)| t.contains(q) implies (s.contains(q) || q == p) by {
            assert(t[0] == p);
        }
        assert(t.contains(p)) by {
            assert(t[0] == p);
        }
    } else if pair_lt(p, s[0]) {
        assert(t == seq![p] + s);
        assert forall|i: int, j: int| 0 <= i < j < t.len() implies pair_lt(t[i], t[j]) by {
            if i == 0 {
                if j > 1 {
                    assert(pair_lt(s[0], s[j - 1]));
                }
            } else {
                assert(t[i] == s[i - 1] && t[j] == s[j - 1]);
            }
        }
        assert(t.contains(p)) by {
            assert(t[0] == p);
        }
        assert forall|q: (u64, u64)| #[trigger] t.contains(q) implies (s.contains(q) || q == p) by {
            let i = choose|i: int| 0 <= i < t.len() && t[i] == q;
            if i > 0 {
                assert(s[i - 1] == q);
            }
        }
        assert forall|q: (u64, u64)| s.contains(q) implies t.contains(q) by {
            let i = choose|i: int| 0 <= i < s.len() && s[i] == q;
            assert(t[i + 1] == q);
        }
        if s.contains(p) {
            let i = choose|i: int| 0 <= i < s.len() && s[i] == p;
            if i > 0 {
                assert(pair_lt(s[0], s[i]));
            }
            assert(false);
        }
    } else if p == s[0] {
        assert(s.contains(p)) by {
            assert(s[0] == p);
        }
    } else {
        let rest = s.drop_first();
        lemma_sorted_drop_first(s);
        lemma_insert_pair(rest, p);
        let tr = insert_pair(rest, p);
        assert(t == seq![s[0]] + tr);
        assert(pair_lt(s[0], p)) by {
            assert(!pair_lt(p, s[0]) && p != s[0]);
        }
        assert forall|i: int, j: int| 0 <= i < j < t.len() implies pair_lt(t[i], t[j]) by {
            if i == 0 {
                assert(t[j] == tr[j - 1]);
                assert(tr.contains(tr[j - 1]));
                if tr[j - 1] != p {
                    assert(rest.contains(tr[j - 1]));
                    let m = choose|m: int| 0 <= m < rest.len() && rest[m] == tr[j - 1];
                    assert(pair_lt(s[0], rest[m]));
                }
            } else {
                assert(t[i] == tr[i - 1] && t[j] == tr[j - 1]);
            }
        }
        assert forall|q: (u64, u64)| #[trigger] t.contains(q) implies (s.contains(q) || q == p) by {
            let i = choose|i: int| 0 <= i < t.len() && t[i] == q;
            if i == 0 {
                assert(s[0] == q);
            } else {
                assert(tr[i - 1] == q);
                assert(tr.contains(q));
                if q != p {
                    assert(rest.contains(q));
                    let m = choose|m: int| 0 <= m < rest.len() && rest[m] == q;
                    assert(s[m + 1] == q);
                }
            }
        }
        assert forall|q: (u64, u64)| s.contains(q) || q == p implies #[trigger] t.contains(q) by {
            if q == p {
                assert(tr.contains(p));
                let m = choose|m: int| 0 <= m < tr.len() && tr[m] == p;
                assert(t[m + 1] == p);
            } else {
                let i = choose|i: int| 0 <= i < s.len() && s[i] == q;
                if i == 0 {
                    assert(t[0] == q);
                } else {
                    assert(rest[i - 1] == q);
                    assert(rest.contains(q));
                    assert(tr.contains(q));
                    let m = choose|m: int| 0 <= m < tr.len() && tr[m] == q;
                    assert(t[m + 1] == q);
                }
            }
        }
        if s.contains(p) {
            let i = choose|i: int| 0 <= i < s.len() && s[i] == p;
            assert(i > 0);
            assert(rest[i - 1] == p);
            assert(rest.contains(p));
            assert(tr == rest);
            assert(t =~= s);
        } else {
            if rest.contains(p) {
                let m = choose|m: int| 0 <= m < rest.len() && rest[m] == p;
                assert(s[m + 1] == p);
                assert(false);
            }
        }
    }
}

/// Membership in the keyed projections: a pair sits in
/// `pairs_with_key` exactly when it sits in the table under that key,
/// and both projections keep the ascending order.
pub proof fn lemma_keyed_projections(s: Seq<(u64, u64)>, k: u64)
    ensures
        forall|q: (u64, u64)| #[trigger] pairs_with_key(s, k).contains(q) <==> (s.contains(q) && q.0 == k),
        forall|q: (u64, u64)| #[trigger] pairs_without_key(s, k).contains(q) <==> (s.contains(q) && q.0
            != k),
        pairs_with_key(s, k).len() + pairs_without_key(s, k).len() == s.len(),
        pairs_with_key(s, k).len() == 0 <==> !has_key(s, k),
        sorted(s) ==> sorted(pairs_with_key(s, k)) && sorted(pairs_without_key(s, k)),
    decreases s.len(),
{
    if s.len() == 0 {
        assert(!has_key(s, k));
    } else {
        let rest = s.drop_first();
        lemma_keyed_projections(rest, k);
        if sorted(s) {
            lemma_sorted_drop_first(s);
        }
        assert forall|q: (u64, u64)| true implies (#[trigger] s.contains(q) <==> (q == s[0]
            || rest.contains(q))) by {
            lemma_head_contains(s, q);
        }
        let wk = pairs_with_key(s, k);
        let wo = pairs_without_key(s, k);
        let wkr = pairs_with_key(rest, k);
        let wor = pairs_without_key(rest, k);
        if s[0].0 == k {
            assert(wk == seq![s[0]] + wkr);
            assert forall|q: (u64, u64)| true implies (#[trigger] wk.contains(q) <==> (q == s[0]
                || wkr.contains(q))) by {
                lemma_cons_contains(s[0], wkr, q);
            }
            if sorted(s) {
                assert forall|i: int, j: int| 0 <= i < j < wk.len() implies pair_lt(
                    wk[i],
                    wk[j],
                ) by {
                    if i == 0 {
                        assert(wk[j] == wkr[j - 1]);
                        assert(wkr.contains(wkr[j - 1]));
                        assert(rest.contains(wkr[j - 1]));
                        let m = choose|m: int| 0 <= m < rest.len() && rest[m] == wkr[j - 1];
                        assert(pair_lt(s[0], rest[m]));
                    } else {
                        assert(wk[i] == wkr[i - 1] && wk[j] == wkr[j - 1]);
                    }
                }
            }
            assert(has_key(s, k)) by {
                assert(s[0].0 == k);
            }
            assert(wk.len() > 0);
            assert(wo == wor);
            assert forall|q: (u64, u64)| true implies (#[trigger] wk.contains(q) <==> (s.contains(q)
                && q.0 == k)) by {
                lemma_cons_contains(s[0], wkr, q);
                lemma_head_contains(s, q);
            }
            assert forall|q: (u64, u64)| true implies (#[trigger] wo.contains(q) <==> (s.contains(q)
                && q.0 != k)) by {
                lemma_head_contains(s, q);
            }
        } else {
            assert(wo == seq![s[0]] + wor);
            assert forall|q: (u64, u64)| true implies (#[trigger] wo.contains(q) <==> (q == s[0]
                || wor.contains(q))) by {
                lemma_cons_contains(s[0], wor, q);
            }
            if sorted(s) {
                assert forall|i: int, j: int| 0 <= i < j < wo.len() implies pair_lt(
                    wo[i],
                    wo[j],
                ) by {
                    if i == 0 {
                        assert(wo[j] == wor[j - 1]);
                        assert(wor.contains(wor[j - 1]));
                        assert(rest.contains(wor[j - 1]));
                        let m = choose|m: int| 0 <= m < rest.len() && rest[m] == wor[j - 1];
                        assert(pair_lt(s[0], rest[m]));
                    } else {
                        assert(wo[i] == wor[i - 1] && wo[j] == wor[j - 1]);
                    }
                }
            }
            assert(has_key(s, k) <==> has_key(rest, k)) by {
                if has_key(s, k) {
                    let i = choose|i: int| 0 <= i < s.len() && s[i].0 == k;
                    assert(i > 0);
                    assert(rest[i - 1].0 == k);
                    assert(has_key(rest, k));
                }
                if has_key(rest, k) {
                    let i = choose|i: int| 0 <= i < rest.len() && rest[i].0 == k;
                    assert(s[i + 1].0 == k);
                    assert(has_key(s, k));
                }
            }
            assert(wk == wkr);
            assert forall|q: (u64, u64)| true implies (#[trigger] wk.contains(q) <==> (s.contains(q)
                && q.0 == k)) by {
                lemma_head_contains(s, q);
            }
            assert forall|q: (u64, u64)| true implies (#[trigger] wo.contains(q) <==> (s.contains(q)
                && q.0 != k)) by {
                lemma_cons_contains(s[0], wor, q);
                lemma_head_contains(s, q);
            }
        }
    }
}

/// A table with no pair of key `k` is untouched by filtering that key
/// out.
pub proof fn lemma_no_key(s: Seq<(u64, u64)>, k: u64)
    requires
        !has_key(s, k),
    ensures
        pairs_without_key(s, k) == s,
        pairs_with_key(s, k) == Seq::<(u64, u64)>::empty(),
    decreases s.len(),
{
    if s.len() == 0 {
        assert(pairs_without_key(s, k) =~= s);
    } else {
        assert(s[0].0 != k) by {
            if s[0].0 == k {
                assert(has_key(s, k));
            }
        }
        let rest = s.drop_first();
        assert(!has_key(rest, k)) by {
            if has_key(rest, k) {
                let i = choose|i: int| 0 <= i < rest.len() && rest[i].0 == k;
                assert(s[i + 1].0 == k);
            }
        }
        lemma_no_key(rest, k);
        assert(pairs_without_key(s, k) =~= s);
    }
}

/// Removing the pair at the keyed lower bound takes away exactly the
/// head of the key's pairs and nothing else.
pub proof fn lemma_remove_first_of_key(s: Seq<(u64, u64)>, k: u64)
    requires
        sorted(s),
        has_key(s, k),
    ensures
        ({
            let i = lower_bound(s, k, None);
            let t = s.remove(i);
            &&& 0 <= i < s.len()
            &&& s[i].0 == k
            &&& sorted(t)
            &&& pairs_with_key(t, k) == pairs_with_key(s, k).drop_first()
            &&& pairs_without_key(t, k) == pairs_without_key(s, k)
        }),
    decreases s.len(),
{
    let i = lower_bound(s, k, None);
    let t = s.remove(i);
    lemma_lower_bound(s, k, None);
    let w0 = choose|w: int| 0 <= w < s.len() && s[w].0 == k;
    assert(at_or_after(k, None, s[w0]));
    assert(i < s.len());
    s.remove_ensures(i);
    let w = choose|w: int| 0 <= w < s.len() && s[w].0 == k;
    assert(at_or_after(k, None, s[w]));
    assert(i <= w);
    assert(s[i].0 >= k);
    assert(s[i].0 == k) by {
        if i < w {
            assert(pair_lt(s[i], s[w]));
        }
    }
    assert(sorted(t)) by {
        assert forall|a: int, b: int| 0 <= a < b < t.len() implies pair_lt(t[a], t[b]) by {
            let sa = if a < i {
                a
            } else {
                a + 1
            };
            let sb = if b < i {
                b
            } else {
                b + 1
            };
            assert(t[a] == s[sa] && t[b] == s[sb]);
        }
    }
    if i == 0 {
        assert(t =~= s.drop_first());
        assert(pairs_with_key(s, k) == seq![s[0]] + pairs_with_key(t, k));
        assert(pairs_with_key(s, k).drop_first() =~= pairs_with_key(t, k));
        assert(pairs_without_key(s, k) == pairs_without_key(t, k));
    } else {
        let rest = s.drop_first();
        lemma_sorted_drop_first(s);
        assert(s[0].0 != k) by {
            assert(!at_or_after(k, None, s[0]));
        }
        assert(has_key(rest, k)) by {
            assert(rest[w - 1].0 == k);
        }
        assert(lower_bound(rest, k, None) == i - 1);
        lemma_remove_first_of_key(rest, k);
        assert(t =~= seq![s[0]] + rest.remove(i - 1));
        let tr = rest.remove(i - 1);
        assert(t.drop_first() =~= tr);
        assert(pairs_with_key(t, k) == pairs_with_key(tr, k));
        assert(pairs_with_key(s, k) == pairs_with_key(rest, k));
        assert(pairs_without_key(t, k) == seq![s[0]] + pairs_without_key(tr, k));
        assert(pairs_without_key(s, k) == seq![s[0]] + pairs_without_key(rest, k));
    }
}

/// Removing an exactly-matched pair: it is gone, everything else
/// stays, order is kept, and the other keys' pairs are untouched.
pub proof fn lemma_remove_exact(s: Seq<(u64, u64)>, p: (u64, u64))
    requires
        sorted(s),
        s.contains(p),
    ensures
        ({
            let i = lower_bound(s, p.0, Some(p.1));
            let t = s.remove(i);
            &&& 0 <= i < s.len()
            &&& s[i] == p
            &&& sorted(t)
            &&& !t.contains(p)
            &&& forall|q: (u64, u64)| q != p ==> (t.contains(q) <==> s.contains(q))
        }),
{
    lemma_contains_lower_bound(s, p);
    lemma_lower_bound(s, p.0, Some(p.1));
    let i = lower_bound(s, p.0, Some(p.1));
    assert(s.contains(p));
    assert(0 <= i < s.len() && s[i] == p);
    let t = s.remove(i);
    s.remove_ensures(i);
    assert(sorted(t)) by {
        assert forall|a: int, b: int| 0 <= a < b < t.len() implies pair_lt(t[a], t[b]) by {
            let sa = if a < i {
                a
            } else {
                a + 1
            };
            let sb = if b < i {
                b
            } else {
                b + 1
            };
            assert(t[a] == s[sa] && t[b] == s[sb]);
        }
    }
    assert(!t.contains(p)) by {
        if t.contains(p) {
            let a = choose|a: int| 0 <= a < t.len() && t[a] == p;
            let sa = if a < i {
                a
            } else {
                a + 1
            };
            assert(s[sa] == p && sa != i);
            if sa < i {
                assert(pair_lt(s[sa], s[i]));
            } else {
                assert(pair_lt(s[i], s[sa]));
            }
        }
    }
    assert forall|q: (u64, u64)| q != p implies (t.contains(q) <==> s.contains(q)) by {
        if t.contains(q) {
            let a = choose|a: int| 0 <= a < t.len() && t[a] == q;
            let sa = if a < i {
                a
            } else {
                a + 1
            };
            assert(s[sa] == q);
        }
        if s.contains(q) {
            let a = choose|a: int| 0 <= a < s.len() && s[a] == q;
            assert(a != i);
            if a < i {
                assert(t[a] == q);
            } else {
                assert(t[a - 1] == q);
            }
            assert(t.contains(q));
        }
    }
}

/// Inserting a pair under a key the table does not hold leaves that
/// key holding exactly the new pair, and every other key untouched.
pub proof fn lemma_insert_fresh_key(s: Seq<(u64, u64)>, k: u64, v: u64)
    requires
        sorted(s),
        !has_key(s, k),
    ensures
        pairs_with_key(insert_pair(s, (k, v)), k) == seq![(k, v)],
        pairs_without_key(insert_pair(s, (k, v)), k) == s,
    decreases s.len(),
{
    let p = (k, v);
    let t = insert_pair(s, p);
    if s.len() == 0 {
        assert(t == seq![p]);
        assert(t[0] == p && t.len() == 1);
        assert(t.drop_first() =~= Seq::<(u64, u64)>::empty());
        assert(pairs_with_key(t, k) == seq![t[0]] + pairs_with_key(t.drop_first(), k));
        assert(pairs_with_key(t, k) =~= seq![p]);
        assert(pairs_without_key(t, k) == pairs_without_key(t.drop_first(), k));
        assert(pairs_without_key(t, k) =~= s);
    } else if pair_lt(p, s[0]) {
        assert(t == seq![p] + s);
        assert(t.len() > 0 && t[0] == p && t[0].0 == k);
        assert(t.drop_first() =~= s);
        assert(pairs_with_key(t, k) == seq![t[0]] + pairs_with_key(t.drop_first(), k));
        assert(pairs_with_key(t.drop_first(), k) == pairs_with_key(s, k));
        lemma_no_key(s, k);
        assert(pairs_with_key(t, k) =~= seq![p]);
        assert(pairs_without_key(t, k) == pairs_without_key(t.drop_first(), k));
        assert(pairs_without_key(t, k) == pairs_without_key(s, k));
    } else if p == s[0] {
        assert(has_key(s, k)) by {
            assert(s[0].0 == k);
        }
        assert(false);
    } else {
        assert(s[0].0 != k) by {
            if s[0].0 == k {
                assert(has_key(s, k));
            }
        }
        let rest = s.drop_first();
        lemma_sorted_drop_first(s);
        assert(!has_key(rest, k)) by {
            if has_key(rest, k) {
                let i = choose|i: int| 0 <= i < rest.len() && rest[i].0 == k;
                assert(s[i + 1].0 == k);
            }
        }
        lemma_insert_fresh_key(rest, k, v);
        let tr = insert_pair(rest, p);
        assert(t == seq![s[0]] + tr);
        assert(t.drop_first() =~= tr);
        assert(pairs_with_key(t, k) == pairs_with_key(tr, k));
        assert(pairs_without_key(t, k) == seq![s[0]] + pairs_without_key(tr, k));
        assert(pairs_without_key(t, k) =~= s);
    }
}

/// The key-scoped run at the keyed lower bound is exactly the key's
/// pairs: they sit contiguously in an ascending table.
pub proof fn lemma_key_run_is_projection(s: Seq<(u64, u64)>, k: u64)
    requires
        sorted(s),
    ensures
        key_run(s.skip(lower_bound(s, k, None)), k) == pairs_with_key(s, k),
    decreases s.len(),
{
    let lb = lower_bound(s, k, None);
    lemma_lower_bound(s, k, None);
    if s.len() == 0 {
        assert(s.skip(0) =~= s);
    } else if at_or_after(k, None, s[0]) {
        assert(lb == 0);
        assert(s.skip(0) =~= s);
        let rest = s.drop_first();
        lemma_sorted_drop_first(s);
        if s[0].0 == k {
            assert(key_run(s, k) == seq![s[0]] + key_run(rest, k));
            assert(pairs_with_key(s, k) == seq![s[0]] + pairs_with_key(rest, k));
            lemma_key_run_is_projection(rest, k);
            assert(lower_bound(rest, k, None) == 0) by {
                if rest.len() > 0 {
                    assert(pair_lt(s[0], rest[0]));
                    assert(at_or_after(k, None, rest[0]));
                }
            }
            assert(rest.skip(0) =~= rest);
        } else {
            assert(s[0].0 > k);
            assert(key_run(s, k) == Seq::<(u64, u64)>::empty());
            assert(!has_key(s, k)) by {
                if has_key(s, k) {
                    let i = choose|i: int| 0 <= i < s.len() && s[i].0 == k;
                    assert(i > 0);
                    assert(pair_lt(s[0], s[i]));
                }
            }
            lemma_no_key(s, k);
        }
    } else {
        let rest = s.drop_first();
        lemma_sorted_drop_first(s);
        assert(lb == 1 + lower_bound(rest, k, None));
        assert(s[0].0 < k);
        assert(pairs_with_key(s, k) == pairs_with_key(rest, k));
        lemma_key_run_is_projection(rest, k);
        assert(s.skip(lb) =~= rest.skip(lower_bound(rest, k, None)));
    }
}

} // verus!
