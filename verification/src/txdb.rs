//! Tables bound to an open transaction: binding (with lazy, idempotent
//! creation), point operations, and the root-change write-back
//! protocol.
use vstd::prelude::*;

use crate::dbpage::{DbPage, Encode};
use crate::engine::{DbError, ReadTx, Tx, TxRead, WriteTx, ROOT_SLOTS};
use crate::model::{
    del_hits, del_result, dir_root, has_key, insert_pair, lower_bound, one_spec, pairs_with_key,
    pairs_without_key, sorted, table_of, wf_state,
};
use crate::model::{
    lemma_contains_lower_bound, lemma_insert_pair, lemma_keyed_projections, lemma_no_key,
    lemma_remove_exact, lemma_remove_first_of_key,
};

verus! {

/// A table bound to an open transaction: the table id and the root
/// page it had when bound.  A table absent from a read transaction's
/// snapshot is bound without a root and reads as empty.
pub struct TxDb<RK, RV> {
    pub(crate) id: usize,
    pub(crate) root: Option<u64>,
    pub(crate) _kv: core::marker::PhantomData<(RK, RV)>,
}

impl<RK, RV> TxDb<RK, RV> {
    pub closed spec fn id_spec(&self) -> int {
        self.id as int
    }

    pub closed spec fn root_spec(&self) -> Option<u64> {
        self.root
    }

    /// The binding is current for `tx`: the root the table was bound
    /// with is the root the transaction's directory holds now.
    pub open spec fn bound<T: TxRead>(&self, tx: &T) -> bool {
        &&& 0 <= self.id_spec() < ROOT_SLOTS as int
        &&& self.root_spec() == dir_root(tx.dir(), self.id_spec())
    }

    /// A binding fit for mutation: current, created (it has a root),
    /// and within the written prefix of the root vector.
    pub open spec fn wbound(&self, w: &WriteTx) -> bool {
        &&& self.bound(w)
        &&& self.root_spec() is Some
        &&& self.id_spec() < w.filled()
    }

    /// The table's contents as `tx` sees them.
    pub open spec fn contents<T: TxRead>(&self, tx: &T) -> Seq<(u64, u64)> {
        table_of(tx.dir(), tx.trees(), self.id_spec())
    }

    /// The root the table was bound with, if it has been created.
    pub fn root_ref(&self) -> (r: Option<u64>)
        ensures
            r == self.root_spec(),
    {
        self.root
    }
}

impl ReadTx {
    /// Bind a table handle to this snapshot, touching nothing: a table
    /// the snapshot does not hold binds without a root and reads as
    /// empty, which no operation's contract can tell from a created
    /// empty table.  A commit behind the environment handle's back
    /// would make the handle's model false, so this binding never
    /// writes; the creating form of the binding is [`Self::db_create`],
    /// which carries the handle and records the creation in it.
    pub fn db<RK: Encode<u64>, RV: Encode<u64>>(&self, page: &DbPage<RK, RV>) -> (t: TxDb<RK, RV>)
        requires
            page.id < ROOT_SLOTS,
        ensures
            t.id_spec() == page.id as int,
            t.bound(self),
    {
        let root = self.root_get_raw(page.id);
        TxDb { id: page.id, root, _kv: core::marker::PhantomData }
    }

    /// Bind a table handle, creating an absent table through an
    /// internal write transaction committed before the read proceeds:
    /// the directory then holds the table's id, so transactions begun
    /// later observe it.  The snapshot itself is older than that
    /// commit and still reads the table as empty — exactly what the
    /// fresh table holds — and every table's contents are unchanged.
    /// Creation failures before the commit hand the environment handle
    /// back beside the error; only a commit failure, fatal to the
    /// store, loses it.
    ///
    /// The internal writer must not wait on this very snapshot, so the
    /// store needs a version budget of at least two; and the handle
    /// must still denote the state this snapshot was begun from (no
    /// commit in between), as `Tx::r` ensures.
    pub fn db_create<RK: Encode<u64>, RV: Encode<u64>>(&self, tx: Tx, page: &DbPage<RK, RV>) -> (r:
        Result<(Tx, TxDb<RK, RV>), (DbError, Option<Tx>)>)
        requires
            page.id < ROOT_SLOTS,
            tx.wf(),
            tx.budget() >= 2,
            TxRead::dir(self) == tx.dir(),
            TxRead::trees(self) == tx.trees(),
        ensures
            r matches Ok(p) ==> {
                &&& p.1.id_spec() == page.id as int
                &&& p.1.bound(self)
                &&& p.0.wf()
                &&& p.0.dir().dom().contains(page.id as int)
                &&& forall|j: int| p.0.table(j) == tx.table(j)
                &&& match dir_root(tx.dir(), page.id as int) {
                    Some(_) => p.0.dir() == tx.dir(),
                    None => p.1.root_spec() is None && (exists|nr: u64|
                        p.0.dir() == tx.dir().insert(page.id as int, nr)),
                }
                &&& p.0.opts() == tx.opts()
                &&& p.0.budget() == tx.budget()
            },
            dir_root(tx.dir(), page.id as int) is Some ==> r is Ok,
            r matches Err(p) ==> (p.1 matches Some(t) ==> t.dir() == tx.dir() && t.trees()
                == tx.trees() && t.opts() == tx.opts() && t.budget() == tx.budget()),
    {
        let root = self.root_get_raw(page.id);
        if root.is_some() {
            let t = TxDb { id: page.id, root, _kv: core::marker::PhantomData };
            return Ok((tx, t));
        }
        let mut w = match tx.w() {
            Ok(w) => w,
            Err((e, t)) => return Err((e, Some(t))),
        };
        let td = match w.db(page) {
            Ok(td) => td,
            Err(e) => {
                let t2 = w.discard();
                return Err((e, Some(t2)));
            },
        };
        let ghost w1 = w;
        match w.commit() {
            Ok(tx2) => {
                proof {
                    assert forall|j: int| tx2.table(j) == tx.table(j) by {
                        assert(tx2.table(j) == w1.table(j));
                    }
                    let nr = td.root_spec()->0;
                    assert(tx2.dir() == tx.dir().insert(page.id as int, nr));
                }
                let t = TxDb { id: page.id, root: None, _kv: core::marker::PhantomData };
                Ok((tx2, t))
            },
            Err(e) => Err((e, None)),
        }
    }
}

impl WriteTx {
    /// Bind a table handle inside the write transaction, creating the
    /// table on first write-capable use.  Creation is idempotent and
    /// invisible: a fresh table is empty, exactly what an absent table
    /// reads as, so every table's contents are unchanged.
    ///
    /// The directory slots up to the table's id are rewritten with the
    /// roots they already hold, so that the engine's in-memory root
    /// vector never zero-fills a gap over them.
    pub fn db<RK: Encode<u64>, RV: Encode<u64>>(&mut self, page: &DbPage<RK, RV>) -> (r: Result<
        TxDb<RK, RV>,
        DbError,
    >)
        requires
            page.id < ROOT_SLOTS,
            old(self).wf(),
            old(self).filled() >= 0,
        ensures
            final(self).wf(),
            final(self).filled() >= old(self).filled(),
            forall|j: int| final(self).table(j) == old(self).table(j),
            final(self).base() == old(self).base(),
            r matches Ok(t) ==> {
                &&& t.id_spec() == page.id as int
                &&& t.wbound(final(self))
                &&& match dir_root(TxRead::dir(old(self)), page.id as int) {
                    Some(root0) => {
                        &&& TxRead::dir(final(self)) == TxRead::dir(old(self))
                        &&& t.root_spec() == Some(root0)
                    },
                    None => t.root_spec() matches Some(nr) && TxRead::dir(final(self)) == TxRead::dir(
                        old(self),
                    ).insert(page.id as int, nr),
                }
            },
            dir_root(TxRead::dir(old(self)), page.id as int) is Some ==> r is Ok,
            r is Err ==> TxRead::dir(final(self)) == TxRead::dir(old(self)),
    {
        let id = page.id;
        let ghost dir0 = TxRead::dir(self);
        let ghost trees0 = TxRead::trees(self);
        let mut i: usize = 0;
        while i <= id
            invariant
                i <= id + 1,
                id < ROOT_SLOTS,
                self.filled() >= i as int,
                self.filled() >= old(self).filled(),
                TxRead::dir(self) == dir0,
                TxRead::trees(self) == trees0,
                wf_state(dir0, trees0),
                self.base() == old(self).base(),
            decreases id + 1 - i,
        {
            match self.root_get(i) {
                Some(v) => {
                    self.set_root(i, v);
                    proof {
                        assert(dir0.insert(i as int, v) =~= dir0);
                    }
                },
                None => {
                    self.set_root(i, 0);
                },
            }
            i = i + 1;
        }
        match self.root_get(id) {
            Some(root) => Ok(TxDb { id, root: Some(root), _kv: core::marker::PhantomData }),
            None => {
                let root = match self.create_tree() {
                    Ok(r) => r,
                    Err(e) => {
                        return Err(e);
                    },
                };
                self.set_root(id, root);
                proof {
                    let dir1 = TxRead::dir(self);
                    let trees1 = TxRead::trees(self);
                    assert(dir1 == dir0.insert(id as int, root));
                    assert(trees1 == trees0.insert(root, Seq::<(u64, u64)>::empty()));
                    assert forall|j: int|
                        table_of(dir1, trees1, j) == table_of(dir0, trees0, j) by {
                        if j == id as int {
                            assert(table_of(dir0, trees0, j) =~= Seq::<(u64, u64)>::empty());
                        } else if dir0.dom().contains(j) {
                            assert(dir0[j] != root);
                        }
                    }
                    assert(wf_state(dir1, trees1));
                }
                Ok(TxDb { id, root: Some(root), _kv: core::marker::PhantomData })
            },
        }
    }
}

impl<RK: Encode<u64>, RV: Encode<u64>> TxDb<RK, RV> {
    /// First (smallest) value stored under `k`, if any.
    pub fn one<T: TxRead>(&self, tx: &T, k: &RK) -> (r: Result<Option<u64>, DbError>)
        requires
            self.bound(tx),
            wf_state(tx.dir(), tx.trees()),
        ensures
            r matches Ok(o) ==> o == one_spec(self.contents(tx), k.wire()),
            self.root_spec() is None ==> r == Result::<Option<u64>, DbError>::Ok(None),
    {
        let kw = k.encode();
        match self.root {
            None => Ok(None),
            Some(root) => {
                match tx.tree_get(root, kw, None) {
                    Err(e) => Err(e),
                    Ok(None) => Ok(None),
                    Ok(Some((k2, v2))) => {
                        if k2 == kw {
                            Ok(Some(v2))
                        } else {
                            Ok(None)
                        }
                    },
                }
            },
        }
    }

    /// Is the exact pair `(k, v)` stored?
    pub fn exist<T: TxRead>(&self, tx: &T, k: &RK, v: &RV) -> (r: Result<bool, DbError>)
        requires
            self.bound(tx),
            wf_state(tx.dir(), tx.trees()),
        ensures
            r matches Ok(b) ==> b == self.contents(tx).contains((k.wire(), v.wire())),
            self.root_spec() is None ==> r == Result::<bool, DbError>::Ok(false),
    {
        let kw = k.encode();
        let vw = v.encode();
        match self.root {
            None => Ok(false),
            Some(root) => {
                proof {
                    lemma_contains_lower_bound(tx.trees()[root], (kw, vw));
                }
                match tx.tree_get(root, kw, Some(vw)) {
                    Err(e) => Err(e),
                    Ok(None) => Ok(false),
                    Ok(Some((k2, v2))) => Ok(k2 == kw && v2 == vw),
                }
            },
        }
    }

    /// Insert the pair `(k, v)`.  Distinct values under one key
    /// coexist; inserting a pair already present changes nothing and
    /// returns false.  A root change is written back to the directory,
    /// which is the only path by which the change becomes durable.
    pub fn put(&mut self, w: &mut WriteTx, k: &RK, v: &RV) -> (r: Result<bool, DbError>)
        requires
            old(self).wbound(old(w)),
            old(w).wf(),
        ensures
            final(self).id_spec() == old(self).id_spec(),
            final(w).wf(),
            final(self).wbound(final(w)),
            final(w).filled() == old(w).filled(),
            final(w).base() == old(w).base(),
            forall|j: int|
                j != old(self).id_spec() ==> final(w).table(j) == old(w).table(j),
            r matches Ok(added) ==> {
                &&& final(w).table(old(self).id_spec()) == insert_pair(
                    old(w).table(old(self).id_spec()),
                    (k.wire(), v.wire()),
                )
                &&& added == !old(w).table(old(self).id_spec()).contains((k.wire(), v.wire()))
            },
            r is Err ==> final(w).table(old(self).id_spec()) == old(w).table(old(self).id_spec()),
    {
        let kw = k.encode();
        let vw = v.encode();
        let root = self.root.unwrap();
        let ghost id = self.id as int;
        let ghost dir0 = TxRead::dir(w);
        let ghost trees0 = TxRead::trees(w);
        let ghost s0 = old(w).table(id);
        proof {
            assert(trees0[root] == s0);
            lemma_insert_pair(s0, (kw, vw));
        }
        match w.tree_put(root, kw, vw) {
            Err(e) => Err(e),
            Ok((nr, added)) => {
                let ghost ins = insert_pair(s0, (kw, vw));
                if nr != root {
                    self.root = Some(nr);
                    w.set_root(self.id, nr);
                    proof {
                        let dir1 = TxRead::dir(w);
                        let trees1 = TxRead::trees(w);
                        assert(dir1 == dir0.insert(id, nr));
                        assert(trees1 == trees0.remove(root).insert(nr, ins));
                        assert forall|j: int| j != id implies table_of(dir1, trees1, j) == table_of(
                            dir0,
                            trees0,
                            j,
                        ) by {
                            if dir0.dom().contains(j) {
                                assert(dir0[j] != root);
                                assert(dir0[j] != nr);
                            }
                        }
                        assert(table_of(dir1, trees1, id) == ins);
                        assert(wf_state(dir1, trees1));
                    }
                } else {
                    proof {
                        if added {
                            let trees1 = TxRead::trees(w);
                            assert(trees1 =~= trees0.insert(root, ins));
                            assert forall|j: int| j != id implies table_of(dir0, trees1, j)
                                == table_of(dir0, trees0, j) by {
                                if dir0.dom().contains(j) {
                                    assert(dir0[j] != root);
                                }
                            }
                            assert(table_of(dir0, trees1, id) == ins);
                            assert(wf_state(dir0, trees1));
                        } else {
                            assert(insert_pair(s0, (kw, vw)) == s0);
                        }
                    }
                }
                Ok(added)
            },
        }
    }

    /// Delete one pair: the exact pair `(k, v)` when a value is given,
    /// else the first (smallest-valued) pair under `k`.  Returns
    /// whether a pair was removed.
    pub fn rm1(&mut self, w: &mut WriteTx, k: &RK, v: Option<&RV>) -> (r: Result<bool, DbError>)
        requires
            old(self).wbound(old(w)),
            old(w).wf(),
        ensures
            final(self).id_spec() == old(self).id_spec(),
            final(w).wf(),
            final(self).wbound(final(w)),
            final(w).filled() == old(w).filled(),
            final(w).base() == old(w).base(),
            forall|j: int|
                j != old(self).id_spec() ==> final(w).table(j) == old(w).table(j),
            r matches Ok(deleted) ==> {
                let ovw = match v {
                    Some(v) => Some(v.wire()),
                    None => None,
                };
                &&& final(w).table(old(self).id_spec()) == del_result(
                    old(w).table(old(self).id_spec()),
                    k.wire(),
                    ovw,
                )
                &&& deleted == del_hits(old(w).table(old(self).id_spec()), k.wire(), ovw)
            },
            r is Err ==> final(w).table(old(self).id_spec()) == old(w).table(old(self).id_spec()),
    {
        let kw = k.encode();
        let ov = match v {
            Some(v) => Some(v.encode()),
            None => None,
        };
        let root = self.root.unwrap();
        let ghost id = self.id as int;
        let ghost dir0 = TxRead::dir(w);
        let ghost trees0 = TxRead::trees(w);
        let ghost s0 = old(w).table(id);
        proof {
            assert(trees0[root] == s0);
            if del_hits(s0, kw, ov) {
                match ov {
                    Some(vw) => {
                        lemma_remove_exact(s0, (kw, vw));
                        s0.remove_ensures(lower_bound(s0, kw, ov));
                    },
                    None => {
                        lemma_remove_first_of_key(s0, kw);
                        s0.remove_ensures(lower_bound(s0, kw, ov));
                    },
                }
            }
        }
        match w.tree_del(root, kw, ov) {
            Err(e) => Err(e),
            Ok((nr, deleted)) => {
                let ghost out = del_result(s0, kw, ov);
                if nr != root {
                    self.root = Some(nr);
                    w.set_root(self.id, nr);
                    proof {
                        let dir1 = TxRead::dir(w);
                        let trees1 = TxRead::trees(w);
                        assert(dir1 == dir0.insert(id, nr));
                        assert(trees1 == trees0.remove(root).insert(nr, out));
                        assert forall|j: int| j != id implies table_of(dir1, trees1, j) == table_of(
                            dir0,
                            trees0,
                            j,
                        ) by {
                            if dir0.dom().contains(j) {
                                assert(dir0[j] != root);
                                assert(dir0[j] != nr);
                            }
                        }
                        assert(table_of(dir1, trees1, id) == out);
                        assert(wf_state(dir1, trees1));
                    }
                } else {
                    proof {
                        if deleted {
                            let trees1 = TxRead::trees(w);
                            assert(trees1 =~= trees0.insert(root, out));
                            assert forall|j: int| j != id implies table_of(dir0, trees1, j)
                                == table_of(dir0, trees0, j) by {
                                if dir0.dom().contains(j) {
                                    assert(dir0[j] != root);
                                }
                            }
                            assert(table_of(dir0, trees1, id) == out);
                            assert(wf_state(dir0, trees1));
                        }
                    }
                }
                Ok(deleted)
            },
        }
    }

    /// Remove every value under `k`, one engine deletion at a time (no
    /// bulk primitive), returning how many pairs went away.
    #[verifier::loop_isolation(false)]
    pub fn rm(&mut self, w: &mut WriteTx, k: &RK) -> (r: Result<usize, DbError>)
        requires
            old(self).wbound(old(w)),
            old(w).wf(),
        ensures
            final(self).id_spec() == old(self).id_spec(),
            final(w).wf(),
            final(self).wbound(final(w)),
            final(w).filled() == old(w).filled(),
            final(w).base() == old(w).base(),
            forall|j: int|
                j != old(self).id_spec() ==> final(w).table(j) == old(w).table(j),
            r matches Ok(n) ==> {
                &&& final(w).table(old(self).id_spec()) == pairs_without_key(
                    old(w).table(old(self).id_spec()),
                    k.wire(),
                )
                &&& n as int == pairs_with_key(old(w).table(old(self).id_spec()), k.wire()).len()
            },
            r is Err ==> {
                let s0 = old(w).table(old(self).id_spec());
                let s1 = final(w).table(old(self).id_spec());
                &&& pairs_without_key(s1, k.wire()) == pairs_without_key(s0, k.wire())
                &&& exists|n: int|
                    0 <= n <= pairs_with_key(s0, k.wire()).len() && pairs_with_key(s1, k.wire())
                        == pairs_with_key(s0, k.wire()).skip(n)
            },
    {
        let kw = k.encode();
        let root0 = self.root.unwrap();
        let id = self.id;
        let ghost idg = self.id as int;
        let ghost dir0 = TxRead::dir(w);
        let ghost trees0 = TxRead::trees(w);
        let ghost s0 = old(w).table(idg);
        let ghost ws0 = pairs_with_key(s0, kw);
        proof {
            assert(trees0[root0] == s0);
            assert(trees0.remove(root0).insert(root0, trees0[root0]) =~= trees0);
            assert(pairs_with_key(s0, kw) =~= ws0.skip(0));
            lemma_keyed_projections(s0, kw);
            assert(ws0.len() <= s0.len());
            assert(s0.len() < usize::MAX);
        }
        let mut root: u64 = root0;
        let mut n: usize = 0;
        let mut more = true;
        while more
            invariant
                self.id_spec() == idg,
                self.root_spec() == Some(root0),
                TxRead::dir(w) == dir0,
                w.filled() == old(w).filled(),
                w.base() == old(w).base(),
                TxRead::trees(w).dom().contains(root),
                root > 0,
                root == root0 || !trees0.dom().contains(root),
                TxRead::trees(w) == trees0.remove(root0).insert(root, TxRead::trees(w)[root]),
                sorted(TxRead::trees(w)[root]),
                TxRead::trees(w)[root].len() < usize::MAX,
                pairs_without_key(TxRead::trees(w)[root], kw) == pairs_without_key(s0, kw),
                pairs_with_key(TxRead::trees(w)[root], kw) == ws0.skip(n as int),
                n as int <= ws0.len(),
                !more ==> !has_key(TxRead::trees(w)[root], kw),
            decreases pairs_with_key(TxRead::trees(w)[root], kw).len() + (if more {
                1int
            } else {
                0int
            }),
        {
            let ghost cur = TxRead::trees(w)[root];
            proof {
                if del_hits(cur, kw, None) {
                    lemma_remove_first_of_key(cur, kw);
                    cur.remove_ensures(lower_bound(cur, kw, None));
                    lemma_keyed_projections(cur, kw);
                }
            }
            match w.tree_del(root, kw, None) {
                Err(e) => {
                    if root != root0 {
                        self.root = Some(root);
                        w.set_root(id, root);
                        proof {
                            let dir1 = TxRead::dir(w);
                            let trees1 = TxRead::trees(w);
                            assert(dir1 == dir0.insert(idg, root));
                            assert forall|j: int| j != idg implies table_of(dir1, trees1, j)
                                == table_of(dir0, trees0, j) by {
                                if dir0.dom().contains(j) {
                                    assert(dir0[j] != root0);
                                    assert(dir0[j] != root);
                                }
                            }
                            assert(wf_state(dir1, trees1));
                            assert(table_of(dir1, trees1, idg) == cur);
                            assert(pairs_with_key(cur, kw) == ws0.skip(n as int));
                        }
                    } else {
                        proof {
                            let trees1 = TxRead::trees(w);
                            assert(trees1 =~= trees0.insert(root0, trees1[root0]));
                            assert forall|j: int| j != idg implies table_of(dir0, trees1, j)
                                == table_of(dir0, trees0, j) by {
                                if dir0.dom().contains(j) {
                                    assert(dir0[j] != root0);
                                }
                            }
                            assert(wf_state(dir0, trees1));
                            assert(table_of(dir0, trees1, idg) == cur);
                            assert(pairs_with_key(cur, kw) == ws0.skip(n as int));
                        }
                    }
                    return Err(e);
                },
                Ok((nr, deleted)) => {
                    if deleted {
                        proof {
                            let curn = del_result(cur, kw, None);
                            let treesn = TxRead::trees(w);
                            assert(treesn == (trees0.remove(root0).insert(root, cur)).remove(
                                root,
                            ).insert(nr, curn));
                            assert(treesn =~= trees0.remove(root0).insert(nr, curn));
                            assert(ws0.skip(n as int).drop_first() =~= ws0.skip(n as int + 1));
                            assert(pairs_with_key(cur, kw).len() > 0);
                        }
                        n = n + 1;
                        root = nr;
                    } else {
                        more = false;
                    }
                },
            }
        }
        let ghost cur = TxRead::trees(w)[root];
        proof {
            lemma_no_key(cur, kw);
            assert(cur == pairs_without_key(s0, kw));
            lemma_keyed_projections(cur, kw);
            assert(ws0.skip(n as int).len() == 0);
            assert(n as int == ws0.len());
        }
        if root != root0 {
            self.root = Some(root);
            w.set_root(id, root);
            proof {
                let dir1 = TxRead::dir(w);
                let trees1 = TxRead::trees(w);
                assert(dir1 == dir0.insert(idg, root));
                assert forall|j: int| j != idg implies table_of(dir1, trees1, j) == table_of(
                    dir0,
                    trees0,
                    j,
                ) by {
                    if dir0.dom().contains(j) {
                        assert(dir0[j] != root0);
                        assert(dir0[j] != root);
                    }
                }
                assert(table_of(dir1, trees1, idg) == cur);
                assert(wf_state(dir1, trees1));
            }
        } else {
            proof {
                let trees1 = TxRead::trees(w);
                assert(trees1 =~= trees0.insert(root0, cur));
                assert forall|j: int| j != idg implies table_of(dir0, trees1, j) == table_of(
                    dir0,
                    trees0,
                    j,
                ) by {
                    if dir0.dom().contains(j) {
                        assert(dir0[j] != root0);
                    }
                }
                assert(table_of(dir0, trees1, idg) == cur);
                assert(wf_state(dir0, trees1));
            }
        }
        Ok(n)
    }

    /// Replace whatever is stored under `k` by the single pair
    /// `(k, v)`: every old value goes first, then the new pair goes
    /// in.  The two steps are separate engine calls; interrupted
    /// between them, the key is absent, never doubled.
    pub fn upsert(&mut self, w: &mut WriteTx, k: &RK, v: &RV) -> (r: Result<bool, DbError>)
        requires
            old(self).wbound(old(w)),
            old(w).wf(),
        ensures
            final(self).id_spec() == old(self).id_spec(),
            final(w).wf(),
            final(self).wbound(final(w)),
            final(w).filled() == old(w).filled(),
            final(w).base() == old(w).base(),
            forall|j: int|
                j != old(self).id_spec() ==> final(w).table(j) == old(w).table(j),
            r matches Ok(b) ==> {
                &&& final(w).table(old(self).id_spec()) == insert_pair(
                    pairs_without_key(old(w).table(old(self).id_spec()), k.wire()),
                    (k.wire(), v.wire()),
                )
                &&& b == true
            },
            r is Err ==> {
                let s0 = old(w).table(old(self).id_spec());
                let s1 = final(w).table(old(self).id_spec());
                &&& pairs_without_key(s1, k.wire()) == pairs_without_key(s0, k.wire())
                &&& exists|n: int|
                    0 <= n <= pairs_with_key(s0, k.wire()).len() && pairs_with_key(s1, k.wire())
                        == pairs_with_key(s0, k.wire()).skip(n)
            },
    {
        let ghost kw = k.wire();
        let ghost s0 = old(w).table(self.id as int);
        let ghost ws0 = pairs_with_key(s0, kw);
        match self.rm(w, k) {
            Ok(_) => {},
            Err(e) => {
                return Err(e);
            },
        }
        proof {
            lemma_keyed_projections(s0, kw);
            let wo = pairs_without_key(s0, kw);
            lemma_keyed_projections(wo, kw);
            assert(!has_key(wo, kw)) by {
                if has_key(wo, kw) {
                    let i = choose|i: int| 0 <= i < wo.len() && wo[i].0 == kw;
                    assert(wo.contains(wo[i]));
                    assert(false);
                }
            }
            lemma_no_key(wo, kw);
            assert(pairs_with_key(wo, kw) =~= ws0.skip(ws0.len() as int));
        }
        let r = self.put(w, k, v);
        proof {
            let q = (kw, v.wire());
            if pairs_without_key(s0, kw).contains(q) {
                assert(q.0 == kw);
                assert(false);
            }
        }
        r
    }
}

} // verus!
