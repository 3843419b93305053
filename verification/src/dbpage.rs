//! Table handles and the representation adapter.
//!
//! A [`DbPage`] names one table: it captures the table id and the
//! application key/value types, and carries no transaction state.
//! The [`Encode`] adapter turns an application value into the `u64`
//! wire form the store keeps on disk.
use vstd::prelude::*;

use crate::engine::{DbError, Tx, TxRead, ROOT_SLOTS};
use crate::model::{
    del_hits, del_result, insert_pair, one_spec, origin_index, pairs_with_key, pairs_without_key,
    rev_origin_take,
};

verus! {

/// Conversion of an application type into its on-disk wire form.
/// `wire` is the specification-level image; `encode` computes it.
pub trait Encode<W>: Sized {
    spec fn wire(&self) -> W;

    fn encode(&self) -> (w: W)
        ensures
            w == self.wire(),
    ;
}

/// The identity policy: the wire form is the value itself.
impl Encode<u64> for u64 {
    open spec fn wire(&self) -> u64 {
        *self
    }

    fn encode(&self) -> (w: u64) {
        *self
    }
}

/// Widening policies: smaller fixed-width integers keep their value
/// (and hence their order) in the wire form.
impl Encode<u64> for u32 {
    open spec fn wire(&self) -> u64 {
        *self as u64
    }

    fn encode(&self) -> (w: u64) {
        *self as u64
    }
}

impl Encode<u64> for u16 {
    open spec fn wire(&self) -> u64 {
        *self as u64
    }

    fn encode(&self) -> (w: u64) {
        *self as u64
    }
}

impl Encode<u64> for u8 {
    open spec fn wire(&self) -> u64 {
        *self as u64
    }

    fn encode(&self) -> (w: u64) {
        *self as u64
    }
}

/// A typed, transaction-free reference to one numbered table: just
/// the id and the phantom key/value types.  Binding it to an open
/// transaction yields the operations.
pub struct DbPage<RK, RV> {
    pub id: usize,
    pub _kv: core::marker::PhantomData<(RK, RV)>,
}

impl<RK: Encode<u64>, RV: Encode<u64>> DbPage<RK, RV> {
    /// Insert `(k, v)` in a write transaction of its own, committed on
    /// success.  Returns the handle and whether the table changed; on
    /// a failure before commit, the error comes back beside the handle
    /// with every table as it was, and only a commit failure — fatal,
    /// per the store's error model — loses the handle.
    pub fn put(&self, tx: Tx, k: &RK, v: &RV) -> (r: Result<(Tx, bool), (DbError, Option<Tx>)>)
        requires
            self.id < ROOT_SLOTS,
            tx.wf(),
        ensures
            r matches Ok(p) ==> {
                &&& p.0.wf()
                &&& p.0.table(self.id as int) == insert_pair(
                    tx.table(self.id as int),
                    (k.wire(), v.wire()),
                )
                &&& p.1 == !tx.table(self.id as int).contains((k.wire(), v.wire()))
                &&& forall|j: int| j != self.id as int ==> p.0.table(j) == tx.table(j)
            },
            r matches Err(p) ==> (p.1 matches Some(t) ==> t.dir() == tx.dir() && t.trees()
                == tx.trees()),
    {
        let mut w = match tx.w() {
            Ok(w) => w,
            Err((e, t)) => return Err((e, Some(t))),
        };
        let mut t = match w.db(self) {
            Ok(t) => t,
            Err(e) => {
                let t2 = w.discard();
                return Err((e, Some(t2)));
            },
        };
        let ghost w1 = w;
        let added = match t.put(&mut w, k, v) {
            Ok(b) => b,
            Err(e) => {
                let t2 = w.discard();
                return Err((e, Some(t2)));
            },
        };
        let ghost w2 = w;
        match w.commit() {
            Ok(tx2) => {
                proof {
                    assert forall|j: int| j != self.id as int implies tx2.table(j) == tx.table(
                        j,
                    ) by {
                        assert(tx2.table(j) == w2.table(j));
                        assert(w2.table(j) == w1.table(j));
                        assert(w1.table(j) == tx.table(j));
                    }
                }
                Ok((tx2, added))
            },
            Err(e) => Err((e, None)),
        }
    }

    /// Delete one pair (the exact pair, or the first under the key) in
    /// a write transaction of its own, committed on success; on a
    /// failure before commit the handle comes back beside the error
    /// with every table as it was.
    pub fn rm1(&self, tx: Tx, k: &RK, v: Option<&RV>) -> (r: Result<(Tx, bool), (DbError, Option<Tx>)>)
        requires
            self.id < ROOT_SLOTS,
            tx.wf(),
        ensures
            r matches Ok(p) ==> {
                let ovw = match v {
                    Some(v) => Some(v.wire()),
                    None => None,
                };
                &&& p.0.wf()
                &&& p.0.table(self.id as int) == del_result(tx.table(self.id as int), k.wire(), ovw)
                &&& p.1 == del_hits(tx.table(self.id as int), k.wire(), ovw)
                &&& forall|j: int| j != self.id as int ==> p.0.table(j) == tx.table(j)
            },
            r matches Err(p) ==> (p.1 matches Some(t) ==> t.dir() == tx.dir() && t.trees()
                == tx.trees()),
    {
        let mut w = match tx.w() {
            Ok(w) => w,
            Err((e, t)) => return Err((e, Some(t))),
        };
        let mut t = match w.db(self) {
            Ok(t) => t,
            Err(e) => {
                let t2 = w.discard();
                return Err((e, Some(t2)));
            },
        };
        let ghost w1 = w;
        let deleted = match t.rm1(&mut w, k, v) {
            Ok(b) => b,
            Err(e) => {
                let t2 = w.discard();
                return Err((e, Some(t2)));
            },
        };
        let ghost w2 = w;
        match w.commit() {
            Ok(tx2) => {
                proof {
                    assert forall|j: int| j != self.id as int implies tx2.table(j) == tx.table(
                        j,
                    ) by {
                        assert(tx2.table(j) == w2.table(j));
                        assert(w2.table(j) == w1.table(j));
                        assert(w1.table(j) == tx.table(j));
                    }
                }
                Ok((tx2, deleted))
            },
            Err(e) => Err((e, None)),
        }
    }

    /// Remove every value under `k` in a write transaction of its own,
    /// committed on success; returns how many pairs went away.  A
    /// failure before commit discards the transaction whole, so the
    /// handle comes back beside the error with every table as it was.
    pub fn rm(&self, tx: Tx, k: &RK) -> (r: Result<(Tx, usize), (DbError, Option<Tx>)>)
        requires
            self.id < ROOT_SLOTS,
            tx.wf(),
        ensures
            r matches Ok(p) ==> {
                &&& p.0.wf()
                &&& p.0.table(self.id as int) == pairs_without_key(
                    tx.table(self.id as int),
                    k.wire(),
                )
                &&& p.1 as int == pairs_with_key(tx.table(self.id as int), k.wire()).len()
                &&& forall|j: int| j != self.id as int ==> p.0.table(j) == tx.table(j)
            },
            r matches Err(p) ==> (p.1 matches Some(t) ==> t.dir() == tx.dir() && t.trees()
                == tx.trees()),
    {
        let mut w = match tx.w() {
            Ok(w) => w,
            Err((e, t)) => return Err((e, Some(t))),
        };
        let mut t = match w.db(self) {
            Ok(t) => t,
            Err(e) => {
                let t2 = w.discard();
                return Err((e, Some(t2)));
            },
        };
        let ghost w1 = w;
        let n = match t.rm(&mut w, k) {
            Ok(n) => n,
            Err(e) => {
                let t2 = w.discard();
                return Err((e, Some(t2)));
            },
        };
        let ghost w2 = w;
        match w.commit() {
            Ok(tx2) => {
                proof {
                    assert forall|j: int| j != self.id as int implies tx2.table(j) == tx.table(
                        j,
                    ) by {
                        assert(tx2.table(j) == w2.table(j));
                        assert(w2.table(j) == w1.table(j));
                        assert(w1.table(j) == tx.table(j));
                    }
                }
                Ok((tx2, n))
            },
            Err(e) => Err((e, None)),
        }
    }

    /// First (smallest) value under `k`, read from a fresh snapshot.
    pub fn one(&self, tx: &Tx, k: &RK) -> (r: Result<Option<u64>, DbError>)
        requires
            self.id < ROOT_SLOTS,
            tx.wf(),
        ensures
            r matches Ok(o) ==> o == one_spec(tx.table(self.id as int), k.wire()),
    {
        let rt = match tx.r() {
            Ok(rt) => rt,
            Err(e) => return Err(e),
        };
        let t = rt.db(self);
        t.one(&rt, k)
    }

    /// Is the exact pair `(k, v)` stored?  Read from a fresh snapshot.
    pub fn exist(&self, tx: &Tx, k: &RK, v: &RV) -> (r: Result<bool, DbError>)
        requires
            self.id < ROOT_SLOTS,
            tx.wf(),
        ensures
            r matches Ok(b) ==> b == tx.table(self.id as int).contains((k.wire(), v.wire())),
    {
        let rt = match tx.r() {
            Ok(rt) => rt,
            Err(e) => return Err(e),
        };
        let t = rt.db(self);
        t.exist(&rt, k, v)
    }

    /// Every pair under `k`, in ascending value order, collected from a
    /// fresh snapshot.
    pub fn key_iter(&self, tx: &Tx, k: &RK) -> (r: Result<Vec<(u64, u64)>, DbError>)
        requires
            self.id < ROOT_SLOTS,
            tx.wf(),
        ensures
            r matches Ok(ps) ==> ps@ == pairs_with_key(tx.table(self.id as int), k.wire()),
    {
        let rt = match tx.r() {
            Ok(rt) => rt,
            Err(e) => return Err(e),
        };
        let t = rt.db(self);
        let mut it = match t.key_iter(&rt, k) {
            Ok(it) => it,
            Err(e) => return Err(e),
        };
        let ghost total = pairs_with_key(tx.table(self.id as int), k.wire());
        let mut out: Vec<(u64, u64)> = Vec::new();
        let mut more = true;
        while more
            invariant
                it.valid(&rt),
                out@ + it.produces() == total,
                !more ==> it.produces().len() == 0,
            decreases it.produces().len() + (if more {
                1int
            } else {
                0int
            }),
        {
            let ghost out0 = out@;
            let ghost rem0 = it.produces();
            match it.next(&rt) {
                Err(e) => return Err(e),
                Ok(None) => {
                    more = false;
                },
                Ok(Some(p)) => {
                    out.push(p);
                    proof {
                        assert(out0.push(p) + rem0.drop_first() =~= out0 + rem0);
                    }
                },
            }
        }
        proof {
            assert(out@ =~= total);
        }
        Ok(out)
    }

    /// All pairs from the optional origin to the table's end, in
    /// ascending order, collected from a fresh snapshot.
    pub fn iter(&self, tx: &Tx, k: Option<&RK>, v: Option<&RV>) -> (r: Result<
        Vec<(u64, u64)>,
        DbError,
    >)
        requires
            self.id < ROOT_SLOTS,
            tx.wf(),
        ensures
            r matches Ok(ps) ==> {
                let s = tx.table(self.id as int);
                ps@ == s.skip(origin_index(s, origin_wire(k, v)))
            },
    {
        let rt = match tx.r() {
            Ok(rt) => rt,
            Err(e) => return Err(e),
        };
        let t = rt.db(self);
        let mut it = match t.iter(&rt, k, v) {
            Ok(it) => it,
            Err(e) => return Err(e),
        };
        let ghost total = it.remaining();
        let mut out: Vec<(u64, u64)> = Vec::new();
        let mut more = true;
        while more
            invariant
                it.valid(&rt),
                out@ + it.remaining() == total,
                !more ==> it.remaining().len() == 0,
            decreases it.remaining().len() + (if more {
                1int
            } else {
                0int
            }),
        {
            let ghost out0 = out@;
            let ghost rem0 = it.remaining();
            match it.next(&rt) {
                Err(e) => return Err(e),
                Ok(None) => {
                    more = false;
                },
                Ok(Some(p)) => {
                    out.push(p);
                    proof {
                        assert(out0.push(p) + rem0.drop_first() =~= out0 + rem0);
                    }
                },
            }
        }
        proof {
            assert(out@ =~= total);
        }
        Ok(out)
    }

    /// All pairs from the optional origin back to the table's start,
    /// in descending order, collected from a fresh snapshot.
    pub fn riter(&self, tx: &Tx, k: Option<&RK>, v: Option<&RV>) -> (r: Result<
        Vec<(u64, u64)>,
        DbError,
    >)
        requires
            self.id < ROOT_SLOTS,
            tx.wf(),
        ensures
            r matches Ok(ps) ==> ps@ == rev_origin_take(tx.table(self.id as int), origin_wire(k, v)),
    {
        let rt = match tx.r() {
            Ok(rt) => rt,
            Err(e) => return Err(e),
        };
        let t = rt.db(self);
        let mut it = match t.riter(&rt, k, v) {
            Ok(it) => it,
            Err(e) => return Err(e),
        };
        let ghost total = it.remaining();
        let mut out: Vec<(u64, u64)> = Vec::new();
        let mut more = true;
        while more
            invariant
                it.valid(&rt),
                out@ + it.remaining() == total,
                !more ==> it.remaining().len() == 0,
            decreases it.remaining().len() + (if more {
                1int
            } else {
                0int
            }),
        {
            let ghost out0 = out@;
            let ghost rem0 = it.remaining();
            match it.next(&rt) {
                Err(e) => return Err(e),
                Ok(None) => {
                    more = false;
                },
                Ok(Some(p)) => {
                    out.push(p);
                    proof {
                        assert(out0.push(p) + rem0.drop_first() =~= out0 + rem0);
                    }
                },
            }
        }
        proof {
            assert(out@ =~= total);
        }
        Ok(out)
    }
}

/// The wire form of an optional iteration origin, as handed to the
/// engine: no key means no origin, and the value only counts beside a
/// key.
pub open spec fn origin_wire<RK: Encode<u64>, RV: Encode<u64>>(
    k: Option<&RK>,
    v: Option<&RV>,
) -> Option<(u64, Option<u64>)> {
    match k {
        None => None,
        Some(k) => Some(
            (k.wire(), match v {
                None => None,
                Some(v) => Some(v.wire()),
            }),
        ),
    }
}

} // verus!
