//! The iterator kinds a bound table offers: forward and reverse range
//! scans, and the key-scoped scan that yields exactly one key's run.
//!
//! All three are lazy, cursor-driven, forward-only and bound to the
//! transaction they were started under, which each `next` call takes
//! by reference.  A table bound without a root (never created) simply
//! iterates as empty.
use vstd::prelude::*;

use crate::dbpage::{origin_wire, Encode};
use crate::engine::{DbError, RevScan, Scan, TxRead};
use crate::model::{
    at_or_after, key_run, lemma_key_run_is_projection, lemma_lower_bound, lemma_rev_take_step,
    lower_bound, origin_index, pairs_with_key, rev_origin_take, wf_state,
};
use crate::txdb::TxDb;

verus! {

/// A forward range scan: yields pairs in strictly ascending
/// (key, value) order, from the origin to the table's end.
pub struct Iter {
    pub(crate) inner: Option<Scan>,
}

impl Iter {
    /// The pairs still to be yielded, in yield order.
    pub closed spec fn remaining(&self) -> Seq<(u64, u64)> {
        match self.inner {
            None => Seq::empty(),
            Some(c) => c.remaining(),
        }
    }

    /// The scan may be advanced under `tx`: its cursor still walks a
    /// tree that `tx` holds, unchanged since the scan began.
    pub closed spec fn valid<T: TxRead>(&self, tx: &T) -> bool {
        match self.inner {
            None => true,
            Some(c) => tx.trees().dom().contains(c.root()) && tx.trees()[c.root()] == c.full(),
        }
    }

    /// Yield the next pair, or `None` after the last.  An engine fault
    /// terminates the scan: it is reported once, and the scan is then
    /// empty and yields nothing more.
    pub fn next<T: TxRead>(&mut self, tx: &T) -> (r: Result<Option<(u64, u64)>, DbError>)
        requires
            old(self).valid(tx),
        ensures
            r matches Ok(p) ==> {
                &&& final(self).valid(tx)
                &&& match p {
                    Some(pair) => {
                        &&& old(self).remaining().len() > 0
                        &&& pair == old(self).remaining()[0]
                        &&& final(self).remaining() == old(self).remaining().drop_first()
                    },
                    None => {
                        &&& old(self).remaining().len() == 0
                        &&& final(self).remaining() == old(self).remaining()
                    },
                }
            },
            r is Err ==> final(self).remaining().len() == 0 && final(self).valid(tx),
    {
        match self.inner.take() {
            None => Ok(None),
            Some(mut c) => {
                let r = tx.iter_next(&mut c);
                match r {
                    Ok(p) => {
                        self.inner = Some(c);
                        Ok(p)
                    },
                    Err(e) => Err(e),
                }
            },
        }
    }
}

/// A reverse range scan: yields pairs in strictly descending
/// (key, value) order, from the origin back to the table's start.
/// One pair may sit in `pending`: the scan's settled start, held here
/// because the engine's cursor can stand one pair past an absent
/// origin and has no way back.
pub struct RevIter {
    pub(crate) inner: Option<RevScan>,
    pub(crate) pending: Option<(u64, u64)>,
}

impl RevIter {
    /// The pairs still to be yielded, in yield order (descending).
    pub closed spec fn remaining(&self) -> Seq<(u64, u64)> {
        let tail = match self.inner {
            None => Seq::<(u64, u64)>::empty(),
            Some(c) => c.remaining(),
        };
        match self.pending {
            None => tail,
            Some(p) => seq![p] + tail,
        }
    }

    pub closed spec fn valid<T: TxRead>(&self, tx: &T) -> bool {
        match self.inner {
            None => true,
            Some(c) => tx.trees().dom().contains(c.root()) && tx.trees()[c.root()] == c.full(),
        }
    }

    /// Yield the next pair in descending order, or `None` after the
    /// table's first pair.  An engine fault terminates the scan: it is
    /// reported once, and the scan is then empty and yields nothing
    /// more.
    pub fn next<T: TxRead>(&mut self, tx: &T) -> (r: Result<Option<(u64, u64)>, DbError>)
        requires
            old(self).valid(tx),
        ensures
            r matches Ok(p) ==> {
                &&& final(self).valid(tx)
                &&& match p {
                    Some(pair) => {
                        &&& old(self).remaining().len() > 0
                        &&& pair == old(self).remaining()[0]
                        &&& final(self).remaining() == old(self).remaining().drop_first()
                    },
                    None => {
                        &&& old(self).remaining().len() == 0
                        &&& final(self).remaining() == old(self).remaining()
                    },
                }
            },
            r is Err ==> final(self).remaining().len() == 0 && final(self).valid(tx),
    {
        if let Some(p) = self.pending {
            self.pending = None;
            proof {
                assert(old(self).remaining() == seq![p] + self.remaining());
                assert((seq![p] + self.remaining()).drop_first() =~= self.remaining());
            }
            return Ok(Some(p));
        }
        match self.inner.take() {
            None => Ok(None),
            Some(mut c) => {
                let r = tx.riter_next(&mut c);
                match r {
                    Ok(p) => {
                        self.inner = Some(c);
                        Ok(p)
                    },
                    Err(e) => Err(e),
                }
            },
        }
    }
}

/// The key-scoped scan: positioned at the first pair of its key, it
/// yields that key's pairs in ascending value order and stops cold at
/// the first pair of another key, which it never yields.
pub struct KeyIter {
    pub(crate) inner: Option<Scan>,
    pub(crate) key: u64,
    pub(crate) done: bool,
}

impl KeyIter {
    pub closed spec fn key_spec(&self) -> u64 {
        self.key
    }

    /// The pairs still to be yielded: the run of this key at the
    /// cursor's position, or nothing once the scan is done.
    pub closed spec fn produces(&self) -> Seq<(u64, u64)> {
        if self.done {
            Seq::empty()
        } else {
            match self.inner {
                None => Seq::empty(),
                Some(c) => key_run(c.remaining(), self.key_spec()),
            }
        }
    }

    pub closed spec fn valid<T: TxRead>(&self, tx: &T) -> bool {
        match self.inner {
            None => true,
            Some(c) => tx.trees().dom().contains(c.root()) && tx.trees()[c.root()] == c.full(),
        }
    }

    /// Yield the next pair of the key, or `None` once the run ends
    /// (the pair that ends it is not yielded).  An engine fault
    /// terminates the scan: it is reported once, and the scan is then
    /// empty and yields nothing more.
    pub fn next<T: TxRead>(&mut self, tx: &T) -> (r: Result<Option<(u64, u64)>, DbError>)
        requires
            old(self).valid(tx),
        ensures
            r is Err ==> final(self).produces().len() == 0 && final(self).valid(tx),
            r matches Ok(p) ==> {
                &&& final(self).valid(tx)
                &&& match p {
                    Some(pair) => {
                        &&& old(self).produces().len() > 0
                        &&& pair == old(self).produces()[0]
                        &&& final(self).produces() == old(self).produces().drop_first()
                    },
                    None => {
                        &&& old(self).produces().len() == 0
                        &&& final(self).produces() == old(self).produces()
                    },
                }
            },
    {
        if self.done {
            return Ok(None);
        }
        match self.inner.take() {
            None => Ok(None),
            Some(mut c) => {
                let r = tx.iter_next(&mut c);
                match r {
                    Ok(Some((k2, v2))) => {
                        self.inner = Some(c);
                        if k2 == self.key {
                            Ok(Some((k2, v2)))
                        } else {
                            self.done = true;
                            Ok(None)
                        }
                    },
                    Ok(None) => {
                        self.inner = Some(c);
                        self.done = true;
                        Ok(None)
                    },
                    Err(e) => Err(e),
                }
            },
        }
    }
}

impl<RK: Encode<u64>, RV: Encode<u64>> TxDb<RK, RV> {
    /// Scan forward from the optional origin: no key means the first
    /// pair; a key without a value means the first pair of that key;
    /// a key with a value means that exact pair, or the next one in
    /// ascending order.
    pub fn iter<T: TxRead>(&self, tx: &T, k: Option<&RK>, v: Option<&RV>) -> (r: Result<
        Iter,
        DbError,
    >)
        requires
            self.bound(tx),
            wf_state(tx.dir(), tx.trees()),
        ensures
            r matches Ok(it) ==> {
                let s = self.contents(tx);
                &&& it.valid(tx)
                &&& it.remaining() == s.skip(origin_index(s, origin_wire(k, v)))
            },
            self.root_spec() is None ==> r is Ok,
    {
        let ow = match k {
            None => None,
            Some(k) => Some(
                (k.encode(), match v {
                    None => None,
                    Some(v) => Some(v.encode()),
                }),
            ),
        };
        match self.root_ref() {
            None => {
                proof {
                    let s = self.contents(tx);
                    assert(s.skip(origin_index(s, origin_wire(k, v))) =~= Seq::<(u64, u64)>::empty());
                }
                Ok(Iter { inner: None })
            },
            Some(root) => {
                match tx.iter_from(root, ow) {
                    Err(e) => Err(e),
                    Ok(c) => Ok(Iter { inner: Some(c) }),
                }
            },
        }
    }

    /// Scan backward from the optional origin: no key means the last
    /// pair; with a key the scan starts at the origin's pair when the
    /// table holds it (for a key alone: at the first pair of that
    /// key), else at the next pair in descending order, and runs down
    /// to the first pair.  The engine's cursor may stand one pair past
    /// an absent origin, so the start is settled here: the first step
    /// is taken at once, and a pair above the origin is dropped while
    /// a pair at or below it is kept back for the first `next`.
    pub fn riter<T: TxRead>(&self, tx: &T, k: Option<&RK>, v: Option<&RV>) -> (r: Result<
        RevIter,
        DbError,
    >)
        requires
            self.bound(tx),
            wf_state(tx.dir(), tx.trees()),
        ensures
            r matches Ok(it) ==> {
                &&& it.valid(tx)
                &&& it.remaining() == rev_origin_take(self.contents(tx), origin_wire(k, v))
            },
            self.root_spec() is None ==> r is Ok,
    {
        let ow: Option<(u64, Option<u64>)> = match k {
            None => None,
            Some(k) => Some(
                (k.encode(), match v {
                    None => None,
                    Some(v) => Some(v.encode()),
                }),
            ),
        };
        let ghost s = self.contents(tx);
        match self.root_ref() {
            None => {
                proof {
                    assert(s.reverse() =~= Seq::<(u64, u64)>::empty());
                    assert(s.take(0).reverse() =~= Seq::<(u64, u64)>::empty());
                }
                Ok(RevIter { inner: None, pending: None })
            },
            Some(root) => {
                let mut c = match tx.riter_from(root, ow) {
                    Err(e) => {
                        return Err(e);
                    },
                    Ok(c) => c,
                };
                let (kw, ovw) = match ow {
                    None => {
                        return Ok(RevIter { inner: Some(c), pending: None });
                    },
                    Some(b) => b,
                };
                let ghost lo = lower_bound(s, kw, ovw);
                proof {
                    lemma_lower_bound(s, kw, ovw);
                }
                match tx.riter_next(&mut c) {
                    Err(e) => Err(e),
                    Ok(None) => {
                        proof {
                            assert(lo == 0);
                            assert(s.take(0).reverse() =~= Seq::<(u64, u64)>::empty());
                        }
                        Ok(RevIter { inner: Some(c), pending: None })
                    },
                    Ok(Some(h)) => {
                        let past = match ovw {
                            None => h.0 > kw,
                            Some(vw) => h.0 > kw || (h.0 == kw && h.1 > vw),
                        };
                        proof {
                            let hit = lo < s.len() && (match ovw {
                                Some(vw) => s[lo] == (kw, vw),
                                None => s[lo].0 == kw,
                            });
                            if hit {
                                lemma_rev_take_step(s, lo + 1);
                                assert(h == s[lo]);
                                assert(!past);
                            } else {
                                if c.remaining().len() + 1 == lo {
                                    lemma_rev_take_step(s, lo);
                                    assert(h == s[lo - 1]);
                                    assert(!at_or_after(kw, ovw, h));
                                    assert(!past);
                                } else {
                                    lemma_rev_take_step(s, lo + 1);
                                    assert(h == s[lo]);
                                    assert(at_or_after(kw, ovw, h));
                                    assert(past) by {
                                        if ovw is Some {
                                            assert(h != (kw, ovw->0));
                                        }
                                    }
                                }
                            }
                        }
                        if past {
                            Ok(RevIter { inner: Some(c), pending: None })
                        } else {
                            proof {
                                assert(seq![h] + c.remaining() =~= rev_origin_take(s, ow));
                            }
                            Ok(RevIter { inner: Some(c), pending: Some(h) })
                        }
                    },
                }
            },
        }
    }

    /// Scan exactly the pairs stored under `k`, in ascending value
    /// order; an absent key yields nothing.
    pub fn key_iter<T: TxRead>(&self, tx: &T, k: &RK) -> (r: Result<KeyIter, DbError>)
        requires
            self.bound(tx),
            wf_state(tx.dir(), tx.trees()),
        ensures
            r matches Ok(it) ==> {
                &&& it.valid(tx)
                &&& it.produces() == pairs_with_key(self.contents(tx), k.wire())
            },
            self.root_spec() is None ==> r is Ok,
    {
        let kw = k.encode();
        match self.root_ref() {
            None => Ok(KeyIter { inner: None, key: kw, done: false }),
            Some(root) => {
                proof {
                    lemma_key_run_is_projection(self.contents(tx), kw);
                }
                match tx.iter_from(root, Some((kw, None))) {
                    Err(e) => Err(e),
                    Ok(c) => Ok(KeyIter { inner: Some(c), key: kw, done: false }),
                }
            },
        }
    }
}

} // verus!
