//! The trusted boundary around the sanakirja storage engine.
//!
//! Everything Verus believes about the engine is stated here, as
//! contracts over a ghost model: a directory from table id to root
//! page (`dir`), and a map from live root page to the sorted pair
//! sequence of its tree (`trees`).  Each item's doc comment names the
//! engine function relied on.  The rest of the crate is verified
//! against these contracts and never touches the engine directly.
use vstd::prelude::*;

use crate::model::{
    del_hits, del_result, dir_root, first_at_or_after, insert_pair, lower_bound, origin_index,
    table_of, wf_state,
};
use sanakirja::Commit;
use vstd::pervasive::arbitrary;

verus! {

/// Number of root slots on a sanakirja root page (4096 bytes minus a
/// 32-byte header, 8 bytes a slot): table ids must stay below this.
pub const ROOT_SLOTS: usize = 508;

#[verifier::external_type_specification]
#[verifier::external_body]
pub struct ExEnv(sanakirja::Env);

#[verifier::external_type_specification]
#[verifier::external_body]
#[verifier::reject_recursive_types(E)]
pub struct ExTxn<E: std::borrow::Borrow<sanakirja::Env>>(sanakirja::Txn<E>);

#[verifier::external_type_specification]
#[verifier::external_body]
#[verifier::reject_recursive_types(E)]
#[verifier::reject_recursive_types(T)]
pub struct ExMutTxn<E: std::borrow::Borrow<sanakirja::Env>, T>(sanakirja::MutTxn<E, T>);

#[verifier::external_type_specification]
#[verifier::external_body]
pub struct ExSkError(sanakirja::Error);

/// An error of the store.  Engine faults carry the engine's own error
/// value whole, so callers see its diagnostic detail; opening with
/// options outside the engine's limits is rejected up front.
#[derive(Debug)]
pub enum DbError {
    /// The engine's error, unwrapped.
    Engine(sanakirja::Error),
    /// The effective open options break the engine's limits: the
    /// version budget must fit in a byte and be at least one, and the
    /// initial size must hold a root page for every version.
    InvalidOptions,
}

/// The engine's cursor over one `u64 -> u64` tree, held opaquely
/// (Verus refuses to declare its type, whose generics carry the
/// engine's `BTreePage` trait as a bound): its position is modelled by
/// the ghost fields of [`Scan`] and [`RevScan`], which the trusted
/// cursor steps keep in line.
#[verifier::external_body]
pub(crate) struct RawCursor {
    c: sanakirja::btree::Cursor<u64, u64, sanakirja::btree::page::Page<u64, u64>>,
}

/// A forward cursor over one table, yielding pairs in ascending
/// (key, value) order.  `full()` is the table it walks, `remaining()`
/// what is still to come.
pub struct Scan {
    raw: RawCursor,
    root: u64,
    full: Ghost<Seq<(u64, u64)>>,
    rem: Ghost<Seq<(u64, u64)>>,
}

impl Scan {
    pub closed spec fn root(&self) -> u64 {
        self.root
    }

    pub closed spec fn full(&self) -> Seq<(u64, u64)> {
        self.full@
    }

    pub closed spec fn remaining(&self) -> Seq<(u64, u64)> {
        self.rem@
    }
}

/// A reverse cursor over one table, yielding pairs in descending
/// (key, value) order.
pub struct RevScan {
    raw: RawCursor,
    root: u64,
    full: Ghost<Seq<(u64, u64)>>,
    rem: Ghost<Seq<(u64, u64)>>,
}

impl RevScan {
    pub closed spec fn root(&self) -> u64 {
        self.root
    }

    pub closed spec fn full(&self) -> Seq<(u64, u64)> {
        self.full@
    }

    pub closed spec fn remaining(&self) -> Seq<(u64, u64)> {
        self.rem@
    }
}

/// The options a store was opened with, kept at the specification
/// level: the file name inside the directory, the initial size of the
/// backing file in bytes, and the version-retention budget.
pub struct StoreOpts {
    pub filename: Seq<char>,
    pub init_size: u64,
    pub max_tx: usize,
}

/// The environment handle: the open store.  Its ghost fields denote
/// the committed state, which only [`WriteTx::commit`] changes; the
/// model therefore assumes all writes to the store go through this
/// one handle, which its move-based lifecycle enforces within a
/// process.
pub struct Tx {
    env: std::sync::Arc<sanakirja::Env>,
    fresh: bool,
    gdir: Ghost<Map<int, u64>>,
    gtrees: Ghost<Map<u64, Seq<(u64, u64)>>>,
    gopts: Ghost<StoreOpts>,
    gbudget: Ghost<usize>,
}

/// A read transaction: a snapshot of the committed state as of its
/// beginning.  Its ghost fields never change.
pub struct ReadTx {
    txn: sanakirja::Txn<std::sync::Arc<sanakirja::Env>>,
    gdir: Ghost<Map<int, u64>>,
    gtrees: Ghost<Map<u64, Seq<(u64, u64)>>>,
}

/// A write transaction.  It owns the environment handle while it
/// lives; `commit` hands it back with the new state, `discard` with
/// the old.  `filled()` is how much of the engine's in-memory root
/// vector has been written: root writes must stay within it, so the
/// vector never zero-fills a gap over live directory entries.
pub struct WriteTx {
    parent: Tx,
    txn: sanakirja::MutTxn<std::sync::Arc<sanakirja::Env>, ()>,
    gdir: Ghost<Map<int, u64>>,
    gtrees: Ghost<Map<u64, Seq<(u64, u64)>>>,
    gfilled: Ghost<int>,
}

impl Tx {
    pub closed spec fn dir(&self) -> Map<int, u64> {
        self.gdir@
    }

    pub closed spec fn trees(&self) -> Map<u64, Seq<(u64, u64)>> {
        self.gtrees@
    }

    /// The contents of table `id` in the committed state.
    pub open spec fn table(&self, id: int) -> Seq<(u64, u64)> {
        table_of(self.dir(), self.trees(), id)
    }

    pub open spec fn wf(&self) -> bool {
        wf_state(self.dir(), self.trees())
    }

    /// The options this store was opened with, after defaulting.
    pub closed spec fn opts(&self) -> StoreOpts {
        self.gopts@
    }

    pub closed spec fn is_fresh(&self) -> bool {
        self.fresh
    }

    /// The store file's version budget: how many root slots the file
    /// was created with.  It is a property of the file, fixed at its
    /// creation; reopening cannot change it, and for a file this
    /// handle did not create only its positivity is known.
    pub closed spec fn budget(&self) -> usize {
        self.gbudget@
    }

    /// Whether opening this handle created the backing file.  A store
    /// whose file was created holds nothing: see `Tx::open`'s contract.
    pub fn created(&self) -> (r: bool)
        ensures
            r == self.is_fresh(),
    {
        self.fresh
    }

    /// Relies on sanakirja::Env::new: opens (creating the file if
    /// absent) the store at `dir/filename` with the given initial size
    /// and number of concurrently retained versions.  The directory
    /// itself must exist.  A created file is initialised empty; an
    /// existing file keeps whatever was last committed, so only
    /// well-formedness is known of it.  The engine asserts that the
    /// version budget fits in a byte, is at least one, and that every
    /// version has a root page within the initial size: the
    /// preconditions keep those asserts satisfied.  Whether the call
    /// will create the file is probed first (the same test, file
    /// metadata present or not, by which the engine decides to
    /// initialise), and a created file starts with every root slot
    /// zero: an empty directory.
    #[verifier::external_body]
    pub(crate) fn open(dir: &str, filename: &str, init_size: u64, max_tx: usize) -> (r: Result<Tx, DbError>)
        requires
            1 <= max_tx < 256,
            init_size >= (max_tx as u64) * 4096,
        ensures
            r matches Ok(t) ==> {
                &&& t.wf()
                &&& t.opts() == (StoreOpts { filename: filename@, init_size, max_tx })
                &&& t.budget() >= 1
                &&& t.is_fresh() ==> {
                    &&& t.dir() == Map::<int, u64>::empty()
                    &&& t.trees() == Map::<u64, Seq<(u64, u64)>>::empty()
                    &&& t.budget() == max_tx
                }
            },
            r matches Err(e) ==> e is Engine,
    {
        let path = std::path::Path::new(dir).join(filename);
        let fresh = !path.exists();
        match sanakirja::Env::new(&path, init_size, max_tx) {
            Ok(env) => Ok(Tx {
                env: std::sync::Arc::new(env),
                fresh,
                gdir: Ghost(arbitrary()),
                gtrees: Ghost(arbitrary()),
                gopts: Ghost(arbitrary()),
                gbudget: Ghost(arbitrary()),
            }),
            Err(e) => Err(DbError::Engine(e)),
        }
    }

    /// Begin a read transaction.
    ///
    /// Relies on sanakirja::Env::txn_begin: the snapshot a read
    /// transaction sees is exactly the committed state as of this
    /// call, and later commits do not touch it.
    #[verifier::external_body]
    pub fn r(&self) -> (r: Result<ReadTx, DbError>)
        ensures
            r matches Ok(t) ==> TxRead::dir(&t) == self.dir() && TxRead::trees(&t) == self.trees(),
    {
        match sanakirja::Env::txn_begin(self.env.clone()) {
            Ok(txn) => Ok(ReadTx {
                txn,
                gdir: Ghost(arbitrary()),
                gtrees: Ghost(arbitrary()),
            }),
            Err(e) => Err(DbError::Engine(e)),
        }
    }

    /// Begin the write transaction, taking the handle with it: the
    /// handle comes back from `commit` or `discard`, or beside the
    /// error when beginning fails, so a refused writer can be retried.
    /// Blocks while another writer lives, or until the
    /// version-retention budget admits a writer.
    ///
    /// Relies on sanakirja::Env::mut_txn_begin: the transaction starts
    /// from the committed state, and its in-memory root vector starts
    /// empty.
    #[verifier::external_body]
    pub fn w(self) -> (r: Result<WriteTx, (DbError, Tx)>)
        ensures
            r matches Ok(w) ==> {
                &&& TxRead::dir(&w) == self.dir()
                &&& TxRead::trees(&w) == self.trees()
                &&& w.filled() == 0
                &&& w.base() == self
            },
            r matches Err(p) ==> p.1 == self,
    {
        match sanakirja::Env::mut_txn_begin(self.env.clone()) {
            Ok(txn) => Ok(WriteTx {
                parent: self,
                txn,
                gdir: Ghost(arbitrary()),
                gtrees: Ghost(arbitrary()),
                gfilled: Ghost(arbitrary()),
            }),
            Err(e) => Err((DbError::Engine(e), self)),
        }
    }
}

impl WriteTx {
    pub closed spec fn filled(&self) -> int {
        self.gfilled@
    }

    /// The handle as it was when this transaction began: what
    /// `discard` hands back, and where `commit` takes the store's
    /// unchanging identity (options, budget) from.
    pub closed spec fn base(&self) -> Tx {
        self.parent
    }

    pub open spec fn base_dir(&self) -> Map<int, u64> {
        self.base().dir()
    }

    pub open spec fn base_trees(&self) -> Map<u64, Seq<(u64, u64)>> {
        self.base().trees()
    }

    pub open spec fn base_opts(&self) -> StoreOpts {
        self.base().opts()
    }

    pub open spec fn base_budget(&self) -> usize {
        self.base().budget()
    }

    /// The contents of table `id` as this transaction currently sees it.
    pub open spec fn table(&self, id: int) -> Seq<(u64, u64)> {
        table_of(TxRead::dir(self), TxRead::trees(self), id)
    }

    pub open spec fn wf(&self) -> bool {
        wf_state(TxRead::dir(self), TxRead::trees(self))
    }

    /// Relies on MutTxn::set_root (1.2.16): records `root` for slot
    /// `id` in the in-memory root vector; commit writes back every
    /// nonzero entry.  Writing at most one slot past the vector's end
    /// (`id <= filled()`) keeps it from zero-filling a gap, so reads
    /// and the final commit stay faithful to the directory.  A zero
    /// write is only allowed where the directory holds nothing, since
    /// commit skips zero entries.
    #[verifier::external_body]
    pub(crate) fn set_root(&mut self, id: usize, root: u64)
        requires
            id as int <= old(self).filled(),
            root > 0 || !TxRead::dir(old(self)).dom().contains(id as int),
        ensures
            TxRead::dir(final(self)) == (if root > 0 {
                TxRead::dir(old(self)).insert(id as int, root)
            } else {
                TxRead::dir(old(self))
            }),
            final(self).filled() == (if id as int + 1 > old(self).filled() {
                id as int + 1
            } else {
                old(self).filled()
            }),
            TxRead::trees(final(self)) == TxRead::trees(old(self)),
            final(self).base() == old(self).base(),
    {
        self.txn.set_root(id, root);
    }

    /// Relies on btree::create_db_ (1.2.16): allocates one fresh page
    /// and initialises it as an empty tree.  A freshly allocated page
    /// is no live root, so every other tree is untouched.
    #[verifier::external_body]
    pub(crate) fn create_tree(&mut self) -> (r: Result<u64, DbError>)
        ensures
            r matches Ok(root) ==> {
                &&& root > 0
                &&& !TxRead::trees(old(self)).dom().contains(root)
                &&& TxRead::trees(final(self)) == TxRead::trees(old(self)).insert(root, Seq::empty())
            },
            r is Err ==> TxRead::trees(final(self)) == TxRead::trees(old(self)),
            TxRead::dir(final(self)) == TxRead::dir(old(self)),
            final(self).filled() == old(self).filled(),
            final(self).base() == old(self).base(),
    {
        let r: Result<sanakirja::btree::Db<u64, u64>, sanakirja::Error> =
            sanakirja::btree::create_db_(&mut self.txn);
        match r {
            Ok(db) => Ok(db.db),
            Err(e) => Err(DbError::Engine(e)),
        }
    }

    /// Relies on btree::put (1.2.16): inserts `(k, v)` into the tree at
    /// `root`, keeping (key, value) order, and returns false if and
    /// only if that exact pair was already there (the tree is then
    /// untouched).  Copy-on-write may move the tree to a fresh root;
    /// the old root is then dead.  A live tree stays countable: every
    /// pair takes 16 bytes of a file of less than `usize::MAX` bytes,
    /// so a grown tree still holds fewer than `usize::MAX` pairs.
    #[verifier::external_body]
    pub(crate) fn tree_put(&mut self, root: u64, k: u64, v: u64) -> (r: Result<(u64, bool), DbError>)
        requires
            TxRead::trees(old(self)).dom().contains(root),
        ensures
            r matches Ok(p) ==> {
                let s = TxRead::trees(old(self))[root];
                &&& p.1 == !s.contains((k, v))
                &&& if p.1 {
                    &&& p.0 > 0
                    &&& p.0 == root || !TxRead::trees(old(self)).dom().contains(p.0)
                    &&& insert_pair(s, (k, v)).len() < usize::MAX
                    &&& TxRead::trees(final(self)) == TxRead::trees(old(self)).remove(root).insert(
                        p.0,
                        insert_pair(s, (k, v)),
                    )
                } else {
                    &&& p.0 == root
                    &&& TxRead::trees(final(self)) == TxRead::trees(old(self))
                }
            },
            r is Err ==> TxRead::trees(final(self)) == TxRead::trees(old(self)),
            TxRead::dir(final(self)) == TxRead::dir(old(self)),
            final(self).filled() == old(self).filled(),
            final(self).base() == old(self).base(),
    {
        let mut db: sanakirja::btree::Db<u64, u64> = sanakirja::btree::Db_::from_page(root);
        match sanakirja::btree::put(&mut self.txn, &mut db, &k, &v) {
            Ok(added) => Ok((db.db, added)),
            Err(e) => Err(DbError::Engine(e)),
        }
    }

    /// Relies on btree::del (1.2.16): with a value, removes exactly
    /// that pair if present; without one, removes the first pair under
    /// the key if any.  Returns whether a pair was removed.
    /// Copy-on-write may move the tree to a fresh root.
    #[verifier::external_body]
    pub(crate) fn tree_del(&mut self, root: u64, k: u64, ov: Option<u64>) -> (r: Result<(u64, bool), DbError>)
        requires
            TxRead::trees(old(self)).dom().contains(root),
        ensures
            r matches Ok(p) ==> {
                let s = TxRead::trees(old(self))[root];
                &&& p.1 == del_hits(s, k, ov)
                &&& if p.1 {
                    &&& p.0 > 0
                    &&& p.0 == root || !TxRead::trees(old(self)).dom().contains(p.0)
                    &&& TxRead::trees(final(self)) == TxRead::trees(old(self)).remove(root).insert(
                        p.0,
                        del_result(s, k, ov),
                    )
                } else {
                    &&& p.0 == root
                    &&& TxRead::trees(final(self)) == TxRead::trees(old(self))
                }
            },
            r is Err ==> TxRead::trees(final(self)) == TxRead::trees(old(self)),
            TxRead::dir(final(self)) == TxRead::dir(old(self)),
            final(self).filled() == old(self).filled(),
            final(self).base() == old(self).base(),
    {
        let mut db: sanakirja::btree::Db<u64, u64> = sanakirja::btree::Db_::from_page(root);
        let vr = match &ov {
            Some(v) => Some(v),
            None => None,
        };
        match sanakirja::btree::del(&mut self.txn, &mut db, &k, vr) {
            Ok(deleted) => Ok((db.db, deleted)),
            Err(e) => Err(DbError::Engine(e)),
        }
    }

    /// Commit: persist every root written into the directory and
    /// publish this state; the handle comes back denoting it.  Commit
    /// happens at most once, and a failure is fatal to the store.
    ///
    /// Relies on Commit::commit (1.2.16): writes the nonzero entries
    /// of the root vector over the root page, flushes, and makes this
    /// the version new transactions see.
    #[verifier::external_body]
    pub fn commit(self) -> (r: Result<Tx, DbError>)
        requires
            self.wf(),
        ensures
            r matches Ok(t) ==> {
                &&& t.dir() == TxRead::dir(&self)
                &&& t.trees() == TxRead::trees(&self)
                &&& t.opts() == self.base_opts()
                &&& t.budget() == self.base_budget()
            },
    {
        let WriteTx { parent, txn, .. } = self;
        match txn.commit() {
            Ok(()) => Ok(parent),
            Err(e) => Err(DbError::Engine(e)),
        }
    }

    /// Discard the transaction without committing: every change is
    /// dropped and the handle comes back denoting the state at begin.
    ///
    /// Relies on MutTxn's Drop (1.2.16): a mutable transaction dropped
    /// without commit is aborted.
    #[verifier::external_body]
    pub fn discard(self) -> (r: Tx)
        ensures
            r == self.base(),
    {
        let WriteTx { parent, txn, .. } = self;
        drop(txn);
        parent
    }
}

impl ReadTx {
    /// The contents of table `id` in this snapshot.
    pub open spec fn table(&self, id: int) -> Seq<(u64, u64)> {
        table_of(TxRead::dir(self), TxRead::trees(self), id)
    }

    pub open spec fn wf(&self) -> bool {
        wf_state(TxRead::dir(self), TxRead::trees(self))
    }

    /// Relies on Txn::root (1.2.16): reads slot `id` of this
    /// snapshot's root page; zero means no table.
    #[verifier::external_body]
    pub(crate) fn root_get_raw(&self, id: usize) -> (r: Option<u64>)
        requires
            id < ROOT_SLOTS,
        ensures
            r == dir_root(TxRead::dir(self), id as int),
    {
        let root = self.txn.root(id);
        if root == 0 {
            None
        } else {
            Some(root)
        }
    }

    /// Relies on btree::get (1.2.16): returns the first entry at or
    /// after `k` (after `(k, v)` when a value is given), or nothing.
    #[verifier::external_body]
    pub(crate) fn tree_get_raw(&self, root: u64, k: u64, ov: Option<u64>) -> (r: Result<
        Option<(u64, u64)>,
        DbError,
    >)
        requires
            TxRead::trees(self).dom().contains(root),
        ensures
            r matches Ok(p) ==> p == first_at_or_after(TxRead::trees(self)[root], k, ov),
    {
        let db: sanakirja::btree::Db<u64, u64> = sanakirja::btree::Db_::from_page(root);
        let vr = match &ov {
            Some(v) => Some(v),
            None => None,
        };
        match sanakirja::btree::get(&self.txn, &db, &k, vr) {
            Ok(Some((k2, v2))) => Ok(Some((*k2, *v2))),
            Ok(None) => Ok(None),
            Err(e) => Err(DbError::Engine(e)),
        }
    }

    /// Relies on Cursor::new and Cursor::set (1.2.16): a fresh cursor
    /// stands before the first entry; `set` repositions it at the
    /// first entry at or after the origin.
    #[verifier::external_body]
    pub(crate) fn iter_from_raw(&self, root: u64, origin: Option<(u64, Option<u64>)>) -> (r: Result<
        Scan,
        DbError,
    >)
        requires
            TxRead::trees(self).dom().contains(root),
        ensures
            r matches Ok(it) ==> {
                let s = TxRead::trees(self)[root];
                &&& it.root() == root
                &&& it.full() == s
                &&& it.remaining() == s.skip(origin_index(s, origin))
            },
    {
        let db: sanakirja::btree::Db<u64, u64> = sanakirja::btree::Db_::from_page(root);
        let mut c = match sanakirja::btree::Cursor::new(&self.txn, &db) {
            Ok(c) => c,
            Err(e) => return Err(DbError::Engine(e)),
        };
        if let Some((k, ov)) = origin {
            if let Err(e) = c.set(&self.txn, &k, ov.as_ref()) {
                return Err(DbError::Engine(e));
            }
        }
        Ok(Scan { raw: RawCursor { c }, root, full: Ghost(arbitrary()), rem: Ghost(arbitrary()) })
    }

    /// Relies on Cursor::next (1.2.16): yields the current entry and
    /// moves forward, in ascending (key, value) order.  After an
    /// engine fault nothing more is known of the cursor.
    #[verifier::external_body]
    pub(crate) fn iter_next_raw(&self, it: &mut Scan) -> (r: Result<Option<(u64, u64)>, DbError>)
        requires
            TxRead::trees(self).dom().contains(old(it).root()),
            TxRead::trees(self)[old(it).root()] == old(it).full(),
        ensures
            r matches Ok(p) ==> {
                &&& final(it).root() == old(it).root()
                &&& final(it).full() == old(it).full()
                &&& match p {
                    Some(pair) => {
                        &&& old(it).remaining().len() > 0
                        &&& pair == old(it).remaining()[0]
                        &&& final(it).remaining() == old(it).remaining().drop_first()
                    },
                    None => {
                        &&& old(it).remaining().len() == 0
                        &&& final(it).remaining() == old(it).remaining()
                    },
                }
            },
    {
        match it.raw.c.next(&self.txn) {
            Ok(Some((k, v))) => Ok(Some((*k, *v))),
            Ok(None) => Ok(None),
            Err(e) => Err(DbError::Engine(e)),
        }
    }

    /// Relies on Cursor::set and Cursor::set_last (1.2.16): without an
    /// origin the cursor stands past the last entry; with one, at the
    /// origin's lower bound (stepping backwards over a leaf boundary
    /// may start just below that bound).
    #[verifier::external_body]
    pub(crate) fn riter_from_raw(&self, root: u64, origin: Option<(u64, Option<u64>)>) -> (r: Result<
        RevScan,
        DbError,
    >)
        requires
            TxRead::trees(self).dom().contains(root),
        ensures
            r matches Ok(it) ==> {
                let s = TxRead::trees(self)[root];
                &&& it.root() == root
                &&& it.full() == s
                &&& rev_start_ok(s, origin, it.remaining())
            },
    {
        let db: sanakirja::btree::Db<u64, u64> = sanakirja::btree::Db_::from_page(root);
        let mut c = match sanakirja::btree::Cursor::new(&self.txn, &db) {
            Ok(c) => c,
            Err(e) => return Err(DbError::Engine(e)),
        };
        let r = match origin {
            Some((k, ov)) => c.set(&self.txn, &k, ov.as_ref()).map(|_| ()),
            None => c.set_last(&self.txn),
        };
        if let Err(e) = r {
            return Err(DbError::Engine(e));
        }
        Ok(RevScan { raw: RawCursor { c }, root, full: Ghost(arbitrary()), rem: Ghost(arbitrary()) })
    }

    /// Relies on Cursor::prev (1.2.16): yields the entry before the
    /// cursor and moves backward, in descending (key, value) order.
    #[verifier::external_body]
    pub(crate) fn riter_next_raw(&self, it: &mut RevScan) -> (r: Result<Option<(u64, u64)>, DbError>)
        requires
            TxRead::trees(self).dom().contains(old(it).root()),
            TxRead::trees(self)[old(it).root()] == old(it).full(),
        ensures
            r matches Ok(p) ==> {
                &&& final(it).root() == old(it).root()
                &&& final(it).full() == old(it).full()
                &&& match p {
                    Some(pair) => {
                        &&& old(it).remaining().len() > 0
                        &&& pair == old(it).remaining()[0]
                        &&& final(it).remaining() == old(it).remaining().drop_first()
                    },
                    None => {
                        &&& old(it).remaining().len() == 0
                        &&& final(it).remaining() == old(it).remaining()
                    },
                }
            },
    {
        match it.raw.c.prev(&self.txn) {
            Ok(Some((k, v))) => Ok(Some((*k, *v))),
            Ok(None) => Ok(None),
            Err(e) => Err(DbError::Engine(e)),
        }
    }
}

/// Where a reverse cursor may start for an origin, as the engine
/// positions it: at the whole table reversed when there is no origin;
/// at the origin's pair when it is present (for a keyed origin, at the
/// first pair of that key); else at or just below the origin's lower
/// bound, depending on page layout.
pub open spec fn rev_start_ok(
    s: Seq<(u64, u64)>,
    origin: Option<(u64, Option<u64>)>,
    rem: Seq<(u64, u64)>,
) -> bool {
    match origin {
        None => rem == s.reverse(),
        Some((k, ov)) => {
            let lo = lower_bound(s, k, ov);
            if lo < s.len() && (match ov {
                Some(v) => s[lo] == (k, v),
                None => s[lo].0 == k,
            }) {
                rem == s.take(lo + 1).reverse()
            } else {
                rem == s.take(lo).reverse() || (lo < s.len() && rem == s.take(lo + 1).reverse())
            }
        },
    }
}

/// Read access that both transaction kinds give to the store: the
/// directory and the trees it names.  A write transaction reads its
/// own uncommitted state; a read transaction reads its snapshot.
pub trait TxRead: Sized {
    spec fn dir(&self) -> Map<int, u64>;

    spec fn trees(&self) -> Map<u64, Seq<(u64, u64)>>;

    /// Look table `id` up in the directory.
    fn root_get(&self, id: usize) -> (r: Option<u64>)
        requires
            id < ROOT_SLOTS,
        ensures
            r == dir_root(self.dir(), id as int),
    ;

    /// Positioned point lookup in the tree at `root`: the first pair
    /// at or after the origin `(k, ov)`.
    fn tree_get(&self, root: u64, k: u64, ov: Option<u64>) -> (r: Result<Option<(u64, u64)>, DbError>)
        requires
            self.trees().dom().contains(root),
        ensures
            r matches Ok(p) ==> p == first_at_or_after(self.trees()[root], k, ov),
    ;

    /// Start a forward cursor over the tree at `root`, positioned at
    /// the origin (at the first pair when none is given).
    fn iter_from(&self, root: u64, origin: Option<(u64, Option<u64>)>) -> (r: Result<Scan, DbError>)
        requires
            self.trees().dom().contains(root),
        ensures
            r matches Ok(it) ==> {
                let s = self.trees()[root];
                &&& it.root() == root
                &&& it.full() == s
                &&& it.remaining() == s.skip(origin_index(s, origin))
            },
    ;

    /// Advance a forward cursor: yield the next remaining pair, or
    /// `None` at the end.
    fn iter_next(&self, it: &mut Scan) -> (r: Result<Option<(u64, u64)>, DbError>)
        requires
            self.trees().dom().contains(old(it).root()),
            self.trees()[old(it).root()] == old(it).full(),
        ensures
            r matches Ok(p) ==> {
                &&& final(it).root() == old(it).root()
                &&& final(it).full() == old(it).full()
                &&& match p {
                    Some(pair) => {
                        &&& old(it).remaining().len() > 0
                        &&& pair == old(it).remaining()[0]
                        &&& final(it).remaining() == old(it).remaining().drop_first()
                    },
                    None => {
                        &&& old(it).remaining().len() == 0
                        &&& final(it).remaining() == old(it).remaining()
                    },
                }
            },
    ;

    /// Start a reverse cursor over the tree at `root` (see
    /// [`rev_start_ok`] for where it stands).
    fn riter_from(&self, root: u64, origin: Option<(u64, Option<u64>)>) -> (r: Result<RevScan, DbError>)
        requires
            self.trees().dom().contains(root),
        ensures
            r matches Ok(it) ==> {
                &&& it.root() == root
                &&& it.full() == self.trees()[root]
                &&& rev_start_ok(self.trees()[root], origin, it.remaining())
            },
    ;

    /// Advance a reverse cursor: yield the next remaining pair, or
    /// `None` at the start of the table.
    fn riter_next(&self, it: &mut RevScan) -> (r: Result<Option<(u64, u64)>, DbError>)
        requires
            self.trees().dom().contains(old(it).root()),
            self.trees()[old(it).root()] == old(it).full(),
        ensures
            r matches Ok(p) ==> {
                &&& final(it).root() == old(it).root()
                &&& final(it).full() == old(it).full()
                &&& match p {
                    Some(pair) => {
                        &&& old(it).remaining().len() > 0
                        &&& pair == old(it).remaining()[0]
                        &&& final(it).remaining() == old(it).remaining().drop_first()
                    },
                    None => {
                        &&& old(it).remaining().len() == 0
                        &&& final(it).remaining() == old(it).remaining()
                    },
                }
            },
    ;
}

impl TxRead for ReadTx {
    closed spec fn dir(&self) -> Map<int, u64> {
        self.gdir@
    }

    closed spec fn trees(&self) -> Map<u64, Seq<(u64, u64)>> {
        self.gtrees@
    }

    fn root_get(&self, id: usize) -> (r: Option<u64>) {
        self.root_get_raw(id)
    }

    fn tree_get(&self, root: u64, k: u64, ov: Option<u64>) -> (r: Result<Option<(u64, u64)>, DbError>) {
        self.tree_get_raw(root, k, ov)
    }

    fn iter_from(&self, root: u64, origin: Option<(u64, Option<u64>)>) -> (r: Result<Scan, DbError>) {
        self.iter_from_raw(root, origin)
    }

    fn iter_next(&self, it: &mut Scan) -> (r: Result<Option<(u64, u64)>, DbError>) {
        self.iter_next_raw(it)
    }

    fn riter_from(&self, root: u64, origin: Option<(u64, Option<u64>)>) -> (r: Result<RevScan, DbError>) {
        self.riter_from_raw(root, origin)
    }

    fn riter_next(&self, it: &mut RevScan) -> (r: Result<Option<(u64, u64)>, DbError>) {
        self.riter_next_raw(it)
    }
}

impl WriteTx {
    /// Relies on MutTxn::root (1.2.16): reads the in-memory root
    /// vector below `filled()`, the root page at or above it; the
    /// crate's write discipline keeps both faithful to the directory.
    #[verifier::external_body]
    pub(crate) fn root_get_raw(&self, id: usize) -> (r: Option<u64>)
        requires
            id < ROOT_SLOTS,
        ensures
            r == dir_root(TxRead::dir(self), id as int),
    {
        self.txn.root(id)
    }

    /// Relies on btree::get (1.2.16), as for a read transaction, over
    /// this transaction's own uncommitted trees.
    #[verifier::external_body]
    pub(crate) fn tree_get_raw(&self, root: u64, k: u64, ov: Option<u64>) -> (r: Result<
        Option<(u64, u64)>,
        DbError,
    >)
        requires
            TxRead::trees(self).dom().contains(root),
        ensures
            r matches Ok(p) ==> p == first_at_or_after(TxRead::trees(self)[root], k, ov),
    {
        let db: sanakirja::btree::Db<u64, u64> = sanakirja::btree::Db_::from_page(root);
        let vr = match &ov {
            Some(v) => Some(v),
            None => None,
        };
        match sanakirja::btree::get(&self.txn, &db, &k, vr) {
            Ok(Some((k2, v2))) => Ok(Some((*k2, *v2))),
            Ok(None) => Ok(None),
            Err(e) => Err(DbError::Engine(e)),
        }
    }

    /// Relies on Cursor::new and Cursor::set (1.2.16), as for a read
    /// transaction.
    #[verifier::external_body]
    pub(crate) fn iter_from_raw(&self, root: u64, origin: Option<(u64, Option<u64>)>) -> (r: Result<
        Scan,
        DbError,
    >)
        requires
            TxRead::trees(self).dom().contains(root),
        ensures
            r matches Ok(it) ==> {
                let s = TxRead::trees(self)[root];
                &&& it.root() == root
                &&& it.full() == s
                &&& it.remaining() == s.skip(origin_index(s, origin))
            },
    {
        let db: sanakirja::btree::Db<u64, u64> = sanakirja::btree::Db_::from_page(root);
        let mut c = match sanakirja::btree::Cursor::new(&self.txn, &db) {
            Ok(c) => c,
            Err(e) => return Err(DbError::Engine(e)),
        };
        if let Some((k, ov)) = origin {
            if let Err(e) = c.set(&self.txn, &k, ov.as_ref()) {
                return Err(DbError::Engine(e));
            }
        }
        Ok(Scan { raw: RawCursor { c }, root, full: Ghost(arbitrary()), rem: Ghost(arbitrary()) })
    }

    /// Relies on Cursor::next (1.2.16), as for a read transaction.
    #[verifier::external_body]
    pub(crate) fn iter_next_raw(&self, it: &mut Scan) -> (r: Result<Option<(u64, u64)>, DbError>)
        requires
            TxRead::trees(self).dom().contains(old(it).root()),
            TxRead::trees(self)[old(it).root()] == old(it).full(),
        ensures
            r matches Ok(p) ==> {
                &&& final(it).root() == old(it).root()
                &&& final(it).full() == old(it).full()
                &&& match p {
                    Some(pair) => {
                        &&& old(it).remaining().len() > 0
                        &&& pair == old(it).remaining()[0]
                        &&& final(it).remaining() == old(it).remaining().drop_first()
                    },
                    None => {
                        &&& old(it).remaining().len() == 0
                        &&& final(it).remaining() == old(it).remaining()
                    },
                }
            },
    {
        match it.raw.c.next(&self.txn) {
            Ok(Some((k, v))) => Ok(Some((*k, *v))),
            Ok(None) => Ok(None),
            Err(e) => Err(DbError::Engine(e)),
        }
    }

    /// Relies on Cursor::set and Cursor::set_last (1.2.16), as for a
    /// read transaction.
    #[verifier::external_body]
    pub(crate) fn riter_from_raw(&self, root: u64, origin: Option<(u64, Option<u64>)>) -> (r: Result<
        RevScan,
        DbError,
    >)
        requires
            TxRead::trees(self).dom().contains(root),
        ensures
            r matches Ok(it) ==> {
                let s = TxRead::trees(self)[root];
                &&& it.root() == root
                &&& it.full() == s
                &&& rev_start_ok(s, origin, it.remaining())
            },
    {
        let db: sanakirja::btree::Db<u64, u64> = sanakirja::btree::Db_::from_page(root);
        let mut c = match sanakirja::btree::Cursor::new(&self.txn, &db) {
            Ok(c) => c,
            Err(e) => return Err(DbError::Engine(e)),
        };
        let r = match origin {
            Some((k, ov)) => c.set(&self.txn, &k, ov.as_ref()).map(|_| ()),
            None => c.set_last(&self.txn),
        };
        if let Err(e) = r {
            return Err(DbError::Engine(e));
        }
        Ok(RevScan { raw: RawCursor { c }, root, full: Ghost(arbitrary()), rem: Ghost(arbitrary()) })
    }

    /// Relies on Cursor::prev (1.2.16), as for a read transaction.
    #[verifier::external_body]
    pub(crate) fn riter_next_raw(&self, it: &mut RevScan) -> (r: Result<Option<(u64, u64)>, DbError>)
        requires
            TxRead::trees(self).dom().contains(old(it).root()),
            TxRead::trees(self)[old(it).root()] == old(it).full(),
        ensures
            r matches Ok(p) ==> {
                &&& final(it).root() == old(it).root()
                &&& final(it).full() == old(it).full()
                &&& match p {
                    Some(pair) => {
                        &&& old(it).remaining().len() > 0
                        &&& pair == old(it).remaining()[0]
                        &&& final(it).remaining() == old(it).remaining().drop_first()
                    },
                    None => {
                        &&& old(it).remaining().len() == 0
                        &&& final(it).remaining() == old(it).remaining()
                    },
                }
            },
    {
        match it.raw.c.prev(&self.txn) {
            Ok(Some((k, v))) => Ok(Some((*k, *v))),
            Ok(None) => Ok(None),
            Err(e) => Err(DbError::Engine(e)),
        }
    }
}

impl TxRead for WriteTx {
    closed spec fn dir(&self) -> Map<int, u64> {
        self.gdir@
    }

    closed spec fn trees(&self) -> Map<u64, Seq<(u64, u64)>> {
        self.gtrees@
    }

    fn root_get(&self, id: usize) -> (r: Option<u64>) {
        self.root_get_raw(id)
    }

    fn tree_get(&self, root: u64, k: u64, ov: Option<u64>) -> (r: Result<Option<(u64, u64)>, DbError>) {
        self.tree_get_raw(root, k, ov)
    }

    fn iter_from(&self, root: u64, origin: Option<(u64, Option<u64>)>) -> (r: Result<Scan, DbError>) {
        self.iter_from_raw(root, origin)
    }

    fn iter_next(&self, it: &mut Scan) -> (r: Result<Option<(u64, u64)>, DbError>) {
        self.iter_next_raw(it)
    }

    fn riter_from(&self, root: u64, origin: Option<(u64, Option<u64>)>) -> (r: Result<RevScan, DbError>) {
        self.riter_from_raw(root, origin)
    }

    fn riter_next(&self, it: &mut RevScan) -> (r: Result<Option<(u64, u64)>, DbError>) {
        self.riter_next_raw(it)
    }
}

} // verus!
