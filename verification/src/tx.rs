//! Opening the store: option parsing and table declaration.
use vstd::prelude::*;

use crate::dbpage::{DbPage, Encode};
use crate::engine::{DbError, StoreOpts, Tx, ROOT_SLOTS};

verus! {

/// Options for opening a store; later entries override earlier ones.
pub enum TxArgs<'a> {
    /// File name inside the directory (without it: `"sdb"`).
    Filename(&'a str),
    /// Initial size of the backing file in bytes (without it: 1 << 21).
    InitSize(u64),
    /// How many versions may be alive at once (without it: 3).
    MaxTx(usize),
}

/// The last file name named in `args`, if any.
pub open spec fn chosen_filename<'a>(args: Seq<TxArgs<'a>>) -> Option<&'a str>
    decreases args.len(),
{
    if args.len() == 0 {
        None
    } else {
        match args.last() {
            TxArgs::Filename(f) => Some(f),
            _ => chosen_filename(args.drop_last()),
        }
    }
}

/// The last initial size named in `args`, if any.
pub open spec fn chosen_init_size(args: Seq<TxArgs>) -> Option<u64>
    decreases args.len(),
{
    if args.len() == 0 {
        None
    } else {
        match args.last() {
            TxArgs::InitSize(n) => Some(n),
            _ => chosen_init_size(args.drop_last()),
        }
    }
}

/// The last version budget named in `args`, if any.
pub open spec fn chosen_max_tx(args: Seq<TxArgs>) -> Option<usize>
    decreases args.len(),
{
    if args.len() == 0 {
        None
    } else {
        match args.last() {
            TxArgs::MaxTx(n) => Some(n),
            _ => chosen_max_tx(args.drop_last()),
        }
    }
}

/// The file name the store will use, after defaulting.
pub open spec fn effective_filename<'a>(args: Seq<TxArgs<'a>>) -> Seq<char> {
    match chosen_filename(args) {
        Some(f) => f@,
        None => "sdb"@,
    }
}

/// The initial size the store will use, after defaulting.
pub open spec fn effective_init_size(args: Seq<TxArgs>) -> u64 {
    match chosen_init_size(args) {
        Some(n) => n,
        None => 1u64 << 21u64,
    }
}

/// The version budget the store will use, after defaulting.
pub open spec fn effective_max_tx(args: Seq<TxArgs>) -> usize {
    match chosen_max_tx(args) {
        Some(n) => n,
        None => 3,
    }
}

/// Scan the options: for each kind, the last occurrence wins.
pub fn parse_args<'a>(args: &[TxArgs<'a>]) -> (r: (Option<&'a str>, Option<u64>, Option<usize>))
    ensures
        r.0 == chosen_filename(args@),
        r.1 == chosen_init_size(args@),
        r.2 == chosen_max_tx(args@),
{
    let mut filename: Option<&'a str> = None;
    let mut init_size: Option<u64> = None;
    let mut max_tx: Option<usize> = None;
    let mut i: usize = 0;
    while i < args.len()
        invariant
            i <= args.len(),
            filename == chosen_filename(args@.take(i as int)),
            init_size == chosen_init_size(args@.take(i as int)),
            max_tx == chosen_max_tx(args@.take(i as int)),
        decreases args.len() - i,
    {
        proof {
            assert(args@.take(i + 1).drop_last() =~= args@.take(i as int));
            assert(args@.take(i + 1).last() == args@[i as int]);
        }
        match args[i] {
            TxArgs::Filename(f) => {
                filename = Some(f);
            },
            TxArgs::InitSize(n) => {
                init_size = Some(n);
            },
            TxArgs::MaxTx(n) => {
                max_tx = Some(n);
            },
        }
        i = i + 1;
    }
    proof {
        assert(args@.take(args@.len() as int) =~= args@);
    }
    (filename, init_size, max_tx)
}

impl Tx {
    /// Whether the effective options respect the engine's limits: the
    /// version budget fits in a byte and is at least one, and the
    /// initial size holds a root page (4096 bytes) for every version.
    pub open spec fn options_ok(args: Seq<TxArgs>) -> bool {
        &&& 1 <= effective_max_tx(args) < 256
        &&& effective_init_size(args) >= (effective_max_tx(args) as u64) * 4096
    }

    /// Open the store in directory `dir` (which must exist), with the
    /// given options; each option falls back to its default (file name
    /// `"sdb"`, 1 << 21 bytes, 3 versions).  Options outside the
    /// engine's limits are rejected up front; otherwise this fails
    /// exactly when the backing file cannot be created or mapped.
    pub fn new(dir: &str, args: &[TxArgs]) -> (r: Result<Tx, DbError>)
        ensures
            r matches Ok(t) ==> {
                &&& Tx::options_ok(args@)
                &&& t.wf()
                &&& t.opts() == (StoreOpts {
                    filename: effective_filename(args@),
                    init_size: effective_init_size(args@),
                    max_tx: effective_max_tx(args@),
                })
                &&& t.is_fresh() ==> t.dir() == Map::<int, u64>::empty() && t.trees() == Map::<
                    u64,
                    Seq<(u64, u64)>,
                >::empty()
            },
            !Tx::options_ok(args@) <==> (r matches Err(e) && e is InvalidOptions),
    {
        let (filename, init_size, max_tx) = parse_args(args);
        let filename = match filename {
            Some(f) => f,
            None => "sdb",
        };
        let init_size = match init_size {
            Some(n) => n,
            None => 1u64 << 21u64,
        };
        let max_tx = match max_tx {
            Some(n) => n,
            None => 3,
        };
        if !(1 <= max_tx && max_tx < 256 && init_size >= (max_tx as u64) * 4096) {
            return Err(DbError::InvalidOptions);
        }
        Tx::open(dir, filename, init_size, max_tx)
    }

    /// Declare table `id`: pure, captures the id and the types only.
    /// The table itself is created lazily, on the first write-capable
    /// binding.
    pub fn db<RK: Encode<u64>, RV: Encode<u64>>(&self, id: usize) -> (r: DbPage<RK, RV>)
        requires
            id < ROOT_SLOTS,
        ensures
            r.id == id,
    {
        DbPage { id, _kv: core::marker::PhantomData }
    }
}

} // verus!
