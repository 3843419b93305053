//! Property and edge-case tests: the scenario walk, round trips,
//! upsert, ordering, key scoping, visibility across transactions,
//! idempotent creation, and the option parser.
use sdb::{DbPage, Tx, TxArgs};
use std::time::{SystemTime, UNIX_EPOCH};

fn fresh_store(tag: &str) -> Tx {
    let ns: u128 = SystemTime::now().duration_since(UNIX_EPOCH).unwrap().as_nanos();
    let name = format!("sdb_test_{}_{}", tag, ns);
    let tx = Tx::new("/tmp", &[TxArgs::Filename(&name)]).unwrap();
    // a freshly created backing file means an empty store
    assert!(tx.created());
    tx
}

fn begin_w(tx: Tx) -> sdb::WriteTx {
    match tx.w() {
        Ok(w) => w,
        Err((e, _)) => panic!("begin write failed: {:?}", e),
    }
}

fn collect_iter<T: sdb::TxRead>(t: &sdb::TxDb<u64, u64>, tx: &T) -> Vec<(u64, u64)> {
    let mut out = Vec::new();
    let mut it = t.iter(tx, None, None).unwrap();
    while let Some(entry) = it.next(tx).unwrap() {
        out.push(entry);
    }
    out
}

fn collect_key<T: sdb::TxRead>(t: &sdb::TxDb<u64, u64>, tx: &T, k: u64) -> Vec<(u64, u64)> {
    let mut out = Vec::new();
    let mut it = t.key_iter(tx, &k).unwrap();
    while let Some(entry) = it.next(tx).unwrap() {
        out.push(entry);
    }
    out
}

#[test]
fn scenario_walk() {
    let tx = fresh_store("scenario");
    let page: DbPage<u64, u64> = tx.db(0);
    let mut w = begin_w(tx);
    let mut t = w.db(&page).unwrap();
    for (k, v) in [(1u64, 5u64), (1, 3), (2, 2), (2, 1), (3, 9)] {
        assert!(t.put(&mut w, &k, &v).unwrap());
    }
    assert_eq!(collect_iter(&t, &w), vec![(1, 3), (1, 5), (2, 1), (2, 2), (3, 9)]);

    assert!(t.rm1(&mut w, &2, None).unwrap());
    assert_eq!(collect_key(&t, &w, 2), vec![(2, 2)]);

    assert_eq!(t.rm(&mut w, &3).unwrap(), 1);
    assert_eq!(collect_iter(&t, &w), vec![(1, 3), (1, 5), (2, 2)]);
    w.commit().unwrap();
}

#[test]
fn round_trip() {
    let tx = fresh_store("roundtrip");
    let page: DbPage<u64, u64> = tx.db(0);
    let mut w = begin_w(tx);
    let mut t = w.db(&page).unwrap();

    assert!(t.put(&mut w, &10, &20).unwrap());
    assert!(t.exist(&w, &10, &20).unwrap());
    // inserting the same pair again changes nothing
    assert!(!t.put(&mut w, &10, &20).unwrap());

    assert!(t.rm1(&mut w, &10, Some(&20)).unwrap());
    assert!(!t.exist(&w, &10, &20).unwrap());

    assert!(t.put(&mut w, &11, &1).unwrap());
    assert!(t.put(&mut w, &11, &2).unwrap());
    assert_eq!(t.rm(&mut w, &11).unwrap(), 2);
    assert_eq!(t.one(&w, &11).unwrap(), None);
    w.commit().unwrap();
}

#[test]
fn upsert_leaves_one_pair() {
    let tx = fresh_store("upsert");
    let page: DbPage<u64, u64> = tx.db(0);
    let mut w = begin_w(tx);
    let mut t = w.db(&page).unwrap();
    assert!(t.put(&mut w, &7, &1).unwrap());
    assert!(t.put(&mut w, &7, &2).unwrap());
    assert!(t.upsert(&mut w, &7, &3).unwrap());
    assert_eq!(collect_key(&t, &w, 7), vec![(7, 3)]);
    w.commit().unwrap();
}

#[test]
fn ordering_forward_and_reverse() {
    let tx = fresh_store("ordering");
    let page: DbPage<u64, u64> = tx.db(0);
    let mut w = begin_w(tx);
    let mut t = w.db(&page).unwrap();
    for (k, v) in [(9u64, 9u64), (1, 2), (5, 5), (1, 1), (5, 4), (9, 0)] {
        t.put(&mut w, &k, &v).unwrap();
    }
    let forward = collect_iter(&t, &w);
    assert_eq!(forward, vec![(1, 1), (1, 2), (5, 4), (5, 5), (9, 0), (9, 9)]);
    for pair in forward.windows(2) {
        assert!(pair[0] < pair[1]);
    }
    let mut backward = Vec::new();
    let mut it = t.riter(&w, None, None).unwrap();
    while let Some(entry) = it.next(&w).unwrap() {
        backward.push(entry);
    }
    let mut mirrored = forward.clone();
    mirrored.reverse();
    assert_eq!(backward, mirrored);
    w.commit().unwrap();
}

#[test]
fn ranged_scans() {
    let tx = fresh_store("ranges");
    let page: DbPage<u64, u64> = tx.db(0);
    let mut w = begin_w(tx);
    let mut t = w.db(&page).unwrap();
    for (k, v) in [(1u64, 3u64), (1, 5), (2, 1), (2, 2), (3, 9)] {
        t.put(&mut w, &k, &v).unwrap();
    }
    let tx = w.commit().unwrap();

    // forward from a key, and from an exact pair
    assert_eq!(db_iter(&page, &tx, Some(2), None), vec![(2, 1), (2, 2), (3, 9)]);
    assert_eq!(db_iter(&page, &tx, Some(2), Some(2)), vec![(2, 2), (3, 9)]);
    // forward from a pair between entries: the next one in order
    assert_eq!(db_iter(&page, &tx, Some(2), Some(3)), vec![(3, 9)]);
    // reverse from the first pair of a present key, downwards
    let rev = page.riter(&tx, Some(&2), None).unwrap();
    assert_eq!(rev, vec![(2, 1), (1, 5), (1, 3)]);
    // reverse from an exact present pair, downwards
    let rev = page.riter(&tx, Some(&2), Some(&2)).unwrap();
    assert_eq!(rev, vec![(2, 2), (2, 1), (1, 5), (1, 3)]);
    // reverse from an absent pair: the next pair below it, downwards
    let rev = page.riter(&tx, Some(&2), Some(&3)).unwrap();
    assert_eq!(rev, vec![(2, 2), (2, 1), (1, 5), (1, 3)]);
    // reverse from an absent key past everything: the whole table
    let rev = page.riter(&tx, Some(&4), None).unwrap();
    assert_eq!(rev, vec![(3, 9), (2, 2), (2, 1), (1, 5), (1, 3)]);
    // reverse from an absent key between stored keys
    let tx2 = tx;
    let (tx2, _) = page.rm(tx2, &2).map_err(|p| p.0).unwrap();
    let rev = page.riter(&tx2, Some(&2), None).unwrap();
    assert_eq!(rev, vec![(1, 5), (1, 3)]);
}

fn db_iter(page: &DbPage<u64, u64>, tx: &Tx, k: Option<u64>, v: Option<u64>) -> Vec<(u64, u64)> {
    page.iter(tx, k.as_ref(), v.as_ref()).unwrap()
}

#[test]
fn key_scope_exactness() {
    let tx = fresh_store("keyscope");
    let page: DbPage<u64, u64> = tx.db(0);
    let mut w = begin_w(tx);
    let mut t = w.db(&page).unwrap();
    for (k, v) in [(1u64, 1u64), (2, 7), (2, 9), (4, 4)] {
        t.put(&mut w, &k, &v).unwrap();
    }
    // exactly key 2's pairs, ascending by value
    assert_eq!(collect_key(&t, &w, 2), vec![(2, 7), (2, 9)]);
    // an absent key yields nothing, even with neighbours on both sides
    assert_eq!(collect_key(&t, &w, 3), vec![]);
    // absent key beyond every stored key
    assert_eq!(collect_key(&t, &w, 100), vec![]);
    w.commit().unwrap();
}

#[test]
fn visibility_across_transactions() {
    let tx = fresh_store("visibility");
    let page: DbPage<u64, u64> = tx.db(0);

    // first commit: create the table with one pair
    let mut w = begin_w(tx);
    let mut t = w.db(&page).unwrap();
    t.put(&mut w, &1, &1).unwrap();
    let tx = w.commit().unwrap();

    // a reader begun before the next commit
    let early = tx.r().unwrap();

    // second commit adds a pair
    let mut w = begin_w(tx);
    let mut t = w.db(&page).unwrap();
    t.put(&mut w, &2, &2).unwrap();
    let tx = w.commit().unwrap();

    // the early reader still sees only the first commit
    let te = early.db(&page);
    assert!(te.exist(&early, &1, &1).unwrap());
    assert!(!te.exist(&early, &2, &2).unwrap());

    // a reader begun after the commit sees both
    let late = tx.r().unwrap();
    let tl = late.db(&page);
    assert!(tl.exist(&late, &1, &1).unwrap());
    assert!(tl.exist(&late, &2, &2).unwrap());
}

#[test]
fn idempotent_creation() {
    let tx = fresh_store("creation");
    let page: DbPage<u64, u64> = tx.db(3);

    // the plain read binding touches nothing: an uncreated table
    // binds without a root and reads as empty
    let rt = tx.r().unwrap();
    let t = rt.db(&page);
    assert_eq!(t.one(&rt, &1).unwrap(), None);
    drop(rt);

    // two write transactions bind the same id; contents accumulate
    let mut w = begin_w(tx);
    let mut t = w.db(&page).unwrap();
    t.put(&mut w, &1, &1).unwrap();
    let tx = w.commit().unwrap();

    let mut w = begin_w(tx);
    let mut t = w.db(&page).unwrap();
    t.put(&mut w, &2, &2).unwrap();
    let tx = w.commit().unwrap();

    let rt = tx.r().unwrap();
    let t = rt.db(&page);
    let mut all = Vec::new();
    let mut it = t.iter(&rt, None, None).unwrap();
    while let Some(entry) = it.next(&rt).unwrap() {
        all.push(entry);
    }
    assert_eq!(all, vec![(1, 1), (2, 2)]);
}

#[test]
fn read_bind_creates_for_later_transactions() {
    let tx = fresh_store("readcreate");
    let page: DbPage<u64, u64> = tx.db(2);

    // bind an absent table from a reader, creating it through the
    // internal committed write transaction
    let rt = tx.r().unwrap();
    let (tx, t) = match rt.db_create(tx, &page) {
        Ok(p) => p,
        Err((e, _)) => panic!("creating read bind failed: {:?}", e),
    };
    // the snapshot itself still reads the table as empty
    assert_eq!(t.one(&rt, &1).unwrap(), None);
    drop(rt);

    // binding again from a later reader finds the table present and
    // creates nothing more; its contents accumulate normally
    let rt2 = tx.r().unwrap();
    let (tx, t2) = match rt2.db_create(tx, &page) {
        Ok(p) => p,
        Err((e, _)) => panic!("rebinding failed: {:?}", e),
    };
    assert_eq!(t2.one(&rt2, &1).unwrap(), None);
    drop(rt2);

    let mut w = begin_w(tx);
    let mut tw = w.db(&page).unwrap();
    tw.put(&mut w, &1, &1).unwrap();
    let tx = w.commit().unwrap();
    assert!(page.exist(&tx, &1, &1).unwrap());
}

#[test]
fn binding_high_id_keeps_low_tables() {
    // a later transaction touching only a higher slot must not disturb
    // a table committed earlier in a lower slot
    let tx = fresh_store("slots");
    let low: DbPage<u64, u64> = tx.db(0);
    let high: DbPage<u64, u64> = tx.db(5);

    let mut w = begin_w(tx);
    let mut t = w.db(&low).unwrap();
    t.put(&mut w, &1, &1).unwrap();
    let tx = w.commit().unwrap();

    let mut w = begin_w(tx);
    let mut t = w.db(&high).unwrap();
    t.put(&mut w, &9, &9).unwrap();
    let tx = w.commit().unwrap();

    assert!(low.exist(&tx, &1, &1).unwrap());
    assert!(high.exist(&tx, &9, &9).unwrap());

    // binding the high slot first must not hide the low one within the
    // same transaction either
    let mut w = begin_w(tx);
    let mut th = w.db(&high).unwrap();
    th.put(&mut w, &10, &10).unwrap();
    let tl = w.db(&low).unwrap();
    assert_eq!(tl.one(&w, &1).unwrap(), Some(1));
    let tx = w.commit().unwrap();
    assert!(low.exist(&tx, &1, &1).unwrap());
    assert!(high.exist(&tx, &10, &10).unwrap());
}

#[test]
fn discard_drops_changes() {
    let tx = fresh_store("discard");
    let page: DbPage<u64, u64> = tx.db(0);

    let mut w = begin_w(tx);
    let mut t = w.db(&page).unwrap();
    t.put(&mut w, &1, &1).unwrap();
    let tx = w.commit().unwrap();

    let mut w = begin_w(tx);
    let mut t = w.db(&page).unwrap();
    t.put(&mut w, &2, &2).unwrap();
    let tx = w.discard();

    assert!(page.exist(&tx, &1, &1).unwrap());
    assert!(!page.exist(&tx, &2, &2).unwrap());
}

#[test]
fn one_shot_table_handle_ops() {
    let tx = fresh_store("oneshot");
    let page: DbPage<u64, u64> = tx.db(0);
    let (tx, added) = page.put(tx, &4, &7).map_err(|p| p.0).unwrap();
    assert!(added);
    let (tx, added) = page.put(tx, &4, &9).map_err(|p| p.0).unwrap();
    assert!(added);
    assert_eq!(page.one(&tx, &4).unwrap(), Some(7));
    assert!(page.exist(&tx, &4, &9).unwrap());
    assert_eq!(page.key_iter(&tx, &4).unwrap(), vec![(4, 7), (4, 9)]);
    let (tx, removed) = page.rm1(tx, &4, None).map_err(|p| p.0).unwrap();
    assert!(removed);
    let (tx, n) = page.rm(tx, &4).map_err(|p| p.0).unwrap();
    assert_eq!(n, 1);
    assert_eq!(page.one(&tx, &4).unwrap(), None);
    // deleting from an emptied table finds nothing
    let (tx, removed) = page.rm1(tx, &4, None).map_err(|p| p.0).unwrap();
    assert!(!removed);
    let (_tx, n) = page.rm(tx, &4).map_err(|p| p.0).unwrap();
    assert_eq!(n, 0);
}

#[test]
fn encode_widening_adapter() {
    // keys and values handed over as u8/u32 land as their numeric
    // values on the wire, keeping their order
    let tx = fresh_store("encode");
    let page: DbPage<u8, u32> = tx.db(0);
    let mut w = begin_w(tx);
    let mut t = w.db(&page).unwrap();
    t.put(&mut w, &3u8, &300u32).unwrap();
    t.put(&mut w, &2u8, &200u32).unwrap();
    let tx = w.commit().unwrap();
    assert_eq!(page.one(&tx, &2u8).unwrap(), Some(200));
    assert_eq!(page.iter(&tx, None, None).unwrap(), vec![(2, 200), (3, 300)]);
}

#[test]
fn scans_of_uncreated_table() {
    // a table never written reads as empty through every scan kind,
    // and the plain bindings create nothing
    let tx = fresh_store("uncreated");
    let page: DbPage<u64, u64> = tx.db(7);
    let rt = tx.r().unwrap();
    let t = rt.db(&page);
    let mut it = t.iter(&rt, None, None).unwrap();
    assert_eq!(it.next(&rt).unwrap(), None);
    let mut it = t.riter(&rt, None, None).unwrap();
    assert_eq!(it.next(&rt).unwrap(), None);
    let mut it = t.key_iter(&rt, &1).unwrap();
    assert_eq!(it.next(&rt).unwrap(), None);
    assert_eq!(t.one(&rt, &1).unwrap(), None);
    assert!(!t.exist(&rt, &1, &1).unwrap());
    assert_eq!(page.iter(&tx, None, None).unwrap(), vec![]);
    assert_eq!(page.riter(&tx, Some(&3), None).unwrap(), vec![]);
    assert_eq!(page.key_iter(&tx, &1).unwrap(), vec![]);
}

#[test]
fn open_fails_without_directory() {
    let r = Tx::new("/tmp/sdb_no_such_dir_anywhere/deeper", &[]);
    assert!(r.is_err());
}

#[test]
fn open_rejects_bad_options() {
    // a version budget of zero, one too large for a byte, and an
    // initial size without room for every version's root page
    assert!(matches!(Tx::new("/tmp", &[TxArgs::MaxTx(0)]), Err(sdb::DbError::InvalidOptions)));
    assert!(matches!(Tx::new("/tmp", &[TxArgs::MaxTx(256)]), Err(sdb::DbError::InvalidOptions)));
    assert!(matches!(
        Tx::new("/tmp", &[TxArgs::InitSize(4096), TxArgs::MaxTx(2)]),
        Err(sdb::DbError::InvalidOptions)
    ));
}

#[test]
fn option_parsing_last_wins() {
    let args = [
        TxArgs::Filename("a"),
        TxArgs::InitSize(1 << 12),
        TxArgs::Filename("b"),
        TxArgs::MaxTx(2),
        TxArgs::InitSize(1 << 13),
    ];
    let (filename, init_size, max_tx) = sdb::tx::parse_args(&args);
    assert_eq!(filename, Some("b"));
    assert_eq!(init_size, Some(1 << 13));
    assert_eq!(max_tx, Some(2));
    let (filename, init_size, max_tx) = sdb::tx::parse_args(&[]);
    assert_eq!(filename, None);
    assert_eq!(init_size, None);
    assert_eq!(max_tx, None);
}
