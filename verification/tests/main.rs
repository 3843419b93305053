//! The end-to-end walk through the store's operations: direct puts on
//! a table handle, a write transaction with puts, scans and deletions,
//! then a read transaction checking what was committed.
use sdb::{DbPage, Tx, TxArgs};
use std::time::{SystemTime, UNIX_EPOCH};

fn fresh_store(tag: &str) -> Tx {
    let ns: u128 = SystemTime::now().duration_since(UNIX_EPOCH).unwrap().as_nanos();
    let name = format!("sdb_test_{}_{}", tag, ns);
    let tx = Tx::new("/tmp", &[TxArgs::Filename(&name)]).unwrap();
    assert!(tx.created());
    tx
}

fn begin_w(tx: Tx) -> sdb::WriteTx {
    match tx.w() {
        Ok(w) => w,
        Err((e, _)) => panic!("begin write failed: {:?}", e),
    }
}

#[test]
fn main() {
    let tx = fresh_store("main");
    let db0: DbPage<u64, u64> = tx.db(0);
    let db1: DbPage<u64, u32> = tx.db(1);

    println!("direct put");
    let (tx, added) = db0.put(tx, &0, &0).map_err(|p| p.0).unwrap();
    assert!(added);
    let (tx, added) = db0.put(tx, &0, &1).map_err(|p| p.0).unwrap();
    assert!(added);
    let (tx, added) = db0.put(tx, &6, &1).map_err(|p| p.0).unwrap();
    assert!(added);
    let (tx, added) = db0.put(tx, &6, &2).map_err(|p| p.0).unwrap();
    assert!(added);
    let (tx, added) = db0.put(tx, &6, &3).map_err(|p| p.0).unwrap();
    assert!(added);

    println!("- print val where key = 6");
    let run = db0.key_iter(&tx, &6).unwrap();
    for (k, v) in run.iter() {
        println!("> {:?} {:?}", k, v);
    }
    assert_eq!(run, vec![(6, 1), (6, 2), (6, 3)]);

    let (tx, removed) = db0.rm1(tx, &6, None).map_err(|p| p.0).unwrap();
    assert!(removed);

    let tx = {
        println!("# write transaction");
        let mut w = begin_w(tx);
        let mut t0 = w.db(&db0).unwrap();

        t0.put(&mut w, &1, &5).unwrap();
        t0.put(&mut w, &1, &3).unwrap();
        t0.put(&mut w, &2, &2).unwrap();
        t0.put(&mut w, &2, &1).unwrap();
        t0.put(&mut w, &3, &7).unwrap();
        t0.put(&mut w, &3, &9).unwrap();

        println!("- print all key db0");
        let mut all = Vec::new();
        let mut it = t0.iter(&w, None, None).unwrap();
        while let Some(entry) = it.next(&w).unwrap() {
            println!("> {:?} {:?}", entry.0, entry.1);
            all.push(entry);
        }
        assert_eq!(
            all,
            vec![
                (0, 0),
                (0, 1),
                (1, 3),
                (1, 5),
                (2, 1),
                (2, 2),
                (3, 7),
                (3, 9),
                (6, 2),
                (6, 3)
            ]
        );

        println!("- print db0 where key is 2");
        let mut run2 = Vec::new();
        let mut it = t0.key_iter(&w, &2).unwrap();
        while let Some(entry) = it.next(&w).unwrap() {
            println!("> {:?} {:?}", entry.0, entry.1);
            run2.push(entry);
        }
        assert_eq!(run2, vec![(2, 1), (2, 2)]);

        let r1 = t0.rm1(&mut w, &2, None).unwrap();
        println!("- delete key 2 the first value : {}", r1);
        assert!(r1);
        let r2 = t0.rm1(&mut w, &2, Some(&5)).unwrap();
        println!("- delete key=2 and value=5 : {}", r2);
        assert!(!r2);
        let r3 = t0.rm(&mut w, &3).unwrap();
        println!("- delete key 3 all value : delete number = {}", r3);
        assert_eq!(r3, 2);
        let r4 = t0.rm1(&mut w, &5, None).unwrap();
        println!("- delete key 5 the first value : {}", r4);
        assert!(!r4);

        println!("- print all key");
        let mut all = Vec::new();
        let mut it = t0.iter(&w, None, None).unwrap();
        while let Some(entry) = it.next(&w).unwrap() {
            println!("> {:?} {:?}", entry.0, entry.1);
            all.push(entry);
        }
        assert_eq!(all, vec![(0, 0), (0, 1), (1, 3), (1, 5), (2, 2), (6, 2), (6, 3)]);

        // a second table, reached through the widening adapter
        let mut t1 = w.db(&db1).unwrap();
        t1.put(&mut w, &1, &7u32).unwrap();
        println!("- print all key db1");
        let mut all1 = Vec::new();
        let mut it = t1.iter(&w, None, None).unwrap();
        while let Some(entry) = it.next(&w).unwrap() {
            println!("> {:?} {:?}", entry.0, entry.1);
            all1.push(entry);
        }
        assert_eq!(all1, vec![(1, 7)]);

        w.commit().unwrap()
    };

    {
        println!("# read transaction");
        let rt = tx.r().unwrap();
        let t0 = rt.db(&db0);

        let e = t0.exist(&rt, &2, &1).unwrap();
        println!("- exist key 2 value 1 > {:?}", e);
        assert!(!e);
        for i in [1u64, 2, 5] {
            let o = t0.one(&rt, &i).unwrap();
            println!("- get key {} > {:?}", i, o);
        }
        assert_eq!(t0.one(&rt, &1).unwrap(), Some(3));
        assert_eq!(t0.one(&rt, &2).unwrap(), Some(2));
        assert_eq!(t0.one(&rt, &5).unwrap(), None);

        println!("- print all key");
        let mut all = Vec::new();
        let mut it = t0.iter(&rt, None, None).unwrap();
        while let Some(entry) = it.next(&rt).unwrap() {
            println!("> {:?} {:?}", entry.0, entry.1);
            all.push(entry);
        }
        assert_eq!(all, vec![(0, 0), (0, 1), (1, 3), (1, 5), (2, 2), (6, 2), (6, 3)]);

        println!("- print key greater or equal 2");
        let mut from2 = Vec::new();
        let mut it = t0.iter(&rt, Some(&2), None).unwrap();
        while let Some(entry) = it.next(&rt).unwrap() {
            println!("> {:?} {:?}", entry.0, entry.1);
            from2.push(entry);
        }
        assert_eq!(from2, vec![(2, 2), (6, 2), (6, 3)]);

        println!("- print key greater or equal 2 and value greater or equal 1");
        let mut from21 = Vec::new();
        let mut it = t0.iter(&rt, Some(&2), Some(&1)).unwrap();
        while let Some(entry) = it.next(&rt).unwrap() {
            println!("> {:?} {:?}", entry.0, entry.1);
            from21.push(entry);
        }
        assert_eq!(from21, vec![(2, 2), (6, 2), (6, 3)]);

        println!("- print key in revese order");
        let mut rev = Vec::new();
        let mut it = t0.riter(&rt, None, None).unwrap();
        while let Some(entry) = it.next(&rt).unwrap() {
            println!("> {:?} {:?}", entry.0, entry.1);
            rev.push(entry);
        }
        assert_eq!(rev, vec![(6, 3), (6, 2), (2, 2), (1, 5), (1, 3), (0, 1), (0, 0)]);

        println!("- db1 : print key in revese order");
        let t1 = rt.db(&db1);
        let mut rev1 = Vec::new();
        let mut it = t1.riter(&rt, None, None).unwrap();
        while let Some(entry) = it.next(&rt).unwrap() {
            println!("> {:?} {:?}", entry.0, entry.1);
            rev1.push(entry);
        }
        assert_eq!(rev1, vec![(1, 7)]);
    }
}
