use std::sync::atomic::{AtomicI64, Ordering};
use std::sync::Arc;
use t51core::sync::{read_outcome, readers_after, write_outcome, LockError, RwCell, LOCK_FREE, WRITER_MARK};

#[test]
fn test_rwcell() {
    let mut lock = RwCell::new(5, Arc::new(AtomicI64::new(0)));

    {
        let a = lock.read().unwrap();
        {
            let b = lock.read().unwrap();
            {
                let c = lock.read().unwrap();

                assert_eq!(*a.get(), 5);
                assert_eq!(*b.get(), 5);
                assert_eq!(*c.get(), 5);
            }
        }
    }

    {
        let mut d = lock.write().unwrap();

        assert_eq!(*d.get(), 5);
        d.set(10);
        assert_eq!(*d.get(), 10);
    }

    let e = lock.read().unwrap();

    assert_eq!(*e.get(), 10);
}

#[test]
fn rwcell_counts_readers_on_the_shared_guard() {
    let guard = Arc::new(AtomicI64::new(0));
    let lock = RwCell::new(1, guard.clone());
    let a = lock.read().unwrap();
    let b = lock.read().unwrap();
    assert_eq!(guard.load(Ordering::SeqCst), 2);
    drop(a);
    assert_eq!(guard.load(Ordering::SeqCst), 1);
    drop(b);
    assert_eq!(guard.load(Ordering::SeqCst), 0);
}

#[test]
fn rwcell_refuses_write_while_read_and_read_while_written() {
    let guard = Arc::new(AtomicI64::new(0));
    let mut lock = RwCell::new(1, guard.clone());
    let mut other = RwCell::new(2, guard.clone());
    {
        let _r = lock.read().unwrap();
        assert_eq!(other.write().err(), Some(LockError::Locked));
    }
    {
        let _w = lock.write().unwrap();
        assert_eq!(guard.load(Ordering::SeqCst), -1);
        assert_eq!(other.read().err(), Some(LockError::WriteLocked));
    }
    assert_eq!(guard.load(Ordering::SeqCst), 0);
}

#[test]
fn rwcell_write_through_item_is_seen_by_later_reads() {
    let mut lock = RwCell::new(String::from("a"), Arc::new(AtomicI64::new(0)));
    {
        let guard = lock.write().unwrap();
        guard.item.push('b');
    }
    assert_eq!(lock.read().unwrap().get().as_str(), "ab");
}

#[test]
fn lock_outcomes_follow_the_count_and_the_exchange() {
    assert_eq!(read_outcome(-1, false), Err(LockError::WriteLocked));
    assert_eq!(read_outcome(i64::MAX, false), Err(LockError::Locked));
    assert_eq!(read_outcome(3, true), Ok(()));
    assert_eq!(read_outcome(0, false), Err(LockError::Contended));
    assert_eq!(write_outcome(true), Ok(()));
    assert_eq!(write_outcome(false), Err(LockError::Locked));
}

#[test]
fn write_lock_refused_while_read_and_read_refused_while_written() {
    let mut lock = RwCell::new(1, Arc::new(AtomicI64::new(0)));
    {
        let guard = lock.write().unwrap();
        assert_eq!(*guard.get(), 1);
    }
    let shared = Arc::new(AtomicI64::new(-1));
    let cell = RwCell::new(2, shared.clone());
    assert!(matches!(cell.read(), Err(LockError::WriteLocked)));
    shared.store(2, Ordering::SeqCst);
    let mut cell = RwCell::new(3, shared);
    assert!(matches!(cell.write(), Err(LockError::Locked)));
}

#[test]
fn lock_counts_move_by_one_reader_and_the_writer_mark() {
    assert_eq!(readers_after(LOCK_FREE), 1);
    assert_eq!(readers_after(41), 42);
    assert_eq!(WRITER_MARK, -1);
    let shared = Arc::new(AtomicI64::new(LOCK_FREE));
    let mut cell = RwCell::new(7, shared.clone());
    {
        let _guard = cell.write().unwrap();
        assert_eq!(shared.load(Ordering::SeqCst), WRITER_MARK);
    }
    assert_eq!(shared.load(Ordering::SeqCst), LOCK_FREE);
}
