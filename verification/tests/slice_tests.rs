use interlock::hl::slice::{LockPoll, SliceIntervalRwLock, TryLockError};
use interlock::rwcore::rbtree::{ReadLockState, TryReadLockState, TryWriteLockState, WriteLockState};

#[test]
fn smoke() {
    let mut rwlock = SliceIntervalRwLock::new(vec![0i32; 16], 1);

    // Read borrows should not conflict with each other
    let guard1 = rwlock.try_read(2..4, TryReadLockState::new()).unwrap();
    let guard2 = rwlock.try_read(2..5, TryReadLockState::new()).unwrap();
    let guard3 = rwlock.try_read(0..4, TryReadLockState::new()).unwrap();
    let guard4 = rwlock.try_read(4..6, TryReadLockState::new()).unwrap();

    // Write borrows conflict with read borrows
    for i in 0..6 {
        let err = rwlock.try_write(i..i + 1, TryWriteLockState::new()).err().unwrap();
        assert_eq!(err, TryLockError::WouldBlock);
    }

    rwlock.unlock_try_read(guard1);
    rwlock.unlock_try_read(guard4);
    rwlock.unlock_try_read(guard3);
    rwlock.unlock_try_read(guard2);

    // Write borrows
    let guard5 = rwlock.try_write(0..4, TryWriteLockState::new()).unwrap();
    let guard6 = rwlock.try_write(5..7, TryWriteLockState::new()).unwrap();

    // Any borrows conflict with write borrows
    for i in 0..7 {
        if i == 4 {
            continue;
        }
        rwlock.try_write(i..i + 1, TryWriteLockState::new()).err().unwrap();
        rwlock.try_read(i..i + 1, TryReadLockState::new()).err().unwrap();
    }

    rwlock.unlock_try_write(guard6);
    rwlock.unlock_try_write(guard5);
}

#[test]
fn readme_example() {
    let mut vec = SliceIntervalRwLock::new(vec![0u8; 64], 2);

    // Borrow `vec[0..32]`
    let guard1 = vec.read(0..32, 0, ReadLockState::new());
    // Borrow `vec[16..32]`
    let guard2 = vec.read(16..32, 0, ReadLockState::new());
    // Mutably borrow `vec[16..48]` unsuccessfully
    vec.try_write(16..48, TryWriteLockState::new()).unwrap_err();

    // Unborrow `vec[0..32]` completely
    vec.unlock_read(guard1);
    vec.unlock_read(guard2);

    // Mutably borrow `vec[16..48]`
    let guard3 = vec.try_write(16..48, TryWriteLockState::new()).unwrap();
    vec.unlock_try_write(guard3);
}

#[test]
fn async_read_waits_for_writer() {
    let mut vec = SliceIntervalRwLock::new(vec![1u32; 16], 3);
    let w = vec.try_write(4..8, TryWriteLockState::new()).unwrap();
    let w_id = w.borrow().id;

    // The reader borrows 0..4 at once and waits at 4.
    let fut = vec.async_read(0..12, 0, ReadLockState::new());
    let fut_id = fut.borrow().id;
    assert_ne!(fut_id, w_id);
    let fut = match vec.poll_read(fut) {
        LockPoll::Ready(_) => panic!("the reader must wait"),
        LockPoll::Pending(f) => f,
    };
    // The reader already holds 0..4, so a writer there fails.
    vec.try_write(0..1, TryWriteLockState::new()).unwrap_err();

    // Releasing the writer completes the reader.
    let done = vec.unlock_try_write(w);
    assert_eq!(done, vec![fut_id]);
    let guard = match vec.poll_read(fut) {
        LockPoll::Ready(g) => g,
        LockPoll::Pending(_) => panic!("the reader must be complete"),
    };
    let b = guard.borrow();
    assert_eq!((b.start, b.end, b.write), (0, 12, false));
    assert_eq!(vec.slice(b), &[1u32; 12][..]);
    vec.unlock_read(guard);
}

#[test]
fn async_write_cancel() {
    let mut vec = SliceIntervalRwLock::new(vec![0u8; 16], 4);
    let r = vec.try_read(0..4, TryReadLockState::new()).unwrap();
    // The writer conflicts at 2 and borrows nothing yet.
    let fut = vec.async_write(2..6, 5, WriteLockState::new());
    let probe = vec.try_write(4..6, TryWriteLockState::new()).unwrap();
    vec.unlock_try_write(probe);
    // Cancelling the pending writer leaves nothing behind.
    let done = vec.cancel_write(fut);
    assert!(done.is_empty());
    let done = vec.unlock_try_read(r);
    assert!(done.is_empty());
    let w = vec.try_write(0..16, TryWriteLockState::new()).unwrap();
    vec.unlock_try_write(w);
}

#[test]
fn write_through_guard() {
    let mut vec = SliceIntervalRwLock::new(vec![0i64; 8], 5);
    let w = vec.try_write(2..5, TryWriteLockState::new()).unwrap();
    let b = w.borrow();
    vec.set(b, 3, 42);
    assert_eq!(vec.slice(b), &[0, 42, 0][..]);
    vec.unlock_try_write(w);
    assert_eq!(vec.len(), 8);
    assert!(!vec.is_empty());
    let old = vec.take_container();
    assert_eq!(old, vec![0, 0, 0, 42, 0, 0, 0, 0]);
    assert!(vec.is_empty());
    let old = vec.replace_container(vec![7; 3]);
    assert!(old.is_empty());
    assert_eq!(vec.len(), 3);
}
