use std::collections::{BTreeSet, HashMap, HashSet};
use std::ops::Range;

use interlock::rwcore::rbtree::{
    RbTreeIntervalRwLockCore, ReadLockState, TryReadLockState, TryWriteLockState, WriteLockState,
};

const LEN: usize = 32;

type LockId = u64;

type IsWrite = bool;

#[derive(Default)]
struct RwLock {
    owners: HashSet<(LockId, IsWrite)>,
    waits: BTreeSet<(std::cmp::Reverse<u64>, u64, LockId)>,
    next_order: u64,
}

struct Lock {
    range: Range<usize>,
    write: IsWrite,
    pos: usize,
    priority: u64,
    order: Option<u64>,
}

/// An array of virtual readers-writer locks, each with a wait list ordered by
/// `(-priority, sequence)`.
pub struct NotSoIntervalRwLockCore {
    rwlocks: Vec<RwLock>,
    locks: HashMap<LockId, Lock>,
}

impl NotSoIntervalRwLockCore {
    pub fn new() -> Self {
        Self { rwlocks: (0..LEN).map(|_| RwLock::default()).collect(), locks: HashMap::new() }
    }

    /// Acquire a lock. Returns whether the lock is complete.
    pub fn lock(&mut self, id: LockId, range: Range<usize>, write: IsWrite, priority: u64) -> bool {
        let pos = range.start;
        self.locks.insert(id, Lock { range, write, priority, pos, order: None });
        self.resume(id)
    }

    pub fn is_complete(&self, id: LockId) -> bool {
        let lock = &self.locks[&id];
        lock.pos == lock.range.end
    }

    /// Release a lock. Returns the locks that completed, in order.
    pub fn unlock(&mut self, id: LockId) -> Vec<LockId> {
        let mut lock = self.locks.remove(&id).unwrap();
        if let Some(order) = lock.order.take() {
            let rwl = &mut self.rwlocks[lock.pos];
            assert!(rwl.waits.remove(&(std::cmp::Reverse(lock.priority), order, id)));
        }
        let mut done = Vec::new();
        while lock.pos > lock.range.start {
            lock.pos -= 1;
            let rwl = &mut self.rwlocks[lock.pos];
            rwl.owners.remove(&(id, lock.write));
            let ids: Vec<_> = rwl.waits.iter().map(|w| w.2).collect();
            for other in ids {
                let was_complete = self.is_complete(other);
                if self.resume(other) && !was_complete {
                    done.push(other);
                }
            }
        }
        done
    }

    fn resume(&mut self, id: LockId) -> bool {
        let lock = self.locks.get_mut(&id).unwrap();
        if let Some(order) = lock.order.take() {
            let rwl = &mut self.rwlocks[lock.pos];
            assert!(rwl.waits.remove(&(std::cmp::Reverse(lock.priority), order, id)));
        }
        while lock.pos < lock.range.end {
            let rwl = &mut self.rwlocks[lock.pos];
            let blocked = if lock.write {
                !rwl.owners.is_empty()
            } else {
                rwl.owners.iter().any(|&(_, w)| w)
            };
            if blocked {
                break;
            }
            rwl.owners.insert((id, lock.write));
            lock.pos += 1;
        }
        if lock.pos < lock.range.end {
            let rwl = &mut self.rwlocks[lock.pos];
            let order = rwl.next_order;
            rwl.next_order += 1;
            lock.order = Some(order);
            rwl.waits.insert((std::cmp::Reverse(lock.priority), order, id));
        }
        lock.pos == lock.range.end
    }
}

enum State {
    Read(ReadLockState),
    Write(WriteLockState),
    TryRead(TryReadLockState),
    TryWrite(TryWriteLockState),
}

struct Rng(u64);

impl Rng {
    fn next(&mut self) -> u64 {
        self.0 ^= self.0 << 13;
        self.0 ^= self.0 >> 7;
        self.0 ^= self.0 << 17;
        self.0
    }
}

fn unlock(core: &mut RbTreeIntervalRwLockCore<LockId>, state: &mut State) -> Vec<LockId> {
    match state {
        State::Read(s) => core.unlock_read(s).1,
        State::Write(s) => core.unlock_write(s).1,
        State::TryRead(s) => core.unlock_try_read(s),
        State::TryWrite(s) => core.unlock_try_write(s),
    }
}

fn run_against_virtual_locks(seed: u64, steps: usize) {
    let mut rng = Rng(seed);
    let mut core = RbTreeIntervalRwLockCore::<LockId>::new(7);
    let mut model = NotSoIntervalRwLockCore::new();
    let mut locks: Vec<(LockId, State)> = Vec::new();

    for _ in 0..steps {
        let cmd = rng.next();
        if cmd % 2 == 0 && !locks.is_empty() {
            let i = (rng.next() as usize) % locks.len();
            let (id, mut state) = locks.swap_remove(i);
            let mut done = unlock(&mut core, &mut state);
            let mut expected = model.unlock(id);
            done.sort();
            expected.sort();
            assert_eq!(done, expected, "completed locks after releasing {}", id);
        } else if locks.len() < 64 {
            let a = (rng.next() as usize) % LEN;
            let b = (rng.next() as usize) % LEN;
            let range = a.min(b)..a.max(b);
            if range.start == range.end {
                continue;
            }
            let priority = rng.next() % 4;
            let id = core.next_id();
            let kind = (cmd / 2) % 4;
            let (ok, state) = match kind {
                0 => {
                    let mut s = ReadLockState::new();
                    core.lock_read(range.clone(), priority, &mut s, id);
                    (true, State::Read(s))
                }
                1 => {
                    let mut s = WriteLockState::new();
                    core.lock_write(range.clone(), priority, &mut s, id);
                    (true, State::Write(s))
                }
                2 => {
                    let mut s = TryReadLockState::new();
                    let ok = core.try_lock_read(range.clone(), &mut s);
                    (ok, State::TryRead(s))
                }
                _ => {
                    let mut s = TryWriteLockState::new();
                    let ok = core.try_lock_write(range.clone(), &mut s);
                    (ok, State::TryWrite(s))
                }
            };
            let write = kind == 1 || kind == 3;
            let model_complete = model.lock(id, range.clone(), write, priority);
            if kind >= 2 {
                assert_eq!(ok, model_complete, "try lock {} on {:?}", id, range);
            }
            if !ok {
                // A failed non-blocking lock leaves no trace.
                model.unlock(id);
                continue;
            }
            locks.push((id, state));
        }
        for (id, _) in &locks {
            assert_eq!(core.is_pending(*id), !model.is_complete(*id), "lock {}", id);
        }
    }

    for (_, mut state) in locks {
        unlock(&mut core, &mut state);
    }
    assert!(!core.is_locked());
}

#[test]
fn matches_virtual_lock_model() {
    for seed in 1..200u64 {
        run_against_virtual_locks(seed * 0x9E37_79B9_7F4A_7C15 | 1, 300);
    }
}

#[test]
fn pending_read_completes_when_writer_leaves() {
    let mut core = RbTreeIntervalRwLockCore::<&'static str>::new(0);
    let mut w = TryWriteLockState::new();
    assert!(core.try_lock_write(4..8, &mut w));
    let mut r = ReadLockState::new();
    // Borrows 0..4 and waits at 4.
    assert!(!core.lock_read(0..10, 0, &mut r, "reader"));
    let rid = r.id().unwrap();
    assert!(core.is_pending(rid));
    assert_eq!(core.pending(rid), Some((4, 10, false)));
    let held = core.region(rid, false).unwrap();
    assert_eq!((held.owner, held.start, held.end), (rid, 0, 4));
    assert!(core.holds(rid, false));
    assert!(!core.holds(rid, true));
    // 0..4 is held by the reader: a writer there fails, a reader succeeds.
    let mut probe = TryWriteLockState::new();
    assert!(!core.try_lock_write(0..1, &mut probe));
    assert_eq!(probe.id(), None);
    let mut probe = TryReadLockState::new();
    assert!(core.try_lock_read(0..1, &mut probe));
    assert!(core.unlock_try_read(&mut probe).is_empty());

    let done = core.unlock_try_write(&mut w);
    assert_eq!(done, vec!["reader"]);
    assert!(!core.is_pending(rid));
    let (cancelled, done) = core.unlock_read(&mut r);
    assert_eq!(cancelled, None);
    assert!(done.is_empty());
    assert_eq!(r.id(), None);
    // A released lock holds nothing and waits for nothing.
    assert!(!core.holds(rid, false));
    assert!(!core.is_pending(rid));
    assert!(core.region(rid, false).is_none());
    assert!(!core.is_locked());
}

#[test]
fn cancel_returns_in_progress() {
    let mut core = RbTreeIntervalRwLockCore::<u32>::new(0);
    let mut r = TryReadLockState::new();
    assert!(core.try_lock_read(0..4, &mut r));
    let mut w = WriteLockState::new();
    assert!(!core.lock_write(2..6, 0, &mut w, 7));
    // The writer conflicts with the reader at 2 and waits there.
    let (cancelled, done) = core.unlock_write(&mut w);
    assert_eq!(cancelled, Some(7));
    assert!(done.is_empty());
    assert!(core.unlock_try_read(&mut r).is_empty());
    assert!(!core.is_locked());
}

#[test]
fn higher_priority_first_then_fifo() {
    let mut core = RbTreeIntervalRwLockCore::<u32>::new(0);
    let mut blocker = TryReadLockState::new();
    assert!(core.try_lock_read(0..1, &mut blocker));
    let mut w1 = WriteLockState::new();
    let mut w2 = WriteLockState::new();
    let mut w3 = WriteLockState::new();
    assert!(!core.lock_write(0..1, 1, &mut w1, 1));
    assert!(!core.lock_write(0..1, 1, &mut w2, 2));
    assert!(!core.lock_write(0..1, 5, &mut w3, 3));
    // Releasing the reader lets the highest priority writer in.
    assert_eq!(core.unlock_try_read(&mut blocker), vec![3]);
    // Then the older of the two equal-priority writers.
    assert_eq!(core.unlock_write(&mut w3).1, vec![1]);
    assert_eq!(core.unlock_write(&mut w1).1, vec![2]);
    assert_eq!(core.unlock_write(&mut w2).1, Vec::<u32>::new());
    assert!(!core.is_locked());
}

#[test]
fn all_waiters_at_the_released_start_resume() {
    let mut core = RbTreeIntervalRwLockCore::<u32>::new(0);
    let mut w = TryWriteLockState::new();
    assert!(core.try_lock_write(0..4, &mut w));
    let mut r1 = ReadLockState::new();
    let mut r2 = ReadLockState::new();
    assert!(!core.lock_read(0..2, 0, &mut r1, 1));
    assert!(!core.lock_read(0..2, 0, &mut r2, 2));
    let done = core.unlock_try_write(&mut w);
    assert_eq!(done, vec![1, 2]);
    core.unlock_read(&mut r1);
    core.unlock_read(&mut r2);
    assert!(!core.is_locked());
}

#[test]
fn release_undoes_lock() {
    let mut core = RbTreeIntervalRwLockCore::<u32>::new(0);
    let mut a = TryReadLockState::new();
    assert!(core.try_lock_read(2..6, &mut a));
    let mut p = WriteLockState::new();
    assert!(!core.lock_write(4..8, 0, &mut p, 9));
    // Lock and release a reader: nothing else changes, nothing completes.
    let mut b = TryReadLockState::new();
    assert!(core.try_lock_read(0..10, &mut b));
    assert!(core.unlock_try_read(&mut b).is_empty());
    assert!(core.is_pending(p.id().unwrap()));
    // The first reader still holds 2..6.
    let mut probe = TryWriteLockState::new();
    assert!(!core.try_lock_write(5..6, &mut probe));
    assert_eq!(core.unlock_try_read(&mut a), vec![9]);
    let (cancelled, done) = core.unlock_write(&mut p);
    assert_eq!((cancelled, done), (None, vec![]));
    assert!(!core.is_locked());
}

#[test]
fn lock_completes_iff_try_lock_succeeds() {
    let mut core = RbTreeIntervalRwLockCore::<u32>::new(0);
    let mut w = TryWriteLockState::new();
    assert!(core.try_lock_write(10..20, &mut w));
    let mut r = ReadLockState::new();
    assert!(core.lock_read(0..10, 0, &mut r, 0));
    let mut t = TryReadLockState::new();
    assert!(core.try_lock_read(0..10, &mut t));
    let mut r2 = ReadLockState::new();
    assert!(!core.lock_read(5..15, 0, &mut r2, 0));
    let mut t2 = TryReadLockState::new();
    assert!(!core.try_lock_read(5..15, &mut t2));
    assert!(core.can_lock());
}

#[test]
fn failed_try_lock_changes_nothing() {
    let mut core = RbTreeIntervalRwLockCore::<u32>::new(0);
    let mut w = TryWriteLockState::new();
    assert!(core.try_lock_write(3..5, &mut w));
    let next = core.next_id();
    let mut r = TryReadLockState::new();
    assert!(!core.try_lock_read(0..4, &mut r));
    assert_eq!(r.id(), None);
    assert_eq!(core.next_id(), next);
    let mut w2 = TryWriteLockState::new();
    assert!(!core.try_lock_write(4..9, &mut w2));
    assert_eq!(core.next_id(), next);
    // The existing writer is untouched.
    let wid = w.id().unwrap();
    let held = core.region(wid, true).unwrap();
    assert_eq!((held.start, held.end), (3, 5));
    core.unlock_try_write(&mut w);
    assert!(!core.is_locked());
}

#[test]
fn writer_waits_behind_readers_and_keeps_its_prefix() {
    let mut core = RbTreeIntervalRwLockCore::<u32>::new(0);
    let mut r1 = TryReadLockState::new();
    let mut r2 = TryReadLockState::new();
    assert!(core.try_lock_read(6..8, &mut r1));
    assert!(core.try_lock_read(7..12, &mut r2));
    let mut w = WriteLockState::new();
    assert!(!core.lock_write(2..10, 3, &mut w, 77));
    let wid = w.id().unwrap();
    assert_eq!(core.pending(wid), Some((6, 10, true)));
    // Releasing the first reader moves the writer to the second one.
    assert!(core.unlock_try_read(&mut r1).is_empty());
    assert_eq!(core.pending(wid), Some((7, 10, true)));
    let held = core.region(wid, true).unwrap();
    assert_eq!((held.start, held.end), (2, 7));
    // Releasing the second completes it.
    assert_eq!(core.unlock_try_read(&mut r2), vec![77]);
    assert_eq!(core.pending(wid), None);
    let held = core.region(wid, true).unwrap();
    assert_eq!((held.start, held.end), (2, 10));
    core.unlock_write(&mut w);
    assert!(!core.is_locked());
}

#[test]
fn lock_states_remember_their_lock() {
    let mut a = RbTreeIntervalRwLockCore::<u32>::new(1);
    let b = RbTreeIntervalRwLockCore::<u32>::new(2);
    assert_eq!(a.instance_id(), 1);
    assert_eq!(b.instance_id(), 2);
    let mut s = TryWriteLockState::new();
    assert!(a.try_lock_write(0..4, &mut s));
    assert_eq!(s.origin_id(), a.instance_id());
    assert_ne!(s.origin_id(), b.instance_id());
    a.unlock_try_write(&mut s);
}

#[test]
fn capacity_bounds_live_borrows_not_lock_count() {
    let mut core = RbTreeIntervalRwLockCore::<u32>::new(0);
    for _ in 0..10_000 {
        assert!(core.can_lock());
        let mut s = TryReadLockState::new();
        assert!(core.try_lock_read(3..9, &mut s));
        core.unlock_try_read(&mut s);
    }
    assert_eq!(core.next_id(), 10_000);
    assert!(!core.is_locked());
}
