use std::cell::Cell;
use std::pin::Pin;

use interlock::utils::panicking::abort_on_unwind;
use interlock::utils::pin::{EarlyDrop, EarlyDropGuard};

struct Counter(u32);

impl EarlyDrop for Counter {}

impl Default for Counter {
    fn default() -> Self {
        Counter(5)
    }
}

#[test]
fn early_drop_guard_initializes_once() {
    let mut guard = EarlyDropGuard::new();
    assert!(guard.get().is_none());
    assert_eq!(guard.get_or_insert_with(|| Counter(1)).0, 1);
    assert_eq!(guard.get_or_insert_with(|| unreachable!()).0, 1);
    assert_eq!(guard.get().unwrap().0, 1);
}

#[test]
fn early_drop_guard_default() {
    let mut guard = EarlyDropGuard::<Counter>::new();
    assert_eq!(guard.get_or_insert_default().0, 5);
    assert_eq!(guard.get_or_insert_with(|| Counter(9)).0, 5);
}

#[test]
fn abort_on_unwind_returns_result() {
    assert_eq!(abort_on_unwind(|| 6 * 7), 42);
}

struct DropCheck<'a>(&'a Cell<usize>, &'a mut bool);

impl EarlyDrop for DropCheck<'_> {
    fn early_drop(&self) {
        assert_eq!(self.0.get(), 1, "early_drop was called too early");
        self.0.set(2);
    }
}

impl Drop for DropCheck<'_> {
    fn drop(&mut self) {
        assert_eq!(self.0.get(), 2, "early_drop wasn't called");
        self.0.set(3);

        assert_eq!(*self.1, false, "drop was called twice");
        *self.1 = true;
    }
}

#[test]
fn early_drop_called() {
    let step = Cell::new(0);
    let mut dropped = false;
    let mut edg = Box::pin(EarlyDropGuard::new());

    Pin::as_mut(&mut edg).get_or_insert_with(|| DropCheck(&step, &mut dropped));
    Pin::as_mut(&mut edg)
        .get_or_insert_with(|| unreachable!())
        .0
        .set(1);

    drop(edg);

    assert_eq!(step.get(), 3, "drop wasn't called");
    assert_eq!(dropped, true, "drop wasn't called");
}
