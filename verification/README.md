# interlock

Readers-writer locks optimized for locking intervals. Every operation of the
library under `src/` is verified by Verus; the thread-safe front ends under
`app/` are ordinary Rust.

A lock on `start..end` borrows the longest prefix of its interval that no
conflicting borrow holds (readers conflict with writers, writers with
everyone), and waits at the first conflicting index for the rest. Releasing a
lock resumes the pending borrows that wait inside the released region, from
the highest position down, higher priority first and oldest first among
equals. Non-blocking locks succeed only when the whole interval is free and
change nothing otherwise.

The held borrows are indexed by red-black trees whose nodes keep the size
and a weight sum of their subtree: the write borrows ordered by start, and
the endpoints of the read borrows ordered by position, a start weighing `+1`
and an end `-1`, so that the number of read borrows containing an index is a
prefix sum. Finding the first conflicting index of a lock therefore takes
logarithmic time, and so do adding a borrow and placing a pending borrow in
the wait order (itself a red-black tree). Releasing a lock still looks its
borrow and its pending borrow up by identifier in linear time.

Each interval lock is created with an instance number that its creator keeps
distinct from those of other live locks; lock states remember the instance
they were used with, and releasing requires the two to match. The only size
limit is on the borrows alive at once: a new lock needs the held and pending
borrows together to number fewer than `usize::MAX / 4`.

## Layout

- `src/rwcore/model.rs`: the model: borrowed regions, pending borrows in wait
  order, the specification of every operation, the invariant (mutual
  exclusion, ordering, every pending borrow is blocked) and the proofs that
  every operation keeps it.
- `src/rwcore/rbtree.rs`: `RbTreeIntervalRwLockCore`, the executable lock,
  whose operations are proved equal to the model's.
- `src/rwcore/frame.rs`: what each operation leaves alone: the progress of
  every other lock.
- `src/rwcore/laws.rs`: properties of all states and operations.
- `src/hl/slice.rs`: `SliceIntervalRwLock`, a lock over the elements of a
  vector, whose guards grant access to the elements they cover.
- `src/rwcore/index.rs`: the search trees over the held borrows and the
  proofs that their searches agree with the model.
- `src/utils/rbtree.rs`: a red-black tree that keeps a sequence, with the
  size and the weight sum of every subtree (prefix sums); it holds the
  indexes and the pending borrows. Its operations are
  proved to keep the red-black rules, so the tree stays balanced.
- `src/utils/`: also a lazily filled slot and a helper for steps that must
  not be interrupted.
- `app/`: thread-safe front ends (blocking with `std` mutexes and thread
  parking, and `Future`-oriented with `lock_api` mutexes and wakers) and the
  error type with `std::error::Error`.
