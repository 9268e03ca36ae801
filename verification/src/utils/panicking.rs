//! Running steps that must not be interrupted.
use vstd::prelude::*;

verus! {

/// Call the specified closure and return its result. Verified code does not
/// unwind, so this is a plain call here; the escalation of a panic to an
/// abort is left to the caller's panic strategy.
pub fn abort_on_unwind<R, F: FnOnce() -> R>(f: F) -> (r: R)
    requires
        f.requires(()),
    ensures
        f.ensures((), r),
{
    f()
}

} // verus!
