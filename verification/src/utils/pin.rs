//! A lazily filled slot whose content is dropped through a hook.
use vstd::prelude::*;

verus! {

/// A hook run on the content of an [`EarlyDropGuard`] before the content is
/// dropped.
pub trait EarlyDrop {
    /// The last use of `self` before it is dropped.
    fn early_drop(&self)
        opens_invariants none
        no_unwind
    {
    }
}

/// Holds an object that is created on first use and then stays in place.
pub struct EarlyDropGuard<T: EarlyDrop> {
    storage: Option<T>,
}

impl<T: EarlyDrop> View for EarlyDropGuard<T> {
    type V = Option<T>;

    closed spec fn view(&self) -> Option<T> {
        self.storage
    }
}

impl<T: EarlyDrop> EarlyDropGuard<T> {
    /// Construct an `EarlyDropGuard`. The created `EarlyDropGuard` initially
    /// doesn't contain the inner object.
    pub fn new() -> (s: Self)
        ensures
            s@ is None,
    {
        EarlyDropGuard { storage: None }
    }

    /// The inner object, if it has been created.
    pub fn get(&self) -> (r: Option<&T>)
        ensures
            match r {
                Some(x) => self@ == Some(*x),
                None => self@ is None,
            },
    {
        self.storage.as_ref()
    }

    /// Get a reference to the inner object, creating one with `init` if it
    /// hasn't been created yet.
    pub fn get_or_insert_with<F: FnOnce() -> T>(&mut self, init: F) -> (r: &T)
        requires
            old(self)@ is None ==> init.requires(()),
        ensures
            final(self)@ == Some(*r),
            old(self)@ matches Some(x) ==> *r == x,
            old(self)@ is None ==> init.ensures((), *r),
    {
        if self.storage.is_none() {
            let inner = init();
            self.storage = Some(inner);
        }
        self.storage.as_ref().unwrap()
    }

    /// Get a reference to the inner object, creating one with
    /// [`Default::default`] if it hasn't been created yet.
    pub fn get_or_insert_default(&mut self) -> (r: &T) where T: Default
        ensures
            final(self)@ == Some(*r),
            old(self)@ matches Some(x) ==> *r == x,
            old(self)@ is None ==> call_ensures(T::default, (), *r),
    {
        if self.storage.is_none() {
            let inner = T::default();
            self.storage = Some(inner);
        }
        self.storage.as_ref().unwrap()
    }
}

impl<T: EarlyDrop> Drop for EarlyDropGuard<T> {
    /// Run the content's [`EarlyDrop::early_drop`] before the content is
    /// dropped.
    fn drop(&mut self)
        opens_invariants none
        no_unwind
    {
        if let Some(inner) = &self.storage {
            inner.early_drop();
        }
    }
}

} // verus!
