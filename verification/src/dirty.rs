//! Change tracking for cached values.

use vstd::prelude::*;

verus! {

/// A value that can be marked 'dirty': possibly changed since it was last
/// inspected.
pub trait Dirty {
    /// Whether the value currently carries the dirty mark.
    spec fn spec_is_dirty(&self) -> bool;

    /// Returns `true` if the value has been marked dirty.
    fn is_dirty(&self) -> (r: bool)
        ensures
            r == self.spec_is_dirty(),
    ;

    /// Clears the dirty mark.
    fn clear_dirty(&mut self)
        ensures
            !final(self).spec_is_dirty(),
    ;
}

/// A wrapper around any `T` that notes every mutation of the inner value by
/// setting a dirty flag, cleared only through [`Dirty::clear_dirty`].
pub struct Dirtiable<T> {
    value: T,
    dirty: bool,
}

impl<T> Dirtiable<T> {
    /// The wrapped value.
    pub closed spec fn spec_value(&self) -> T {
        self.value
    }

    /// Whether the value has been mutated since the mark was last cleared.
    pub closed spec fn spec_dirty(&self) -> bool {
        self.dirty
    }

    /// Wraps `value`, initially clean.
    pub fn new(value: T) -> (r: Self)
        ensures
            r.spec_value() == value,
            !r.spec_dirty(),
    {
        Dirtiable { value, dirty: false }
    }

    /// Returns the inner value and whether it was dirtied.
    pub fn into_inner(self) -> (r: (T, bool))
        ensures
            r.0 == self.spec_value(),
            r.1 == self.spec_dirty(),
    {
        (self.value, self.dirty)
    }

    /// Borrows the inner value without touching the mark.
    pub fn get(&self) -> (r: &T)
        ensures
            *r == self.spec_value(),
    {
        &self.value
    }

    /// Mutably borrows the inner value; this is a mutation, so the value
    /// comes back marked dirty.
    pub fn get_mut(&mut self) -> (r: &mut T)
        ensures
            *r == old(self).spec_value(),
            final(self).spec_value() == *final(r),
            final(self).spec_dirty(),
    {
        self.dirty = true;
        &mut self.value
    }

    /// Replaces the inner value, marking it dirty.
    pub fn set(&mut self, value: T)
        ensures
            final(self).spec_value() == value,
            final(self).spec_dirty(),
    {
        self.dirty = true;
        self.value = value;
    }
}

impl<T> Dirty for Dirtiable<T> {
    open spec fn spec_is_dirty(&self) -> bool {
        self.spec_dirty()
    }

    fn is_dirty(&self) -> (r: bool) {
        self.dirty
    }

    fn clear_dirty(&mut self) {
        self.dirty = false;
    }
}

} // verus!
