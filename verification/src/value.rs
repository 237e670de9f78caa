//! The type-erased value container nodes use to exchange data.
//!
//! A [`Value`] holds exactly one payload of some concrete type behind a
//! shared, reference-counted pointer. The engine itself never looks inside a
//! value: it only moves values between sockets. Node implementations recover
//! the payload with a fallible downcast.
//!
//! Runtime type identification is the one job the verifier cannot watch: a
//! trait object carrying `core::any::Any` cannot be declared to it. The two
//! small functions touching it are therefore trusted, and they promise
//! nothing beyond their shape; everything the engine proves treats values as
//! opaque tokens.

use vstd::prelude::*;

verus! {

/// A type that can be put in a [`Value`].
pub trait Valuelike: 'static + Send + Sync {

}

impl<T: 'static + Send + Sync> Valuelike for T {

}

/// The shared, type-erased store behind [`Value`].
///
/// Relies on `std::sync::Arc` and `core::any::Any`: the payload is stored
/// once, shared by clones, and recovered by `Any::downcast_ref`, which
/// yields the payload exactly when the requested type is the stored type.
#[verifier::external_body]
pub struct ValueInner {
    value: std::sync::Arc<dyn core::any::Any + Send + Sync>,
}

impl ValueInner {
    /// Relies on `Arc::new`: wraps `value` as the stored payload.
    #[verifier::external_body]
    pub fn new<T: Valuelike>(value: T) -> Self {
        ValueInner { value: std::sync::Arc::new(value) }
    }

    /// Relies on `Any::downcast_ref`: hands back the stored payload when its
    /// type is `T`, and reports a mismatch otherwise.
    #[verifier::external_body]
    pub fn downcast<'a, T: Valuelike>(&'a self) -> Result<&'a T, TypeCastError> {
        match self.value.as_ref().downcast_ref::<T>() {
            Some(v) => Ok(v),
            None => Err(TypeCastError),
        }
    }

    /// Relies on `Arc::clone`: the clone shares the same stored payload, so
    /// it is the same value.
    #[verifier::external_body]
    fn clone_inner(&self) -> (r: Self)
        ensures
            r == *self,
    {
        ValueInner { value: std::sync::Arc::clone(&self.value) }
    }
}

impl Clone for ValueInner {
    fn clone(&self) -> (r: Self)
        ensures
            r == *self,
    {
        self.clone_inner()
    }
}

/// A type-erased, shareable value used in node graph calculations.
pub struct Value {
    inner: ValueInner,
}

impl Value {
    /// Creates a new [`Value`] holding `value`.
    pub fn new<T: Valuelike>(value: T) -> Self {
        Value { inner: ValueInner::new(value) }
    }

    /// Attempts to recover the payload as a `T`. Fails with
    /// [`TypeCastError`] if the stored payload is not a `T`.
    pub fn downcast<'a, T: Valuelike>(&'a self) -> Result<&'a T, TypeCastError> {
        self.inner.downcast::<T>()
    }
}

impl Clone for Value {
    fn clone(&self) -> (r: Self)
        ensures
            r == *self,
    {
        Value { inner: self.inner.clone() }
    }
}

/// Returned when downcasting a [`Value`] to a type other than the one it
/// holds.
#[derive(Clone, Copy, PartialEq, Eq, Structural, Debug)]
pub struct TypeCastError;

} // verus!
