//! The storage engines and the interface that the server relies on.
use crate::error::KvStoreError;
use crate::error::Result;
use vstd::prelude::*;

pub mod durable;
pub mod kvs;

verus! {

/// A storage backend: a map from string keys to string values.
///
/// `model` is what the engine holds; every operation states what it does to
/// it. A backend may fail for reasons of its own (`Err` of another kind than
/// `KeyNotFoundError`), and then leaves the map as it was.
pub trait KvsEngine: Sized {
    /// The engine's internal consistency.
    spec fn inv(&self) -> bool;

    /// The key-value map that the engine holds.
    spec fn model(&self) -> Map<Seq<char>, Seq<char>>;

    /// Sets the value of a key, overwriting any earlier value. It never
    /// fails for want of a key.
    fn set(&mut self, key: String, value: String) -> (r: Result<()>)
        requires
            old(self).inv(),
        ensures
            final(self).inv(),
            r is Ok ==> final(self).model() == old(self).model().insert(key@, value@),
            r is Err ==> final(self).model() == old(self).model(),
            !(r matches Err(KvStoreError::KeyNotFoundError)),
    ;

    /// Gets the value of a key; a key without a value is `KeyNotFoundError`.
    fn get(&self, key: String) -> (r: Result<Option<String>>)
        requires
            self.inv(),
        ensures
            r matches Ok(v) ==> v matches Some(s) && self.model().contains_key(key@)
                && self.model()[key@] == s@,
            !self.model().contains_key(key@) ==> r matches Err(KvStoreError::KeyNotFoundError),
            r matches Err(KvStoreError::KeyNotFoundError) ==> !self.model().contains_key(key@),
    ;

    /// Removes a key; a key without a value is `KeyNotFoundError`.
    fn remove(&mut self, key: String) -> (r: Result<()>)
        requires
            old(self).inv(),
        ensures
            final(self).inv(),
            r is Ok ==> old(self).model().contains_key(key@) && final(self).model() == old(
                self,
            ).model().remove(key@),
            r is Err ==> final(self).model() == old(self).model(),
            !old(self).model().contains_key(key@) ==> r matches Err(
                KvStoreError::KeyNotFoundError,
            ),
            r matches Err(KvStoreError::KeyNotFoundError) ==> !old(self).model().contains_key(
                key@,
            ),
    ;
}

} // verus!
