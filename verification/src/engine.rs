//! The storage capability: the interface a key-value server consumes,
//! implemented by the log-structured store and by any alternate backend.

use vstd::prelude::*;

use crate::error::Error;

verus! {

/// Defines the storage interface a server dispatches requests against.
///
/// An implementation stands for a key-value mapping (its `model`), kept
/// under an invariant (`inv`). A `get` must report the model faithfully when
/// it succeeds; `set` and `remove`, when they succeed, must change the model
/// by exactly their key.
pub trait Engine {
    /// The implementation's internal invariant.
    spec fn inv(&self) -> bool;

    /// The key-value mapping the implementation stands for.
    spec fn model(&self) -> Map<Seq<char>, Seq<char>>;

    /// Get the value of a key.
    fn get(&mut self, key: String) -> (r: Result<Option<String>, Error>)
        requires
            old(self).inv(),
        ensures
            final(self).inv(),
            final(self).model() == old(self).model(),
            match r {
                Ok(Some(v)) => old(self).model().contains_key(key@)
                    && v@ == old(self).model()[key@],
                Ok(None) => !old(self).model().contains_key(key@),
                Err(_) => true,
            },
    ;

    /// Set a key to a given value.
    fn set(&mut self, key: String, value: String) -> (r: Result<(), Error>)
        requires
            old(self).inv(),
        ensures
            final(self).inv(),
            match r {
                Ok(()) => final(self).model() == old(self).model().insert(key@, value@),
                Err(_) => final(self).model() == old(self).model(),
            },
    ;

    /// Remove a key (and its value). A key that is not live is an error.
    fn remove(&mut self, key: String) -> (r: Result<(), Error>)
        requires
            old(self).inv(),
        ensures
            final(self).inv(),
            match r {
                Ok(()) => old(self).model().contains_key(key@) && final(self).model() == old(
                    self,
                ).model().remove(key@),
                Err(e) => final(self).model() == old(self).model() && (e is KeyNotFound
                    ==> !old(self).model().contains_key(key@)),
            },
    ;
}

} // verus!
