//! Dictionaries from integer keys to values.

pub mod bst;

use vstd::prelude::*;

verus! {

/// A dictionary from integer keys to values, modelled as a
/// mathematical map.
pub trait Dict<V>: Sized {
    /// Internal well-formedness.
    spec fn inv(&self) -> bool;

    /// The bindings currently held.
    spec fn model(&self) -> Map<usize, V>;

    /// Create an empty dictionary.
    fn new() -> (d: Self)
        ensures
            d.inv(),
            d.model() == Map::<usize, V>::empty(),
    ;

    /// Look up the value bound to `key`.
    fn find(&self, key: &usize) -> (r: Option<&V>)
        requires
            self.inv(),
        ensures
            match r {
                Some(v) => self.model().dom().contains(*key) && *v == self.model()[*key],
                None => !self.model().dom().contains(*key),
            },
    ;

    /// Bind `value` to `key`, replacing any earlier binding.
    fn ins(&mut self, key: usize, value: V)
        requires
            old(self).inv(),
        ensures
            final(self).inv(),
            final(self).model() == old(self).model().insert(key, value),
    ;

    /// Remove the binding of `key`.  The tree dictionary below does not
    /// support removal: it leaves the bindings unchanged and reports
    /// `None`.
    fn del(&mut self, key: &usize) -> (r: Option<V>)
        requires
            old(self).inv(),
        ensures
            final(self).inv(),
            final(self).model() == old(self).model(),
            r is None,
    ;
}

} // verus!
