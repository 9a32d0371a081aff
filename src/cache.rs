pub mod lru;

use vstd::prelude::*;

verus! {

/// A key/value store of bounded size.
pub trait Cache<K, V> {
    /// The store's own well-formedness, which every operation keeps.
    spec fn wf(&self) -> bool;

    /// The value under `key`, if any; a hit counts as a use of `key`.
    fn get(&mut self, key: &K) -> (r: Option<&V>)
        requires
            old(self).wf(),
        ensures
            final(self).wf(),
    ;

    /// Writes `value` under `key` and hands back the value it replaced, if any.
    fn set(&mut self, key: K, value: V) -> (r: Option<V>)
        requires
            old(self).wf(),
        ensures
            final(self).wf(),
    ;
}

} // verus!
