//! A value that remembers whether it has moved since it was last looked at.
use vstd::prelude::*;
use vstd::std_specs::cmp::PartialEqSpec;

verus! {

/// A value plus a dirty flag. Storing a value that differs from the current
/// one raises the flag; storing an equal value leaves everything as it was.
/// [`TrackChange::changed`] reports the flag and lowers it.
pub struct TrackChange<T: PartialEq> {
    val: T,
    changed: bool,
}

impl<T: PartialEq> TrackChange<T> {
    /// The value held.
    pub closed spec fn value(&self) -> T {
        self.val
    }

    /// Whether the value moved since the flag was last read.
    pub closed spec fn is_changed(&self) -> bool {
        self.changed
    }

    pub fn new(val: T) -> (r: Self)
        ensures
            r.value() == val,
            !r.is_changed(),
    {
        TrackChange { val, changed: false }
    }

    /// Reports whether the value moved since the last call, and clears the flag.
    pub fn changed(&mut self) -> (r: bool)
        ensures
            r == old(self).is_changed(),
            !final(self).is_changed(),
            final(self).value() == old(self).value(),
    {
        let r = self.changed;
        self.changed = false;
        r
    }

    /// Stores `val`; the flag is raised only if `val` differs from the value held.
    /// Where `T`'s `==` is not known to Verus, the cell still keeps either its
    /// value or `val`, never lowers the flag, and raises it whenever the value
    /// moves.
    pub fn set(&mut self, val: T)
        ensures
            final(self).value() == old(self).value() || final(self).value() == val,
            old(self).is_changed() ==> final(self).is_changed(),
            final(self).value() != old(self).value() ==> final(self).is_changed(),
            T::obeys_eq_spec() && val.eq_spec(&old(self).value()) ==> *final(self) == *old(self),
            T::obeys_eq_spec() && !val.eq_spec(&old(self).value()) ==> {
                &&& final(self).value() == val
                &&& final(self).is_changed()
            },
    {
        if val == self.val {
            return;
        }
        self.changed = true;
        self.val = val;
    }

    /// The value held.
    pub fn get(&self) -> (r: &T)
        ensures
            *r == self.value(),
    {
        &self.val
    }
}

} // verus!
