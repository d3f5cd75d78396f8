//! A value that is transformed once, the first time it is asked for.

use vstd::prelude::*;

verus! {

/// A value together with whether it was transformed yet.
pub struct LazyModify<T> {
    modified: bool,
    value: T,
}

impl<T> LazyModify<T> {
    /// The value as it is now.
    pub closed spec fn value(&self) -> T {
        self.value
    }

    /// Whether the value was transformed.
    pub closed spec fn is_modified(&self) -> bool {
        self.modified
    }

    /// Wraps a value that is not transformed yet.
    pub fn new(init: T) -> (r: Self)
        ensures
            r.value() == init,
            !r.is_modified(),
    {
        LazyModify { modified: false, value: init }
    }

    /// Transforms the value with `modify`, unless it was transformed
    /// before, and lends it.
    pub fn modify<F: FnOnce(T) -> T>(self, modify: F) -> (r: Self)
        requires
            !self.is_modified() ==> modify.requires((self.value(),)),
        ensures
            r.is_modified(),
            self.is_modified() ==> r.value() == self.value(),
            !self.is_modified() ==> modify.ensures((self.value(),), r.value()),
    {
        if self.modified {
            self
        } else {
            LazyModify { modified: true, value: modify(self.value) }
        }
    }

    /// The value, where it was transformed.
    pub fn get(&self) -> (r: Option<&T>)
        ensures
            r == if self.is_modified() {
                Some(&self.value())
            } else {
                None
            },
    {
        if self.modified {
            Some(&self.value)
        } else {
            None
        }
    }
}

} // verus!
