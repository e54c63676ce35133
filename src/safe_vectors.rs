use vstd::prelude::*;

use crate::errors::CoreError;

verus! {

/// Bounds-checked access to a sequence of values.
pub trait SafeVectors<T: Clone>: Sized {
    /// The values held.
    spec fn values(&self) -> Seq<T>;

    /// Whether `index` names a value.
    fn is_safe_access(&self, index: usize) -> (r: bool)
        ensures
            r == (index < self.values().len()),
    ;

    /// Whether `index` may end a range of values.
    fn is_valid_range(&self, index: usize) -> (r: bool)
        ensures
            r == (index <= self.values().len()),
    ;

    /// A clone of the value at `index`, or `err` where there is none.
    fn get_or_err(&self, index: usize, err: CoreError) -> (r: Result<T, CoreError>)
        ensures
            index < self.values().len() ==> r is Ok && cloned(
                self.values()[index as int],
                r->Ok_0,
            ),
            index >= self.values().len() ==> r == Err::<T, CoreError>(err),
    ;
}

impl<T: Clone> SafeVectors<T> for Vec<T> {
    open spec fn values(&self) -> Seq<T> {
        self@
    }

    fn is_safe_access(&self, index: usize) -> (r: bool) {
        index < self.len()
    }

    fn is_valid_range(&self, index: usize) -> (r: bool) {
        index <= self.len()
    }

    fn get_or_err(&self, index: usize, err: CoreError) -> (r: Result<T, CoreError>) {
        if index < self.len() {
            Ok(self[index].clone())
        } else {
            Err(err)
        }
    }
}

} // verus!
