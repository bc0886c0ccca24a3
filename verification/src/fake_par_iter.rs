//! This module implements the `par_iter()` method on vectors to call
//! `iter()` instead.
//!
//! This only exists so that callers written against a parallel iterator
//! interface can run unchanged where the work is done sequentially.

use vstd::prelude::*;

verus! {

pub trait VecParIter {
    type Item;

    fn par_iter(&self) -> std::slice::Iter<'_, Self::Item>;
}

impl<T> VecParIter for Vec<T> {
    type Item = T;

    fn par_iter(&self) -> std::slice::Iter<'_, T> {
        self.iter()
    }
}

} // verus!
