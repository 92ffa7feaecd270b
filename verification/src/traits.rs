//! The marker through which generated converters are reached.

use std::marker::PhantomData;
use vstd::prelude::*;

verus! {

/// Stands for the factory of records of type `T`: the type for which the
/// converters of `T` are implemented. It holds no data.
pub struct Factory<T> {
    pub phantom_data: PhantomData<T>,
}

impl<T> Factory<T> {
    /// The factory of `T`.
    pub fn new() -> (factory: Factory<T>) {
        Factory { phantom_data: PhantomData }
    }
}

} // verus!
