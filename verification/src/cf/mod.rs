//! Composite functors: functions with state, grouped by the action they
//! perform.

pub mod enumerate;
pub mod perform_bool_op;
pub mod triangulate;

use vstd::prelude::*;

verus! {

/// An abstract function: a functor that can be made in its default state.
pub trait Af: core::default::Default {
}

/// Makes a functor in its default state.
pub fn create<T: Af>() -> (r: T)
    ensures
        call_ensures(T::default, (), r),
{
    T::default()
}

} // verus!
