//! Small helpers shared across the analyzer.

use vstd::prelude::*;

verus! {

/// Clone a value captured from surrounding task state; the result is a
/// clone of the input.
pub fn clone_value_from_task_local<T: Clone>(value: &T) -> (r: T)
    ensures
        vstd::pervasive::cloned::<T>(*value, r),
{
    value.clone()
}

} // verus!
