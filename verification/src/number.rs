use vstd::prelude::*;

verus! {

/// The capability an element type must offer: a default value and the
/// ability to be copied. Nothing else is asked of it.
pub trait Number: Default + Clone {}

impl<T: Default + Clone> Number for T {}

} // verus!
