//! Z-order curves with the `litmax` and `bigmin` calculations of H. Tropf and
//! H. Herzog, "Multidimensional Range Search in Dynamically Balanced Trees"
//! (Angewandte Informatik 2/1981, pp. 71-77), and a range search over a
//! sequence of values sorted by their Z-order curve point.

use vstd::prelude::*;

pub mod bits;
mod prim;
pub mod word;
pub mod size;
pub mod region;
pub mod layout;
pub mod text;
pub mod z;
pub mod search;

pub use size::Size;
pub use word::Word;
pub use z::{Bbox, Z};

verus! {

/// A type that has a [`Z`] value.
pub trait GetZ<const D: usize, T: Size<D>> {
    /// The value's Z-order curve point, as contracts speak of it. An
    /// implementation outside verified code gives it the value of `*self.z()`.
    spec fn spec_z(&self) -> Z<D, T>;

    /// Borrow the value's Z-order curve point.
    fn z(&self) -> (z: &Z<D, T>)
        ensures
            *z == self.spec_z(),
    ;
}

impl<const D: usize, T: Size<D>> GetZ<D, T> for Z<D, T> {
    open spec fn spec_z(&self) -> Z<D, T> {
        *self
    }

    fn z(&self) -> (z: &Z<D, T>) {
        self
    }
}

} // verus!
