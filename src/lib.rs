pub mod bmap;
pub mod bucket;
pub mod codec;
pub mod diff;
pub mod error;
pub mod index;
pub mod keymap;
pub mod laws;
pub mod page;
pub mod shim;
pub mod state;
pub mod store;
pub mod value;

use vstd::prelude::*;

verus! {

/// Sum of two sizes.
pub fn add(left: usize, right: usize) -> (r: usize)
    requires
        left + right <= usize::MAX,
    ensures
        r == left + right,
{
    left + right
}

} // verus!
