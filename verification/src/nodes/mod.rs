//! What the graph knows of the node types that ship with the generator: their labels, categories
//! and sockets, and the named options some of them offer.

use vstd::prelude::*;

pub mod combine;
pub mod flat;
pub mod satmap;

verus! {

/// Whether `a` and `b` hold the same text.
pub fn same_text(a: &str, b: &str) -> (r: bool)
    ensures
        r == (a@ == b@),
{
    a.to_owned() == b.to_owned()
}

} // verus!
