//! Marks of the graphic elements that appear, are highlighted or disappear
//! during the next animation step.
use vstd::prelude::*;

verus! {

#[derive(Clone, Copy, PartialEq, Eq, Structural, Debug)]
pub enum Tag {
    Created,
    Selected,
    Deleted,
}

} // verus!
