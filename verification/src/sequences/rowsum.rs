//! The sums that the entries of the four sequences are to reach.

use vstd::prelude::*;
use crate::sequences::williamson::SequenceTag;

verus! {

/// The target sums of the entries of the sequences A, B, C, D, in this order.
#[derive(Clone, Copy, Debug, PartialEq, Eq, Hash)]
pub struct Quad(pub isize, pub isize, pub isize, pub isize);

impl Quad {
    /// The target sum of the named sequence.
    pub open spec fn target(self, tag: SequenceTag) -> isize {
        match tag {
            SequenceTag::X => self.0,
            SequenceTag::Y => self.1,
            SequenceTag::Z => self.2,
            SequenceTag::W => self.3,
        }
    }

    /// The target sum of the named sequence.
    pub fn of(&self, tag: &SequenceTag) -> (res: isize)
        ensures
            res == self.target(*tag),
    {
        match tag {
            SequenceTag::X => self.0,
            SequenceTag::Y => self.1,
            SequenceTag::Z => self.2,
            SequenceTag::W => self.3,
        }
    }
}

} // verus!
