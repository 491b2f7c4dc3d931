//! Indentation for callers that print trees.

use vstd::prelude::*;

verus! {

/// An indentation of `level` steps, each `width` spaces wide.
#[derive(Clone, Copy, Debug, PartialEq, Eq, Structural)]
pub struct Indent {
    /// How many steps deep.
    pub level: usize,
    /// Spaces per step.
    pub width: usize,
}

/// Builds an indentation of `level` steps, each `width` spaces wide.
pub fn indent(level: usize, width: usize) -> (r: Indent)
    ensures
        r.level == level,
        r.width == width,
{
    Indent { level, width }
}

impl Indent {
    /// The indentation as bytes: `level * width` spaces.
    pub fn render(&self) -> (r: Vec<u8>)
        ensures
            r@.len() == self.level * self.width,
            forall|i: int| 0 <= i < r@.len() ==> r@[i] == 32u8,
    {
        let mut out: Vec<u8> = Vec::new();
        let mut i: usize = 0;
        while i < self.level
            invariant
                0 <= i <= self.level,
                out@.len() == i * self.width,
                forall|k: int| 0 <= k < out@.len() ==> out@[k] == 32u8,
            decreases self.level - i,
        {
            let mut j: usize = 0;
            while j < self.width
                invariant
                    0 <= j <= self.width,
                    out@.len() == i * self.width + j,
                    forall|k: int| 0 <= k < out@.len() ==> out@[k] == 32u8,
            decreases self.width - j,
            {
                out.push(32u8);
                j += 1;
            }
            proof {
                assert((i + 1) * self.width == i * self.width + self.width) by (nonlinear_arith);
            }
            i += 1;
        }
        out
    }
}

} // verus!
