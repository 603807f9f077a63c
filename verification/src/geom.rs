//! View-box geometry.

use vstd::prelude::*;

verus! {

use crate::numparse::MAX_SCALED;

/// The logical coordinate rectangle a vector document is drawn within,
/// in ticks (see `numparse::SCALE`).
#[derive(Clone, Copy, PartialEq, Eq, Structural, Debug)]
pub struct ViewBox {
    pub x: i64,
    pub y: i64,
    pub width: i64,
    pub height: i64,
}

impl ViewBox {
    /// Well-formed: positive extent, and magnitudes small enough that the
    /// band-layout arithmetic cannot overflow.
    pub open spec fn wf(self) -> bool {
        &&& 0 < self.width <= MAX_SCALED
        &&& 0 < self.height <= MAX_SCALED
        &&& -MAX_SCALED <= self.x <= MAX_SCALED
        &&& -MAX_SCALED <= self.y <= MAX_SCALED
    }

    pub fn new(x: i64, y: i64, width: i64, height: i64) -> (r: ViewBox)
        ensures
            r == (ViewBox { x, y, width, height }),
    {
        ViewBox { x, y, width, height }
    }

    /// Reads a view box out of exactly four components: x, y, width, height.
    pub fn from_vec(vec: &Vec<i64>) -> (r: Option<ViewBox>)
        ensures
            match r {
                Some(vb) => vec@.len() == 4 && vb == (ViewBox {
                    x: vec@[0],
                    y: vec@[1],
                    width: vec@[2],
                    height: vec@[3],
                }),
                None => vec@.len() != 4,
            },
    {
        if vec.len() != 4 {
            None
        } else {
            Some(ViewBox::new(vec[0], vec[1], vec[2], vec[3]))
        }
    }

    /// The rectangle expanded outward by `pad_amount` ticks on all four
    /// edges.
    pub fn pad(&self, pad_amount: i64) -> (r: ViewBox)
        requires
            self.wf(),
            0 <= pad_amount <= MAX_SCALED,
        ensures
            r == self.spec_pad(pad_amount as int),
    {
        ViewBox {
            x: self.x - pad_amount,
            y: self.y - pad_amount,
            width: self.width + pad_amount * 2,
            height: self.height + pad_amount * 2,
        }
    }

    pub open spec fn spec_pad(self, pad_amount: int) -> ViewBox {
        ViewBox {
            x: (self.x - pad_amount) as i64,
            y: (self.y - pad_amount) as i64,
            width: (self.width + pad_amount * 2) as i64,
            height: (self.height + pad_amount * 2) as i64,
        }
    }
}

} // verus!
