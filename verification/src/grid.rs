//! Positions of pixels in images that are stored row by row.
use vstd::prelude::*;

verus! {

/// The position `y * width + x` of a pixel lies inside its image, and no other
/// pixel has it.
pub proof fn lemma_position(y: int, x: int, height: int, width: int)
    requires
        0 <= y < height,
        0 <= x < width,
    ensures
        0 <= y * width + x < height * width,
        (y * width + x) / width == y,
        (y * width + x) % width == x,
{
    assert(0 <= y * width && y * width + width <= height * width) by (nonlinear_arith)
        requires
            0 <= y < height,
            0 <= width,
    ;
    vstd::arithmetic::div_mod::lemma_fundamental_div_mod_converse(y * width + x, width, y, x);
}

} // verus!
