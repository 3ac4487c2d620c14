use vstd::prelude::*;

verus! {

/// Bytes per pixel of the output buffer (red, green, blue).
pub const CHANNELS: usize = 3;

/// The length of a row-major RGB buffer of `width` by `height` pixels, or
/// `None` when it does not fit in `usize`.
pub fn frame_len(width: usize, height: usize) -> (r: Option<usize>)
    ensures
        width * height * 3 <= usize::MAX ==> r == Some((width * height * 3) as usize),
        width * height * 3 > usize::MAX ==> r is None,
{
    match width.checked_mul(height) {
        Some(px) => {
            let r = px.checked_mul(CHANNELS);
            proof {
                if px * 3 > usize::MAX {
                    assert(width * height * 3 > usize::MAX);
                }
            }
            r
        },
        None => {
            proof {
                assert(width * height * 3 > usize::MAX) by (nonlinear_arith)
                    requires
                        width * height > usize::MAX,
                ;
            }
            None
        },
    }
}

/// The column `i` and row `j` of the pixel with row-major index `idx` in an
/// image `width` pixels wide.
pub fn pixel_coords(idx: usize, width: usize) -> (r: (usize, usize))
    requires
        width > 0,
    ensures
        r.0 < width,
        r.0 == idx % width,
        r.1 == idx / width,
        r.1 * width + r.0 == idx,
{
    let j = idx / width;
    let i = idx % width;
    proof {
        vstd::arithmetic::div_mod::lemma_fundamental_div_mod(idx as int, width as int);
    }
    (i, j)
}

/// Writes one pixel's red, green and blue bytes into the first three bytes
/// of `pixel`.
pub fn write_rgb(pixel: &mut [u8], red: u8, green: u8, blue: u8)
    requires
        old(pixel)@.len() >= 3,
    ensures
        final(pixel)@ == old(pixel)@.update(0, red).update(1, green).update(2, blue),
{
    pixel[0] = red;
    pixel[1] = green;
    pixel[2] = blue;
}

} // verus!
