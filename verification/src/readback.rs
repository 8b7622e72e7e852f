//! The size check of an offscreen render and the layout of the pixels it
//! reads back: row-major RGBA8, four bytes per pixel, no row padding.
use vstd::prelude::*;

verus! {

/// An offscreen render was asked for an image without pixels.
#[derive(Debug, Clone, Copy, PartialEq, Eq)]
pub struct ZeroSizedRender {
    pub width: u32,
    pub height: u32,
}

/// Accepts a render size exactly when both sides are non-zero.
pub fn check_render_size(width: u32, height: u32) -> (r: Result<(u32, u32), ZeroSizedRender>)
    ensures
        (width == 0 || height == 0) ==> r == Err::<(u32, u32), ZeroSizedRender>(
            ZeroSizedRender { width, height },
        ),
        (width > 0 && height > 0) ==> r == Ok::<(u32, u32), ZeroSizedRender>((width, height)),
{
    if width == 0 || height == 0 {
        Err(ZeroSizedRender { width, height })
    } else {
        Ok((width, height))
    }
}

/// Where pixel `(x, y)` starts in the read-back bytes of an image `width`
/// pixels wide.
pub open spec fn pixel_offset_spec(width: int, x: int, y: int) -> int {
    (y * width + x) * 4
}

proof fn lemma_pixel_in_buffer(width: int, height: int, x: int, y: int)
    requires
        0 <= x < width,
        0 <= y < height,
    ensures
        0 <= y * width,
        0 <= pixel_offset_spec(width, x, y),
        pixel_offset_spec(width, x, y) + 4 <= width * height * 4,
{
    assert(0 <= y * width && 0 <= y * width + x && y * width + x + 1 <= width * height) by (nonlinear_arith)
        requires
            0 <= x < width,
            0 <= y < height,
    ;
}

/// The four bytes of pixel `(x, y)` in the read-back of a `width * height`
/// image.
pub fn readback_pixel(bytes: &[u8], width: u32, height: u32, x: u32, y: u32) -> (px: [u8; 4])
    requires
        bytes@.len() == width * height * 4,
        x < width,
        y < height,
    ensures
        px[0] == bytes@[pixel_offset_spec(width as int, x as int, y as int)],
        px[1] == bytes@[pixel_offset_spec(width as int, x as int, y as int) + 1],
        px[2] == bytes@[pixel_offset_spec(width as int, x as int, y as int) + 2],
        px[3] == bytes@[pixel_offset_spec(width as int, x as int, y as int) + 3],
{
    proof {
        lemma_pixel_in_buffer(width as int, height as int, x as int, y as int);
    }
    let len = bytes.len();
    assert(y * width + x <= len);
    let row = y as usize * width as usize;
    let i = (row + x as usize) * 4;
    [bytes[i], bytes[i + 1], bytes[i + 2], bytes[i + 3]]
}

} // verus!
