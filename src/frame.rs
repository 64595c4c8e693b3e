//! The framebuffer: row-major RGBA, four bytes per pixel, with the pixel at
//! `(x, y)` starting at byte `(x + y * width) * 4`.
use vstd::prelude::*;

verus! {

/// Why a framebuffer was refused.
#[derive(Clone, Copy, Debug, PartialEq, Eq, Structural)]
pub enum RenderError {
    /// The buffer's length is not four bytes for each pixel of the viewport.
    BufferLength,
}

/// Byte `k` of a cleared buffer: opaque black.
pub open spec fn cleared_byte(k: int) -> u8 {
    if k % 4 == 3 {
        255
    } else {
        0
    }
}

/// Every pixel is opaque black: alpha 255, colour channels 0.
pub open spec fn is_cleared(buf: Seq<u8>) -> bool {
    forall|k: int| 0 <= k < buf.len() ==> #[trigger] buf[k] == cleared_byte(k)
}

/// First byte of the pixel at `(x, y)`.
pub open spec fn slot(width: int, x: int, y: int) -> int {
    (x + y * width) * 4
}

/// The colour channels of the pixel at `(x, y)`.
pub open spec fn rgb_at(buf: Seq<u8>, width: int, x: int, y: int) -> (u8, u8, u8) {
    let s = slot(width, x, y);
    (buf[s], buf[s + 1], buf[s + 2])
}

/// No two pixels of a row-major layout share a byte.
pub proof fn lemma_slots_apart(width: int, height: int, x1: int, y1: int, x2: int, y2: int)
    requires
        0 <= x1 < width,
        0 <= x2 < width,
        0 <= y1 < height,
        0 <= y2 < height,
        x1 != x2 || y1 != y2,
    ensures
        slot(width, x1, y1) + 4 <= slot(width, x2, y2) || slot(width, x2, y2) + 4 <= slot(
            width,
            x1,
            y1,
        ),
{
    if y1 == y2 {
    } else if y1 < y2 {
        assert(y1 * width + width <= y2 * width) by (nonlinear_arith)
            requires y1 < y2, 0 < width;
    } else {
        assert(y2 * width + width <= y1 * width) by (nonlinear_arith)
            requires y2 < y1, 0 < width;
    }
}

/// Every pixel of a `width` by `height` viewport lies inside a buffer of
/// `4 * width * height` bytes.
pub proof fn lemma_slot_inside(width: int, height: int, x: int, y: int)
    requires
        0 <= x < width,
        0 <= y < height,
    ensures
        0 <= slot(width, x, y),
        slot(width, x, y) + 4 <= 4 * width * height,
        slot(width, x, y) % 4 == 0,
{
    assert(x + y * width + 1 <= width * height) by (nonlinear_arith)
        requires 0 <= x < width, 0 <= y < height;
    assert(0 <= y * width) by (nonlinear_arith)
        requires 0 <= y, 0 <= width;
    assert(4 * width * height == 4 * (width * height)) by (nonlinear_arith);
}

/// Clears the buffer to opaque black. A buffer whose length is not a whole
/// number of pixels is refused and left as it was.
pub fn reset(pixels: &mut [u8]) -> (r: Result<(), RenderError>)
    ensures
        r is Err <==> old(pixels)@.len() % 4 != 0,
        r == Err::<(), RenderError>(RenderError::BufferLength) || r is Ok,
        r is Err ==> final(pixels)@ == old(pixels)@,
        final(pixels)@.len() == old(pixels)@.len(),
        r is Ok ==> is_cleared(final(pixels)@),
{
    if pixels.len() % 4 != 0 {
        return Err(RenderError::BufferLength);
    }
    let len = pixels.len();
    let mut i: usize = 0;
    while i < len
        invariant
            len == pixels@.len(),
            len == old(pixels)@.len(),
            len % 4 == 0,
            i % 4 == 0,
            i <= len,
            forall|k: int| 0 <= k < i ==> #[trigger] pixels@[k] == cleared_byte(k),
        decreases len - i,
    {
        pixels[i] = 0;
        pixels[i + 1] = 0;
        pixels[i + 2] = 0;
        pixels[i + 3] = 255;
        i = i + 4;
    }
    Ok(())
}

/// Writes the colour channels of the pixel that starts at byte `s`, leaving
/// its alpha and every other byte as they were.
pub fn write_rgb(pixels: &mut [u8], s: usize, c: (u8, u8, u8))
    requires
        s + 3 <= old(pixels)@.len(),
    ensures
        final(pixels)@.len() == old(pixels)@.len(),
        final(pixels)@[s as int] == c.0,
        final(pixels)@[s + 1] == c.1,
        final(pixels)@[s + 2] == c.2,
        forall|k: int|
            0 <= k < old(pixels)@.len() && (k < s || k >= s + 3) ==> #[trigger] final(pixels)@[k]
                == old(pixels)@[k],
{
    pixels[s] = c.0;
    pixels[s + 1] = c.1;
    pixels[s + 2] = c.2;
}

} // verus!
