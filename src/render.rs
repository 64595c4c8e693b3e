//! The render driver: which pixels a call repaints, and the overlays that
//! force some of them black.
use vstd::prelude::*;
use vstd::arithmetic::div_mod::{
    lemma_div_pos_is_pos, lemma_fundamental_div_mod, lemma_mod_multiples_basic, lemma_mod_pos_bound,
    lemma_multiply_divide_lt,
};
use xorshift::Xoroshiro128;
use crate::color::{gradient, paint_fractal, Escape};
use crate::frame::{
    is_cleared, lemma_slot_inside, lemma_slots_apart, reset, rgb_at, slot, write_rgb, RenderError,
};
use crate::random::{next_u32, seeded_generator};

verus! {

/// The fractal a render call paints.
#[derive(Clone, Copy, Debug, PartialEq, Eq, Structural)]
pub enum Fractal {
    Mandelbrot,
    Julia,
    BurningShip,
    Newton,
}

impl Fractal {
    /// Codes 0 to 3 name the four fractals; any other code paints nothing
    /// but black.
    pub open spec fn spec_from_code(code: u8) -> Option<Fractal> {
        if code == 0 {
            Some(Fractal::Mandelbrot)
        } else if code == 1 {
            Some(Fractal::Julia)
        } else if code == 2 {
            Some(Fractal::BurningShip)
        } else if code == 3 {
            Some(Fractal::Newton)
        } else {
            None
        }
    }

    pub fn from_code(code: u8) -> (r: Option<Fractal>)
        ensures
            r == Self::spec_from_code(code),
    {
        if code == 0 {
            Some(Fractal::Mandelbrot)
        } else if code == 1 {
            Some(Fractal::Julia)
        } else if code == 2 {
            Some(Fractal::BurningShip)
        } else if code == 3 {
            Some(Fractal::Newton)
        } else {
            None
        }
    }
}

/// Which pixels a render call repaints.
#[derive(Clone, Copy, Debug, PartialEq, Eq, Structural)]
pub enum RenderMode {
    /// Clear the whole buffer to opaque black.
    Clear,
    /// Every pixel once.
    Frame,
    /// `width * height / 60` pixels drawn at random, repeats allowed.
    RandomPixels,
    /// `height / 90` whole rows drawn at random, repeats allowed.
    RandomRows,
    /// `width / 90` whole columns drawn at random, repeats allowed.
    RandomColumns,
}

impl RenderMode {
    /// Codes 0 to 3 name the first four modes; every other code means
    /// random columns.
    pub open spec fn spec_from_code(code: u8) -> RenderMode {
        if code == 0 {
            RenderMode::Clear
        } else if code == 1 {
            RenderMode::Frame
        } else if code == 2 {
            RenderMode::RandomPixels
        } else if code == 3 {
            RenderMode::RandomRows
        } else {
            RenderMode::RandomColumns
        }
    }

    pub fn from_code(code: u8) -> (r: RenderMode)
        ensures
            r == Self::spec_from_code(code),
    {
        if code == 0 {
            RenderMode::Clear
        } else if code == 1 {
            RenderMode::Frame
        } else if code == 2 {
            RenderMode::RandomPixels
        } else if code == 3 {
            RenderMode::RandomRows
        } else {
            RenderMode::RandomColumns
        }
    }
}

/// The grid overlay blackens every third row and every third column.
pub open spec fn on_grid(grid: bool, x: u32, y: u32) -> bool {
    grid && (x % 3 == 0 || y % 3 == 0)
}

/// A draw of the noise overlay that blackens its pixel (24 in 128).
pub open spec fn noise_hit(draw: u32) -> bool {
    draw % 128 < 24
}

pub open spec fn black() -> (u8, u8, u8) {
    (0u8, 0u8, 0u8)
}

/// `c` is a colour the fractal may give the pixel at `(x, y)`: the gradient
/// of an escape value that `escape` may return for it, or black where the
/// fractal code names no fractal.
pub open spec fn shaded<F: Fn(Fractal, u32, u32) -> Escape>(
    escape: F,
    fractal: u8,
    x: u32,
    y: u32,
    c: (u8, u8, u8),
) -> bool {
    match Fractal::spec_from_code(fractal) {
        None => c == black(),
        Some(f) => exists|e: Escape|
            #[trigger] escape.ensures((f, x, y), e) && (c.0 as int, c.1 as int, c.2 as int)
                == gradient(e),
    }
}

/// The pixel at `(x, y)` of `buf` holds what a repaint may leave there:
/// black on the grid; off it, the fractal's colour, or black where the noise
/// overlay is on and its draw hit.
pub open spec fn repainted<F: Fn(Fractal, u32, u32) -> Escape>(
    buf: Seq<u8>,
    width: u32,
    fractal: u8,
    grid: bool,
    noise: bool,
    escape: F,
    x: u32,
    y: u32,
) -> bool {
    let c = rgb_at(buf, width as int, x as int, y as int);
    if on_grid(grid, x, y) {
        c == black()
    } else if noise {
        c == black() || shaded(escape, fractal, x, y, c)
    } else {
        shaded(escape, fractal, x, y, c)
    }
}

/// The pixel at `(x, y)` has the same colour in both buffers.
pub open spec fn same_rgb(a: Seq<u8>, b: Seq<u8>, width: u32, x: u32, y: u32) -> bool {
    rgb_at(a, width as int, x as int, y as int) == rgb_at(b, width as int, x as int, y as int)
}

/// Every alpha byte is kept.
pub open spec fn alpha_kept(before: Seq<u8>, after: Seq<u8>) -> bool {
    &&& after.len() == before.len()
    &&& forall|k: int| 0 <= k < before.len() && k % 4 == 3 ==> #[trigger] after[k] == before[k]
}

/// Repaints the pixel at `(x, y)`: computes its colour, then applies the
/// grid overlay and, off the grid, the noise overlay, which takes one draw.
fn update_pixel<F: Fn(Fractal, u32, u32) -> Escape>(
    pixels: &mut [u8],
    rng: &mut Xoroshiro128,
    escape: &F,
    fractal: u8,
    width: u32,
    height: u32,
    grid: bool,
    noise: bool,
    x: u32,
    y: u32,
)
    requires
        old(pixels)@.len() == 4 * width * height,
        x < width,
        y < height,
        forall|f: Fractal, px: u32, py: u32| escape.requires((f, px, py)),
    ensures
        alpha_kept(old(pixels)@, final(pixels)@),
        repainted(final(pixels)@, width, fractal, grid, noise, *escape, x, y),
        forall|px: u32, py: u32|
            px < width && py < height && (px != x || py != y) ==> same_rgb(
                final(pixels)@,
                old(pixels)@,
                width,
                px,
                py,
            ),
{
    let ghost before = pixels@;
    let mut color: (u8, u8, u8) = (0, 0, 0);
    match Fractal::from_code(fractal) {
        Some(f) => {
            let e = escape(f, x, y);
            color = paint_fractal(e);
        },
        None => {},
    }
    let len = pixels.len();
    proof {
        lemma_slot_inside(width as int, height as int, x as int, y as int);
        assert(0 <= y * width) by (nonlinear_arith)
            requires 0 <= y, 0 <= width;
    }
    let s = (x as usize + y as usize * width as usize) * 4;
    assert(s == slot(width as int, x as int, y as int));
    if grid && (x % 3 == 0 || y % 3 == 0) {
        write_rgb(pixels, s, (0, 0, 0));
    } else if noise && next_u32(rng) % 128 < 24 {
        write_rgb(pixels, s, (0, 0, 0));
    } else {
        write_rgb(pixels, s, color);
    }
    assert forall|px: u32, py: u32|
        px < width && py < height && (px != x || py != y) implies same_rgb(
            pixels@,
            before,
            width,
            px,
            py,
        ) by {
        lemma_slot_inside(width as int, height as int, px as int, py as int);
        lemma_slots_apart(width as int, height as int, x as int, y as int, px as int, py as int);
    }
}

/// Every pixel of the viewport is repainted.
pub open spec fn frame_repainted<F: Fn(Fractal, u32, u32) -> Escape>(
    buf: Seq<u8>,
    width: u32,
    height: u32,
    fractal: u8,
    grid: bool,
    noise: bool,
    escape: F,
) -> bool {
    forall|x: u32, y: u32|
        x < width && y < height ==> #[trigger] repainted(
            buf,
            width,
            fractal,
            grid,
            noise,
            escape,
            x,
            y,
        )
}

/// The pixels listed in `picks` are repainted; every other pixel keeps
/// its colour from `before`.
pub open spec fn picks_repainted<F: Fn(Fractal, u32, u32) -> Escape>(
    before: Seq<u8>,
    after: Seq<u8>,
    width: u32,
    height: u32,
    fractal: u8,
    grid: bool,
    noise: bool,
    escape: F,
    picks: Seq<(u32, u32)>,
) -> bool {
    &&& forall|j: int|
        #![trigger picks[j]]
        0 <= j < picks.len() ==> picks[j].0 < width && picks[j].1 < height && repainted(
            after,
            width,
            fractal,
            grid,
            noise,
            escape,
            picks[j].0,
            picks[j].1,
        )
    &&& forall|x: u32, y: u32|
        x < width && y < height && !picks.contains((x, y)) ==> #[trigger] same_rgb(
            after,
            before,
            width,
            x,
            y,
        )
}

/// The rows listed in `rows` are repainted whole; every other row keeps its
/// colours from `before`.
pub open spec fn rows_repainted<F: Fn(Fractal, u32, u32) -> Escape>(
    before: Seq<u8>,
    after: Seq<u8>,
    width: u32,
    height: u32,
    fractal: u8,
    grid: bool,
    noise: bool,
    escape: F,
    rows: Seq<u32>,
) -> bool {
    &&& forall|j: int| 0 <= j < rows.len() ==> #[trigger] rows[j] < height
    &&& forall|x: u32, y: u32|
        x < width && y < height && rows.contains(y) ==> #[trigger] repainted(
            after,
            width,
            fractal,
            grid,
            noise,
            escape,
            x,
            y,
        )
    &&& forall|x: u32, y: u32|
        x < width && y < height && !rows.contains(y) ==> #[trigger] same_rgb(
            after,
            before,
            width,
            x,
            y,
        )
}

/// The columns listed in `cols` are repainted whole; every other column
/// keeps its colours from `before`.
pub open spec fn columns_repainted<F: Fn(Fractal, u32, u32) -> Escape>(
    before: Seq<u8>,
    after: Seq<u8>,
    width: u32,
    height: u32,
    fractal: u8,
    grid: bool,
    noise: bool,
    escape: F,
    cols: Seq<u32>,
) -> bool {
    &&& forall|j: int| 0 <= j < cols.len() ==> #[trigger] cols[j] < width
    &&& forall|x: u32, y: u32|
        x < width && y < height && cols.contains(x) ==> #[trigger] repainted(
            after,
            width,
            fractal,
            grid,
            noise,
            escape,
            x,
            y,
        )
    &&& forall|x: u32, y: u32|
        x < width && y < height && !cols.contains(x) ==> #[trigger] same_rgb(
            after,
            before,
            width,
            x,
            y,
        )
}

fn render_frame<F: Fn(Fractal, u32, u32) -> Escape>(
    pixels: &mut [u8],
    rng: &mut Xoroshiro128,
    escape: &F,
    fractal: u8,
    width: u32,
    height: u32,
    grid: bool,
    noise: bool,
)
    requires
        old(pixels)@.len() == 4 * width * height,
        forall|f: Fractal, px: u32, py: u32| escape.requires((f, px, py)),
    ensures
        alpha_kept(old(pixels)@, final(pixels)@),
        frame_repainted(final(pixels)@, width, height, fractal, grid, noise, *escape),
{
    let ghost start = pixels@;
    let mut it: u32 = 0;
    while it < width
        invariant
            it <= width,
            pixels@.len() == 4 * width * height,
            forall|f: Fractal, px: u32, py: u32| escape.requires((f, px, py)),
            alpha_kept(start, pixels@),
            forall|x: u32, y: u32|
                x < it && y < height ==> #[trigger] repainted(
                    pixels@,
                    width,
                    fractal,
                    grid,
                    noise,
                    *escape,
                    x,
                    y,
                ),
        decreases width - it,
    {
        let mut jt: u32 = 0;
        while jt < height
            invariant
                it < width,
                jt <= height,
                pixels@.len() == 4 * width * height,
                forall|f: Fractal, px: u32, py: u32| escape.requires((f, px, py)),
                alpha_kept(start, pixels@),
                forall|x: u32, y: u32|
                    (x < it || (x == it && y < jt)) && y < height ==> #[trigger] repainted(
                        pixels@,
                        width,
                        fractal,
                        grid,
                        noise,
                        *escape,
                        x,
                        y,
                    ),
            decreases height - jt,
        {
            let ghost before = pixels@;
            update_pixel(pixels, rng, escape, fractal, width, height, grid, noise, it, jt);
            assert forall|x: u32, y: u32|
                (x < it || (x == it && y < jt + 1)) && y < height implies #[trigger] repainted(
                    pixels@,
                    width,
                    fractal,
                    grid,
                    noise,
                    *escape,
                    x,
                    y,
                ) by {
                if x != it || y != jt {
                    assert(same_rgb(pixels@, before, width, x, y));
                    assert(repainted(before, width, fractal, grid, noise, *escape, x, y));
                }
            }
            jt = jt + 1;
        }
        it = it + 1;
    }
}

fn render_random_pixels<F: Fn(Fractal, u32, u32) -> Escape>(
    pixels: &mut [u8],
    rng: &mut Xoroshiro128,
    escape: &F,
    fractal: u8,
    width: u32,
    height: u32,
    grid: bool,
    noise: bool,
)
    requires
        old(pixels)@.len() == 4 * width * height,
        forall|f: Fractal, px: u32, py: u32| escape.requires((f, px, py)),
    ensures
        alpha_kept(old(pixels)@, final(pixels)@),
        exists|picks: Seq<(u32, u32)>|
            picks.len() == width * height / 60 && #[trigger] picks_repainted(
                old(pixels)@,
                final(pixels)@,
                width,
                height,
                fractal,
                grid,
                noise,
                *escape,
                picks,
            ),
{
    let ghost start = pixels@;
    let ghost mut picks: Seq<(u32, u32)> = Seq::empty();
    proof {
        assert(width * height <= 0xffff_ffff * 0xffff_ffff) by (nonlinear_arith)
            requires width <= 0xffff_ffff, height <= 0xffff_ffff;
    }
    let n: u64 = (width as u64 * height as u64) / 60;
    let mut it: u64 = 0;
    while it < n
        invariant
            n == width * height / 60,
            it <= n,
            picks.len() == it,
            pixels@.len() == 4 * width * height,
            forall|f: Fractal, px: u32, py: u32| escape.requires((f, px, py)),
            alpha_kept(start, pixels@),
            picks_repainted(start, pixels@, width, height, fractal, grid, noise, *escape, picks),
        decreases n - it,
    {
        proof {
            if width == 0 || height == 0 {
                assert(width * height == 0) by (nonlinear_arith)
                    requires width == 0 || height == 0;
            }
        }
        let x = next_u32(rng) % width;
        let y = next_u32(rng) % height;
        let ghost before = pixels@;
        update_pixel(pixels, rng, escape, fractal, width, height, grid, noise, x, y);
        let ghost grown = picks.push((x, y));
        assert forall|j: int| 0 <= j < grown.len() implies #[trigger] grown[j].0 < width && grown[j].1
            < height && repainted(
            pixels@,
            width,
            fractal,
            grid,
            noise,
            *escape,
            grown[j].0,
            grown[j].1,
        ) by {
            if j < picks.len() {
                assert(grown[j] == picks[j]);
                assert(repainted(
                    before,
                    width,
                    fractal,
                    grid,
                    noise,
                    *escape,
                    picks[j].0,
                    picks[j].1,
                ));
                if picks[j].0 != x || picks[j].1 != y {
                    assert(same_rgb(pixels@, before, width, picks[j].0, picks[j].1));
                    assert(repainted(
                        before,
                        width,
                        fractal,
                        grid,
                        noise,
                        *escape,
                        picks[j].0,
                        picks[j].1,
                    ));
                }
            }
        }
        assert forall|px: u32, py: u32|
            px < width && py < height && !grown.contains((px, py)) implies #[trigger] same_rgb(
            pixels@,
            start,
            width,
            px,
            py,
        ) by {
            assert(grown[grown.len() - 1] == (x, y));
            if picks.contains((px, py)) {
                let j = choose|j: int| 0 <= j < picks.len() && picks[j] == (px, py);
                assert(grown[j] == picks[j]);
            }
            assert(same_rgb(pixels@, before, width, px, py));
            assert(same_rgb(before, start, width, px, py));
        }
        proof {
            picks = grown;
        }
        it = it + 1;
    }
}

fn render_random_rows<F: Fn(Fractal, u32, u32) -> Escape>(
    pixels: &mut [u8],
    rng: &mut Xoroshiro128,
    escape: &F,
    fractal: u8,
    width: u32,
    height: u32,
    grid: bool,
    noise: bool,
)
    requires
        old(pixels)@.len() == 4 * width * height,
        forall|f: Fractal, px: u32, py: u32| escape.requires((f, px, py)),
    ensures
        alpha_kept(old(pixels)@, final(pixels)@),
        exists|rows: Seq<u32>|
            rows.len() == height / 90 && #[trigger] rows_repainted(
                old(pixels)@,
                final(pixels)@,
                width,
                height,
                fractal,
                grid,
                noise,
                *escape,
                rows,
            ),
{
    let ghost start = pixels@;
    let ghost mut rows: Seq<u32> = Seq::empty();
    let n: u32 = height / 90;
    let mut it: u32 = 0;
    while it < n
        invariant
            n == height / 90,
            it <= n,
            rows.len() == it,
            pixels@.len() == 4 * width * height,
            forall|f: Fractal, px: u32, py: u32| escape.requires((f, px, py)),
            alpha_kept(start, pixels@),
            rows_repainted(start, pixels@, width, height, fractal, grid, noise, *escape, rows),
        decreases n - it,
    {
        let row = next_u32(rng) % height;
        let ghost outer = pixels@;
        let mut jt: u32 = 0;
        while jt < width
            invariant
                row < height,
                jt <= width,
                pixels@.len() == 4 * width * height,
                forall|f: Fractal, px: u32, py: u32| escape.requires((f, px, py)),
                alpha_kept(start, pixels@),
                forall|x: u32|
                    x < jt ==> #[trigger] repainted(
                        pixels@,
                        width,
                        fractal,
                        grid,
                        noise,
                        *escape,
                        x,
                        row,
                    ),
                forall|x: u32, y: u32|
                    x < width && y < height && (y != row || x >= jt) ==> #[trigger] same_rgb(
                        pixels@,
                        outer,
                        width,
                        x,
                        y,
                    ),
            decreases width - jt,
        {
            let ghost before = pixels@;
            update_pixel(pixels, rng, escape, fractal, width, height, grid, noise, jt, row);
            assert forall|x: u32| x < jt + 1 implies #[trigger] repainted(
                pixels@,
                width,
                fractal,
                grid,
                noise,
                *escape,
                x,
                row,
            ) by {
                if x != jt {
                    assert(same_rgb(pixels@, before, width, x, row));
                    assert(repainted(before, width, fractal, grid, noise, *escape, x, row));
                }
            }
            assert forall|x: u32, y: u32|
                x < width && y < height && (y != row || x >= jt + 1) implies #[trigger] same_rgb(
                pixels@,
                outer,
                width,
                x,
                y,
            ) by {
                assert(same_rgb(pixels@, before, width, x, y));
                assert(same_rgb(before, outer, width, x, y));
            }
            jt = jt + 1;
        }
        let ghost grown = rows.push(row);
        assert forall|j: int| 0 <= j < grown.len() implies #[trigger] grown[j] < height by {
            if j < rows.len() {
                assert(grown[j] == rows[j]);
            }
        }
        assert forall|x: u32, y: u32|
            x < width && y < height && grown.contains(y) implies #[trigger] repainted(
            pixels@,
            width,
            fractal,
            grid,
            noise,
            *escape,
            x,
            y,
        ) by {
            if y != row {
                let j = choose|j: int| 0 <= j < grown.len() && grown[j] == y;
                assert(j < rows.len());
                assert(rows[j] == y);
                assert(rows.contains(y));
                assert(same_rgb(pixels@, outer, width, x, y));
                assert(repainted(outer, width, fractal, grid, noise, *escape, x, y));
            }
        }
        assert forall|x: u32, y: u32|
            x < width && y < height && !grown.contains(y) implies #[trigger] same_rgb(
            pixels@,
            start,
            width,
            x,
            y,
        ) by {
            assert(grown[grown.len() - 1] == row);
            if rows.contains(y) {
                let j = choose|j: int| 0 <= j < rows.len() && rows[j] == y;
                assert(grown[j] == rows[j]);
            }
            assert(same_rgb(pixels@, outer, width, x, y));
            assert(same_rgb(outer, start, width, x, y));
        }
        proof {
            rows = grown;
        }
        it = it + 1;
    }
}

fn render_random_columns<F: Fn(Fractal, u32, u32) -> Escape>(
    pixels: &mut [u8],
    rng: &mut Xoroshiro128,
    escape: &F,
    fractal: u8,
    width: u32,
    height: u32,
    grid: bool,
    noise: bool,
)
    requires
        old(pixels)@.len() == 4 * width * height,
        forall|f: Fractal, px: u32, py: u32| escape.requires((f, px, py)),
    ensures
        alpha_kept(old(pixels)@, final(pixels)@),
        exists|cols: Seq<u32>|
            cols.len() == width / 90 && #[trigger] columns_repainted(
                old(pixels)@,
                final(pixels)@,
                width,
                height,
                fractal,
                grid,
                noise,
                *escape,
                cols,
            ),
{
    let ghost start = pixels@;
    let ghost mut cols: Seq<u32> = Seq::empty();
    let n: u32 = width / 90;
    let mut it: u32 = 0;
    while it < n
        invariant
            n == width / 90,
            it <= n,
            cols.len() == it,
            pixels@.len() == 4 * width * height,
            forall|f: Fractal, px: u32, py: u32| escape.requires((f, px, py)),
            alpha_kept(start, pixels@),
            columns_repainted(start, pixels@, width, height, fractal, grid, noise, *escape, cols),
        decreases n - it,
    {
        let col = next_u32(rng) % width;
        let ghost outer = pixels@;
        let mut jt: u32 = 0;
        while jt < height
            invariant
                col < width,
                jt <= height,
                pixels@.len() == 4 * width * height,
                forall|f: Fractal, px: u32, py: u32| escape.requires((f, px, py)),
                alpha_kept(start, pixels@),
                forall|y: u32|
                    y < jt ==> #[trigger] repainted(
                        pixels@,
                        width,
                        fractal,
                        grid,
                        noise,
                        *escape,
                        col,
                        y,
                    ),
                forall|x: u32, y: u32|
                    x < width && y < height && (x != col || y >= jt) ==> #[trigger] same_rgb(
                        pixels@,
                        outer,
                        width,
                        x,
                        y,
                    ),
            decreases height - jt,
        {
            let ghost before = pixels@;
            update_pixel(pixels, rng, escape, fractal, width, height, grid, noise, col, jt);
            assert forall|y: u32| y < jt + 1 implies #[trigger] repainted(
                pixels@,
                width,
                fractal,
                grid,
                noise,
                *escape,
                col,
                y,
            ) by {
                if y != jt {
                    assert(same_rgb(pixels@, before, width, col, y));
                    assert(repainted(before, width, fractal, grid, noise, *escape, col, y));
                }
            }
            assert forall|x: u32, y: u32|
                x < width && y < height && (x != col || y >= jt + 1) implies #[trigger] same_rgb(
                pixels@,
                outer,
                width,
                x,
                y,
            ) by {
                assert(same_rgb(pixels@, before, width, x, y));
                assert(same_rgb(before, outer, width, x, y));
            }
            jt = jt + 1;
        }
        let ghost grown = cols.push(col);
        assert forall|j: int| 0 <= j < grown.len() implies #[trigger] grown[j] < width by {
            if j < cols.len() {
                assert(grown[j] == cols[j]);
            }
        }
        assert forall|x: u32, y: u32|
            x < width && y < height && grown.contains(x) implies #[trigger] repainted(
            pixels@,
            width,
            fractal,
            grid,
            noise,
            *escape,
            x,
            y,
        ) by {
            if x != col {
                let j = choose|j: int| 0 <= j < grown.len() && grown[j] == x;
                assert(j < cols.len());
                assert(cols[j] == x);
                assert(cols.contains(x));
                assert(same_rgb(pixels@, outer, width, x, y));
                assert(repainted(outer, width, fractal, grid, noise, *escape, x, y));
            }
        }
        assert forall|x: u32, y: u32|
            x < width && y < height && !grown.contains(x) implies #[trigger] same_rgb(
            pixels@,
            start,
            width,
            x,
            y,
        ) by {
            assert(grown[grown.len() - 1] == col);
            if cols.contains(x) {
                let j = choose|j: int| 0 <= j < cols.len() && cols[j] == x;
                assert(grown[j] == cols[j]);
            }
            assert(same_rgb(pixels@, outer, width, x, y));
            assert(same_rgb(outer, start, width, x, y));
        }
        proof {
            cols = grown;
        }
        it = it + 1;
    }
}

/// What a successful render call leaves in the buffer, by mode. Clearing
/// makes every pixel opaque black. Every other mode keeps all alpha bytes and
/// repaints: every pixel (a frame); `width * height / 60` drawn pixels; or
/// `height / 90` drawn rows, or `width / 90` drawn columns, whole. Whatever
/// was not drawn keeps its colour.
pub open spec fn rendered<F: Fn(Fractal, u32, u32) -> Escape>(
    before: Seq<u8>,
    after: Seq<u8>,
    fractal: u8,
    mode: RenderMode,
    width: u32,
    height: u32,
    grid: bool,
    noise: bool,
    escape: F,
) -> bool {
    match mode {
        RenderMode::Clear => after.len() == before.len() && is_cleared(after),
        RenderMode::Frame => alpha_kept(before, after) && frame_repainted(
            after,
            width,
            height,
            fractal,
            grid,
            noise,
            escape,
        ),
        RenderMode::RandomPixels => alpha_kept(before, after) && exists|picks: Seq<(u32, u32)>|
            picks.len() == width * height / 60 && #[trigger] picks_repainted(
                before,
                after,
                width,
                height,
                fractal,
                grid,
                noise,
                escape,
                picks,
            ),
        RenderMode::RandomRows => alpha_kept(before, after) && exists|rows: Seq<u32>|
            rows.len() == height / 90 && #[trigger] rows_repainted(
                before,
                after,
                width,
                height,
                fractal,
                grid,
                noise,
                escape,
                rows,
            ),
        RenderMode::RandomColumns => alpha_kept(before, after) && exists|cols: Seq<u32>|
            cols.len() == width / 90 && #[trigger] columns_repainted(
                before,
                after,
                width,
                height,
                fractal,
                grid,
                noise,
                escape,
                cols,
            ),
    }
}

/// Renders one call's worth of the fractal with code `fractal` into the
/// `width` by `height` buffer, in the mode with code `render_mode`.
/// `escape` computes the escape value of a pixel for a fractal; the grid and
/// noise overlays then apply, and the noise overlay and the random modes draw
/// from the generator seeded with `seed`. A buffer whose length is not four
/// bytes per pixel is refused and left as it was.
pub fn render<F: Fn(Fractal, u32, u32) -> Escape>(
    pixels: &mut [u8],
    fractal: u8,
    render_mode: u8,
    width: u32,
    height: u32,
    grid: bool,
    noise: bool,
    seed: u32,
    escape: F,
) -> (r: Result<(), RenderError>)
    requires
        forall|f: Fractal, x: u32, y: u32| escape.requires((f, x, y)),
    ensures
        r is Err <==> old(pixels)@.len() != 4 * width * height,
        r is Err ==> r == Err::<(), RenderError>(RenderError::BufferLength) && final(pixels)@ == old(
            pixels,
        )@,
        final(pixels)@.len() == old(pixels)@.len(),
        r is Ok ==> rendered(
            old(pixels)@,
            final(pixels)@,
            fractal,
            RenderMode::spec_from_code(render_mode),
            width,
            height,
            grid,
            noise,
            escape,
        ),
{
    proof {
        assert(4 * width * height <= 4 * 0xffff_ffff * 0xffff_ffff) by (nonlinear_arith)
            requires width <= 0xffff_ffff, height <= 0xffff_ffff;
    }
    if pixels.len() as u128 != 4 * (width as u128) * (height as u128) {
        return Err(RenderError::BufferLength);
    }
    let mut rng = seeded_generator(seed);
    match RenderMode::from_code(render_mode) {
        RenderMode::Clear => {
            proof {
                assert(4 * width * height == (width * height) * 4) by (nonlinear_arith);
                lemma_mod_multiples_basic(width * height, 4);
            }
            let cleared = reset(pixels);
            assert(cleared is Ok);
        },
        RenderMode::Frame => {
            render_frame(pixels, &mut rng, &escape, fractal, width, height, grid, noise);
        },
        RenderMode::RandomPixels => {
            render_random_pixels(pixels, &mut rng, &escape, fractal, width, height, grid, noise);
        },
        RenderMode::RandomRows => {
            render_random_rows(pixels, &mut rng, &escape, fractal, width, height, grid, noise);
        },
        RenderMode::RandomColumns => {
            render_random_columns(pixels, &mut rng, &escape, fractal, width, height, grid, noise);
        },
    }
    Ok(())
}

/// Frames drawn without the noise overlay are reproducible: two frames
/// rendered over the same buffer, by an evaluator that gives each pixel of
/// each fractal one escape value, are the same byte for byte, whatever seeds
/// the two calls were given.
pub proof fn lemma_frame_reproducible<F: Fn(Fractal, u32, u32) -> Escape>(
    before: Seq<u8>,
    a: Seq<u8>,
    b: Seq<u8>,
    fractal: u8,
    width: u32,
    height: u32,
    grid: bool,
    escape: F,
)
    requires
        before.len() == 4 * width * height,
        rendered(before, a, fractal, RenderMode::Frame, width, height, grid, false, escape),
        rendered(before, b, fractal, RenderMode::Frame, width, height, grid, false, escape),
        forall|f: Fractal, x: u32, y: u32, e1: Escape, e2: Escape|
            #[trigger] escape.ensures((f, x, y), e1) && #[trigger] escape.ensures((f, x, y), e2)
                ==> e1 == e2,
    ensures
        a == b,
{
    let w = width as int;
    let h = height as int;
    assert forall|k: int| 0 <= k < a.len() implies a[k] == b[k] by {
        if k % 4 == 3 {
            assert(a[k] == before[k]);
            assert(b[k] == before[k]);
        } else {
            lemma_fundamental_div_mod(k, 4);
            lemma_mod_pos_bound(k, 4);
            let p = k / 4;
            lemma_div_pos_is_pos(k, 4);
            assert(4 * width * height == 4 * (w * h)) by (nonlinear_arith)
                requires w == width, h == height;
            assert(w > 0) by (nonlinear_arith)
                requires 0 <= p, p < w * h, 0 <= w, 0 <= h;
            lemma_fundamental_div_mod(p, w);
            lemma_mod_pos_bound(p, w);
            lemma_div_pos_is_pos(p, w);
            lemma_multiply_divide_lt(p, w, h);
            let x = (p % w) as u32;
            let y = (p / w) as u32;
            assert(w * (p / w) == (p / w) * w) by (nonlinear_arith);
            assert(slot(w, x as int, y as int) == 4 * p);
            assert(repainted(a, width, fractal, grid, false, escape, x, y));
            assert(repainted(b, width, fractal, grid, false, escape, x, y));
            if !on_grid(grid, x, y) {
                match Fractal::spec_from_code(fractal) {
                    None => {},
                    Some(f) => {
                        let ca = rgb_at(a, w, x as int, y as int);
                        let cb = rgb_at(b, w, x as int, y as int);
                        let ea = choose|e: Escape|
                            #[trigger] escape.ensures((f, x, y), e) && (ca.0 as int, ca.1 as int, ca.2 as int)
                                == gradient(e);
                        let eb = choose|e: Escape|
                            #[trigger] escape.ensures((f, x, y), e) && (cb.0 as int, cb.1 as int, cb.2 as int)
                                == gradient(e);
                        assert(ea == eb);
                    },
                }
            }
        }
    }
    assert(a =~= b);
}

} // verus!
