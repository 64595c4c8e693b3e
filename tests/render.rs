use fractal_render::{render, reset, Escape, Fractal, RenderError, RenderMode, MAX_ITERATIONS};

fn cleared(n: usize) -> Vec<u8> {
    let mut buf = vec![7u8; 4 * n];
    reset(&mut buf).unwrap();
    buf
}

fn rgb(buf: &[u8], width: u32, x: u32, y: u32) -> (u8, u8, u8) {
    let s = ((x + y * width) * 4) as usize;
    (buf[s], buf[s + 1], buf[s + 2])
}

fn mandelbrot(re: f64, im: f64, max: u32) -> Escape {
    let mut z_re = 0.0;
    let mut z_im = 0.0;
    for iters in 0..max {
        let z_re_new = z_re * z_re - z_im * z_im + re;
        let z_im_new = 2.0 * z_re * z_im + im;
        z_re = z_re_new;
        z_im = z_im_new;
        if z_re * z_re + z_im * z_im > 4.0 {
            return Escape::escaped(iters, max);
        }
    }
    Escape::interior(max)
}

fn viewport(width: u32, height: u32, scale: f64) -> impl Fn(Fractal, u32, u32) -> Escape {
    let zero_x = width as f64 / 2.0;
    let zero_y = height as f64 / 2.0;
    move |_f: Fractal, x: u32, y: u32| {
        let re = (x as f64 - zero_x) * scale * 0.01;
        let im = (y as f64 - zero_y) * scale * 0.01;
        mandelbrot(re, im, MAX_ITERATIONS)
    }
}

/// Escape value 30/100 everywhere: colour (252, 185, 47).
fn flat(_f: Fractal, _x: u32, _y: u32) -> Escape {
    Escape::escaped(30, 100)
}
const FLAT: (u8, u8, u8) = (252, 185, 47);

#[test]
fn reset_sets_alpha_and_clears_colour() {
    for n in 1..6usize {
        let mut buf = vec![9u8; 4 * n];
        assert_eq!(reset(&mut buf), Ok(()));
        for (k, b) in buf.iter().enumerate() {
            assert_eq!(*b, if k % 4 == 3 { 255 } else { 0 });
        }
    }
}

#[test]
fn reset_of_empty_buffer() {
    let mut buf: Vec<u8> = Vec::new();
    assert_eq!(reset(&mut buf), Ok(()));
}

#[test]
fn reset_refuses_partial_pixel() {
    let mut buf = vec![9u8; 6];
    assert_eq!(reset(&mut buf), Err(RenderError::BufferLength));
    assert_eq!(buf, vec![9u8; 6]);
}

#[test]
fn render_refuses_wrong_length() {
    let mut buf = vec![5u8; 4 * 5];
    assert_eq!(render(&mut buf, 0, 1, 3, 2, false, false, 1, flat), Err(RenderError::BufferLength));
    assert_eq!(buf, vec![5u8; 20]);
}

#[test]
fn mode_codes() {
    assert_eq!(RenderMode::from_code(0), RenderMode::Clear);
    assert_eq!(RenderMode::from_code(1), RenderMode::Frame);
    assert_eq!(RenderMode::from_code(2), RenderMode::RandomPixels);
    assert_eq!(RenderMode::from_code(3), RenderMode::RandomRows);
    assert_eq!(RenderMode::from_code(4), RenderMode::RandomColumns);
    assert_eq!(RenderMode::from_code(200), RenderMode::RandomColumns);
    assert_eq!(Fractal::from_code(2), Some(Fractal::BurningShip));
    assert_eq!(Fractal::from_code(4), None);
}

#[test]
fn clear_mode_resets() {
    let mut buf = vec![3u8; 4 * 6];
    assert_eq!(render(&mut buf, 0, 0, 3, 2, false, false, 1, flat), Ok(()));
    assert_eq!(buf, cleared(6));
}

#[test]
fn frame_paints_every_pixel() {
    let mut buf = cleared(12);
    assert_eq!(render(&mut buf, 1, 1, 4, 3, false, false, 9, flat), Ok(()));
    for y in 0..3 {
        for x in 0..4 {
            assert_eq!(rgb(&buf, 4, x, y), FLAT);
        }
    }
    for k in (3..buf.len()).step_by(4) {
        assert_eq!(buf[k], 255);
    }
}

#[test]
fn alpha_is_left_alone() {
    let mut buf = vec![0u8; 4 * 4];
    assert_eq!(render(&mut buf, 1, 1, 2, 2, false, false, 9, flat), Ok(()));
    for k in (3..buf.len()).step_by(4) {
        assert_eq!(buf[k], 0);
    }
}

#[test]
fn grid_overlay_blackens_every_third_line() {
    let mut buf = cleared(36);
    assert_eq!(render(&mut buf, 1, 1, 6, 6, true, false, 9, flat), Ok(()));
    for y in 0..6 {
        for x in 0..6 {
            let expect = if x % 3 == 0 || y % 3 == 0 { (0, 0, 0) } else { FLAT };
            assert_eq!(rgb(&buf, 6, x, y), expect);
        }
    }
}

#[test]
fn unknown_fractal_paints_black() {
    let mut buf = vec![0u8; 4 * 4];
    for b in buf.iter_mut() {
        *b = 77;
    }
    assert_eq!(render(&mut buf, 9, 1, 2, 2, false, false, 9, |_f: Fractal, _x: u32, _y: u32| -> Escape {
        panic!("no fractal to evaluate")
    }), Ok(()));
    for y in 0..2 {
        for x in 0..2 {
            assert_eq!(rgb(&buf, 2, x, y), (0, 0, 0));
        }
    }
}

#[test]
fn fractal_code_reaches_the_evaluator() {
    let mut buf = cleared(1);
    let pick = |f: Fractal, _x: u32, _y: u32| {
        if f == Fractal::Newton { Escape::escaped(30, 100) } else { Escape::interior(100) }
    };
    assert_eq!(render(&mut buf, 3, 1, 1, 1, false, false, 9, pick), Ok(()));
    assert_eq!(rgb(&buf, 1, 0, 0), FLAT);
}

#[test]
fn noise_blackens_some_pixels_only() {
    let (w, h) = (40u32, 40u32);
    let mut buf = cleared((w * h) as usize);
    assert_eq!(render(&mut buf, 0, 1, w, h, false, true, 42, flat), Ok(()));
    let mut black = 0;
    for y in 0..h {
        for x in 0..w {
            let c = rgb(&buf, w, x, y);
            assert!(c == (0, 0, 0) || c == FLAT);
            if c == (0, 0, 0) {
                black += 1;
            }
        }
    }
    assert!(black > 0 && black < w * h);
}

#[test]
fn same_seed_same_output() {
    for mode in 1..5u8 {
        let (w, h) = (200u32, 190u32);
        let mut a = cleared((w * h) as usize);
        let mut b = cleared((w * h) as usize);
        assert_eq!(render(&mut a, 0, mode, w, h, true, true, 1234, viewport(w, h, 1.0)), Ok(()));
        assert_eq!(render(&mut b, 0, mode, w, h, true, true, 1234, viewport(w, h, 1.0)), Ok(()));
        assert_eq!(a, b);
    }
}

#[test]
fn random_pixels_touch_at_most_the_quota() {
    let (w, h) = (30u32, 20u32);
    let mut buf = cleared((w * h) as usize);
    assert_eq!(render(&mut buf, 0, 2, w, h, false, false, 5, flat), Ok(()));
    let touched = (0..h).flat_map(|y| (0..w).map(move |x| (x, y))).filter(|&(x, y)| rgb(&buf, w, x, y) == FLAT).count();
    assert!(touched >= 1 && touched <= (w * h / 60) as usize);
}

#[test]
fn random_pixels_with_a_tiny_frame_touch_nothing() {
    let (w, h) = (7u32, 8u32);
    let mut buf = cleared((w * h) as usize);
    assert_eq!(render(&mut buf, 0, 2, w, h, false, false, 5, flat), Ok(()));
    assert_eq!(buf, cleared((w * h) as usize));
}

#[test]
fn random_rows_repaint_whole_rows() {
    let (w, h) = (5u32, 200u32);
    let mut buf = cleared((w * h) as usize);
    assert_eq!(render(&mut buf, 0, 3, w, h, false, false, 11, flat), Ok(()));
    let mut rows = 0;
    for y in 0..h {
        let painted = (0..w).filter(|&x| rgb(&buf, w, x, y) == FLAT).count();
        assert!(painted == 0 || painted == w as usize);
        if painted > 0 {
            rows += 1;
        }
    }
    assert!(rows >= 1 && rows <= (h / 90) as usize);
}

#[test]
fn random_columns_repaint_whole_columns() {
    let (w, h) = (270u32, 4u32);
    let mut buf = cleared((w * h) as usize);
    assert_eq!(render(&mut buf, 0, 4, w, h, false, false, 11, flat), Ok(()));
    let mut cols = 0;
    for x in 0..w {
        let painted = (0..h).filter(|&y| rgb(&buf, w, x, y) == FLAT).count();
        assert!(painted == 0 || painted == h as usize);
        if painted > 0 {
            cols += 1;
        }
    }
    assert!(cols >= 1 && cols <= (w / 90) as usize);
}

#[test]
fn mandelbrot_three_by_three_frame() {
    let mut buf = cleared(9);
    assert_eq!(render(&mut buf, 0, 1, 3, 3, false, false, 42, viewport(3, 3, 1.0)), Ok(()));
    assert_eq!(buf.len(), 36);
    assert_eq!(rgb(&buf, 3, 1, 1), (0, 0, 0));
    // Every pixel maps within 0.03 of the origin, inside the set.
    for y in 0..3 {
        for x in 0..3 {
            assert_eq!(rgb(&buf, 3, x, y), (0, 0, 0));
            assert_eq!(buf[((x + y * 3) * 4 + 3) as usize], 255);
        }
    }
}

#[test]
fn mandelbrot_wide_view_has_gradient_corners() {
    let (w, h) = (3u32, 3u32);
    let mut buf = cleared(9);
    assert_eq!(render(&mut buf, 0, 1, w, h, false, false, 42, viewport(w, h, 100.0)), Ok(()));
    // Corner (0, 0) maps to (-1.5, -1.5), which escapes on the first step.
    assert_eq!(rgb(&buf, w, 0, 0), (0, 0, 0));
    assert_eq!(mandelbrot(-1.5, -1.5, 100), Escape::escaped(0, 100));
    // Pixel (1, 1) maps near (-0.5, -0.5), inside the set.
    assert_eq!(rgb(&buf, w, 1, 1), (0, 0, 0));
    // Corner (2, 2) maps to (0.5, 0.5), which escapes after a few steps.
    let e = mandelbrot(0.5, 0.5, 100);
    assert!(e.iters > 0 && e.iters < 100);
    assert_eq!(rgb(&buf, w, 2, 2), fractal_render::paint_fractal(e));
    assert_ne!(rgb(&buf, w, 2, 2), (0, 0, 0));
}

#[test]
fn frame_without_noise_ignores_the_seed() {
    let (w, h) = (12u32, 9u32);
    let mut a = cleared((w * h) as usize);
    let mut b = cleared((w * h) as usize);
    assert_eq!(render(&mut a, 0, 1, w, h, true, false, 1, viewport(w, h, 30.0)), Ok(()));
    assert_eq!(render(&mut b, 0, 1, w, h, true, false, 999, viewport(w, h, 30.0)), Ok(()));
    assert_eq!(a, b);
}
