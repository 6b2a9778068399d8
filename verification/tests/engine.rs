use mandelbrot::{Complex, Mandelbrot, Rgb, Square, SquareCache, SquareResult, calculate_color, SCALE};

fn plane(g: i64, zoom: u64) -> i64 {
    ((g as i128) * (SCALE as i128) / (zoom as i128)) as i64
}

#[test]
fn origin_never_escapes() {
    for max_iter in [1u32, 10, 50, 1000] {
        assert_eq!(Complex::new(0, 0).calculate_mandelbrot_iterations(max_iter), 0);
    }
}

#[test]
fn cardioid_interior_points_never_escape() {
    // -0.5 + 0i and 0.1 + 0.1i lie strictly inside the main cardioid.
    let half = SCALE / 2;
    let tenth = SCALE / 10;
    assert_eq!(Complex::new(-half, 0).calculate_mandelbrot_iterations(1000), 0);
    assert_eq!(Complex::new(tenth, tenth).calculate_mandelbrot_iterations(1000), 0);
}

#[test]
fn bulb_center_never_escapes() {
    // -1 + 0i is the center of the period-2 bulb.
    assert_eq!(Complex::new(-SCALE, 0).calculate_mandelbrot_iterations(1000), 0);
}

#[test]
fn two_escapes_at_first_step() {
    for max_iter in [1u32, 5, 1000] {
        assert_eq!(
            Complex::new(2 * SCALE, 0).calculate_mandelbrot_iterations(max_iter),
            1
        );
    }
}

#[test]
fn one_plus_i_escapes_at_second_step() {
    // z1 = 1+i (norm 2), z2 = 1+3i (norm 10 >= 4).
    assert_eq!(Complex::new(SCALE, SCALE).calculate_mandelbrot_iterations(50), 2);
}

#[test]
fn zero_iteration_bound_gives_sentinel() {
    assert_eq!(Complex::new(2 * SCALE, 0).calculate_mandelbrot_iterations(0), 0);
}

#[test]
fn color_of_zero_is_black() {
    assert_eq!(calculate_color(0), Rgb { r: 0, g: 0, b: 0 });
}

#[test]
fn color_is_deterministic() {
    for n in [0u32, 1, 2, 7, 160, 161, 5000, u32::MAX] {
        assert_eq!(calculate_color(n), calculate_color(n));
    }
}

#[test]
fn color_of_one_exact() {
    // limited = 3 % 161 + 30 = 33; phase = 33 * 256 / 161 = 52;
    // r = wave(52) = 104, g = wave(116) = 232, b = wave(180) = 150.
    assert_eq!(calculate_color(1), Rgb { r: 104, g: 232, b: 150 });
}

#[test]
fn square_new_keeps_fields() {
    let sq = Square::new(-64, 32, 400, 32, 50);
    assert_eq!(sq.x, -64);
    assert_eq!(sq.y, 32);
    assert_eq!(sq.zoom, 400);
    assert_eq!(sq.size, 32);
    assert_eq!(sq.max_iter, 50);
}

#[test]
fn uniform_tile_is_one_color() {
    // The tile covering plane [4, 6) x [4, 6): every point escapes at the
    // first step, so every border sample equals the corner's count 1.
    let sq = Square::new(64, 64, 16, 32, 50);
    let res = sq.calculate_square();
    assert_eq!(res.colors.len(), 1024);
    let expected = calculate_color(1);
    for c in &res.colors {
        assert_eq!(*c, expected);
    }
}

#[test]
fn non_uniform_tile_matches_per_pixel_evaluation() {
    // The tile covering plane [-1, 1) x [-1, 1) straddles the set boundary.
    let sq = Square::new(-16, -16, 16, 32, 50);
    let res = sq.calculate_square();
    assert_eq!(res.colors.len(), 1024);
    let mut saw_two_colors = false;
    let first = res.colors[0];
    for (i, c) in res.colors.iter().enumerate() {
        let col = (i % 32) as i64;
        let row = (i / 32) as i64;
        let point = Complex::new(plane(-16 + col, 16), plane(-16 + row, 16));
        let expected = calculate_color(point.calculate_mandelbrot_iterations(50));
        assert_eq!(*c, expected);
        if *c != first {
            saw_two_colors = true;
        }
    }
    assert!(saw_two_colors);
}

#[test]
fn one_pixel_tile_resolves() {
    let sq = Square::new(0, 0, 16, 1, 50);
    let res = sq.calculate_square();
    assert_eq!(res.colors.len(), 1);
    assert_eq!(res.colors[0], Rgb { r: 0, g: 0, b: 0 });
}

#[test]
fn square_result_pixel_positions() {
    let sq = Square::new(64, 96, 16, 32, 50);
    let res = sq.calculate_square();
    let p0 = res.pixel_at(0);
    assert_eq!((p0.x, p0.y), (64, 96));
    let p = res.pixel_at(33);
    assert_eq!((p.x, p.y), (64 + 1, 96 + 1));
    let last = res.pixel_at(1023);
    assert_eq!((last.x, last.y), (64 + 31, 96 + 31));
}

#[test]
fn square_result_new_keeps_fields() {
    let res = SquareResult::new(vec![Rgb { r: 1, g: 2, b: 3 }], 7, -9, 1);
    assert_eq!(res.x, 7);
    assert_eq!(res.y, -9);
    assert_eq!(res.size, 1);
    assert_eq!(res.colors, vec![Rgb { r: 1, g: 2, b: 3 }]);
}

#[test]
fn cache_get_put_clear() {
    let mut cache = SquareCache::new();
    let sq = Square::new(64, 64, 16, 32, 50);
    assert_eq!(cache.len(), 0);
    assert!(cache.get(&sq).is_none());
    let res = sq.calculate_square();
    cache.put(sq, res);
    assert_eq!(cache.len(), 1);
    let hit = cache.get(&sq).expect("entry must be present");
    assert_eq!(hit.colors, sq.calculate_square().colors);
    // A second insert of the same identity is idempotent.
    cache.put(sq, sq.calculate_square());
    assert_eq!(cache.len(), 1);
    // A different identity misses.
    let other = Square::new(96, 64, 16, 32, 50);
    assert!(cache.get(&other).is_none());
    cache.clear();
    assert_eq!(cache.len(), 0);
    assert!(cache.get(&sq).is_none());
}

#[test]
fn render_twice_is_byte_identical() {
    let mut m = Mandelbrot::new(64, 64, 50, 0, 0, 16);
    let f1 = m.calculate_mandelbrot();
    let n1 = m.cached_count();
    let f2 = m.calculate_mandelbrot();
    let n2 = m.cached_count();
    assert_eq!(n1, 9);
    assert_eq!(n2, 9);
    assert_eq!(f1.into_data(), f2.into_data());
}

#[test]
fn zoom_change_invalidates_cache() {
    let mut m = Mandelbrot::new(64, 64, 50, 0, 0, 16);
    m.calculate_mandelbrot();
    assert_eq!(m.cached_count(), 9);
    m.zoom(1, 32, 32);
    assert_eq!(m.cached_count(), 0);
    m.calculate_mandelbrot();
    assert!(m.cached_count() > 0);
}

#[test]
fn max_iter_change_invalidates_cache() {
    let mut m = Mandelbrot::new(64, 64, 50, 0, 0, 16);
    m.calculate_mandelbrot();
    assert_eq!(m.cached_count(), 9);
    m.increase_max_iter(50);
    assert_eq!(m.max_iter, 100);
    assert_eq!(m.cached_count(), 0);
}

#[test]
fn pan_keeps_cache_and_reuses_tiles() {
    let mut m = Mandelbrot::new(64, 64, 50, 0, 0, 16);
    let f1 = m.calculate_mandelbrot();
    assert_eq!(m.cached_count(), 9);
    m.move_center(32, 0);
    // Panning does not invalidate: the nine cached tiles survive.
    assert_eq!(m.cached_count(), 9);
    let f2 = m.calculate_mandelbrot();
    // One new column of three tiles was computed; the rest were reused.
    assert_eq!(m.cached_count(), 12);
    // The overlapping region is pixel-identical: frame 2's pixel (px, py)
    // shows the same absolute point as frame 1's pixel (px + 32, py).
    let d1 = f1.into_data();
    let d2 = f2.into_data();
    for py in 0..64usize {
        for px in 0..32usize {
            let a = (py * 64 + px) * 3;
            let b = (py * 64 + px + 32) * 3;
            assert_eq!(d2[a..a + 3], d1[b..b + 3]);
        }
    }
}

#[test]
fn end_to_end_center_pixel_is_black() {
    let mut m = Mandelbrot::new(64, 64, 50, 0, 0, 16);
    assert_eq!(Complex::new(0, 0).calculate_mandelbrot_iterations(50), 0);
    let f = m.calculate_mandelbrot();
    assert_eq!(f.width(), 64);
    assert_eq!(f.height(), 64);
    let data = f.into_data();
    assert_eq!(data.len(), 64 * 64 * 3);
    let center = (32 * 64 + 32) * 3;
    assert_eq!(&data[center..center + 3], &[0, 0, 0]);
    // A pixel outside the set carries its individually computed color: the
    // top-left pixel shows plane point (-2, -2), which escapes at once.
    let corner_point = Complex::new(plane(-32, 16), plane(-32, 16));
    let expected = calculate_color(corner_point.calculate_mandelbrot_iterations(50));
    assert_eq!(data[0], expected.r);
    assert_eq!(data[1], expected.g);
    assert_eq!(data[2], expected.b);
}

#[test]
fn pixel_plane_roundtrip_within_one() {
    let m = Mandelbrot::new(800, 600, 100, -100, 0, 250);
    for (px, py) in [(10, 20), (0, 0), (400, 300), (799, 599)] {
        let c = m.pixel_to_plane(px, py);
        let (bx, by) = m.plane_to_pixel(c);
        assert!((bx - px as i64).abs() <= 1, "x came back as {bx} for {px}");
        assert!((by - py as i64).abs() <= 1, "y came back as {by} for {py}");
    }
}

#[test]
fn pixel_to_plane_corners() {
    let m = Mandelbrot::new(64, 64, 50, 0, 0, 16);
    let center = m.pixel_to_plane(32, 32);
    assert_eq!((center.re, center.im), (0, 0));
    let corner = m.pixel_to_plane(0, 0);
    assert_eq!(corner.re, -2 * SCALE);
    assert_eq!(corner.im, 2 * SCALE);
}

#[test]
fn zoom_rescales_center_around_cursor() {
    let mut m = Mandelbrot::new(100, 100, 10, 50, 60, 400);
    m.zoom(1, 50, 50);
    assert_eq!(m.zoom, 532);
    assert_eq!(m.center_x, 66);
    assert_eq!(m.center_y, 79);
}

#[test]
fn zoom_never_drops_below_floor() {
    let mut m = Mandelbrot::new(100, 100, 10, 50, 60, 16);
    m.zoom(-30, 0, 0);
    assert_eq!(m.zoom, 16);
    assert_eq!(m.center_x, 50);
    assert_eq!(m.center_y, 60);
}

#[test]
fn change_size_rescales() {
    let m = Mandelbrot::new(100, 100, 10, 50, 60, 400);
    let m2 = m.change_size(100, 100);
    assert_eq!(m2.width, 200);
    assert_eq!(m2.height, 200);
    assert_eq!(m2.zoom, 800);
    assert_eq!(m2.center_x, 100);
    assert_eq!(m2.center_y, 120);
    assert_eq!(m2.max_iter, 10);
    assert_eq!(m2.cached_count(), 0);
}

#[test]
fn move_center_accumulates() {
    let mut m = Mandelbrot::new(100, 100, 10, 0, 0, 400);
    m.move_center(5, -7);
    m.move_center(5, -7);
    assert_eq!(m.center_x, 10);
    assert_eq!(m.center_y, -14);
}

#[test]
fn increase_max_iter_saturates_at_zero() {
    let mut m = Mandelbrot::new(100, 100, 10, 0, 0, 400);
    m.increase_max_iter(-20);
    assert_eq!(m.max_iter, 0);
    m.increase_max_iter(7);
    assert_eq!(m.max_iter, 7);
}
