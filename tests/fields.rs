use rand_chacha::rand_core::SeedableRng;
use rand_chacha::ChaCha8Rng;
use wallpapers::squares_one_direction::perturbed;
use wallpapers::{Canvas, NearestPoint, Point, SquaresLayer, SquaresOneDirection};

#[test]
fn nearest_point_two_points() {
    let a = [200, 130, 140];
    let b = [150, 250, 129];
    let field = NearestPoint::from_points(vec![
        Point { x: 0, y: 0, color: a },
        Point { x: 4, y: 0, color: b },
    ]);
    let mut canvas = Canvas::new(5, 1);
    field.color_image(&mut canvas);
    assert_eq!(canvas.get_pixel(0, 0), a);
    assert_eq!(canvas.get_pixel(1, 0), a);
    assert_eq!(canvas.get_pixel(2, 0), a);
    assert_eq!(canvas.get_pixel(3, 0), b);
    assert_eq!(canvas.get_pixel(4, 0), b);
}

#[test]
fn nearest_point_without_points_is_black() {
    let field = NearestPoint::from_points(vec![]);
    assert_eq!(field.nearest_color(3, 3), [0, 0, 0]);
    assert_eq!(Point::black().color_at(1, 1), [0, 0, 0]);
}

#[test]
fn nearest_point_build_places_light_points() {
    let mut canvas = Canvas::new(40, 30);
    let mut field = NearestPoint::default();
    field.build(&mut ChaCha8Rng::seed_from_u64(9), &mut canvas).unwrap();
    let points = field.point_list();
    assert!(!points.is_empty() && points.len() <= 2);
    for p in points.iter() {
        assert!(p.x < 40 && p.y < 30);
        assert!(p.color.iter().all(|c| *c >= 128));
    }
    assert!(points.iter().any(|p| p.color.iter().any(|c| *c != 128)));
    for y in 0..30 {
        for x in 0..40 {
            assert_eq!(canvas.get_pixel(x, y), field.nearest_color(x, y));
        }
    }
}

#[test]
fn nearest_point_empty_canvas_fails() {
    let mut canvas = Canvas::new(4, 0);
    assert!(NearestPoint::default().build(&mut ChaCha8Rng::seed_from_u64(2), &mut canvas).is_err());
}

#[test]
fn nearest_point_same_seed_same_canvas() {
    let mut first = Canvas::new(30, 30);
    let mut second = Canvas::new(30, 30);
    NearestPoint::default().build(&mut ChaCha8Rng::seed_from_u64(4), &mut first).unwrap();
    NearestPoint::default().build(&mut ChaCha8Rng::seed_from_u64(4), &mut second).unwrap();
    assert_eq!(first.to_rgb_bytes(), second.to_rgb_bytes());
}

#[test]
fn layer_sizing_uses_whole_blocks() {
    let mut layer: SquaresLayer<[u8; 3]> = SquaresLayer::new(0, 0, 10, 10);
    layer.adjust_square_count_to_image_dimensions(25, 25);
    assert_eq!(layer.squares_h(), 2);
    assert_eq!(layer.squares_v(), 2);
    layer.adjust_square_count_to_image_dimensions(7, 31);
    assert_eq!(layer.squares_h(), 1);
    assert_eq!(layer.squares_v(), 3);
}

#[test]
fn layer_draw_fails_on_smaller_canvas() {
    let mut layer: SquaresLayer<[u8; 3]> = SquaresLayer::new(2, 2, 10, 10);
    layer.set_color_at(1, 0, [9, 8, 7]);
    let mut small = Canvas::new(15, 25);
    assert!(layer.draw(&mut small).is_err());
    assert!(small.to_rgb_bytes().iter().all(|b| *b == 0));
    let mut big = Canvas::new(25, 25);
    assert!(layer.draw(&mut big).is_ok());
    assert_eq!(big.get_pixel(10, 0), [9, 8, 7]);
    assert_eq!(big.get_pixel(19, 9), [9, 8, 7]);
    assert_eq!(big.get_pixel(9, 9), [0, 0, 0]);
    assert_eq!(*layer.get_color_at(1, 0), [9, 8, 7]);
}

#[test]
fn layer_keeps_colors_when_resized() {
    let mut layer: SquaresLayer<[u8; 3]> = SquaresLayer::new(1, 1, 10, 10);
    layer.set_color_at(0, 0, [1, 2, 3]);
    layer.adjust_square_count_to_image_dimensions(30, 20);
    assert_eq!(*layer.get_color_at(0, 0), [1, 2, 3]);
    assert_eq!(*layer.get_color_at(2, 1), [0, 0, 0]);
}

#[test]
fn perturbation_clamps_to_channel_range() {
    assert_eq!(perturbed([250, 10, 10], 0, 20), [255, 10, 10]);
    assert_eq!(perturbed([250, 10, 10], 1, -20), [250, 0, 10]);
    assert_eq!(perturbed([250, 10, 10], 2, 7), [250, 10, 17]);
    assert_eq!(perturbed([250, 10, 10], 2, 0), [250, 10, 10]);
}

#[test]
fn weighted_average_counts_favoured_neighbours() {
    let mut canvas = Canvas::new(30, 30);
    let mut squares = SquaresOneDirection::new_horiz();
    squares.build(&mut ChaCha8Rng::seed_from_u64(1), &mut canvas).unwrap();
    // After a full run every block is visited: the average is defined everywhere.
    let a = squares.get_average_color_of_squares(1, 1).unwrap();
    let mut sums = [0u32; 3];
    let mut n = 0u32;
    for x in 0..3 {
        for y in 0..3 {
            let c = *squares.get_square_color(x, y).unwrap();
            let k = if y == 1 && x != 1 { 6 } else { 1 };
            for ch in 0..3 {
                sums[ch] += k * c[ch] as u32;
            }
            n += k;
        }
    }
    assert_eq!(a, [(sums[0] / n) as u8, (sums[1] / n) as u8, (sums[2] / n) as u8]);
}

#[test]
fn directional_squares_fill_whole_blocks() {
    let mut canvas = Canvas::new(25, 23);
    let mut squares = SquaresOneDirection::new_vert_randomized();
    squares.build(&mut ChaCha8Rng::seed_from_u64(21), &mut canvas).unwrap();
    for y in 0..20u32 {
        for x in 0..20u32 {
            assert_eq!(canvas.get_pixel(x, y), canvas.get_pixel(x / 10 * 10, y / 10 * 10));
        }
    }
    assert_eq!(canvas.get_pixel(24, 22), [0, 0, 0]);
}

#[test]
fn directional_squares_reject_narrow_canvas() {
    let mut canvas = Canvas::new(9, 40);
    let r = SquaresOneDirection::new_diag().build(&mut ChaCha8Rng::seed_from_u64(2), &mut canvas);
    assert!(r.is_err());
    assert!(canvas.to_rgb_bytes().iter().all(|b| *b == 0));
}

#[test]
fn directional_squares_same_seed_same_canvas() {
    for make in [
        SquaresOneDirection::new_nodir,
        SquaresOneDirection::new_horiz,
        SquaresOneDirection::new_vert,
        SquaresOneDirection::new_diag,
        SquaresOneDirection::new_nodir_randomized,
        SquaresOneDirection::new_horiz_randomized,
        SquaresOneDirection::new_vert_randomized,
    ] {
        let mut first = Canvas::new(40, 30);
        let mut second = Canvas::new(40, 30);
        make().build(&mut ChaCha8Rng::seed_from_u64(13), &mut first).unwrap();
        make().build(&mut ChaCha8Rng::seed_from_u64(13), &mut second).unwrap();
        assert_eq!(first.to_rgb_bytes(), second.to_rgb_bytes());
    }
}

#[test]
fn squares_average_distinct_colors() {
    let mut canvas = Canvas::new(30, 30);
    let mut squares = wallpapers::Squares::default();
    squares.build(&mut ChaCha8Rng::seed_from_u64(8), &mut canvas).unwrap();
    let mut distinct: Vec<[u8; 3]> = vec![];
    for x in 0..2u32 {
        for y in 0..3u32 {
            let c = canvas.get_pixel(x * 10, y * 10);
            if !distinct.contains(&c) {
                distinct.push(c);
            }
        }
    }
    let n = distinct.len() as u32;
    let mean = [0, 1, 2].map(|k| (distinct.iter().map(|c| c[k] as u32).sum::<u32>() / n) as u8);
    assert_eq!(squares.get_average_color_of_squares(0, 1, &canvas), Some(mean));
}

#[test]
fn squares_paint_uniform_blocks() {
    let mut canvas = Canvas::new(34, 27);
    let mut squares = wallpapers::Squares::default();
    squares.build(&mut ChaCha8Rng::seed_from_u64(12), &mut canvas).unwrap();
    for y in 0..20u32 {
        for x in 0..30u32 {
            assert_eq!(canvas.get_pixel(x, y), canvas.get_pixel(x / 10 * 10, y / 10 * 10));
        }
    }
    assert_eq!(canvas.get_pixel(33, 26), [0, 0, 0]);
}

#[test]
fn squares_reject_short_canvas() {
    let mut canvas = Canvas::new(40, 6);
    let r = wallpapers::Squares::default().build(&mut ChaCha8Rng::seed_from_u64(1), &mut canvas);
    assert!(r.is_err());
    assert!(canvas.to_rgb_bytes().iter().all(|b| *b == 0));
}

#[test]
fn squares_same_seed_same_canvas() {
    let mut first = Canvas::new(40, 40);
    let mut second = Canvas::new(40, 40);
    wallpapers::Squares::default().build(&mut ChaCha8Rng::seed_from_u64(6), &mut first).unwrap();
    wallpapers::Squares::default().build(&mut ChaCha8Rng::seed_from_u64(6), &mut second).unwrap();
    assert_eq!(first.to_rgb_bytes(), second.to_rgb_bytes());
}
