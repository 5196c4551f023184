use rand_chacha::rand_core::SeedableRng;
use rand_chacha::ChaCha8Rng;
use wallpapers::cellular_one::get_new_color;
use wallpapers::lightning::{charge_from_draws, nearest_particle, path_color, step_toward};
use wallpapers::{Canvas, CellularOne, Lightning};

fn canvas_bytes(c: &Canvas) -> Vec<u8> {
    c.to_rgb_bytes()
}

#[test]
fn cellular_same_seed_same_canvas() {
    let mut first = Canvas::new(24, 18);
    let mut second = Canvas::new(24, 18);
    let r1 = CellularOne::default().build(&mut ChaCha8Rng::seed_from_u64(7), &mut first);
    let r2 = CellularOne::default().build(&mut ChaCha8Rng::seed_from_u64(7), &mut second);
    assert_eq!(r1.is_ok(), r2.is_ok());
    assert_eq!(canvas_bytes(&first), canvas_bytes(&second));
}

#[test]
fn cellular_success_colors_every_cell() {
    let mut successes = 0;
    for seed in 1..40u64 {
        let mut canvas = Canvas::new(20, 20);
        let mut process = CellularOne::default();
        if process.build(&mut ChaCha8Rng::seed_from_u64(seed), &mut canvas).is_ok() {
            successes += 1;
            assert_eq!(process.visited_grid().len(), 400);
            assert!(process.visited_grid().iter().all(|v| *v));
            for y in 0..20 {
                for x in 0..20 {
                    assert_ne!(canvas.get_pixel(x, y), [0, 0, 0], "cell ({}, {}) left black", x, y);
                }
            }
        }
    }
    assert!(successes > 0);
}

#[test]
fn cellular_empty_canvas_fails() {
    let mut canvas = Canvas::new(0, 5);
    let r = CellularOne::default().build(&mut ChaCha8Rng::seed_from_u64(1), &mut canvas);
    assert!(r.is_err());
}

#[test]
fn cellular_single_row_cannot_grow() {
    // A single row has no diagonal neighbours: unless the seeds cover it, growth stalls.
    let mut canvas = Canvas::new(30, 1);
    let mut process = CellularOne::default();
    let r = process.build(&mut ChaCha8Rng::seed_from_u64(3), &mut canvas);
    assert!(r.is_err());
    assert_eq!(process.visited_grid().len(), 30);
    let colored = process.visited_grid().iter().filter(|v| **v).count();
    assert!((1..=2).contains(&colored));
}

#[test]
fn new_color_is_darkened_diagonal_mean() {
    let mut canvas = Canvas::new(3, 3);
    canvas.put_pixel(0, 0, [100, 200, 1]);
    canvas.put_pixel(2, 2, [201, 100, 0]);
    canvas.put_pixel(1, 0, [255, 255, 255]);
    let mut visited = vec![false; 9];
    visited[0] = true; // (0, 0)
    visited[8] = true; // (2, 2)
    visited[1] = true; // (1, 0): shares a coordinate with (1, 1), so it does not count
    assert_eq!(get_new_color(1, 1, &canvas, &visited), Some([149, 149, 0]));
    assert_eq!(get_new_color(2, 0, &canvas, &visited), None);
    // (1, 0) is a diagonal neighbour of (0, 1)
    assert_eq!(get_new_color(0, 1, &canvas, &visited), Some([254, 254, 254]));
}

#[test]
fn step_rule_zeroes_the_minor_axis() {
    assert_eq!(step_toward(0, 0, 10, 2), (1, 0));
    assert_eq!(step_toward(0, 0, 2, 10), (0, 1));
    assert_eq!(step_toward(0, 0, 3, 3), (1, 1));
    assert_eq!(step_toward(10, 10, 0, 2), (-1, -1));
    assert_eq!(step_toward(10, 10, 13, 9), (1, -1));
    assert_eq!(step_toward(10, 10, 14, 9), (1, 0));
    assert_eq!(step_toward(5, 5, 5, 9), (0, 1));
    assert_eq!(step_toward(5, 5, 5, 5), (-1, -1));
    assert_eq!(step_toward(5, 5, 1, 5), (-1, 0));
}

#[test]
fn nearest_particle_takes_the_first_of_equals() {
    let particles = vec![(0u32, 0u32), (4, 0), (2, 0), (8, 8)];
    assert_eq!(nearest_particle(&particles, 4, 3, 0), 1);
    assert_eq!(nearest_particle(&particles, 4, 1, 0), 0);
    assert_eq!(nearest_particle(&particles, 2, 2, 0), 0);
    assert_eq!(nearest_particle(&particles, 4, 9, 9), 3);
    assert_eq!(nearest_particle(&particles, 3, 9, 9), 1);
}

#[test]
fn path_color_interpolates_toward_the_base() {
    assert_eq!(path_color(100, 50, 0, 10), [200, 200, 255]);
    assert_eq!(path_color(100, 50, 10, 10), [100, 50, 255]);
    assert_eq!(path_color(100, 50, 5, 10), [150, 125, 255]);
}

#[test]
fn lightning_rejects_short_canvas() {
    let mut canvas = Canvas::new(20, 3);
    let r = Lightning::default().build(&mut ChaCha8Rng::seed_from_u64(1), &mut canvas);
    assert!(r.is_err());
    assert!(canvas_bytes(&canvas).iter().all(|b| *b == 0));
}

#[test]
fn lightning_paints_only_path_colors() {
    let mut canvas = Canvas::new(30, 20);
    let r = Lightning::default().build(&mut ChaCha8Rng::seed_from_u64(11), &mut canvas);
    assert!(r.is_ok());
    let mut painted = 0;
    for y in 0..20 {
        for x in 0..30 {
            let c = canvas.get_pixel(x, y);
            if c != [0, 0, 0] {
                painted += 1;
                assert_eq!(c[2], 255);
                assert!(c[0] <= 200 && c[1] <= 200);
            }
        }
    }
    assert!(painted > 0);
}

#[test]
fn lightning_same_seed_same_canvas() {
    let mut first = Canvas::new(25, 12);
    let mut second = Canvas::new(25, 12);
    Lightning::default().build(&mut ChaCha8Rng::seed_from_u64(5), &mut first).unwrap();
    Lightning::default().build(&mut ChaCha8Rng::seed_from_u64(5), &mut second).unwrap();
    assert_eq!(canvas_bytes(&first), canvas_bytes(&second));
}

#[test]
fn lightning_path_is_connected_and_painted() {
    let mut canvas = Canvas::new(16, 12);
    let mut process = Lightning::default();
    process.build(&mut ChaCha8Rng::seed_from_u64(17), &mut canvas).unwrap();
    let path = process.particle_path().clone();
    assert_eq!(path.len(), 160);
    assert_eq!(path[0].1, 0);
    for i in 1..path.len() {
        let (x, y) = path[i];
        assert!(x < 16 && y + 2 <= 12);
        assert!(path[..i].iter().any(|p| p.0.abs_diff(x) <= 1 && p.1.abs_diff(y) <= 1));
        assert_eq!(canvas.get_pixel(x, y)[2], 255);
        assert_eq!(canvas.get_pixel(x, y + 1)[2], 255);
    }
    for y in 0..12u32 {
        for x in 0..16u32 {
            if canvas.get_pixel(x, y) != [0, 0, 0] {
                assert!(path[1..].iter().any(|p| p.0 == x && (p.1 == y || p.1 + 1 == y)));
            }
        }
    }
    assert!(path.iter().any(|p| p.0 != path[0].0 || p.1 != 0));
}

#[test]
fn cellular_single_cell_succeeds() {
    let mut canvas = Canvas::new(1, 1);
    let mut process = CellularOne::default();
    assert!(process.build(&mut ChaCha8Rng::seed_from_u64(2), &mut canvas).is_ok());
    assert!(canvas.get_pixel(0, 0).iter().all(|c| *c >= 128));
}

#[test]
fn seed_is_placed_and_counted() {
    let mut canvas = Canvas::new(3, 2);
    let mut visited = vec![false; 6];
    let mut process = CellularOne::default();
    process.place_seed(&mut canvas, &mut visited, 2, 1, [130, 140, 150]);
    assert_eq!(canvas.get_pixel(2, 1), [130, 140, 150]);
    assert_eq!(visited, vec![false, false, false, false, false, true]);
    process.populate_points(&mut ChaCha8Rng::seed_from_u64(4), 3, &mut canvas, &mut visited);
    let colored = visited.iter().filter(|v| **v).count();
    assert!((1..=4).contains(&colored));
}

#[test]
fn charge_follows_the_zone() {
    assert_eq!(charge_from_draws(0, 20, 10, 5, 7, 3, 4), (3, 4));
    assert_eq!(charge_from_draws(1, 20, 10, 5, 7, 3, 4), (3, 4));
    assert_eq!(charge_from_draws(2, 20, 10, 5, 7, 3, 4), (16, 4));
    assert_eq!(charge_from_draws(3, 20, 10, 5, 7, 3, 4), (3, 4));
    assert_eq!(charge_from_draws(0, 20, 10, 5, 7, 0, 0), (0, 8));
}
