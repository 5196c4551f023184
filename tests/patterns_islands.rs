use rand_chacha::rand_core::SeedableRng;
use rand_chacha::ChaCha8Rng;
use wallpapers::{Canvas, Islands, Pattern, PatternColor, Patterns};

#[test]
fn boolarray_pattern_places_the_color() {
    let p = Pattern::from_boolarray(&[[true, false], [false, true]], &PatternColor::Solid { color: [1, 2, 3] });
    let cells = p.enumerate_pixels();
    assert_eq!(cells.len(), 4);
    assert_eq!((cells[0].0, cells[0].1), (0, 0));
    assert!(matches!(cells[0].2, PatternColor::Solid { color: [1, 2, 3] }));
    assert_eq!((cells[1].0, cells[1].1), (1, 0));
    assert!(matches!(cells[1].2, PatternColor::Skip));
    assert!(matches!(cells[3].2, PatternColor::Solid { .. }));
}

#[test]
fn diamond_is_a_ring_of_random_cells() {
    let p = Patterns::diamond();
    let cells = p.enumerate_pixels();
    assert_eq!(cells.len(), 25);
    let random = cells.iter().filter(|c| matches!(c.2, PatternColor::Random { .. })).count();
    assert_eq!(random, 8);
    assert!(matches!(cells[2].2, PatternColor::Random { minvalue: [40, 40, 40], maxvalue: [255, 255, 255] }));
    assert!(matches!(cells[12].2, PatternColor::Skip));
}

#[test]
fn pattern_tiles_the_canvas() {
    let mut p = Pattern::from_boolarray(&[[true, false], [false, false]], &PatternColor::Solid { color: [7, 7, 7] });
    let mut canvas = Canvas::new(5, 3);
    canvas.put_pixel(1, 0, [9, 9, 9]);
    p.build(&mut ChaCha8Rng::seed_from_u64(1), &mut canvas).unwrap();
    assert_eq!(canvas.get_pixel(0, 0), [7, 7, 7]);
    assert_eq!(canvas.get_pixel(2, 2), [7, 7, 7]);
    assert_eq!(canvas.get_pixel(4, 0), [7, 7, 7]);
    assert_eq!(canvas.get_pixel(1, 0), [9, 9, 9]);
    assert_eq!(canvas.get_pixel(3, 1), [0, 0, 0]);
}

#[test]
fn diamond_random_colors_stay_in_bounds() {
    let mut p = Patterns::diamond();
    let mut canvas = Canvas::new(10, 10);
    p.build(&mut ChaCha8Rng::seed_from_u64(3), &mut canvas).unwrap();
    let c = canvas.get_pixel(0, 2);
    assert!(c.iter().all(|v| *v >= 40));
    let mut varied = false;
    for y in 0..10u32 {
        for x in 0..10u32 {
            let d = canvas.get_pixel(x, y);
            if d != [0, 0, 0] {
                assert!(d.iter().all(|v| *v >= 40));
                varied = varied || d.iter().any(|v| *v != 40);
            }
        }
    }
    assert!(varied);
    assert_eq!(canvas.get_pixel(2, 2), [0, 0, 0]);
}

#[test]
fn unpaintable_pattern_is_refused() {
    let mut p = Pattern::from_boolarray(&[[true]], &PatternColor::Alpha { color: [1, 1, 1], alpha: 3 });
    let mut canvas = Canvas::new(2, 2);
    assert!(p.build(&mut ChaCha8Rng::seed_from_u64(1), &mut canvas).is_err());
    let mut q = Pattern::from_boolarray(&[[true]], &PatternColor::Random { minvalue: [5, 0, 0], maxvalue: [4, 9, 9] });
    assert!(q.build(&mut ChaCha8Rng::seed_from_u64(1), &mut canvas).is_err());
}

#[test]
fn island_thresholds() {
    let islands = Islands::default();
    assert_eq!(islands.compute_threshold(196, 1, 2, 3), 1);
    assert_eq!(islands.compute_threshold(195, 1, 2, 3), 2);
    assert_eq!(islands.compute_threshold(191, 1, 2, 3), 2);
    assert_eq!(islands.compute_threshold(190, 1, 2, 3), 3);
}

#[test]
fn island_shading() {
    let islands = Islands::default();
    // land: foreground scaled by the height
    assert_eq!(islands.shade(255), [202, 168, 131]);
    assert_eq!(islands.shade(200), [158, 131, 102]);
    // shore: the border color
    assert_eq!(islands.shade(193), [154, 115, 82]);
    // sea: mean of background and height
    assert_eq!(islands.shade(100), [149, 125, 81]);
}

#[test]
fn island_grid_is_dashed() {
    let islands = Islands::default();
    let mut canvas = Canvas::new(50, 40);
    islands.draw_grid(&mut canvas).unwrap();
    // spacing (40 - 20) / 6 = 3: lines at 10, 13, 16, ...
    let grid = [100, 96, 82];
    assert_eq!(canvas.get_pixel(0, 10), grid);
    assert_eq!(canvas.get_pixel(9, 13), grid);
    assert_eq!(canvas.get_pixel(22, 13), grid);
    assert_eq!(canvas.get_pixel(12, 14), [0, 0, 0]);
    assert_eq!(canvas.get_pixel(20, 16), grid);
    assert_eq!(canvas.get_pixel(21, 11), [0, 0, 0]);
    assert_eq!(canvas.get_pixel(13, 0), grid);
    assert_eq!(canvas.get_pixel(13, 25), grid);
    assert_eq!(canvas.get_pixel(13, 15), [0, 0, 0]);
}

#[test]
fn island_grid_needs_room() {
    let islands = Islands::default();
    let mut canvas = Canvas::new(100, 25);
    assert!(islands.draw_grid(&mut canvas).is_err());
}
