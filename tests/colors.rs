use hackrf_spectrum_analyzer::color::{color_map, color_of_db, normalize_db, red_blue_color_map, Rgb};

fn inferno(t: f64) -> Rgb {
    let c = colorous::INFERNO.eval_continuous(t);
    Rgb { r: c.r, g: c.g, b: c.b }
}

#[test]
fn palette_endpoints() {
    assert_eq!(color_map(0, 80000), inferno(0.0));
    assert_eq!(color_map(0, 80000), Rgb { r: 0, g: 0, b: 4 });
    assert_eq!(color_map(80000, 80000), inferno(1.0));
    assert_eq!(color_map(200000, 80000), inferno(1.0));
}

#[test]
fn palette_brightens() {
    let luma = |c: Rgb| 2126 * c.r as u32 + 7152 * c.g as u32 + 722 * c.b as u32;
    let mut last = 0;
    for i in 0..=20usize {
        let l = luma(color_map(i, 20));
        assert!(l >= last, "step {}", i);
        last = l;
    }
}

#[test]
fn colors_follow_position() {
    assert_eq!(color_map(1, 2), inferno(0.5));
    assert_ne!(color_map(1, 2), color_map(0, 2));
}

#[test]
fn normalization() {
    assert_eq!(normalize_db(-50000, -90000, -10000), (40000, 80000));
    assert_eq!(normalize_db(-95000, -90000, -10000), (0, 80000));
    assert_eq!(normalize_db(0, -90000, -10000), (80000, 80000));
    assert_eq!(normalize_db(-20000, -30000, -30000), (1, 2));
    // reversed bounds: `max_db` is still the top of the scale
    assert_eq!(normalize_db(-20000, -10000, -90000), (10000, 80000));
}

#[test]
fn reading_colors() {
    assert_eq!(color_of_db(-90000, -90000, -10000), inferno(0.0));
    assert_eq!(color_of_db(-10000, -90000, -10000), inferno(1.0));
    assert_eq!(color_of_db(-5, 7, 7), inferno(0.5));
}

#[test]
fn red_blue_scale() {
    assert_eq!(red_blue_color_map(-90000, -10000, -90000), (255, 0, 0));
    assert_eq!(red_blue_color_map(-10000, -10000, -90000), (0, 0, 255));
    assert_eq!(red_blue_color_map(-50000, -10000, -90000), (128, 0, 127));
    assert_eq!(red_blue_color_map(-100000, -10000, -90000), (255, 0, 0));
    assert_eq!(red_blue_color_map(0, -10000, -90000), (0, 0, 255));
    assert_eq!(red_blue_color_map(3, 5, 5), (128, 0, 127));
}
