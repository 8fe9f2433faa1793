use hackrf_spectrum_analyzer::downscale::{downscale, DownscaleMode};

#[test]
fn average_and_peak_of_four_readings() {
    let p = vec![-50000, -40000, -30000, -20000];
    assert_eq!(downscale(&p, 2, DownscaleMode::Average), vec![-45000, -25000]);
    assert_eq!(downscale(&p, 2, DownscaleMode::Peak), vec![-40000, -20000]);
}

#[test]
fn output_length_is_target_width() {
    let p: Vec<i64> = (0..37).map(|x| (x * 7 % 11) as i64).collect();
    for w in 0..=37usize {
        assert_eq!(downscale(&p, w, DownscaleMode::Peak).len(), w);
        assert_eq!(downscale(&p, w, DownscaleMode::Average).len(), w);
    }
}

#[test]
fn wide_target_keeps_row() {
    let p = vec![3, 1, 2];
    assert_eq!(downscale(&p, 3, DownscaleMode::Average), p);
    assert_eq!(downscale(&p, 10, DownscaleMode::Peak), p);
    assert!(downscale(&p, 0, DownscaleMode::Peak).is_empty());
}

#[test]
fn last_window_takes_remainder() {
    let p = vec![1, 2, 3, 4, 5, 6, 7];
    // windows of 2: [1,2] [3,4] [5,6,7]
    assert_eq!(downscale(&p, 3, DownscaleMode::Peak), vec![2, 4, 7]);
    assert_eq!(downscale(&p, 3, DownscaleMode::Average), vec![1, 3, 6]);
}

#[test]
fn peak_of_increasing_row_is_window_end() {
    let p: Vec<i64> = (0..20).map(|x| x * x).collect();
    let out = downscale(&p, 6, DownscaleMode::Peak);
    // step 3: windows end at 3, 6, 9, 12, 15 and 20
    assert_eq!(out, vec![4, 25, 64, 121, 196, 361]);
    assert!(out.windows(2).all(|w| w[0] <= w[1]));
}

#[test]
fn average_matches_naive_mean() {
    let p: Vec<i64> = vec![-7, 3, 12, -5, 0, 9, -13, 4, 8, 1, -2];
    let w = 4;
    let out = downscale(&p, w, DownscaleMode::Average);
    let step = p.len() / w;
    for i in 0..w {
        let start = i * step;
        let end = if i == w - 1 { p.len() } else { (i + 1) * step };
        let sum: i64 = p[start..end].iter().sum();
        let n = (end - start) as i64;
        assert_eq!(out[i], sum.div_euclid(n));
    }
}

#[test]
fn average_rounds_down() {
    assert_eq!(downscale(&vec![-1, -2, 1, 2], 2, DownscaleMode::Average), vec![-2, 1]);
}

#[test]
fn average_of_extremes_does_not_overflow() {
    let p = vec![i64::MAX, i64::MAX, i64::MIN, i64::MIN];
    assert_eq!(downscale(&p, 2, DownscaleMode::Average), vec![i64::MAX, i64::MIN]);
}

#[test]
fn mode_toggles() {
    assert_eq!(DownscaleMode::Peak.toggled(), DownscaleMode::Average);
    assert_eq!(DownscaleMode::Average.toggled(), DownscaleMode::Peak);
}
