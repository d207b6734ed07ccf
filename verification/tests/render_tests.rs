use gamma_bars::lookup::build_lookup;
use gamma_bars::render::{band_of_row, checked_config, render_frame, render_with_gamma, RenderConfig};

fn pixel(buf: &Vec<u8>, width: usize, row: usize, x: usize) -> (u8, u8, u8) {
    let base = 3 * (row * width + x);
    (buf[base], buf[base + 1], buf[base + 2])
}

fn default_config(spacing: usize, marker: bool) -> RenderConfig {
    checked_config(1024, 400, 4, 100, spacing, marker).unwrap()
}

#[test]
fn config_accepts_the_default_screen() {
    let cfg = checked_config(1024, 400, 4, 100, 0, false);
    assert!(cfg.is_some());
    let cfg = cfg.unwrap();
    assert_eq!(cfg.width, 1024);
    assert_eq!(cfg.height, 400);
    assert_eq!(cfg.bar_width, 4);
    assert_eq!(cfg.band_height, 100);
}

#[test]
fn config_rejects_bad_tiling() {
    assert!(checked_config(1000, 400, 4, 100, 0, false).is_none());
    assert!(checked_config(1024, 401, 4, 100, 0, false).is_none());
    assert!(checked_config(1024, 400, 5, 100, 0, false).is_none());
    assert!(checked_config(1024, 400, 4, 99, 0, false).is_none());
    assert!(checked_config(1024, 400, 0, 100, 0, false).is_none());
    assert!(checked_config(1024, 400, 4, 100, 100, false).is_none());
}

#[test]
fn band_partition_rows() {
    let cfg = default_config(0, false);
    assert_eq!(band_of_row(&cfg, 0), 0);
    assert_eq!(band_of_row(&cfg, 99), 0);
    assert_eq!(band_of_row(&cfg, 100), 1);
    assert_eq!(band_of_row(&cfg, 199), 1);
    assert_eq!(band_of_row(&cfg, 200), 2);
    assert_eq!(band_of_row(&cfg, 299), 2);
    assert_eq!(band_of_row(&cfg, 300), 3);
    assert_eq!(band_of_row(&cfg, 399), 3);
}

#[test]
fn channel_masking_per_band() {
    let cfg = default_config(0, false);
    let table = build_lookup(20);
    let mut buf = vec![0u8; 1024 * 400 * 3];
    render_frame(&mut buf, &cfg, &table);
    // At gamma one the table is the identity, so column 500 carries 125.
    assert_eq!(pixel(&buf, 1024, 50, 500), (125, 125, 125));
    assert_eq!(pixel(&buf, 1024, 150, 500), (125, 0, 0));
    assert_eq!(pixel(&buf, 1024, 250, 500), (0, 125, 0));
    assert_eq!(pixel(&buf, 1024, 350, 500), (0, 0, 125));
}

#[test]
fn gradient_blocks_are_bar_width_wide() {
    let cfg = default_config(0, false);
    let table = build_lookup(20);
    let mut buf = vec![0u8; 1024 * 400 * 3];
    render_frame(&mut buf, &cfg, &table);
    assert_eq!(pixel(&buf, 1024, 50, 0), (0, 0, 0));
    assert_eq!(pixel(&buf, 1024, 50, 3), (0, 0, 0));
    assert_eq!(pixel(&buf, 1024, 50, 4), (1, 1, 1));
    assert_eq!(pixel(&buf, 1024, 50, 1023), (255, 255, 255));
}

#[test]
fn spacing_rows_stay_black() {
    let cfg = default_config(10, false);
    let table = build_lookup(20);
    let mut buf = vec![0u8; 1024 * 400 * 3];
    render_frame(&mut buf, &cfg, &table);
    for row in [0usize, 9, 100, 109, 200, 300, 309] {
        assert_eq!(pixel(&buf, 1024, row, 600), (0, 0, 0));
    }
    // The first row past each separator is painted.
    assert_eq!(pixel(&buf, 1024, 10, 600), (150, 150, 150));
    assert_eq!(pixel(&buf, 1024, 110, 600), (150, 0, 0));
}

#[test]
fn marker_traces_a_monotone_diagonal() {
    let cfg = default_config(0, true);
    let table = build_lookup(20);
    let mut buf = vec![0u8; 1024 * 400 * 3];
    render_frame(&mut buf, &cfg, &table);
    // Rebuild the unmarked image to find the inverted pixels.
    let plain_cfg = default_config(0, false);
    let mut plain = vec![0u8; 1024 * 400 * 3];
    render_frame(&mut plain, &plain_cfg, &table);
    let mut marked_rows: Vec<(usize, usize)> = Vec::new();
    for row in 0..400usize {
        let mut first: Option<usize> = None;
        for x in 0..1024usize {
            if pixel(&buf, 1024, row, x) != pixel(&plain, 1024, row, x) {
                if first.is_none() {
                    first = Some(x);
                }
            }
        }
        if let Some(x0) = first {
            marked_rows.push((row, x0));
        }
    }
    // One marked row per corrected value from 1 to 255.
    assert_eq!(marked_rows.len(), 255);
    // As the row index grows, the marked column strictly falls.
    for w in marked_rows.windows(2) {
        assert!(w[0].0 < w[1].0);
        assert!(w[1].1 < w[0].1);
    }
    // The trace starts at the top right: value 255 marks row 0.
    assert_eq!(marked_rows[0], (0, 1020));
    // The marker row is rounded to the nearest row: value 254 maps to
    // 1.57, which marks row 2 and leaves row 1 untouched.
    assert_eq!(pixel(&buf, 1024, 2, 1016), (1, 1, 1));
    assert_eq!(pixel(&buf, 1024, 1, 1016), (254, 254, 254));
}

#[test]
fn rendering_twice_is_byte_identical() {
    let cfg = default_config(0, true);
    let first_table = build_lookup(27);
    let mut first = vec![0u8; 1024 * 400 * 3];
    render_frame(&mut first, &cfg, &first_table);
    let second_table = build_lookup(27);
    let mut second = vec![7u8; 1024 * 400 * 3];
    render_frame(&mut second, &cfg, &second_table);
    assert_eq!(first, second);
    // The combined entry point gives the same frame from the gamma alone.
    let mut third = vec![99u8; 1024 * 400 * 3];
    render_with_gamma(&mut third, &cfg, 27);
    assert_eq!(first, third);
}

#[test]
fn every_pixel_is_written() {
    // Prefilled garbage never survives a repaint.
    let cfg = default_config(0, false);
    let table = build_lookup(20);
    let mut a = vec![0u8; 1024 * 400 * 3];
    let mut b = vec![255u8; 1024 * 400 * 3];
    render_frame(&mut a, &cfg, &table);
    render_frame(&mut b, &cfg, &table);
    assert_eq!(a, b);
}
