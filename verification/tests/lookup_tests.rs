use gamma_bars::lookup::{build_lookup, corrected_value};

#[test]
fn identity_at_gamma_one() {
    let table = build_lookup(20);
    assert_eq!(table.entries.len(), 256);
    for i in 0..256usize {
        assert_eq!(table.entries[i] as usize, i);
    }
}

#[test]
fn entries_in_range_for_many_gammas() {
    for k in [0u32, 1, 5, 19, 20, 21, 40, 100, 400] {
        let table = build_lookup(k);
        assert_eq!(table.entries.len(), 256);
        for i in 0..256usize {
            assert!(table.entries[i] <= 255);
        }
    }
}

#[test]
fn entries_monotone_in_intensity() {
    for k in [1u32, 3, 10, 20, 40, 100] {
        let table = build_lookup(k);
        for i in 1..256usize {
            assert!(table.entries[i - 1] <= table.entries[i]);
        }
    }
}

#[test]
fn full_intensity_fixed_point() {
    for k in [0u32, 1, 5, 13, 20, 40, 100, 200, 400] {
        let table = build_lookup(k);
        assert_eq!(table.entries[255], 255);
    }
}

#[test]
fn gamma_zero_saturates() {
    let table = build_lookup(0);
    for i in 0..256usize {
        assert_eq!(table.entries[i], 255);
    }
}

#[test]
fn zero_intensity_stays_dark_for_positive_gamma() {
    for k in [1u32, 20, 40, 300] {
        assert_eq!(corrected_value(0, k), 0);
    }
}

#[test]
fn fractional_gammas_pin_exact_values() {
    // Gamma 0.5: square roots of the fraction.
    assert_eq!(corrected_value(64, 10), 128);
    assert_eq!(corrected_value(128, 10), 181);
    assert_eq!(corrected_value(192, 10), 221);
    // Gamma 0.95: one step down from the default barely brightens.
    assert_eq!(corrected_value(1, 19), 1);
    // Gamma 1.95: a dark tone darkens sharply.
    assert_eq!(corrected_value(20, 39), 2);
    // Gamma 1.5 and 0.25.
    assert_eq!(corrected_value(100, 30), 63);
    assert_eq!(corrected_value(32, 5), 152);
}

#[test]
fn table_tracks_the_power_law_within_one() {
    for k in [1u32, 5, 10, 19, 21, 30, 39, 50, 80] {
        let g = k as f64 / 20.0;
        let table = build_lookup(k);
        for i in 0..256usize {
            let want = (255.0 * (i as f64 / 255.0).powf(g)).round();
            let got = table.entries[i] as f64;
            assert!((got - want).abs() <= 1.0);
        }
    }
}

#[test]
fn gamma_two_squares_the_fraction() {
    // 255 * (128/255)^2 rounds to 64, and the fixed-point curve agrees.
    assert_eq!(corrected_value(128, 40), 64);
}

#[test]
fn higher_gamma_darkens_midtones() {
    let one = build_lookup(20);
    let two = build_lookup(40);
    for i in 1..255usize {
        assert!(two.entries[i] <= one.entries[i]);
    }
}

#[test]
fn rebuilding_same_gamma_gives_same_table() {
    for k in [0u32, 7, 20, 33] {
        let a = build_lookup(k);
        let b = build_lookup(k);
        assert_eq!(a.entries, b.entries);
    }
}
