use gamma_bars::sequence::{expand, WidthRepeat};

#[test]
fn source_of_four_repeated_three_times() {
    let mut g = WidthRepeat::new(3);
    let mut got: Vec<usize> = Vec::new();
    for _ in 0..12 {
        got.push(g.next_value());
    }
    assert_eq!(got, vec![0, 0, 0, 1, 1, 1, 2, 2, 2, 3, 3, 3]);
}

#[test]
fn expand_matches_generator() {
    let v = expand(4, 3);
    assert_eq!(v, vec![0, 0, 0, 1, 1, 1, 2, 2, 2, 3, 3, 3]);
}

#[test]
fn repeat_of_one_is_the_source() {
    let v = expand(5, 1);
    assert_eq!(v, vec![0, 1, 2, 3, 4]);
}

#[test]
fn fresh_generator_restarts_at_origin() {
    let mut a = WidthRepeat::new(4);
    for _ in 0..10 {
        a.next_value();
    }
    let mut b = WidthRepeat::new(4);
    assert_eq!(b.next_value(), 0);
    assert_eq!(b.next_value(), 0);
}

#[test]
fn bar_row_shape_for_the_default_screen() {
    // One gradient row of the 1024-pixel screen: each of the 256 values
    // four columns wide, exactly tiling the row.
    let v = expand(256, 4);
    assert_eq!(v.len(), 1024);
    assert_eq!(v[0], 0);
    assert_eq!(v[3], 0);
    assert_eq!(v[4], 1);
    assert_eq!(v[1023], 255);
}
