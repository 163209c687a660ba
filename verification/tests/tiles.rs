use cmdmat::Color;
use cmdmat::i32_to_usize;
use cmdmat::map_tile_value_via_color;

#[test]
fn black_flips_extremes() {
    assert_eq![255, map_tile_value_via_color(&0, Color::Black)];
    assert_eq![0, map_tile_value_via_color(&255, Color::Black)];
}

#[test]
fn black_keeps_middle_values() {
    assert_eq![1, map_tile_value_via_color(&1, Color::Black)];
    assert_eq![128, map_tile_value_via_color(&128, Color::Black)];
    assert_eq![254, map_tile_value_via_color(&254, Color::Black)];
}

#[test]
fn white_reads_tiles_unchanged() {
    assert_eq![0, map_tile_value_via_color(&0, Color::White)];
    assert_eq![128, map_tile_value_via_color(&128, Color::White)];
    assert_eq![255, map_tile_value_via_color(&255, Color::White)];
}

#[test]
fn coordinates_clamp_at_zero() {
    assert_eq![(0, 0), i32_to_usize((-3, -1))];
    assert_eq![(0, 7), i32_to_usize((-3, 7))];
    assert_eq![(5, 0), i32_to_usize((5, -2))];
    assert_eq![(5, 7), i32_to_usize((5, 7))];
    assert_eq![(2147483647, 0), i32_to_usize((2147483647, 0))];
}
