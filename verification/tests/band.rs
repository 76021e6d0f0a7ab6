use banded_knapsack::band::{band_window, ceil_sqrt, ln_fixed, log2_floor, mantissa};

#[test]
fn whole_part_of_the_binary_logarithm() {
    assert_eq!(log2_floor(0), 0);
    assert_eq!(log2_floor(1), 0);
    assert_eq!(log2_floor(2), 1);
    assert_eq!(log2_floor(3), 1);
    assert_eq!(log2_floor(4), 2);
    assert_eq!(log2_floor(7), 2);
    assert_eq!(log2_floor(8), 3);
    assert_eq!(log2_floor(1 << 63), 63);
    assert_eq!(log2_floor(u64::MAX), 63);
}

#[test]
fn mantissa_has_the_top_bit_set() {
    assert_eq!(mantissa(1), 9223372036854775808);
    assert_eq!(mantissa(3), 13835058055282163712);
    assert_eq!(mantissa(5), 11529215046068469760);
    assert_eq!(mantissa((1 << 63) + 1), 9223372036854775809);
    assert_eq!(mantissa(u64::MAX), u64::MAX);
    assert_eq!(mantissa(0), 0);
}

#[test]
fn natural_logarithm_in_fixed_point() {
    assert_eq!(ln_fixed(0), 0);
    assert_eq!(ln_fixed(1), 0);
    assert_eq!(ln_fixed(2), 2977044472);
    assert_eq!(ln_fixed(3), 4718503851);
    assert_eq!(ln_fixed(4), 5954088944);
    assert_eq!(ln_fixed(10), 9889527672);
    assert_eq!(ln_fixed(100), 19779055343);
    assert_eq!(ln_fixed(1000), 29668583014);
    assert_eq!(ln_fixed(1 << 32), 95265423104);
    assert_eq!(ln_fixed(u64::MAX), 190530846208);
}

#[test]
fn natural_logarithm_is_close_to_the_real_one() {
    for n in 1u64..2000 {
        let real = (n as f64).ln() * 4294967296.0;
        let fixed = ln_fixed(n) as f64;
        assert!(fixed >= real - 1.0 && fixed <= real + 16.0);
    }
}

#[test]
fn square_root_rounds_up() {
    assert_eq!(ceil_sqrt(0), 0);
    assert_eq!(ceil_sqrt(1), 1);
    assert_eq!(ceil_sqrt(2), 2);
    assert_eq!(ceil_sqrt(3), 2);
    assert_eq!(ceil_sqrt(4), 2);
    assert_eq!(ceil_sqrt(5), 3);
    assert_eq!(ceil_sqrt(9), 3);
    assert_eq!(ceil_sqrt(10), 4);
    assert_eq!(ceil_sqrt(16), 4);
    assert_eq!(ceil_sqrt(17), 5);
    assert_eq!(ceil_sqrt(1_000_000_000_000_000_000_000_000_000_000), 1_000_000_000_000_000);
    assert_eq!(ceil_sqrt((1 << 126) - 1), 1 << 63);
    assert_eq!(ceil_sqrt(1 << 126), 1 << 63);
    assert_eq!(ceil_sqrt((1 << 126) + 1), (1 << 63) + 1);
    assert_eq!(ceil_sqrt(u128::MAX), 1 << 64);
}

#[test]
fn square_root_is_the_least_whose_square_reaches() {
    for x in 0u128..5000 {
        let s = ceil_sqrt(x);
        assert!(s * s >= x);
        assert!(s == 0 || (s - 1) * (s - 1) < x);
    }
}

#[test]
fn windows_of_four_items() {
    assert_eq!(band_window(1, 4, 5, 5), (0, 5));
    assert_eq!(band_window(1, 4, 16, 3), (0, 8));
    assert_eq!(band_window(2, 4, 16, 3), (3, 13));
    assert_eq!(band_window(3, 4, 16, 3), (5, 16));
    assert_eq!(band_window(4, 4, 16, 3), (8, 16));
}

#[test]
fn windows_of_ten_light_items() {
    let expected = [
        (8, 12),
        (17, 23),
        (27, 33),
        (36, 44),
        (46, 54),
        (56, 64),
        (65, 75),
        (75, 85),
        (85, 95),
        (95, 100),
    ];
    for step in 1..=10 {
        assert_eq!(band_window(step, 10, 100, 1), expected[step - 1]);
    }
}

#[test]
fn a_single_item_has_a_window_of_one_capacity() {
    assert_eq!(band_window(1, 1, 5, 10), (5, 5));
    assert_eq!(band_window(1, 1, 5, 5), (5, 5));
    assert_eq!(band_window(1, 1, 0, 0), (0, 0));
}

#[test]
fn windows_at_the_limits() {
    assert_eq!(band_window(5, 10, i64::MAX, i64::MAX), (0, i64::MAX));
    assert_eq!(band_window(1, usize::MAX, i64::MAX, 1), (0, 7));
    assert_eq!(band_window(usize::MAX, usize::MAX, i64::MAX, 0), (i64::MAX, i64::MAX));
}

#[test]
fn windows_follow_the_real_formula() {
    for count in 1usize..60 {
        for step in 1..=count {
            for heaviest in [0i64, 1, 2, 3, 5, 7, 10, 100, 1000, 12345] {
                for capacity in [0i64, 1, 17, 1000, 1_000_000] {
                    let center = (step as i128 * capacity as i128 / count as i128) as i64;
                    let half = ((step as f64 * (count as f64).ln()).sqrt() * heaviest as f64).ceil()
                        as i64;
                    let low = (center - half).max(0);
                    let high = (center + half).min(capacity);
                    assert_eq!(band_window(step, count, capacity, heaviest), (low, high));
                }
            }
        }
    }
}
