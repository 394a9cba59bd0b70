use tcping::wide::Wide;

fn wide(hi: u128, lo: u128) -> Wide {
    Wide { hi, lo }
}

#[test]
fn product_of_small_numbers() {
    for (a, b) in [(0u128, 0u128), (0, 9), (1, 1), (7, 6), (u64::MAX as u128, 2), (1 << 64, 1 << 63), (12_345_678_901_234_567_890, 9_876_543_210_987_654_321)] {
        assert_eq!(Wide::product(a, b), wide(0, a * b));
        assert_eq!(Wide::product(b, a), wide(0, a * b));
    }
}

#[test]
fn product_in_full() {
    assert_eq!(Wide::product(1 << 64, 1 << 64), wide(1, 0));
    assert_eq!(Wide::product(u128::MAX, 1), wide(0, u128::MAX));
    assert_eq!(Wide::product(u128::MAX, 2), wide(1, u128::MAX - 1));
    assert_eq!(Wide::product(u128::MAX, u128::MAX), wide(u128::MAX - 1, 1));
    assert_eq!(
        Wide::product(12_345_678_901_234_567_890, 98_765_432_109_876_543_210),
        wide(3, 198_479_210_607_402_561_847_339_978_815_958_892_532)
    );
    assert_eq!(
        Wide::product((1 << 127) + 3, (1 << 66) + 5),
        wide(36_893_488_147_419_103_234, 170_141_183_460_469_231_953_048_232_600_398_725_135)
    );
}

#[test]
fn plus_carries() {
    assert_eq!(wide(0, 5).plus(wide(0, 7)), wide(0, 12));
    assert_eq!(wide(0, u128::MAX).plus(wide(0, 1)), wide(1, 0));
    assert_eq!(wide(3, u128::MAX).plus(wide(4, u128::MAX)), wide(8, u128::MAX - 1));
    assert_eq!(wide(u128::MAX, 0).plus(wide(0, u128::MAX)), wide(u128::MAX, u128::MAX));
}

#[test]
fn minus_borrows() {
    assert_eq!(wide(0, 12).minus(wide(0, 7)), wide(0, 5));
    assert_eq!(wide(1, 0).minus(wide(0, 1)), wide(0, u128::MAX));
    assert_eq!(wide(8, u128::MAX - 1).minus(wide(4, u128::MAX)), wide(3, u128::MAX));
    assert_eq!(wide(9, 9).minus(wide(9, 9)), wide(0, 0));
}

#[test]
fn at_most_orders_by_the_upper_half_first() {
    assert!(wide(0, 0).at_most(wide(0, 0)));
    assert!(wide(0, 5).at_most(wide(0, 6)));
    assert!(!wide(0, 6).at_most(wide(0, 5)));
    assert!(wide(0, u128::MAX).at_most(wide(1, 0)));
    assert!(!wide(1, 0).at_most(wide(0, u128::MAX)));
    assert!(wide(2, 7).at_most(wide(2, 7)));
}

#[test]
fn times_a_small_number() {
    assert_eq!(wide(0, 21).times(2), wide(0, 42));
    assert_eq!(wide(0, u128::MAX).times(3), wide(2, u128::MAX - 2));
    assert_eq!(wide(5, 1 << 127).times(4), wide(22, 0));
    assert_eq!(wide(1, 1).times(u128::MAX), wide(u128::MAX, u128::MAX));
    assert_eq!(wide(7, 7).times(0), wide(0, 0));
}

#[test]
fn isqrt_small_values() {
    let expected = [0u128, 1, 1, 1, 2, 2, 2, 2, 2, 3, 3, 3, 3, 3, 3, 3, 4, 4];
    for (x, r) in expected.iter().enumerate() {
        assert_eq!(Wide::from_u128(x as u128).isqrt(), *r);
    }
}

#[test]
fn isqrt_around_squares() {
    for r in [1u128, 2, 10, 999, 65_535, 65_536, 4_294_967_295, 4_294_967_296, (1 << 63) + 12_345, u64::MAX as u128, (1 << 100) + 7, u128::MAX] {
        let square = Wide::product(r, r);
        assert_eq!(square.isqrt(), r);
        assert_eq!(square.minus(Wide::from_u128(1)).isqrt(), r - 1);
        if r < u128::MAX {
            assert_eq!(square.plus(Wide::from_u128(1)).isqrt(), r);
        }
    }
}

#[test]
fn isqrt_of_the_largest_value() {
    assert_eq!(wide(u128::MAX, u128::MAX).isqrt(), u128::MAX);
    assert_eq!(Wide::from_u128(u128::MAX).isqrt(), u64::MAX as u128);
}

#[test]
fn nearest_root_examples() {
    assert_eq!(Wide::from_u128(0).nearest_root(1), 0);
    assert_eq!(Wide::from_u128(1).nearest_root(1), 1);
    assert_eq!(Wide::from_u128(2).nearest_root(1), 1);
    assert_eq!(Wide::from_u128(3).nearest_root(1), 2);
    assert_eq!(Wide::from_u128(6).nearest_root(1), 2);
    assert_eq!(Wide::from_u128(7).nearest_root(1), 3);
    // sqrt(1) / 2 is exactly one half
    assert_eq!(Wide::from_u128(1).nearest_root(2), 1);
    // sqrt(3) / 4 = 0.433
    assert_eq!(Wide::from_u128(3).nearest_root(4), 0);
    // sqrt(600000000) / 3 = 8164.97
    assert_eq!(Wide::from_u128(600_000_000).nearest_root(3), 8_165);
    assert_eq!(wide(1 << 72, 0).nearest_root(7), 181_092_942_889_747_057_356_671_886_482);
}

#[test]
fn nearest_root_of_the_largest_value() {
    let largest = wide((1 << 126) - 1, u128::MAX);
    assert_eq!(largest.nearest_root(1), 1 << 127);
    assert_eq!(largest.nearest_root(u32::MAX), 39_614_081_266_355_540_835_774_234_625);
}
