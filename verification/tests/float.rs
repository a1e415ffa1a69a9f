use mknight::float::{floor_log2, pow2, round_reading};

#[test]
fn powers_of_two() {
    assert_eq!(pow2(0), 1);
    assert_eq!(pow2(10), 1024);
    assert_eq!(pow2(53), 1u128 << 53);
    assert_eq!(pow2(127), 1u128 << 127);
}

#[test]
fn floor_logarithms() {
    assert_eq!(floor_log2(1), 0);
    assert_eq!(floor_log2(2), 1);
    assert_eq!(floor_log2(1023), 9);
    assert_eq!(floor_log2(1024), 10);
    assert_eq!(floor_log2(u64::MAX), 63);
}

#[test]
fn rounding_a_reading_to_bytes() {
    // 1.5 (three halves, exact) ties to the even 2, then 2 bytes
    assert_eq!(round_reading(3, true, 0, 1), 2);
    // 2.5 ties to 2
    assert_eq!(round_reading(5, true, 0, 1), 2);
    // a little above 2.5 goes to 3
    assert_eq!(round_reading(5, false, 0, 1), 3);
    // 0.5 in steps of a half (p = 1): 0.5 times one byte rounds away from zero
    assert_eq!(round_reading(2, true, 1, 1), 1);
    // 0.25 KiB in quarter steps: 256 bytes
    assert_eq!(round_reading(2, true, 2, 1024), 256);
    // beyond u64::MAX the result holds at u64::MAX
    assert_eq!(round_reading((1u128 << 53) - 1, true, 0, 1 << 30), u64::MAX);
}
