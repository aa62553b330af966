use rust_dsp_utils::math::isqrt;
use rust_dsp_utils::math::x_fade;

#[test]
fn test_x_fade_midpoints() {
    assert_eq!(x_fade(0, 16384, 65536), 16384);
    assert_eq!(x_fade(0, 32768, 65536), 32768);
    assert_eq!(x_fade(-65536, 32768, 65536), 0);
    assert_eq!(x_fade(100, 0, 200), 100);
    assert_eq!(x_fade(100, 65536, 200), 200);
}

#[test]
fn test_x_fade_clamps_parameter() {
    assert_eq!(x_fade(10, -5, 20), 10);
    assert_eq!(x_fade(10, -65536, 20), 10);
    assert_eq!(x_fade(10, 70000, 20), 20);
    assert_eq!(x_fade(10, i64::MAX, 20), 20);
}

#[test]
fn test_x_fade_floors_toward_negative_infinity() {
    // 3 steps faded a quarter of the way toward zero: 2.25 floors to 2;
    // the mirrored negative case floors to -3.
    assert_eq!(x_fade(3, 16384, 0), 2);
    assert_eq!(x_fade(-3, 16384, 0), -3);
}

#[test]
fn test_isqrt_exact_and_between() {
    assert_eq!(isqrt(0), 0);
    assert_eq!(isqrt(1), 1);
    assert_eq!(isqrt(2), 1);
    assert_eq!(isqrt(3), 1);
    assert_eq!(isqrt(4), 2);
    assert_eq!(isqrt(15), 3);
    assert_eq!(isqrt(16), 4);
    assert_eq!(isqrt(0x1_0000_0000), 65536);
    assert_eq!(isqrt(0x4_0000_0000), 131072);
    assert_eq!(isqrt(u64::MAX), 0xffff_ffff);
}
