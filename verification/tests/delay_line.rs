use rust_dsp_utils::delay::DelayLine;
use rust_dsp_utils::delay::InterpMethod;
use rust_dsp_utils::delay::MixMethod;

// One whole unit (1.0) in the crate's Q16.16 fixed-point format.
const ONE: i64 = 65536;
const ONE_U: u64 = 65536;

#[test]
fn test_delay_line_trunc_sum() {
    // 10000 ms of history at 2 Hz: 21 slots; heads 0 ms and 1000 ms
    // (2 samples) behind the newest write, unit gain.
    let mut delay_line = DelayLine::new(10000 * ONE_U, 2, InterpMethod::Truncate, MixMethod::Sum);
    assert!(delay_line.add_head(0, ONE) == 0);
    assert!(delay_line.add_head(1000 * ONE_U, ONE) == 1);
    assert!(delay_line.read_write(ONE) == 0);
    assert!(delay_line.read_write(ONE) == ONE);
    assert!(delay_line.read_write(0) == ONE);
    assert!(delay_line.read_write(0) == ONE);
}

#[test]
fn test_delay_line_trunc_sqrt() {
    // Four identical heads at offset zero under Sqrt mixing: the output is
    // the head value times sqrt(4) = 2.
    let mut delay_line = DelayLine::new(ONE_U, 1000, InterpMethod::Truncate, MixMethod::Sqrt);
    for k in 0usize..4usize {
        assert!(delay_line.add_head(0, ONE) == k);
    }
    assert!(delay_line.read_write(ONE) == 0);
    assert!(delay_line.read_write(0) == 2 * ONE);
}

#[test]
fn test_delay_line_round_sum() {
    // A head 1.5 samples back rounds to index 2 under NearestNeighbor, so
    // the impulse appears three ticks after it was written; under Truncate
    // the same offset reads index 1 and fires one tick earlier.
    let mut near = DelayLine::new(2 * ONE_U, 1000, InterpMethod::NearestNeighbor, MixMethod::Sum);
    assert!(near.add_head(ONE_U + ONE_U / 2, ONE) == 0);
    assert!(near.read_write(ONE) == 0);
    assert!(near.read_write(0) == 0);
    assert!(near.read_write(0) == 0);
    assert!(near.read_write(0) == ONE);

    let mut trunc = DelayLine::new(2 * ONE_U, 1000, InterpMethod::Truncate, MixMethod::Sum);
    assert!(trunc.add_head(ONE_U + ONE_U / 2, ONE) == 0);
    assert!(trunc.read_write(ONE) == 0);
    assert!(trunc.read_write(0) == 0);
    assert!(trunc.read_write(0) == ONE);
    assert!(trunc.read_write(0) == 0);
}

#[test]
fn test_delay_line_linear_sum() {
    // A head half a sample back crossfades the two neighboring samples
    // equally: an impulse of 1.0 is smeared into 0.5 on two ticks.
    let mut delay_line = DelayLine::new(2 * ONE_U, 1000, InterpMethod::Linear, MixMethod::Sum);
    assert!(delay_line.add_head(ONE_U / 2, ONE) == 0);
    assert!(delay_line.read_write(ONE) == 0);
    assert!(delay_line.read_write(0) == ONE / 2);
    assert!(delay_line.read_write(0) == ONE / 2);
    assert!(delay_line.read_write(0) == 0);
}

#[test]
fn test_latency_one_sample_minimum() {
    // A head at offset zero returns the previous tick's input, never the
    // value written on the same call, under every mixing policy.
    for mix in [MixMethod::Sum, MixMethod::Sqrt, MixMethod::Average] {
        let mut line = DelayLine::new(ONE_U, 1000, InterpMethod::Truncate, mix);
        assert!(line.add_head(0, ONE) == 0);
        assert!(line.read_write(42 * ONE) == 0);
        assert!(line.read_write(7 * ONE) == 42 * ONE);
        assert!(line.read_write(-3 * ONE) == 7 * ONE);
        assert!(line.read_write(0) == -3 * ONE);
    }
}

#[test]
fn test_removal_renumbers_heads() {
    // After removing the head at index 0, the head formerly at index 1 is
    // reachable at index 0: the remaining tap is the two-tick one, so the
    // impulse comes back two ticks late.
    let mut line = DelayLine::new(2 * ONE_U, 1000, InterpMethod::Truncate, MixMethod::Sum);
    assert!(line.add_head(0, ONE) == 0);
    assert!(line.add_head(ONE_U, ONE) == 1);
    assert!(line.head_count() == 2);
    assert!(line.remove_head(0));
    assert!(line.head_count() == 1);
    // Retuning index 0 must now retune the surviving head.
    assert!(line.set_offset(0, ONE_U));
    assert!(line.read_write(ONE) == 0);
    assert!(line.read_write(0) == 0);
    assert!(line.read_write(0) == ONE);
}

#[test]
fn test_stale_index_rejected() {
    // Operations on an index at or past the head count return false and
    // change nothing.
    let mut line = DelayLine::new(2 * ONE_U, 1000, InterpMethod::Truncate, MixMethod::Sum);
    assert!(line.add_head(0, ONE) == 0);
    assert!(line.add_head(ONE_U, ONE) == 1);
    assert!(!line.remove_head(2));
    assert!(!line.remove_head(usize::MAX));
    assert!(!line.set_offset(2, 0));
    assert!(line.head_count() == 2);
    assert!(line.read_write(ONE) == 0);
    assert!(line.read_write(0) == ONE);
}

#[test]
fn test_mixer_normalization() {
    // Four identical heads each producing v: Sum gives 4v, Average gives v,
    // Sqrt gives 2v.
    let v: i64 = 3 * ONE;
    let expected = [
        (MixMethod::Sum, 4 * v),
        (MixMethod::Average, v),
        (MixMethod::Sqrt, 2 * v),
    ];
    for (mix, want) in expected {
        let mut line = DelayLine::new(ONE_U, 1000, InterpMethod::Truncate, mix);
        for k in 0usize..4usize {
            assert!(line.add_head(0, ONE) == k);
        }
        assert!(line.read_write(v) == 0);
        assert!(line.read_write(0) == want);
    }
}

#[test]
fn test_zero_heads_safe() {
    // With no active heads the degenerate divisor under Sqrt and Average
    // must still produce zero.
    for mix in [MixMethod::Sum, MixMethod::Sqrt, MixMethod::Average] {
        let mut line = DelayLine::new(ONE_U, 1000, InterpMethod::Linear, mix);
        assert!(line.read_write(ONE) == 0);
        assert!(line.read_write(-ONE) == 0);
    }
}

#[test]
fn test_silent_line_stays_silent() {
    // A line whose history is all zero keeps returning zero however long
    // zeroes are fed.
    let mut line = DelayLine::new(4 * ONE_U, 1000, InterpMethod::Linear, MixMethod::Sqrt);
    assert!(line.add_head(0, ONE) == 0);
    assert!(line.add_head(ONE_U, ONE / 2) == 1);
    assert!(line.add_head(2 * ONE_U, -ONE) == 2);
    for _ in 0i32..200i32 {
        assert!(line.read_write(0) == 0);
    }
}

#[test]
fn test_linear_interpolation_varies_linearly() {
    // Between a region holding 1.0 and a region holding 0.0 the output of
    // a Linear head falls linearly with the fractional offset.
    let offsets: [u64; 3] = [ONE_U / 4, ONE_U / 2, 3 * ONE_U / 4];
    let mut outputs: [i64; 3] = [0; 3];
    for (slot, off) in offsets.iter().enumerate() {
        let mut line = DelayLine::new(2 * ONE_U, 1000, InterpMethod::Linear, MixMethod::Sum);
        assert!(line.add_head(*off, ONE) == 0);
        assert!(line.read_write(ONE) == 0);
        outputs[slot] = line.read_write(0);
    }
    assert_eq!(outputs, [49152, 32768, 16384]);
    assert!(outputs[0] > outputs[1] && outputs[1] > outputs[2]);
}

#[test]
fn test_gain_scaling_floors() {
    // Gains rescale with a floor division: 3 fixed-point steps at gain 0.5
    // give 1 step, and -3 steps give -2.
    let mut line = DelayLine::new(ONE_U, 1000, InterpMethod::Truncate, MixMethod::Sum);
    assert!(line.add_head(0, ONE / 2) == 0);
    assert!(line.read_write(3) == 0);
    assert!(line.read_write(-3) == 1);
    assert!(line.read_write(0) == -2);
}

#[test]
fn test_ramp_delayed_through_wraps() {
    // A 4-slot buffer wraps five times while a ramp runs through it; the
    // tap two samples back reproduces the ramp delayed by two samples plus
    // the line's inherent one-tick latency.
    let mut line = DelayLine::new(3 * ONE_U, 1000, InterpMethod::Truncate, MixMethod::Sum);
    assert!(line.add_head(2 * ONE_U, ONE) == 0);
    for k in 1i64..=20i64 {
        let out = line.read_write(k * ONE);
        if k <= 3 {
            assert_eq!(out, 0);
        } else {
            assert_eq!(out, (k - 3) * ONE);
        }
    }
}

#[test]
fn test_linear_at_oldest_valid_offset() {
    // A head half a sample before the oldest interpolable position of a
    // 48001-slot buffer reads the last two valid indexes: the impulse is
    // split over the two final ticks of its trip through the buffer.
    let mut line = DelayLine::new(48000 * ONE_U, 1000, InterpMethod::Linear, MixMethod::Sum);
    assert!(line.capacity() == 48001);
    assert!(line.add_head(47999 * ONE_U + ONE_U / 2, ONE) == 0);
    for k in 1i64..=48003i64 {
        let input: i64 = if k == 1 { ONE } else { 0 };
        let out = line.read_write(input);
        if k == 48001 || k == 48002 {
            assert_eq!(out, ONE / 2);
        } else {
            assert_eq!(out, 0);
        }
    }
}

#[test]
fn test_capacity_from_duration() {
    // capacity = floor(duration * rate) + 1, in samples.
    let line = DelayLine::new(10000 * ONE_U, 2, InterpMethod::Truncate, MixMethod::Sum);
    assert!(line.capacity() == 21);
    assert!(line.sample_rate() == 2);
    let line2 = DelayLine::new(ONE_U, 1000, InterpMethod::Linear, MixMethod::Average);
    assert!(line2.capacity() == 2);
    let line3 = DelayLine::new(ONE_U / 2, 1000, InterpMethod::Linear, MixMethod::Average);
    assert!(line3.capacity() == 1);
}
