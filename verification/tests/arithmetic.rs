use wavio::binary32::{clamp, clamp_all, is_below_zero, normalize, seconds_to_index};

fn next_random(state: &mut u64) -> u32 {
    *state = state.wrapping_mul(6364136223846793005).wrapping_add(1442695040888963407);
    (*state >> 32) as u32
}

#[test]
fn normalize_is_float_division() {
    for v in i16::MIN..=i16::MAX {
        assert_eq!(normalize(v), (v as f32 / i16::MAX as f32).to_bits());
    }
    assert_eq!(normalize(32767), 1.0f32.to_bits());
    assert_eq!(normalize(0), 0);
}

#[test]
fn clamp_is_float_clamp() {
    let mut state: u64 = 7;
    for _ in 0..200000 {
        let b = next_random(&mut state);
        let v = f32::from_bits(b);
        if v.is_nan() {
            assert_eq!(clamp(b), b);
        } else {
            assert_eq!(clamp(b), v.clamp(-1.0, 1.0).to_bits());
        }
    }
    assert_eq!(clamp((-0.0f32).to_bits()), (-0.0f32).to_bits());
    assert_eq!(clamp(1.5f32.to_bits()), 1.0f32.to_bits());
    assert_eq!(clamp_all(&vec![1.5f32.to_bits(), 7]), vec![1.0f32.to_bits(), 7]);
}

#[test]
fn below_zero_is_less_than_zero() {
    let mut state: u64 = 13;
    for _ in 0..100000 {
        let b = next_random(&mut state);
        assert_eq!(is_below_zero(b), f32::from_bits(b) < 0.0);
    }
    for v in [0.0f32, -0.0, f32::NAN, -f32::NAN, f32::NEG_INFINITY, -1e-45] {
        assert_eq!(is_below_zero(v.to_bits()), v < 0.0);
    }
}

fn expected(seconds: u32, rate: u32) -> usize {
    (f32::from_bits(seconds) * rate as f32) as usize
}

#[test]
fn index_is_float_product() {
    let mut state: u64 = 11;
    for _ in 0..200000 {
        let b = next_random(&mut state);
        let rate = next_random(&mut state);
        assert_eq!(seconds_to_index(b, rate), expected(b, rate), "{} {}", b, rate);
        let rate = rate % 200000;
        assert_eq!(seconds_to_index(b, rate), expected(b, rate), "{} {}", b, rate);
        let near = (b % 0x0900_0000) + 0x3b00_0000;
        assert_eq!(seconds_to_index(near, rate), expected(near, rate), "{} {}", near, rate);
    }
}

#[test]
fn index_at_the_edges() {
    for seconds in [
        0.0f32,
        -0.0,
        -1.0,
        1.0,
        f32::NAN,
        f32::INFINITY,
        f32::NEG_INFINITY,
        f32::MAX,
        f32::MIN_POSITIVE,
        1e-45,
        0.00004535147,
        0.00004535148,
        2.2675738e-5,
        1.8446744e19,
        4294967296.0,
    ] {
        for rate in [0u32, 1, 2, 3, 8000, 44100, 16777216, 16777217, 16777219, 4294967295] {
            let b = seconds.to_bits();
            assert_eq!(seconds_to_index(b, rate), expected(b, rate), "{} {}", seconds, rate);
        }
    }
    assert_eq!(seconds_to_index(2.0f32.to_bits(), 44100), 88200);
}

#[test]
fn later_times_have_later_indices() {
    let mut last: usize = 0;
    for b in (0..0x7f80_0001u32).step_by(99991) {
        let index = seconds_to_index(b, 44100);
        assert!(index >= last);
        last = index;
    }
}
