use video_silence_remover::analysis::silence_detection::{
    analyze_silence_rms, detect_silence, SilenceDetectionConfig,
};
use video_silence_remover::analysis::calculate_rms;
use video_silence_remover::analysis::rms::integer_sqrt;
use video_silence_remover::error::Error;

#[test]
fn test_rms_calculation() {
    let samples = vec![100, -100, 100, -100];
    let rms = calculate_rms(&samples);
    // 100 steps, in thousandths of a step.
    assert_eq!(rms, 100 * 1000);
}

#[test]
fn test_rms_silence() {
    let samples = vec![0, 0, 0, 0];
    let rms = calculate_rms(&samples);
    assert_eq!(rms, 0);
}

#[test]
fn test_default_config() {
    let config = SilenceDetectionConfig::default();
    // -35 dB in thousandths of a decibel, 0.3 s in microseconds.
    assert_eq!(config.threshold_db, -35 * 1000);
    assert_eq!(config.min_silence_duration, 300_000);
}

#[test]
fn rms_of_no_sample_is_zero() {
    let samples: Vec<i16> = Vec::new();
    assert_eq!(calculate_rms(&samples), 0);
}

#[test]
fn rms_is_rounded_down() {
    // Mean square 12.5, root 3.5355...
    assert_eq!(calculate_rms(&[3, 4]), 3535);
    // Mean square 2/3, root 0.81649...
    assert_eq!(calculate_rms(&[1, 1, 0]), 816);
}

#[test]
fn rms_of_full_scale() {
    assert_eq!(calculate_rms(&[i16::MIN, i16::MIN]), 32_768_000);
    assert_eq!(calculate_rms(&[i16::MAX, -i16::MAX]), 32_767_000);
}

/// A recording at 1000 Hz, so that a window holds 10 samples.
fn recording(parts: &[(usize, i16)]) -> Vec<i16> {
    let mut samples = Vec::new();
    for &(count, level) in parts {
        for i in 0..count {
            samples.push(if i % 2 == 0 { level } else { -level });
        }
    }
    samples
}

fn config(min_silence_duration: u64) -> SilenceDetectionConfig {
    SilenceDetectionConfig { threshold_db: -35_000, min_silence_duration }
}

#[test]
fn detects_silence_between_loud_parts() {
    let samples = recording(&[(1000, 5000), (500, 10), (1000, 5000)]);
    let ranges = detect_silence(&samples, 1000, 582_707, &config(300_000));
    assert_eq!(ranges, Ok(vec![(1_000_000, 1_500_000)]));
}

#[test]
fn drops_silence_that_is_too_short() {
    let samples = recording(&[(1000, 5000), (290, 10), (1000, 5000), (300, 0), (10, 5000)]);
    let ranges = detect_silence(&samples, 1000, 582_707, &config(300_000));
    assert_eq!(ranges, Ok(vec![(2_290_000, 2_590_000)]));
}

#[test]
fn closes_silence_at_the_end_of_the_samples() {
    // The last window is short: the silence ends with the samples.
    let samples = recording(&[(100, 5000), (405, 0)]);
    let ranges = detect_silence(&samples, 1000, 582_707, &config(300_000));
    assert_eq!(ranges, Ok(vec![(100_000, 505_000)]));
}

#[test]
fn threshold_is_strict() {
    let samples = recording(&[(100, 5000), (400, 100), (100, 5000)]);
    assert_eq!(detect_silence(&samples, 1000, 100_000, &config(0)), Ok(vec![]));
    assert_eq!(
        detect_silence(&samples, 1000, 100_001, &config(0)),
        Ok(vec![(100_000, 500_000)])
    );
}

#[test]
fn silence_is_found_on_window_boundaries() {
    // Silence from sample 105 to 395: the windows 110..390 are silent
    // throughout, the two at its edges are loud enough.
    let samples = recording(&[(105, 5000), (290, 0), (105, 5000)]);
    let ranges = detect_silence(&samples, 1000, 582_707, &config(0));
    assert_eq!(ranges, Ok(vec![(110_000, 390_000)]));
}

#[test]
fn intervals_are_ascending_and_apart() {
    let samples = recording(&[(50, 0), (50, 9000), (70, 0), (30, 9000), (100, 0)]);
    let ranges = detect_silence(&samples, 1000, 582_707, &config(50_000)).unwrap();
    assert_eq!(ranges, vec![(0, 50_000), (100_000, 170_000), (200_000, 300_000)]);
    for pair in ranges.windows(2) {
        assert!(pair[0].1 <= pair[1].0);
    }
    for range in &ranges {
        assert!(range.1 - range.0 >= 50_000);
    }
}

#[test]
fn empty_input_fails() {
    let samples: Vec<i16> = Vec::new();
    assert_eq!(detect_silence(&samples, 44_100, 582_707, &config(300_000)), Err(Error::EmptyInput));
    assert_eq!(detect_silence(&samples, 10, 582_707, &config(300_000)), Err(Error::EmptyInput));
}

#[test]
fn sample_rate_too_low_fails() {
    let samples = recording(&[(100, 0)]);
    assert_eq!(
        detect_silence(&samples, 49, 582_707, &config(300_000)),
        Err(Error::SampleRateTooLow)
    );
    assert_eq!(detect_silence(&samples, 0, 582_707, &config(300_000)), Err(Error::SampleRateTooLow));
    // 50 Hz rounds to a window of one sample.
    assert_eq!(detect_silence(&samples, 50, 582_707, &config(300_000)), Ok(vec![(0, 2_000_000)]));
}

#[test]
fn analysis_without_a_window_finds_nothing() {
    let samples = recording(&[(100, 0)]);
    assert_eq!(analyze_silence_rms(&samples, 49, 582_707, &config(0)), vec![]);
}

#[test]
fn window_length_is_rounded_to_the_nearest() {
    // 44150 Hz gives windows of 442 samples: one loud sample at 441 makes
    // the first window loud, and the silence starts with the second.
    let mut samples = vec![0i16; 44_150];
    samples[441] = i16::MAX;
    let ranges = detect_silence(&samples, 44_150, 582_707, &config(0)).unwrap();
    assert_eq!(ranges, vec![(442 * 1_000_000 / 44_150, 1_000_000)]);
}

#[test]
fn integer_square_roots() {
    assert_eq!(integer_sqrt(0), 0);
    assert_eq!(integer_sqrt(1), 1);
    assert_eq!(integer_sqrt(3), 1);
    assert_eq!(integer_sqrt(4), 2);
    assert_eq!(integer_sqrt(99), 9);
    assert_eq!(integer_sqrt(100), 10);
    assert_eq!(integer_sqrt(u64::MAX), 4_294_967_295);
    assert_eq!(integer_sqrt(4_294_967_295 * 4_294_967_295), 4_294_967_295);
    assert_eq!(integer_sqrt(4_294_967_295 * 4_294_967_295 - 1), 4_294_967_294);
}
