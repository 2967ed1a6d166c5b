use video_silence_remover::timeline::Clip;

/// One second in the library's time unit.
const SECOND: u64 = 1_000_000;

#[test]
fn test_clip_creation() {
    let clip = Clip::new(0, 5 * SECOND, false);
    assert_eq!(clip.source_start, 0);
    assert_eq!(clip.source_end, 5 * SECOND);
    assert_eq!(clip.timeline_start, 0);
    assert_eq!(clip.timeline_end, 5 * SECOND);
    assert_eq!(clip.is_silence, false);
    assert_eq!(clip.included, true);

    let silence_clip = Clip::new(0, 5 * SECOND, true);
    assert_eq!(silence_clip.is_silence, true);
    assert_eq!(silence_clip.included, false);
}

#[test]
fn test_clip_duration() {
    let clip = Clip::new(2_500_000, 7_500_000, false);
    assert_eq!(clip.duration(), 5 * SECOND);
}

#[test]
fn test_clip_validation() {
    let valid_clip = Clip::new(0, SECOND, false);
    assert!(valid_clip.is_valid());

    let mut invalid_clip = Clip::new(0, SECOND, false);
    invalid_clip.source_end = 0;
    assert!(!invalid_clip.is_valid());
}

#[test]
fn test_timeline_time_check() {
    let mut clip = Clip::new(10 * SECOND, 20 * SECOND, false);
    clip.timeline_start = 0;
    clip.timeline_end = 10 * SECOND;

    assert!(clip.contains_timeline_time(5 * SECOND));
    assert!(!clip.contains_timeline_time(15 * SECOND));
}

#[test]
fn test_timeline_to_source_mapping() {
    let mut clip = Clip::new(10 * SECOND, 20 * SECOND, false);
    clip.timeline_start = 0;
    clip.timeline_end = 10 * SECOND;

    assert_eq!(clip.timeline_to_source(5 * SECOND), 15 * SECOND);
}

#[test]
fn clip_validation_needs_a_timeline_length_too() {
    let mut clip = Clip::new(0, SECOND, false);
    clip.timeline_end = clip.timeline_start;
    assert!(!clip.is_valid());
}

#[test]
fn timeline_time_check_is_half_open() {
    let clip = Clip::new(10 * SECOND, 20 * SECOND, false);
    assert!(clip.contains_timeline_time(10 * SECOND));
    assert!(clip.contains_timeline_time(20 * SECOND - 1));
    assert!(!clip.contains_timeline_time(20 * SECOND));
    assert!(!clip.contains_timeline_time(10 * SECOND - 1));
}

#[test]
fn zero_length_clip_has_zero_duration() {
    let clip = Clip::new(3 * SECOND, 3 * SECOND, true);
    assert_eq!(clip.duration(), 0);
    assert!(!clip.is_valid());
}
