use video_silence_remover::analysis::{extract_waveform, WaveformData};
use video_silence_remover::error::Error;

#[test]
fn peaks_of_one_channel() {
    let samples = [1, -5, 3, 0, 2, -2, 7];
    let data = extract_waveform(&samples, 1000, 1, 3);
    assert_eq!(data, Ok(WaveformData { peaks: vec![5, 2, 7], duration: 7000, bucket_ms: 3 }));
}

#[test]
fn frames_are_averaged_towards_zero() {
    // Frames (10, 20), (-10, -21) and a short one (5): means 15, -15 and 5.
    let samples = [10, 20, -10, -21, 5];
    let data = extract_waveform(&samples, 1000, 2, 2);
    assert_eq!(data, Ok(WaveformData { peaks: vec![15, 5], duration: 2500, bucket_ms: 2 }));
}

#[test]
fn peak_of_the_lowest_sample_is_full_scale() {
    let samples = [i16::MIN, 0, i16::MAX];
    let data = extract_waveform(&samples, 1000, 1, 2).unwrap();
    assert_eq!(data.peaks, vec![32768, 32767]);
}

#[test]
fn frames_of_the_lowest_sample_keep_full_scale() {
    let samples = [i16::MIN, i16::MIN, i16::MIN];
    let data = extract_waveform(&samples, 3000, 3, 1).unwrap();
    assert_eq!(data.peaks, vec![32768]);
    assert_eq!(data.duration, 333);
}

#[test]
fn a_bucket_longer_than_the_recording_takes_it_all() {
    let samples = [4, -9, 2];
    let data = extract_waveform(&samples, 44_100, 1, 10).unwrap();
    assert_eq!(data.peaks, vec![9]);
    assert_eq!(data.duration, 68);
    assert_eq!(data.bucket_ms, 10);
}

#[test]
fn bucket_too_small_fails() {
    let samples = [1, 2, 3];
    assert_eq!(extract_waveform(&samples, 999, 1, 1), Err(Error::BucketTooSmall));
    assert_eq!(extract_waveform(&samples, 0, 1, 10), Err(Error::BucketTooSmall));
    assert_eq!(extract_waveform(&samples, 44_100, 1, 0), Err(Error::BucketTooSmall));
    // The bucket is looked at before the samples.
    assert_eq!(extract_waveform(&[], 999, 1, 1), Err(Error::BucketTooSmall));
    assert!(extract_waveform(&samples, 1000, 1, 1).is_ok());
}

#[test]
fn waveform_of_no_sample_fails() {
    assert_eq!(extract_waveform(&[], 44_100, 1, 10), Err(Error::EmptyInput));
}
