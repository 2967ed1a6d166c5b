//! Peaks of the recording for drawing its waveform.

use super::silence_detection::{MAX_SAMPLES, MICROS_PER_SECOND};
use crate::error::Error;
use vstd::arithmetic::div_mod::lemma_fundamental_div_mod_converse;
use vstd::prelude::*;

verus! {

/// The peaks of a recording, one for each bucket of `bucket_ms` milliseconds.
#[derive(Debug, Clone, PartialEq, Eq)]
pub struct WaveformData {
    /// The greatest magnitude of a sample of each bucket, from 0 to
    /// [`FULL_SCALE`]. Divided by that it is the height to draw.
    pub peaks: Vec<u16>,
    /// Length of the recording in microseconds.
    pub duration: u64,
    /// Length of a bucket in milliseconds.
    pub bucket_ms: u32,
}

/// The greatest magnitude that a sample can have.
pub const FULL_SCALE: u16 = 32768;

/// No peak lies above full scale.
pub open spec fn within_full_scale(peaks: Seq<u16>) -> bool {
    forall|i: int| 0 <= i < peaks.len() ==> #[trigger] peaks[i] <= FULL_SCALE
}

/// Samples of one channel in a bucket of `bucket_ms` milliseconds, rounded
/// down.
pub open spec fn samples_per_bucket(sample_rate: u32, bucket_ms: u32) -> int {
    sample_rate * bucket_ms / 1000
}

/// The magnitude of a sample.
pub open spec fn magnitude(sample: i16) -> int {
    if sample < 0 {
        -sample
    } else {
        sample as int
    }
}

/// The greatest magnitude among the samples; zero where there is none.
pub open spec fn peak(samples: Seq<i16>) -> int
    decreases samples.len(),
{
    if samples.len() == 0 {
        0
    } else if magnitude(samples.last()) > peak(samples.drop_last()) {
        magnitude(samples.last())
    } else {
        peak(samples.drop_last())
    }
}

/// The sum of the samples.
pub open spec fn sum_of(samples: Seq<i16>) -> int
    decreases samples.len(),
{
    if samples.len() == 0 {
        0
    } else {
        sum_of(samples.drop_last()) + samples.last()
    }
}

/// The mean of the samples of one frame, rounded towards zero.
pub open spec fn frame_mean(frame: Seq<i16>) -> int {
    if sum_of(frame) >= 0 {
        sum_of(frame) / (frame.len() as int)
    } else {
        -((-sum_of(frame)) / (frame.len() as int))
    }
}

/// Where the run of `size` samples that starts at `position` ends: `size`
/// further on, or with the samples.
pub open spec fn run_end(length: int, position: int, size: int) -> int {
    if position + size < length {
        position + size
    } else {
        length
    }
}

/// The means of the frames of `channels` samples from `position` on. The last
/// frame may be short.
pub open spec fn frame_means(samples: Seq<i16>, position: int, channels: int) -> Seq<i16>
    decreases samples.len() - position,
{
    if position >= samples.len() || channels <= 0 {
        Seq::empty()
    } else {
        let stop = run_end(samples.len() as int, position, channels);
        seq![frame_mean(samples.subrange(position, stop)) as i16] + frame_means(
            samples,
            stop,
            channels,
        )
    }
}

/// The recording as one channel: each frame of several channels gives its
/// mean; a recording of one channel stays as it is.
pub open spec fn downmix(samples: Seq<i16>, channels: u16) -> Seq<i16> {
    if channels > 1 {
        frame_means(samples, 0, channels as int)
    } else {
        samples
    }
}

/// The peaks of the buckets of `size` samples from `position` on. The last
/// bucket may be short.
pub open spec fn bucket_peaks(mono: Seq<i16>, position: int, size: int) -> Seq<u16>
    decreases mono.len() - position,
{
    if position >= mono.len() || size <= 0 {
        Seq::empty()
    } else {
        let stop = run_end(mono.len() as int, position, size);
        seq![peak(mono.subrange(position, stop)) as u16] + bucket_peaks(mono, stop, size)
    }
}

/// Length in microseconds of `count` samples over `channels` channels,
/// rounded down.
pub open spec fn recording_duration(count: int, sample_rate: u32, channels: u16) -> int {
    count * 1_000_000 / (sample_rate * channels)
}

/// The peak is a magnitude of a sample, or zero: it lies within 0 and 32768.
pub proof fn lemma_peak_bounds(samples: Seq<i16>)
    ensures
        0 <= peak(samples) <= 32768,
    decreases samples.len(),
{
    if samples.len() > 0 {
        lemma_peak_bounds(samples.drop_last());
    }
}

/// The sum of the samples of a frame lies within its length times the range
/// of a sample.
pub proof fn lemma_sum_of_bounds(samples: Seq<i16>)
    ensures
        -32768 * samples.len() <= sum_of(samples) <= 32767 * samples.len(),
    decreases samples.len(),
{
    if samples.len() > 0 {
        lemma_sum_of_bounds(samples.drop_last());
    }
}

/// The mean of a frame lies within the range of a sample.
pub proof fn lemma_frame_mean_bounds(frame: Seq<i16>)
    requires
        frame.len() > 0,
    ensures
        -32768 <= frame_mean(frame) <= 32767,
{
    lemma_sum_of_bounds(frame);
    let count = frame.len() as int;
    let sum = sum_of(frame);
    if sum >= 0 {
        assert(0 <= sum / count <= 32767) by (nonlinear_arith)
            requires
                0 <= sum <= 32767 * count,
                count > 0,
        ;
    } else {
        assert(0 <= (-sum) / count <= 32768) by (nonlinear_arith)
            requires
                0 <= -sum <= 32768 * count,
                count > 0,
        ;
    }
}

/// How many runs of `size` samples there are in `length` samples, the last
/// of which may be short.
pub open spec fn run_count(length: int, size: int) -> int {
    (length + size - 1) / size
}

/// The run of `size` samples with the given number, counted from zero.
pub open spec fn run_of(samples: Seq<i16>, number: int, size: int) -> Seq<i16> {
    samples.subrange(number * size, run_end(samples.len() as int, number * size, size))
}

/// The number of runs in samples that end within the run behind `full` full
/// runs.
proof fn lemma_run_count(length: int, size: int, full: int)
    requires
        size > 0,
        0 <= full,
        full * size <= length <= full * size + size,
    ensures
        length == full * size ==> run_count(length, size) == full,
        length > full * size ==> run_count(length, size) == full + 1,
        (full + 1) * size == full * size + size,
{
    assert((full + 1) * size == full * size + size) by (nonlinear_arith);
    if length == full * size {
        lemma_fundamental_div_mod_converse(length + size - 1, size, full, size - 1);
    } else {
        lemma_fundamental_div_mod_converse(
            length + size - 1,
            size,
            full + 1,
            length - full * size - 1,
        );
    }
}

/// From the start of a run on, the peaks are those of the runs that follow,
/// one for each.
proof fn lemma_bucket_peaks_from(mono: Seq<i16>, size: int, first: int)
    requires
        size > 0,
        0 <= first,
        first * size <= mono.len(),
    ensures
        bucket_peaks(mono, first * size, size).len() == run_count(mono.len() as int, size) - first,
        forall|k: int|
            0 <= k < run_count(mono.len() as int, size) - first ==> #[trigger] bucket_peaks(
                mono,
                first * size,
                size,
            )[k] == peak(run_of(mono, first + k, size)),
    decreases mono.len() - first * size,
{
    let length = mono.len() as int;
    let position = first * size;
    let out = bucket_peaks(mono, position, size);
    if position >= length {
        lemma_run_count(length, size, first);
    } else {
        let stop = run_end(length, position, size);
        let top = peak(mono.subrange(position, stop));
        lemma_peak_bounds(mono.subrange(position, stop));
        if stop == length {
            lemma_run_count(length, size, first);
            assert(bucket_peaks(mono, stop, size) =~= Seq::<u16>::empty());
            assert(out =~= seq![top as u16]);
        } else {
            lemma_run_count(stop, size, first);
            lemma_bucket_peaks_from(mono, size, first + 1);
            let rest = bucket_peaks(mono, stop, size);
            assert(out =~= seq![top as u16] + rest);
            assert forall|k: int| 0 <= k < run_count(length, size) - first implies #[trigger] out[k]
                == peak(run_of(mono, first + k, size)) by {
                if k > 0 {
                    assert(out[k] == rest[k - 1]);
                    assert(first + 1 + (k - 1) == first + k);
                }
            }
        }
    }
}

/// From the start of a frame on, the means are those of the frames that
/// follow, one for each.
proof fn lemma_frame_means_from(samples: Seq<i16>, channels: int, first: int)
    requires
        channels > 0,
        0 <= first,
        first * channels <= samples.len(),
    ensures
        frame_means(samples, first * channels, channels).len() == run_count(
            samples.len() as int,
            channels,
        ) - first,
        forall|k: int|
            0 <= k < run_count(samples.len() as int, channels) - first ==> #[trigger] frame_means(
                samples,
                first * channels,
                channels,
            )[k] == frame_mean(run_of(samples, first + k, channels)),
    decreases samples.len() - first * channels,
{
    let length = samples.len() as int;
    let position = first * channels;
    let out = frame_means(samples, position, channels);
    if position >= length {
        lemma_run_count(length, channels, first);
    } else {
        let stop = run_end(length, position, channels);
        let mean = frame_mean(samples.subrange(position, stop));
        lemma_frame_mean_bounds(samples.subrange(position, stop));
        if stop == length {
            lemma_run_count(length, channels, first);
            assert(frame_means(samples, stop, channels) =~= Seq::<i16>::empty());
            assert(out =~= seq![mean as i16]);
        } else {
            lemma_run_count(stop, channels, first);
            lemma_frame_means_from(samples, channels, first + 1);
            let rest = frame_means(samples, stop, channels);
            assert(out =~= seq![mean as i16] + rest);
            assert forall|k: int| 0 <= k < run_count(length, channels) - first implies #[trigger] out[k]
                == frame_mean(run_of(samples, first + k, channels)) by {
                if k > 0 {
                    assert(out[k] == rest[k - 1]);
                    assert(first + 1 + (k - 1) == first + k);
                }
            }
        }
    }
}

/// There is one peak for each bucket, and it is the greatest magnitude of
/// the bucket's samples.
pub proof fn law_peaks_by_bucket(mono: Seq<i16>, size: int)
    requires
        size > 0,
    ensures
        bucket_peaks(mono, 0, size).len() == run_count(mono.len() as int, size),
        forall|k: int|
            0 <= k < run_count(mono.len() as int, size) ==> #[trigger] bucket_peaks(mono, 0, size)[k]
                == peak(run_of(mono, k, size)),
{
    assert(0 * size == 0) by (nonlinear_arith);
    lemma_bucket_peaks_from(mono, size, 0);
}

/// A recording of several channels gives one sample for each frame, the mean
/// of the frame's samples rounded towards zero.
pub proof fn law_downmix_by_frame(samples: Seq<i16>, channels: u16)
    requires
        channels > 1,
    ensures
        downmix(samples, channels).len() == run_count(samples.len() as int, channels as int),
        forall|k: int|
            0 <= k < run_count(samples.len() as int, channels as int) ==> #[trigger] downmix(
                samples,
                channels,
            )[k] == frame_mean(run_of(samples, k, channels as int)),
{
    assert(0 * channels == 0) by (nonlinear_arith);
    lemma_frame_means_from(samples, channels as int, 0);
}

/// The greatest magnitude among the samples from `from` up to `to`.
fn peak_between(samples: &[i16], from: usize, to: usize) -> (top: u16)
    requires
        from <= to <= samples@.len(),
    ensures
        top == peak(samples@.subrange(from as int, to as int)),
        top <= FULL_SCALE,
{
    let mut top: u16 = 0;
    let mut i: usize = from;
    while i < to
        invariant
            from <= i <= to <= samples@.len(),
            top == peak(samples@.subrange(from as int, i as int)),
            top <= FULL_SCALE,
        decreases to - i,
    {
        let sample: i32 = samples[i] as i32;
        let size: u16 = if sample < 0 {
            (-sample) as u16
        } else {
            sample as u16
        };
        proof {
            let next = samples@.subrange(from as int, i + 1);
            assert(next.drop_last() == samples@.subrange(from as int, i as int));
            assert(next.last() == samples@[i as int]);
        }
        if size > top {
            top = size;
        }
        i += 1;
    }
    top
}

/// The mean, rounded towards zero, of the samples from `from` up to `to`.
fn mean_between(samples: &[i16], from: usize, to: usize) -> (mean: i16)
    requires
        from < to <= samples@.len(),
        to - from <= 0xffff,
    ensures
        mean == frame_mean(samples@.subrange(from as int, to as int)),
{
    let mut sum: i64 = 0;
    let mut i: usize = from;
    while i < to
        invariant
            from <= i <= to <= samples@.len(),
            to - from <= 0xffff,
            sum == sum_of(samples@.subrange(from as int, i as int)),
            -32768 * (i - from) <= sum <= 32767 * (i - from),
        decreases to - i,
    {
        proof {
            let next = samples@.subrange(from as int, i + 1);
            assert(next.drop_last() == samples@.subrange(from as int, i as int));
            assert(next.last() == samples@[i as int]);
        }
        sum = sum + samples[i] as i64;
        i += 1;
    }
    let count: u64 = (to - from) as u64;
    proof {
        lemma_frame_mean_bounds(samples@.subrange(from as int, to as int));
    }
    if sum >= 0 {
        (sum as u64 / count) as i16
    } else {
        let below: u64 = (-sum) as u64 / count;
        (-(below as i64)) as i16
    }
}

/// The recording as one channel.
fn mix_down(samples: &[i16], channels: u16) -> (mono: Vec<i16>)
    requires
        channels > 1,
    ensures
        mono@ == frame_means(samples@, 0, channels as int),
        mono@.len() <= samples@.len(),
{
    let mut mono: Vec<i16> = Vec::new();
    let mut position: usize = 0;
    while position < samples.len()
        invariant
            position <= samples@.len(),
            channels > 1,
            mono@.len() <= position,
            mono@ + frame_means(samples@, position as int, channels as int) == frame_means(
                samples@,
                0,
                channels as int,
            ),
        decreases samples@.len() - position,
    {
        let stop: usize = if samples.len() - position > channels as usize {
            position + channels as usize
        } else {
            samples.len()
        };
        let ghost rest = frame_means(samples@, stop as int, channels as int);
        let ghost before = mono@;
        let mean = mean_between(samples, position, stop);
        mono.push(mean);
        proof {
            assert(mono@ + rest =~= before + (seq![mean] + rest));
        }
        position = stop;
    }
    proof {
        assert(mono@ + Seq::<i16>::empty() =~= mono@);
    }
    mono
}

/// The peaks of the buckets of `size` samples.
fn peaks_by_bucket(mono: &[i16], size: u64) -> (peaks: Vec<u16>)
    requires
        size > 0,
    ensures
        peaks@ == bucket_peaks(mono@, 0, size as int),
        within_full_scale(peaks@),
{
    let mut peaks: Vec<u16> = Vec::new();
    let mut position: usize = 0;
    while position < mono.len()
        invariant
            position <= mono@.len(),
            size > 0,
            within_full_scale(peaks@),
            peaks@ + bucket_peaks(mono@, position as int, size as int) == bucket_peaks(
                mono@,
                0,
                size as int,
            ),
        decreases mono@.len() - position,
    {
        let stop: usize = if (mono.len() - position) as u64 > size {
            position + size as usize
        } else {
            mono.len()
        };
        let ghost rest = bucket_peaks(mono@, stop as int, size as int);
        let ghost before = peaks@;
        let top = peak_between(mono, position, stop);
        peaks.push(top);
        proof {
            assert(peaks@ + rest =~= before + (seq![top] + rest));
        }
        position = stop;
    }
    proof {
        assert(peaks@ + Seq::<u16>::empty() =~= peaks@);
    }
    peaks
}

/// Works out the peaks of a recording for drawing.
///
/// The samples of the channels come in turn, frame by frame. Each frame is
/// averaged to one channel, and each bucket of `bucket_ms` milliseconds gives
/// the greatest magnitude of its samples.
pub fn extract_waveform(samples: &[i16], sample_rate: u32, channels: u16, bucket_ms: u32) -> (result:
    Result<WaveformData, Error>)
    requires
        channels > 0,
        samples@.len() <= MAX_SAMPLES,
    ensures
        samples_per_bucket(sample_rate, bucket_ms) == 0 ==> result == Err::<WaveformData, Error>(
            Error::BucketTooSmall,
        ),
        samples_per_bucket(sample_rate, bucket_ms) > 0 && samples@.len() == 0 ==> result == Err::<
            WaveformData,
            Error,
        >(Error::EmptyInput),
        samples_per_bucket(sample_rate, bucket_ms) > 0 && samples@.len() > 0 ==> (result matches Ok(
            data,
        ) && data.peaks@ == bucket_peaks(
            downmix(samples@, channels),
            0,
            samples_per_bucket(sample_rate, bucket_ms),
        ) && within_full_scale(data.peaks@) && data.duration == recording_duration(
            samples@.len() as int,
            sample_rate,
            channels,
        ) && data.bucket_ms == bucket_ms),
{
    assert(sample_rate * bucket_ms <= 0xffff_ffff * 0xffff_ffff) by (nonlinear_arith)
        requires
            sample_rate <= 0xffff_ffff,
            bucket_ms <= 0xffff_ffff,
    ;
    let per_bucket: u64 = sample_rate as u64 * bucket_ms as u64 / 1000;
    if per_bucket == 0 {
        return Err(Error::BucketTooSmall);
    }
    if samples.len() == 0 {
        return Err(Error::EmptyInput);
    }
    assert(sample_rate > 0) by {
        if sample_rate == 0 {
            assert(sample_rate * bucket_ms == 0) by (nonlinear_arith)
                requires
                    sample_rate == 0,
            ;
        }
    }
    assert(1 <= sample_rate * channels <= 0xffff_ffff * 0xffff) by (nonlinear_arith)
        requires
            1 <= sample_rate <= 0xffff_ffff,
            1 <= channels <= 0xffff,
    ;
    let rate: u64 = sample_rate as u64 * channels as u64;
    let duration: u64 = samples.len() as u64 * MICROS_PER_SECOND / rate;
    let peaks = if channels > 1 {
        let mono = mix_down(samples, channels);
        peaks_by_bucket(mono.as_slice(), per_bucket)
    } else {
        peaks_by_bucket(samples, per_bucket)
    };
    Ok(WaveformData { peaks, duration, bucket_ms })
}

} // verus!
