//! Finds the silent stretches of a recording from its samples.

use super::rms::{rms, rms_between};
use crate::error::Error;
use crate::timeline::model::Range;
use vstd::arithmetic::div_mod::{
    lemma_div_is_ordered, lemma_div_multiples_vanish, lemma_fundamental_div_mod,
    lemma_mod_add_multiples_vanish,
};
use vstd::prelude::*;

verus! {

/// Microseconds in a second.
pub const MICROS_PER_SECOND: u64 = 1_000_000;

/// The most samples whose length in microseconds is sure to fit in 64 bits.
pub const MAX_SAMPLES: u64 = 18_446_744_073_709;

/// The threshold that a new configuration has, in thousandths of a decibel.
pub const DEFAULT_THRESHOLD_DB: i32 = -35_000;

/// The least length of a silence that a new configuration has, in
/// microseconds.
pub const DEFAULT_MIN_SILENCE_DURATION: u64 = 300_000;

/// Settings of the silence detector.
#[derive(Debug, Clone, Copy, PartialEq, Eq)]
pub struct SilenceDetectionConfig {
    /// Loudness below which a window counts as silent, in thousandths of a
    /// decibel relative to full scale. The detector itself works on the
    /// amplitude that this stands for, which its caller hands to it.
    pub threshold_db: i32,
    /// Least length of a silence that is reported, in microseconds.
    pub min_silence_duration: u64,
}

impl Default for SilenceDetectionConfig {
    /// A threshold of -35 dB and a least length of 0.3 s.
    fn default() -> (config: Self)
        ensures
            config.threshold_db == DEFAULT_THRESHOLD_DB,
            config.min_silence_duration == DEFAULT_MIN_SILENCE_DURATION,
    {
        SilenceDetectionConfig {
            threshold_db: DEFAULT_THRESHOLD_DB,
            min_silence_duration: DEFAULT_MIN_SILENCE_DURATION,
        }
    }
}

/// Samples in an analysis window of 10 ms: a hundredth of the sample rate,
/// rounded to the nearest whole number.
pub open spec fn window_length(sample_rate: u32) -> int {
    (sample_rate + 50) / 100
}

/// The time in microseconds at which the sample at `position` is played,
/// rounded down.
pub open spec fn time_at(position: int, sample_rate: u32) -> int {
    position * 1_000_000 / (sample_rate as int)
}

/// What the detector knows while it walks the windows: the silences reported
/// so far, and the start of a silence that has begun and not yet ended.
pub struct Scan {
    pub ranges: Seq<Range>,
    pub open: Option<u64>,
}

/// `ranges` with the silence from `start` to `end`, if it has a length and is
/// at least `min` long; else `ranges`.
pub open spec fn closed(ranges: Seq<Range>, start: u64, end: int, min: u64) -> Seq<Range> {
    if end > start && end - start >= min {
        ranges.push((start, end as u64))
    } else {
        ranges
    }
}

/// The detector's state after a window that starts at `time`. A silent window
/// opens a silence where none is open; a loud one closes the open silence at
/// the window's own start.
pub open spec fn step(scan: Scan, silent: bool, time: int, min: u64) -> Scan {
    match scan.open {
        None => if silent {
            Scan { ranges: scan.ranges, open: Some(time as u64) }
        } else {
            scan
        },
        Some(start) => if silent {
            scan
        } else {
            Scan { ranges: closed(scan.ranges, start, time, min), open: None }
        },
    }
}

/// What the detector reports when it has the state `scan` in front of the
/// window that starts at `position`: it walks the remaining windows, the last
/// of which may be short, and closes a silence still open at the end of the
/// samples.
pub open spec fn scan_windows(
    samples: Seq<i16>,
    position: int,
    window: int,
    sample_rate: u32,
    threshold: u64,
    min: u64,
    scan: Scan,
) -> Seq<Range>
    decreases samples.len() - position,
{
    if position >= samples.len() || window <= 0 {
        match scan.open {
            Some(start) => closed(scan.ranges, start, time_at(samples.len() as int, sample_rate), min),
            None => scan.ranges,
        }
    } else {
        let stop = if position + window < samples.len() {
            position + window
        } else {
            samples.len() as int
        };
        let silent = rms(samples.subrange(position, stop)) < threshold;
        scan_windows(
            samples,
            stop,
            window,
            sample_rate,
            threshold,
            min,
            step(scan, silent, time_at(position, sample_rate), min),
        )
    }
}

/// The silences of a recording: the stretches of windows whose root mean
/// square lies below `threshold`, from the start of the first such window to
/// the start of the next loud one or the end of the samples, as far as they
/// are at least `min` long.
pub open spec fn silence_ranges(
    samples: Seq<i16>,
    sample_rate: u32,
    threshold: u64,
    min: u64,
) -> Seq<Range> {
    scan_windows(
        samples,
        0,
        window_length(sample_rate),
        sample_rate,
        threshold,
        min,
        Scan { ranges: Seq::empty(), open: None },
    )
}

/// The intervals are ascending and apart: each has a length of at least
/// `min`, each ends before or where the next starts, and none reaches beyond
/// `limit`.
pub open spec fn well_separated(ranges: Seq<Range>, min: u64, limit: int) -> bool {
    &&& forall|i: int|
        0 <= i < ranges.len() ==> (#[trigger] ranges[i]).0 < ranges[i].1 && ranges[i].1 - ranges[i].0
            >= min && ranges[i].1 <= limit
    &&& forall|i: int, j: int|
        0 <= i < j < ranges.len() ==> (#[trigger] ranges[i]).1 <= (#[trigger] ranges[j]).0
}

/// A later sample is not played earlier.
pub proof fn lemma_time_at_ordered(earlier: int, later: int, sample_rate: u32)
    requires
        0 <= earlier <= later,
        sample_rate > 0,
    ensures
        0 <= time_at(earlier, sample_rate) <= time_at(later, sample_rate) <= later * 1_000_000,
{
    lemma_div_is_ordered(earlier * 1_000_000, later * 1_000_000, sample_rate as int);
    lemma_div_is_ordered(0, earlier * 1_000_000, sample_rate as int);
    assert(later * 1_000_000 * sample_rate >= later * 1_000_000) by (nonlinear_arith)
        requires
            later >= 0,
            sample_rate >= 1,
    ;
    lemma_div_is_ordered(later * 1_000_000, later * 1_000_000 * sample_rate, sample_rate as int);
    lemma_div_multiples_vanish(later * 1_000_000, sample_rate as int);
    assert(sample_rate * (later * 1_000_000) == later * 1_000_000 * sample_rate) by (nonlinear_arith);
    assert(0int / (sample_rate as int) == 0) by {
        lemma_div_multiples_vanish(0, sample_rate as int);
        assert(sample_rate * 0 == 0);
    }
}

/// Adding a silence that starts where the ones before it have ended keeps the
/// intervals ascending and apart.
proof fn lemma_closed_separated(ranges: Seq<Range>, start: u64, end: int, min: u64, limit: int)
    requires
        well_separated(ranges, min, start as int),
        start <= limit,
        end <= limit,
        end <= u64::MAX,
    ensures
        well_separated(closed(ranges, start, end, min), min, limit),
        end >= start ==> well_separated(closed(ranges, start, end, min), min, end),
{
    let out = closed(ranges, start, end, min);
    assert forall|i: int| 0 <= i < out.len() implies (#[trigger] out[i]).0 < out[i].1 && out[i].1
        - out[i].0 >= min && out[i].1 <= limit && (end >= start ==> out[i].1 <= end) by {
        if i < ranges.len() {
            assert(out[i] == ranges[i]);
        }
    }
    assert forall|i: int, j: int| 0 <= i < j < out.len() implies (#[trigger] out[i]).1 <= (
    #[trigger] out[j]).0 by {
        assert(out[i] == ranges[i]);
        if j < ranges.len() {
            assert(out[j] == ranges[j]);
        }
    }
}

/// The window that starts at `position` is silent: its root mean square lies
/// below the threshold.
pub open spec fn silent_at(samples: Seq<i16>, position: int, window: int, threshold: u64) -> bool {
    rms(
        samples.subrange(
            position,
            if position + window < samples.len() {
                position + window
            } else {
                samples.len() as int
            },
        ),
    ) < threshold
}

/// Every window that starts from `from` on and before `to` is silent.
pub open spec fn silent_between(
    samples: Seq<i16>,
    from: int,
    to: int,
    window: int,
    threshold: u64,
) -> bool {
    forall|position: int|
        from <= position < to && position % window == 0 ==> #[trigger] silent_at(
            samples,
            position,
            window,
            threshold,
        )
}

/// The samples from `from` up to `to` are a silence: they are whole windows,
/// but for a short window at the end of the samples, all of them silent, with
/// a loud window or the edge of the samples on both sides.
pub open spec fn is_silent_run(
    samples: Seq<i16>,
    from: int,
    to: int,
    window: int,
    threshold: u64,
) -> bool {
    &&& 0 <= from < to <= samples.len()
    &&& from % window == 0
    &&& to % window == 0 || to == samples.len()
    &&& silent_between(samples, from, to, window, threshold)
    &&& from > 0 ==> !silent_at(samples, from - window, window, threshold)
    &&& to < samples.len() ==> !silent_at(samples, to, window, threshold)
}

/// The interval is the time that a silence of the recording takes.
pub open spec fn spans_silent_run(
    samples: Seq<i16>,
    sample_rate: u32,
    threshold: u64,
    range: Range,
) -> bool {
    exists|from: int, to: int|
        #[trigger] is_silent_run(samples, from, to, window_length(sample_rate), threshold)
            && range.0 == time_at(from, sample_rate) && range.1 == time_at(to, sample_rate)
}

/// Every interval of `ranges` is the time of a silence of the recording.
pub open spec fn all_span_silent_runs(
    samples: Seq<i16>,
    sample_rate: u32,
    threshold: u64,
    ranges: Seq<Range>,
) -> bool {
    forall|i: int|
        0 <= i < ranges.len() ==> spans_silent_run(samples, sample_rate, threshold, #[trigger] ranges[i])
}

/// Two window starts less than a window apart are one.
proof fn lemma_one_window_start(first: int, second: int, window: int)
    requires
        window > 0,
        first % window == 0,
        second % window == 0,
        first <= second < first + window,
    ensures
        second == first,
{
    lemma_fundamental_div_mod(first, window);
    lemma_fundamental_div_mod(second, window);
    let a = first / window;
    let b = second / window;
    assert(b == a) by (nonlinear_arith)
        requires
            window > 0,
            first == window * a,
            second == window * b,
            first <= second < first + window,
    ;
}

/// Whatever the detector reports from a state that holds silences only, and
/// an open silence that began at the window start `open_from`, are silences.
proof fn lemma_scan_reports_silences(
    samples: Seq<i16>,
    position: int,
    sample_rate: u32,
    threshold: u64,
    min: u64,
    scan: Scan,
    open_from: int,
)
    requires
        window_length(sample_rate) > 0,
        samples.len() <= MAX_SAMPLES,
        0 <= position <= samples.len(),
        position % window_length(sample_rate) == 0 || position == samples.len(),
        all_span_silent_runs(samples, sample_rate, threshold, scan.ranges),
        scan.open matches Some(start) ==> {
            &&& 0 <= open_from < position
            &&& open_from % window_length(sample_rate) == 0
            &&& start == time_at(open_from, sample_rate)
            &&& silent_between(samples, open_from, position, window_length(sample_rate), threshold)
            &&& open_from > 0 ==> !silent_at(
                samples,
                open_from - window_length(sample_rate),
                window_length(sample_rate),
                threshold,
            )
        },
        scan.open is None && 0 < position < samples.len() ==> !silent_at(
            samples,
            position - window_length(sample_rate),
            window_length(sample_rate),
            threshold,
        ),
    ensures
        all_span_silent_runs(
            samples,
            sample_rate,
            threshold,
            scan_windows(
                samples,
                position,
                window_length(sample_rate),
                sample_rate,
                threshold,
                min,
                scan,
            ),
        ),
    decreases samples.len() - position,
{
    let window = window_length(sample_rate);
    let total = samples.len() as int;
    let out = scan_windows(samples, position, window, sample_rate, threshold, min, scan);
    lemma_time_at_ordered(position, total, sample_rate);
    if position >= total {
        if let Some(start) = scan.open {
            let end = time_at(total, sample_rate);
            assert(is_silent_run(samples, open_from, total, window, threshold));
            assert forall|i: int| 0 <= i < out.len() implies spans_silent_run(
                samples,
                sample_rate,
                threshold,
                #[trigger] out[i],
            ) by {
                if i < scan.ranges.len() {
                    assert(out[i] == scan.ranges[i]);
                }
            }
        }
    } else {
        let stop = if position + window < total {
            position + window
        } else {
            total
        };
        let silent = silent_at(samples, position, window, threshold);
        let time = time_at(position, sample_rate);
        let next = step(scan, silent, time, min);
        lemma_mod_add_multiples_vanish(position, window);
        assert forall|place: int| position <= place < stop && place % window == 0 implies (
        #[trigger] silent_at(samples, place, window, threshold)) == silent by {
            lemma_one_window_start(position, place, window);
        }
        match scan.open {
            None => {
                if silent {
                    assert(silent_between(samples, position, stop, window, threshold));
                    lemma_scan_reports_silences(
                        samples,
                        stop,
                        sample_rate,
                        threshold,
                        min,
                        next,
                        position,
                    );
                } else {
                    lemma_scan_reports_silences(
                        samples,
                        stop,
                        sample_rate,
                        threshold,
                        min,
                        next,
                        open_from,
                    );
                }
            },
            Some(start) => {
                if silent {
                    assert(silent_between(samples, open_from, stop, window, threshold));
                    lemma_scan_reports_silences(
                        samples,
                        stop,
                        sample_rate,
                        threshold,
                        min,
                        next,
                        open_from,
                    );
                } else {
                    assert(is_silent_run(samples, open_from, position, window, threshold));
                    assert forall|i: int| 0 <= i < next.ranges.len() implies spans_silent_run(
                        samples,
                        sample_rate,
                        threshold,
                        #[trigger] next.ranges[i],
                    ) by {
                        if i < scan.ranges.len() {
                            assert(next.ranges[i] == scan.ranges[i]);
                        }
                    }
                    lemma_scan_reports_silences(
                        samples,
                        stop,
                        sample_rate,
                        threshold,
                        min,
                        next,
                        open_from,
                    );
                }
            },
        }
    }
}

/// Every interval that the detector reports is the time of a silence of the
/// recording: a stretch of silent windows with a loud window, or the edge of
/// the samples, on both sides.
pub proof fn law_reported_silences_are_silent(
    samples: Seq<i16>,
    sample_rate: u32,
    threshold: u64,
    min: u64,
)
    requires
        window_length(sample_rate) > 0,
        samples.len() <= MAX_SAMPLES,
    ensures
        all_span_silent_runs(
            samples,
            sample_rate,
            threshold,
            silence_ranges(samples, sample_rate, threshold, min),
        ),
{
    lemma_scan_reports_silences(
        samples,
        0,
        sample_rate,
        threshold,
        min,
        Scan { ranges: Seq::empty(), open: None },
        0,
    );
}

/// The detector has come as far as `position` with the silence from `from`
/// up to `to` in hand: not yet begun, open, or reported.
spec fn follows_run(
    scan: Scan,
    position: int,
    from: int,
    to: int,
    sample_rate: u32,
) -> bool {
    &&& position == from ==> scan.open is None
    &&& from < position <= to ==> scan.open == Some(time_at(from, sample_rate) as u64)
    &&& position > to ==> scan.ranges.contains(
        (time_at(from, sample_rate) as u64, time_at(to, sample_rate) as u64),
    )
}

/// The detector reports every silence that is long enough, from wherever it
/// has followed it to.
proof fn lemma_scan_reports_run(
    samples: Seq<i16>,
    position: int,
    sample_rate: u32,
    threshold: u64,
    min: u64,
    scan: Scan,
    from: int,
    to: int,
)
    requires
        window_length(sample_rate) > 0,
        samples.len() <= MAX_SAMPLES,
        0 <= position <= samples.len(),
        position % window_length(sample_rate) == 0 || position == samples.len(),
        is_silent_run(samples, from, to, window_length(sample_rate), threshold),
        time_at(to, sample_rate) > time_at(from, sample_rate),
        time_at(to, sample_rate) - time_at(from, sample_rate) >= min,
        follows_run(scan, position, from, to, sample_rate),
    ensures
        scan_windows(
            samples,
            position,
            window_length(sample_rate),
            sample_rate,
            threshold,
            min,
            scan,
        ).contains((time_at(from, sample_rate) as u64, time_at(to, sample_rate) as u64)),
    decreases samples.len() - position,
{
    let window = window_length(sample_rate);
    let total = samples.len() as int;
    let range = (time_at(from, sample_rate) as u64, time_at(to, sample_rate) as u64);
    lemma_time_at_ordered(from, to, sample_rate);
    lemma_time_at_ordered(to, total, sample_rate);
    if position >= total {
        if to == total {
            let out = closed(scan.ranges, range.0, time_at(total, sample_rate), min);
            assert(out[out.len() - 1] == range);
        } else {
            let at = choose|at: int| 0 <= at < scan.ranges.len() && scan.ranges[at] == range;
            if let Some(start) = scan.open {
                let out = closed(scan.ranges, start, time_at(total, sample_rate), min);
                assert(out[at] == range);
            }
        }
    } else {
        let stop = if position + window < total {
            position + window
        } else {
            total
        };
        let silent = silent_at(samples, position, window, threshold);
        let next = step(scan, silent, time_at(position, sample_rate), min);
        lemma_mod_add_multiples_vanish(position, window);
        if position < from {
            if from < stop {
                lemma_one_window_start(position, from, window);
            }
        } else if position < to {
            assert(silent);
            if to < stop {
                lemma_one_window_start(position, to, window);
            }
        } else if position == to {
            assert(!silent);
            assert(next.ranges[next.ranges.len() - 1] == range);
        } else {
            let at = choose|at: int| 0 <= at < scan.ranges.len() && scan.ranges[at] == range;
            assert(next.ranges[at] == range);
        }
        lemma_scan_reports_run(samples, stop, sample_rate, threshold, min, next, from, to);
    }
}

/// The detector reports every silence of the recording whose time has a
/// length of at least `min`.
pub proof fn law_silences_are_reported(
    samples: Seq<i16>,
    sample_rate: u32,
    threshold: u64,
    min: u64,
    from: int,
    to: int,
)
    requires
        window_length(sample_rate) > 0,
        samples.len() <= MAX_SAMPLES,
        is_silent_run(samples, from, to, window_length(sample_rate), threshold),
        time_at(to, sample_rate) > time_at(from, sample_rate),
        time_at(to, sample_rate) - time_at(from, sample_rate) >= min,
    ensures
        silence_ranges(samples, sample_rate, threshold, min).contains(
            (time_at(from, sample_rate) as u64, time_at(to, sample_rate) as u64),
        ),
{
    lemma_scan_reports_run(
        samples,
        0,
        sample_rate,
        threshold,
        min,
        Scan { ranges: Seq::empty(), open: None },
        from,
        to,
    );
}

/// Finds the silences in the samples by the root mean square of windows of
/// 10 ms, given the amplitude that the threshold stands for in thousandths of
/// a sample step. Where the sample rate leaves a window without a sample,
/// nothing is found.
pub fn analyze_silence_rms(
    samples: &[i16],
    sample_rate: u32,
    threshold_amplitude: u64,
    config: &SilenceDetectionConfig,
) -> (ranges: Vec<Range>)
    requires
        samples@.len() <= MAX_SAMPLES,
    ensures
        window_length(sample_rate) == 0 ==> ranges@.len() == 0,
        window_length(sample_rate) > 0 ==> ranges@ == silence_ranges(
            samples@,
            sample_rate,
            threshold_amplitude,
            config.min_silence_duration,
        ),
        sample_rate > 0 ==> well_separated(
            ranges@,
            config.min_silence_duration,
            time_at(samples@.len() as int, sample_rate),
        ),
{
    let window: usize = ((sample_rate as u64 + 50) / 100) as usize;
    let mut ranges: Vec<Range> = Vec::new();
    if window == 0 {
        return ranges;
    }
    let rate: u64 = sample_rate as u64;
    let min = config.min_silence_duration;
    let ghost total = samples@.len() as int;
    let mut open: Option<u64> = None;
    let mut position: usize = 0;
    while position < samples.len()
        invariant
            position <= samples@.len() <= MAX_SAMPLES,
            total == samples@.len(),
            window == window_length(sample_rate),
            window > 0,
            rate == sample_rate,
            min == config.min_silence_duration,
            silence_ranges(samples@, sample_rate, threshold_amplitude, min) == scan_windows(
                samples@,
                position as int,
                window as int,
                sample_rate,
                threshold_amplitude,
                min,
                Scan { ranges: ranges@, open },
            ),
            well_separated(
                ranges@,
                min,
                match open {
                    Some(start) => start as int,
                    None => time_at(position as int, sample_rate),
                },
            ),
            open matches Some(start) ==> start <= time_at(position as int, sample_rate),
        decreases samples@.len() - position,
    {
        let stop: usize = if samples.len() - position > window {
            position + window
        } else {
            samples.len()
        };
        proof {
            lemma_time_at_ordered(position as int, stop as int, sample_rate);
            lemma_time_at_ordered(stop as int, total, sample_rate);
        }
        let level = rms_between(samples, position, stop);
        let time: u64 = position as u64 * MICROS_PER_SECOND / rate;
        let silent = level < threshold_amplitude;
        match open {
            None => {
                if silent {
                    open = Some(time);
                }
            },
            Some(start) => {
                if !silent {
                    proof {
                        lemma_closed_separated(
                            ranges@,
                            start,
                            time as int,
                            min,
                            time_at(stop as int, sample_rate),
                        );
                    }
                    if time > start && time - start >= min {
                        ranges.push((start, time));
                    }
                    open = None;
                }
            },
        }
        position = stop;
    }
    match open {
        Some(start) => {
            let end: u64 = samples.len() as u64 * MICROS_PER_SECOND / rate;
            proof {
                lemma_time_at_ordered(total, total, sample_rate);
                lemma_closed_separated(ranges@, start, end as int, min, end as int);
            }
            if end > start && end - start >= min {
                ranges.push((start, end));
            }
        },
        None => {},
    }
    ranges
}

/// Finds the silences in the samples of a recording.
///
/// `threshold_amplitude` is the amplitude that the configured threshold
/// stands for, in thousandths of a sample step: 32768 times ten to the power
/// of a twentieth of the decibels, times a thousand.
pub fn detect_silence(
    samples: &[i16],
    sample_rate: u32,
    threshold_amplitude: u64,
    config: &SilenceDetectionConfig,
) -> (result: Result<Vec<Range>, Error>)
    requires
        samples@.len() <= MAX_SAMPLES,
    ensures
        samples@.len() == 0 ==> result == Err::<Vec<Range>, Error>(Error::EmptyInput),
        samples@.len() > 0 && window_length(sample_rate) == 0 ==> result == Err::<Vec<Range>, Error>(
            Error::SampleRateTooLow,
        ),
        samples@.len() > 0 && window_length(sample_rate) > 0 ==> (result matches Ok(ranges)
            && ranges@ == silence_ranges(
            samples@,
            sample_rate,
            threshold_amplitude,
            config.min_silence_duration,
        ) && well_separated(
            ranges@,
            config.min_silence_duration,
            time_at(samples@.len() as int, sample_rate),
        )),
{
    if samples.len() == 0 {
        return Err(Error::EmptyInput);
    }
    if sample_rate < 50 {
        return Err(Error::SampleRateTooLow);
    }
    Ok(analyze_silence_rms(samples, sample_rate, threshold_amplitude, config))
}

} // verus!
