//! What the timeline operations compute, stated over sequences of clips.

use super::clip::Clip;
use vstd::prelude::*;

verus! {

/// A silence interval `(start, end)` in the source file, in microseconds.
pub type Range = (u64, u64);

// ---------------------------------------------------------------------------
// Intervals
// ---------------------------------------------------------------------------

/// No interval ends before it starts.
pub open spec fn ranges_valid(ranges: Seq<Range>) -> bool {
    forall|i: int| 0 <= i < ranges.len() ==> (#[trigger] ranges[i]).0 <= ranges[i].1
}

/// The intervals are in ascending order of their starts.
pub open spec fn sorted_by_start(ranges: Seq<Range>) -> bool {
    forall|i: int, j: int| 0 <= i < j < ranges.len() ==> (#[trigger] ranges[i]).0 <= (#[trigger] ranges[j]).0
}

/// `sorted` with `range` put in behind the last interval that does not start
/// after it.
pub open spec fn insert_by_start(sorted: Seq<Range>, range: Range) -> Seq<Range>
    decreases sorted.len(),
{
    if sorted.len() == 0 {
        seq![range]
    } else if sorted.last().0 <= range.0 {
        sorted.push(range)
    } else {
        insert_by_start(sorted.drop_last(), range).push(sorted.last())
    }
}

/// The intervals in ascending order of their starts; intervals with the same
/// start keep the order they came in.
pub open spec fn sort_by_start(ranges: Seq<Range>) -> Seq<Range>
    decreases ranges.len(),
{
    if ranges.len() == 0 {
        Seq::empty()
    } else {
        insert_by_start(sort_by_start(ranges.drop_last()), ranges.last())
    }
}

// ---------------------------------------------------------------------------
// Splitting
// ---------------------------------------------------------------------------

/// The clips that take the place of `clip` when the silence interval
/// `start..end` is cut out of it.
///
/// A silence clip, and a clip that the interval does not reach into, stays as
/// it is. Any other clip gives way to the content before the interval (where
/// there is any), the silence itself, cut to the clip, and the content behind
/// the interval (where there is any).
pub open spec fn split_clip(clip: Clip, start: u64, end: u64) -> Seq<Clip> {
    if clip.is_silence || end <= clip.source_start || start >= clip.source_end {
        seq![clip]
    } else {
        let before = if start > clip.source_start {
            seq![Clip::spec_new(clip.source_start, start, false)]
        } else {
            Seq::empty()
        };
        let silence = Clip::spec_new(
            if start > clip.source_start { start } else { clip.source_start },
            if end < clip.source_end { end } else { clip.source_end },
            true,
        );
        let after = if end < clip.source_end {
            seq![Clip::spec_new(end, clip.source_end, false)]
        } else {
            Seq::empty()
        };
        before.push(silence) + after
    }
}

/// Every clip of `clips` split by the one interval `start..end`, in order.
pub open spec fn split_clips(clips: Seq<Clip>, start: u64, end: u64) -> Seq<Clip>
    decreases clips.len(),
{
    if clips.len() == 0 {
        Seq::empty()
    } else {
        split_clips(clips.drop_last(), start, end) + split_clip(clips.last(), start, end)
    }
}

/// `clips` split by each interval of `ranges` in turn, each interval working
/// on what the intervals before it left.
pub open spec fn split_all(clips: Seq<Clip>, ranges: Seq<Range>) -> Seq<Clip>
    decreases ranges.len(),
{
    if ranges.len() == 0 {
        clips
    } else {
        split_clips(split_all(clips, ranges.drop_last()), ranges.last().0, ranges.last().1)
    }
}

/// The clip list of a timeline that was just made: one content clip over the
/// whole source.
pub open spec fn whole_source(total_duration: u64) -> Seq<Clip> {
    seq![Clip::spec_new(0, total_duration, false)]
}

// ---------------------------------------------------------------------------
// Source order and timeline positions
// ---------------------------------------------------------------------------

/// No clip ends before it starts, and the clips follow one another in the
/// source without overlap. Gaps are allowed: they are the removed content.
pub open spec fn source_ordered(clips: Seq<Clip>) -> bool {
    &&& forall|i: int| 0 <= i < clips.len() ==> (#[trigger] clips[i]).source_start <= clips[i].source_end
    &&& forall|i: int, j: int|
        0 <= i < j < clips.len() ==> (#[trigger] clips[i]).source_end <= (#[trigger] clips[j]).source_start
}

/// No clip reaches beyond `limit` in the source.
pub open spec fn within_source(clips: Seq<Clip>, limit: u64) -> bool {
    forall|i: int| 0 <= i < clips.len() ==> (#[trigger] clips[i]).source_end <= limit
}

/// The summed source length of the first `count` clips.
pub open spec fn span_before(clips: Seq<Clip>, count: int) -> int
    decreases count,
{
    if count <= 0 {
        0
    } else {
        span_before(clips, count - 1) + clips[count - 1].span()
    }
}

/// The summed source length of all clips.
pub open spec fn total_span(clips: Seq<Clip>) -> int {
    span_before(clips, clips.len() as int)
}

/// The clips laid end to end on the timeline from zero: each keeps its source
/// extent and its flags, starts where the summed length of the clips before it
/// ends, and is as long on the timeline as in the source.
pub open spec fn retimed(clips: Seq<Clip>) -> Seq<Clip> {
    Seq::new(
        clips.len(),
        |i: int|
            Clip {
                timeline_start: span_before(clips, i) as u64,
                timeline_end: span_before(clips, i + 1) as u64,
                ..clips[i]
            },
    )
}

/// The timeline is gap-free and free of overlap from zero: the first clip
/// starts at zero, each clip starts where the one before it ends, each is as
/// long on the timeline as in the source, and the last ends at the summed
/// length of all.
pub open spec fn contiguous(clips: Seq<Clip>) -> bool {
    &&& clips.len() > 0 ==> clips[0].timeline_start == 0
    &&& clips.len() > 0 ==> clips[clips.len() - 1].timeline_end == total_span(clips)
    &&& forall|i: int| 0 <= i < clips.len() ==> (#[trigger] clips[i]).keeps_length()
    &&& forall|i: int, j: int|
        0 <= i < clips.len() && j == i + 1 && j < clips.len() ==> (#[trigger] clips[i]).timeline_end == (
        #[trigger] clips[j]).timeline_start
}

/// The clips that are not silence, in order.
pub open spec fn content_clips(clips: Seq<Clip>) -> Seq<Clip> {
    clips.filter(|clip: Clip| !clip.is_silence)
}

/// The clips that are silence, in order.
pub open spec fn silence_clips(clips: Seq<Clip>) -> Seq<Clip> {
    clips.filter(|clip: Clip| clip.is_silence)
}

// ---------------------------------------------------------------------------
// Editing
// ---------------------------------------------------------------------------

/// The clip list after the clip at `index` is removed and the rest is laid
/// end to end again.
pub open spec fn removed_at(clips: Seq<Clip>, index: int) -> Seq<Clip> {
    retimed(clips.remove(index))
}

/// The clip list with the clip at `index` reaching to the end of the clip
/// behind it, that clip gone, before the timeline is laid out again. The
/// merged clip keeps the flags of the clip at `index`.
pub open spec fn merged_unretimed(clips: Seq<Clip>, index: int) -> Seq<Clip> {
    clips.remove(index + 1).update(index, clips[index].with_source_end(clips[index + 1].source_end))
}

/// The clip list after the clip at `index` is merged with the clip behind it.
pub open spec fn merged_at(clips: Seq<Clip>, index: int) -> Seq<Clip> {
    retimed(merged_unretimed(clips, index))
}

/// The clip list with the boundary between the clips at `index` and behind it
/// set to `new_time` in the source, before the timeline is laid out again.
pub open spec fn boundary_unretimed(clips: Seq<Clip>, index: int, new_time: u64) -> Seq<Clip> {
    clips.update(index, clips[index].with_source_end(new_time)).update(
        index + 1,
        clips[index + 1].with_source_start(new_time),
    )
}

/// The clip list after the boundary between the clips at `index` and behind
/// it is moved to `new_time`.
pub open spec fn boundary_moved(clips: Seq<Clip>, index: int, new_time: u64) -> Seq<Clip> {
    retimed(boundary_unretimed(clips, index, new_time))
}

/// `new_time` lies strictly between the start of the clip at `index` and the
/// end of the clip behind it, so that neither clip is left without length.
pub open spec fn boundary_in_range(clips: Seq<Clip>, index: int, new_time: u64) -> bool {
    clips[index].source_start < new_time < clips[index + 1].source_end
}

/// The clip's source extent, start counted in and end counted out, holds
/// `source_time`.
pub open spec fn holds_source_time(clip: Clip, source_time: u64) -> bool {
    clip.source_start <= source_time < clip.source_end
}

// ---------------------------------------------------------------------------
// Softness
// ---------------------------------------------------------------------------

/// Least silence kept in front of a cut, in microseconds.
pub const MIN_PRE_PADDING: u64 = 30_000;

/// Most silence kept in front of a cut, in microseconds.
pub const MAX_PRE_PADDING: u64 = 200_000;

/// Least silence kept behind a cut, in microseconds.
pub const MIN_POST_PADDING: u64 = 50_000;

/// Most silence kept behind a cut, in microseconds.
pub const MAX_POST_PADDING: u64 = 300_000;

/// `value`, or the nearer of the two limits where it lies outside them.
pub open spec fn clamped(value: int, low: int, high: int) -> int {
    if value < low {
        low
    } else if value > high {
        high
    } else {
        value
    }
}

/// The silence kept in front of the cut: two fifths of `percent` hundredths of
/// the interval's length, rounded down, held between the two limits.
pub open spec fn pre_padding(range: Range, percent: u8) -> int {
    clamped(
        (range.1 - range.0) * percent * 4 / 1000,
        MIN_PRE_PADDING as int,
        MAX_PRE_PADDING as int,
    )
}

/// The silence kept behind the cut: three fifths of `percent` hundredths of
/// the interval's length, rounded down, held between the two limits.
pub open spec fn post_padding(range: Range, percent: u8) -> int {
    clamped(
        (range.1 - range.0) * percent * 6 / 1000,
        MIN_POST_PADDING as int,
        MAX_POST_PADDING as int,
    )
}

/// What is left of a silence interval at the given softness: the interval
/// itself at zero, else the interval shortened by its two paddings, or nothing
/// where the paddings use it up.
pub open spec fn soften_range(range: Range, percent: u8) -> Option<Range> {
    if percent == 0 {
        Some(range)
    } else if range.0 + pre_padding(range, percent) >= range.1 - post_padding(range, percent) {
        None
    } else {
        Some(
            (
                (range.0 + pre_padding(range, percent)) as u64,
                (range.1 - post_padding(range, percent)) as u64,
            ),
        )
    }
}

/// The intervals at the given softness, in order, without those that the
/// paddings use up.
pub open spec fn softened(ranges: Seq<Range>, percent: u8) -> Seq<Range>
    decreases ranges.len(),
{
    if ranges.len() == 0 {
        Seq::empty()
    } else {
        match soften_range(ranges.last(), percent) {
            Some(range) => softened(ranges.drop_last(), percent).push(range),
            None => softened(ranges.drop_last(), percent),
        }
    }
}

/// The clip list of a timeline of the given length after its raw silence
/// intervals are applied at the given softness: the whole source, split by the
/// softened intervals, laid end to end.
pub open spec fn softened_clips(total_duration: u64, raw: Seq<Range>, percent: u8) -> Seq<Clip> {
    retimed(split_all(whole_source(total_duration), sort_by_start(softened(raw, percent))))
}

} // verus!
