//! What holds of the timeline operations taken together.

use super::clip::Clip;
use super::lemmas::{
    lemma_boundary_ordered, lemma_content_and_silence_span, lemma_filter_ordered,
    lemma_merge_ordered, lemma_remove_ordered, lemma_retimed, lemma_softened_valid,
    lemma_sort_by_start, lemma_source_ordered_prefix, lemma_span_before_bounded,
    lemma_split_all, lemma_split_clips,
};
use super::model::{
    boundary_in_range, boundary_unretimed, content_clips, contiguous, merged_at,
    merged_unretimed, post_padding, pre_padding, ranges_valid, removed_at, retimed,
    silence_clips, soften_range, softened, softened_clips, sort_by_start, source_ordered,
    span_before, split_all, split_clip, split_clips, total_span, whole_source, within_source,
    Range, MAX_POST_PADDING, MAX_PRE_PADDING, MIN_POST_PADDING, MIN_PRE_PADDING,
};
use vstd::prelude::*;

verus! {

/// The clip list of a new timeline is in source order inside the source, is
/// gap-free on the timeline, and is as long as the source.
pub proof fn lemma_whole_source(total_duration: u64)
    ensures
        source_ordered(whole_source(total_duration)),
        within_source(whole_source(total_duration), total_duration),
        contiguous(whole_source(total_duration)),
        total_span(whole_source(total_duration)) == total_duration,
        tiles(whole_source(total_duration), 0, total_duration),
{
    reveal_with_fuel(span_before, 2);
}

/// Splitting a timeline by silence intervals, removing the silence clips and
/// laying the rest end to end gives a timeline that is gap-free from zero and
/// ends at its own length, which is the length of the clips before the split
/// less the length of the silence that was removed.
pub proof fn law_split_delete_recalculate(clips: Seq<Clip>, ranges: Seq<Range>)
    requires
        source_ordered(clips),
        ranges_valid(ranges),
    ensures
        ({
            let split = split_all(clips, sort_by_start(ranges));
            let kept = retimed(content_clips(split));
            &&& contiguous(kept)
            &&& total_span(kept) == total_span(clips) - total_span(silence_clips(split))
            &&& kept.len() > 0 ==> kept.last().timeline_end == total_span(kept)
        }),
{
    let split = split_all(clips, sort_by_start(ranges));
    lemma_sort_by_start(ranges);
    lemma_split_all(clips, sort_by_start(ranges));
    lemma_filter_ordered(split, |clip: Clip| !clip.is_silence);
    lemma_retimed(content_clips(split));
    lemma_content_and_silence_span(split);
}

/// For a timeline that was just made the same holds with the length of the
/// source: what is left after the silence is removed is as long as the source
/// less the removed silence.
pub proof fn law_split_delete_recalculate_from_new(total_duration: u64, ranges: Seq<Range>)
    requires
        ranges_valid(ranges),
    ensures
        ({
            let split = split_all(whole_source(total_duration), sort_by_start(ranges));
            let kept = retimed(content_clips(split));
            &&& contiguous(kept)
            &&& total_span(kept) == total_duration - total_span(silence_clips(split))
            &&& kept.len() > 0 ==> kept.last().timeline_end == total_span(kept)
        }),
{
    lemma_whole_source(total_duration);
    law_split_delete_recalculate(whole_source(total_duration), ranges);
}

/// Merging two clips and then removing any clip leaves no two neighbours with
/// a gap or an overlap between them on the timeline.
pub proof fn law_merge_then_remove_contiguous(clips: Seq<Clip>, merge_index: int, remove_index: int)
    requires
        source_ordered(clips),
        0 <= merge_index,
        merge_index + 1 < clips.len(),
        0 <= remove_index < clips.len() - 1,
    ensures
        contiguous(merged_at(clips, merge_index)),
        contiguous(removed_at(merged_at(clips, merge_index), remove_index)),
{
    lemma_merge_ordered(clips, merge_index);
    lemma_retimed(merged_unretimed(clips, merge_index));
    let merged = merged_at(clips, merge_index);
    lemma_remove_ordered(merged, remove_index);
    lemma_retimed(merged.remove(remove_index));
}

/// The clips lie end to end in the source from `from` to `to`, and each sits
/// on the timeline where it sits in the source.
pub open spec fn tiles(clips: Seq<Clip>, from: u64, to: u64) -> bool {
    &&& clips.len() > 0
    &&& clips[0].source_start == from
    &&& clips[clips.len() - 1].source_end == to
    &&& forall|i: int|
        0 <= i < clips.len() ==> (#[trigger] clips[i]).timeline_start == clips[i].source_start
            && clips[i].timeline_end == clips[i].source_end
    &&& forall|i: int, j: int|
        0 <= i < clips.len() && j == i + 1 && j < clips.len() ==> (#[trigger] clips[i]).source_end == (
        #[trigger] clips[j]).source_start
}

/// Two stretches of clips that lie end to end, the second starting where the
/// first ends, lie end to end together.
proof fn lemma_tiles_add(a: Seq<Clip>, b: Seq<Clip>, from: u64, mid: u64, to: u64)
    requires
        tiles(a, from, mid),
        tiles(b, mid, to),
    ensures
        tiles(a + b, from, to),
{
    let all = a + b;
    assert(all[0] == a[0]);
    assert(all[all.len() - 1] == b[b.len() - 1]);
    assert forall|i: int| 0 <= i < all.len() implies (#[trigger] all[i]).timeline_start
        == all[i].source_start && all[i].timeline_end == all[i].source_end by {
        if i < a.len() {
            assert(all[i] == a[i]);
        } else {
            assert(all[i] == b[i - a.len()]);
        }
    }
    assert forall|i: int, j: int| 0 <= i < all.len() && j == i + 1 && j < all.len() implies (
    #[trigger] all[i]).source_end == (#[trigger] all[j]).source_start by {
        if j < a.len() {
            assert(all[i] == a[i] && all[j] == a[j]);
        } else if i < a.len() {
            assert(all[i] == a[a.len() - 1] && all[j] == b[0]);
        } else {
            assert(all[i] == b[i - a.len()] && all[j] == b[j - a.len()]);
        }
    }
}

/// Clips that lie end to end stay so when they are split by a valid interval.
proof fn lemma_split_clips_tiles(clips: Seq<Clip>, start: u64, end: u64, from: u64, to: u64)
    requires
        source_ordered(clips),
        tiles(clips, from, to),
        start <= end,
    ensures
        tiles(split_clips(clips, start, end), from, to),
    decreases clips.len(),
{
    let head = clips.drop_last();
    let last = clips.last();
    assert(last == clips[clips.len() - 1]);
    lemma_source_ordered_prefix(clips);
    let pieces = split_clip(last, start, end);
    assert(tiles(pieces, last.source_start, last.source_end));
    if head.len() == 0 {
        assert(split_clips(head, start, end) + pieces == pieces);
        assert(clips[0] == last);
    } else {
        assert(head[0] == clips[0]);
        assert(head[head.len() - 1] == clips[clips.len() - 2]);
        assert(clips[clips.len() - 2].source_end == clips[clips.len() - 1].source_start);
        assert forall|i: int| 0 <= i < head.len() implies (#[trigger] head[i]).timeline_start
            == head[i].source_start && head[i].timeline_end == head[i].source_end by {
            assert(head[i] == clips[i]);
        }
        assert forall|i: int, j: int| 0 <= i < head.len() && j == i + 1 && j < head.len() implies (
        #[trigger] head[i]).source_end == (#[trigger] head[j]).source_start by {
            assert(head[i] == clips[i] && head[j] == clips[j]);
        }
        lemma_split_clips_tiles(head, start, end, from, last.source_start);
        lemma_tiles_add(split_clips(head, start, end), pieces, from, last.source_start, to);
    }
}

/// Clips that lie end to end stay so when they are split by valid intervals.
proof fn lemma_split_all_tiles(clips: Seq<Clip>, ranges: Seq<Range>, from: u64, to: u64)
    requires
        source_ordered(clips),
        tiles(clips, from, to),
        ranges_valid(ranges),
    ensures
        tiles(split_all(clips, ranges), from, to),
        source_ordered(split_all(clips, ranges)),
    decreases ranges.len(),
{
    if ranges.len() > 0 {
        let head = ranges.drop_last();
        assert forall|i: int| 0 <= i < head.len() implies (#[trigger] head[i]).0 <= head[i].1 by {
            assert(head[i] == ranges[i]);
        }
        assert(ranges.last() == ranges[ranges.len() - 1]);
        lemma_split_all_tiles(clips, head, from, to);
        lemma_split_clips_tiles(split_all(clips, head), ranges.last().0, ranges.last().1, from, to);
        lemma_split_clips(split_all(clips, head), ranges.last().0, ranges.last().1);
    }
}

/// Among clips that lie end to end from zero, the clips before any one of
/// them are together as long as that one's start.
proof fn lemma_tiles_span_before(clips: Seq<Clip>, to: u64, count: int)
    requires
        tiles(clips, 0, to),
        0 <= count <= clips.len(),
    ensures
        count < clips.len() ==> span_before(clips, count) == clips[count].source_start,
        count > 0 ==> span_before(clips, count) == clips[count - 1].source_end,
    decreases count,
{
    if count > 0 {
        lemma_tiles_span_before(clips, to, count - 1);
        if count < clips.len() {
            assert(clips[count - 1].source_end == clips[count].source_start);
        }
    }
}

/// Clips that lie end to end from zero, each on the timeline where it is in
/// the source, are already laid out: laying them out again changes nothing.
proof fn lemma_tiles_retimed(clips: Seq<Clip>, to: u64)
    requires
        tiles(clips, 0, to),
    ensures
        retimed(clips) == clips,
{
    let out = retimed(clips);
    assert forall|i: int| 0 <= i < clips.len() implies out[i] == clips[i] by {
        lemma_tiles_span_before(clips, to, i);
        lemma_tiles_span_before(clips, to, i + 1);
    }
    assert(out =~= clips);
}

/// At softness zero a timeline gets the very clips that splitting a new
/// timeline by its raw silence intervals gives.
pub proof fn law_zero_softness_is_plain_split(total_duration: u64, raw: Seq<Range>)
    requires
        ranges_valid(raw),
    ensures
        softened_clips(total_duration, raw, 0) == split_all(
            whole_source(total_duration),
            sort_by_start(raw),
        ),
{
    lemma_softened_valid(raw, 0);
    lemma_sort_by_start(raw);
    lemma_whole_source(total_duration);
    lemma_split_all_tiles(whole_source(total_duration), sort_by_start(raw), 0, total_duration);
    lemma_tiles_retimed(split_all(whole_source(total_duration), sort_by_start(raw)), total_duration);
}

/// At any softness above zero, an interval that survives gives up between
/// 30 ms and 200 ms at its start and between 50 ms and 300 ms at its end, and
/// keeps a length; an interval is dropped exactly if it is no longer than its
/// two paddings together. So one of 80 ms or less is always dropped and one
/// of more than 500 ms never.
pub proof fn law_softness_padding_within_clamps(range: Range, percent: u8)
    requires
        percent > 0,
    ensures
        MIN_PRE_PADDING <= pre_padding(range, percent) <= MAX_PRE_PADDING,
        MIN_POST_PADDING <= post_padding(range, percent) <= MAX_POST_PADDING,
        match soften_range(range, percent) {
            Some(cut) => {
                &&& cut.0 - range.0 == pre_padding(range, percent)
                &&& range.1 - cut.1 == post_padding(range, percent)
                &&& cut.0 < cut.1
            },
            None => range.1 - range.0 <= pre_padding(range, percent) + post_padding(range, percent),
        },
        soften_range(range, percent) is None <==> range.1 - range.0 <= pre_padding(range, percent)
            + post_padding(range, percent),
        range.1 - range.0 <= MIN_PRE_PADDING + MIN_POST_PADDING ==> soften_range(range, percent) is None,
        range.1 - range.0 > MAX_PRE_PADDING + MAX_POST_PADDING ==> soften_range(range, percent) is Some,
{
}

/// At any softness above zero, every interval that is cut comes from a raw
/// interval and leaves of it no less than 30 ms and no more than 200 ms at
/// the start, and no less than 50 ms and no more than 300 ms at the end.
pub proof fn law_softened_ranges_within_clamps(raw: Seq<Range>, percent: u8, index: int)
    requires
        percent > 0,
        0 <= index < softened(raw, percent).len(),
    ensures
        exists|from: int|
            0 <= from < raw.len() && {
                let cut = softened(raw, percent)[index];
                &&& MIN_PRE_PADDING <= cut.0 - (#[trigger] raw[from]).0 <= MAX_PRE_PADDING
                &&& MIN_POST_PADDING <= raw[from].1 - cut.1 <= MAX_POST_PADDING
                &&& cut.0 < cut.1
            },
    decreases raw.len(),
{
    let head = raw.drop_last();
    let last = raw.last();
    law_softness_padding_within_clamps(last, percent);
    if soften_range(last, percent) is Some && index == softened(head, percent).len() {
        assert(raw[raw.len() - 1] == last);
    } else {
        law_softened_ranges_within_clamps(head, percent, index);
        let from = choose|from: int|
            0 <= from < head.len() && {
                let cut = softened(head, percent)[index];
                &&& MIN_PRE_PADDING <= cut.0 - (#[trigger] head[from]).0 <= MAX_PRE_PADDING
                &&& MIN_POST_PADDING <= head[from].1 - cut.1 <= MAX_POST_PADDING
                &&& cut.0 < cut.1
            };
        assert(raw[from] == head[from]);
    }
}

/// Every clip has a length in the source.
pub open spec fn positive_lengths(clips: Seq<Clip>) -> bool {
    forall|i: int| 0 <= i < clips.len() ==> (#[trigger] clips[i]).source_start < clips[i].source_end
}

/// Every interval has a length.
pub open spec fn ranges_strict(ranges: Seq<Range>) -> bool {
    forall|i: int| 0 <= i < ranges.len() ==> (#[trigger] ranges[i]).0 < ranges[i].1
}

/// Splitting by one interval that has a length makes no clip without length.
proof fn lemma_split_clips_keeps_lengths(clips: Seq<Clip>, start: u64, end: u64)
    requires
        positive_lengths(clips),
        start < end,
    ensures
        positive_lengths(split_clips(clips, start, end)),
    decreases clips.len(),
{
    if clips.len() > 0 {
        let head = clips.drop_last();
        assert forall|i: int| 0 <= i < head.len() implies (#[trigger] head[i]).source_start
            < head[i].source_end by {
            assert(head[i] == clips[i]);
        }
        lemma_split_clips_keeps_lengths(head, start, end);
        let last = clips.last();
        assert(last == clips[clips.len() - 1]);
        let a = split_clips(head, start, end);
        let b = split_clip(last, start, end);
        assert(positive_lengths(b));
        let all = a + b;
        assert forall|i: int| 0 <= i < all.len() implies (#[trigger] all[i]).source_start
            < all[i].source_end by {
            if i < a.len() {
                assert(all[i] == a[i]);
            } else {
                assert(all[i] == b[i - a.len()]);
            }
        }
    }
}

/// Splitting by intervals that have a length makes no clip without length.
proof fn lemma_split_all_keeps_lengths(clips: Seq<Clip>, ranges: Seq<Range>)
    requires
        positive_lengths(clips),
        ranges_strict(ranges),
    ensures
        positive_lengths(split_all(clips, ranges)),
    decreases ranges.len(),
{
    if ranges.len() > 0 {
        let head = ranges.drop_last();
        assert forall|i: int| 0 <= i < head.len() implies (#[trigger] head[i]).0 < head[i].1 by {
            assert(head[i] == ranges[i]);
        }
        lemma_split_all_keeps_lengths(clips, head);
        assert(ranges.last() == ranges[ranges.len() - 1]);
        lemma_split_clips_keeps_lengths(split_all(clips, head), ranges.last().0, ranges.last().1);
    }
}

/// Sorting intervals that have a length leaves intervals that have a length.
proof fn lemma_sort_keeps_strict(ranges: Seq<Range>)
    requires
        ranges_strict(ranges),
    ensures
        ranges_strict(sort_by_start(ranges)),
{
    lemma_sort_by_start(ranges);
    let out = sort_by_start(ranges);
    assert forall|i: int| 0 <= i < out.len() implies (#[trigger] out[i]).0 < out[i].1 by {
        assert(ranges.contains(out[i]));
        let k = choose|k: int| 0 <= k < ranges.len() && ranges[k] == out[i];
        assert(ranges[k].0 < ranges[k].1);
    }
}

/// Clips that have a length, laid end to end in source order, are valid: each
/// starts before it ends in the source and on the timeline.
pub proof fn law_retimed_clips_are_valid(clips: Seq<Clip>)
    requires
        source_ordered(clips),
        positive_lengths(clips),
    ensures
        positive_lengths(retimed(clips)),
        forall|i: int| 0 <= i < clips.len() ==> (#[trigger] retimed(clips)[i]).spec_is_valid(),
{
    let out = retimed(clips);
    assert forall|i: int| 0 <= i < clips.len() implies (#[trigger] out[i]).spec_is_valid() by {
        lemma_span_before_bounded(clips, i + 1);
        if i > 0 {
            lemma_span_before_bounded(clips, i);
        }
        assert(clips[i].source_start < clips[i].source_end);
        assert(span_before(clips, i + 1) == span_before(clips, i) + clips[i].span());
    }
    assert forall|i: int| 0 <= i < out.len() implies (#[trigger] out[i]).source_start
        < out[i].source_end by {
        assert(out[i].spec_is_valid());
    }
}

/// No operation makes a clip without length out of clips that have one:
/// not splitting by silence intervals that have a length, not leaving the
/// silence out, not removing a clip, not merging two, and not moving a
/// boundary to a time inside the two clips it parts.
pub proof fn law_edits_keep_lengths(
    clips: Seq<Clip>,
    ranges: Seq<Range>,
    index: int,
    new_time: u64,
)
    requires
        source_ordered(clips),
        positive_lengths(clips),
    ensures
        ranges_strict(ranges) ==> positive_lengths(split_all(clips, sort_by_start(ranges))),
        positive_lengths(content_clips(clips)),
        0 <= index < clips.len() ==> positive_lengths(clips.remove(index)),
        0 <= index && index + 1 < clips.len() ==> positive_lengths(merged_unretimed(clips, index)),
        0 <= index && index + 1 < clips.len() && boundary_in_range(clips, index, new_time)
            ==> positive_lengths(boundary_unretimed(clips, index, new_time)),
{
    if ranges_strict(ranges) {
        lemma_sort_keeps_strict(ranges);
        lemma_split_all_keeps_lengths(clips, sort_by_start(ranges));
    }
    assert(positive_lengths(content_clips(clips))) by {
        let kept = content_clips(clips);
        assert forall|i: int| 0 <= i < kept.len() implies (#[trigger] kept[i]).source_start
            < kept[i].source_end by {
            clips.lemma_filter_contains_rev(|clip: Clip| !clip.is_silence, kept[i]);
            let k = choose|k: int| 0 <= k < clips.len() && clips[k] == kept[i];
            assert(clips[k].source_start < clips[k].source_end);
        }
    }
    if 0 <= index < clips.len() {
        let out = clips.remove(index);
        assert forall|i: int| 0 <= i < out.len() implies (#[trigger] out[i]).source_start
            < out[i].source_end by {
            assert(out[i] == clips[if i < index { i } else { i + 1 }]);
        }
    }
    if 0 <= index && index + 1 < clips.len() {
        let out = merged_unretimed(clips, index);
        assert(clips[index].source_end <= clips[index + 1].source_start);
        assert(clips[index].source_start < clips[index].source_end);
        assert(clips[index + 1].source_start < clips[index + 1].source_end);
        assert forall|i: int| 0 <= i < out.len() implies (#[trigger] out[i]).source_start
            < out[i].source_end by {
            if i != index {
                assert(out[i] == clips[if i < index { i } else { i + 1 }]);
            }
        }
        if boundary_in_range(clips, index, new_time) {
            lemma_boundary_ordered(clips, index, new_time);
            let moved = boundary_unretimed(clips, index, new_time);
            assert forall|i: int| 0 <= i < moved.len() implies (#[trigger] moved[i]).source_start
                < moved[i].source_end by {
                if i != index && i != index + 1 {
                    assert(moved[i] == clips[i]);
                }
            }
        }
    }
}

/// Setting a softness on a timeline of a source that has a length leaves
/// valid clips only, given that at softness zero the raw intervals have a
/// length; above zero every interval that is cut has one.
pub proof fn law_softness_clips_are_valid(total_duration: u64, raw: Seq<Range>, percent: u8)
    requires
        total_duration > 0,
        ranges_valid(raw),
        percent == 0 ==> ranges_strict(raw),
    ensures
        forall|i: int|
            0 <= i < softened_clips(total_duration, raw, percent).len() ==> (
            #[trigger] softened_clips(total_duration, raw, percent)[i]).spec_is_valid(),
{
    let cut = softened(raw, percent);
    lemma_softened_valid(raw, percent);
    assert(ranges_strict(cut)) by {
        if percent > 0 {
            assert forall|i: int| 0 <= i < cut.len() implies (#[trigger] cut[i]).0 < cut[i].1 by {
                law_softened_ranges_within_clamps(raw, percent, i);
            }
        }
    }
    lemma_sort_keeps_strict(cut);
    lemma_sort_by_start(cut);
    lemma_whole_source(total_duration);
    assert(positive_lengths(whole_source(total_duration)));
    lemma_split_all_keeps_lengths(whole_source(total_duration), sort_by_start(cut));
    lemma_split_all(whole_source(total_duration), sort_by_start(cut));
    law_retimed_clips_are_valid(split_all(whole_source(total_duration), sort_by_start(cut)));
}

} // verus!
