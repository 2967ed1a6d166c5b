//! Facts about the timeline model that the operations and the laws rest on.

use super::clip::Clip;
use super::model::{
    boundary_in_range, boundary_unretimed, content_clips, contiguous, insert_by_start,
    merged_unretimed, ranges_valid, retimed, silence_clips, softened,
    sort_by_start, sorted_by_start, source_ordered, span_before, split_all, split_clip,
    split_clips, total_span, within_source, Range,
};
use vstd::prelude::*;

verus! {

/// No clip starts before `limit` in the source.
pub open spec fn from_source(clips: Seq<Clip>, limit: u64) -> bool {
    forall|i: int| 0 <= i < clips.len() ==> limit <= (#[trigger] clips[i]).source_start
}

// ---------------------------------------------------------------------------
// Sorting
// ---------------------------------------------------------------------------

/// Putting an interval in by its start puts it at the place behind which
/// every interval starts later, and before which the nearest does not.
pub proof fn lemma_insert_by_start_at(sorted: Seq<Range>, range: Range, at: int)
    requires
        0 <= at <= sorted.len(),
        forall|k: int| at <= k < sorted.len() ==> (#[trigger] sorted[k]).0 > range.0,
        at > 0 ==> sorted[at - 1].0 <= range.0,
    ensures
        insert_by_start(sorted, range) == sorted.insert(at, range),
    decreases sorted.len(),
{
    if sorted.len() == 0 {
        assert(sorted.insert(at, range) == seq![range]);
    } else if at == sorted.len() {
        assert(sorted.insert(at, range) == sorted.push(range));
    } else {
        lemma_insert_by_start_at(sorted.drop_last(), range, at);
        assert(sorted.insert(at, range) == sorted.drop_last().insert(at, range).push(sorted.last()));
    }
}

/// Putting an interval into a sorted list leaves a sorted list that holds the
/// same intervals and the new one, and no invalid one if there was none.
pub proof fn lemma_insert_by_start(sorted: Seq<Range>, range: Range)
    requires
        sorted_by_start(sorted),
    ensures
        sorted_by_start(insert_by_start(sorted, range)),
        insert_by_start(sorted, range).len() == sorted.len() + 1,
        insert_by_start(sorted, range).to_multiset() == sorted.to_multiset().insert(range),
        ranges_valid(sorted) && range.0 <= range.1 ==> ranges_valid(insert_by_start(sorted, range)),
        forall|i: int|
            0 <= i < insert_by_start(sorted, range).len() ==> #[trigger] insert_by_start(sorted, range)[i]
                == range || sorted.contains(insert_by_start(sorted, range)[i]),
    decreases sorted.len(),
{
    broadcast use vstd::seq_lib::group_to_multiset_ensures;

    let out = insert_by_start(sorted, range);
    if sorted.len() == 0 {
        assert(sorted =~= Seq::empty());
        assert(out =~= Seq::<Range>::empty().push(range));
    } else if sorted.last().0 <= range.0 {
        assert forall|i: int| 0 <= i < out.len() implies #[trigger] out[i] == range || sorted.contains(
            out[i],
        ) by {
            if i < sorted.len() {
                assert(sorted[i] == out[i]);
            }
        }
    } else {
        let head = sorted.drop_last();
        let inner = insert_by_start(head, range);
        lemma_insert_by_start(head, range);
        assert(sorted == head.push(sorted.last()));
        assert forall|i: int| 0 <= i < out.len() implies #[trigger] out[i] == range || sorted.contains(
            out[i],
        ) by {
            if i < inner.len() {
                assert(out[i] == inner[i]);
                if inner[i] != range {
                    assert(head.contains(inner[i]));
                    let k = choose|k: int| 0 <= k < head.len() && head[k] == inner[i];
                    assert(sorted[k] == inner[i]);
                }
            } else {
                assert(out[i] == sorted[sorted.len() - 1]);
            }
        }
        assert forall|i: int, j: int| 0 <= i < j < out.len() implies (#[trigger] out[i]).0 <= (
        #[trigger] out[j]).0 by {
            if j < inner.len() {
                assert(out[i] == inner[i] && out[j] == inner[j]);
            } else {
                assert(out[i] == inner[i]);
                if inner[i] != range {
                    let k = choose|k: int| 0 <= k < head.len() && head[k] == inner[i];
                    assert(sorted[k] == inner[i]);
                    assert(sorted[k].0 <= sorted[sorted.len() - 1].0);
                }
            }
        }
        if ranges_valid(sorted) && range.0 <= range.1 {
            assert forall|i: int| 0 <= i < head.len() implies (#[trigger] head[i]).0 <= head[i].1 by {
                assert(head[i] == sorted[i]);
            }
            assert forall|i: int| 0 <= i < out.len() implies (#[trigger] out[i]).0 <= out[i].1 by {
                if i < inner.len() {
                    assert(out[i] == inner[i]);
                } else {
                    assert(out[i] == sorted[sorted.len() - 1]);
                }
            }
        }
    }
}

/// Sorting gives a list in ascending order of starts that holds the same
/// intervals, each as often as before, and no invalid one if there was none.
pub proof fn lemma_sort_by_start(ranges: Seq<Range>)
    ensures
        sorted_by_start(sort_by_start(ranges)),
        sort_by_start(ranges).len() == ranges.len(),
        sort_by_start(ranges).to_multiset() == ranges.to_multiset(),
        ranges_valid(ranges) ==> ranges_valid(sort_by_start(ranges)),
        forall|i: int|
            0 <= i < sort_by_start(ranges).len() ==> ranges.contains(#[trigger] sort_by_start(ranges)[i]),
    decreases ranges.len(),
{
    broadcast use vstd::seq_lib::group_to_multiset_ensures;

    if ranges.len() == 0 {
        assert(ranges =~= Seq::empty());
    } else {
        let head = ranges.drop_last();
        lemma_sort_by_start(head);
        lemma_insert_by_start(sort_by_start(head), ranges.last());
        assert(ranges == head.push(ranges.last()));
        let out = sort_by_start(ranges);
        assert forall|i: int| 0 <= i < out.len() implies ranges.contains(#[trigger] out[i]) by {
            if out[i] == ranges.last() {
                assert(ranges[ranges.len() - 1] == out[i]);
            } else {
                assert(sort_by_start(head).contains(out[i]));
                let k = choose|k: int|
                    0 <= k < sort_by_start(head).len() && sort_by_start(head)[k] == out[i];
                assert(head.contains(sort_by_start(head)[k]));
                let m = choose|m: int| 0 <= m < head.len() && head[m] == out[i];
                assert(ranges[m] == out[i]);
            }
        }
        if ranges_valid(ranges) {
            assert forall|i: int| 0 <= i < head.len() implies (#[trigger] head[i]).0 <= head[i].1 by {
                assert(head[i] == ranges[i]);
            }
            assert(ranges[ranges.len() - 1].0 <= ranges[ranges.len() - 1].1);
        }
    }
}

// ---------------------------------------------------------------------------
// Summed lengths
// ---------------------------------------------------------------------------

/// The summed length of the first clips depends on those clips alone, and on
/// their source extents alone.
pub proof fn lemma_span_before_agrees(a: Seq<Clip>, b: Seq<Clip>, count: int)
    requires
        0 <= count <= a.len(),
        count <= b.len(),
        forall|i: int| 0 <= i < count ==> (#[trigger] a[i]).span() == b[i].span(),
    ensures
        span_before(a, count) == span_before(b, count),
    decreases count,
{
    if count > 0 {
        lemma_span_before_agrees(a, b, count - 1);
    }
}

/// The summed length of two lists, one behind the other, is the sum of both.
pub proof fn lemma_total_span_add(a: Seq<Clip>, b: Seq<Clip>)
    ensures
        total_span(a + b) == total_span(a) + total_span(b),
    decreases b.len(),
{
    if b.len() == 0 {
        assert(a + b == a);
    } else {
        let head = b.drop_last();
        lemma_total_span_add(a, head);
        lemma_span_before_agrees(a + b, a + head, (a + head).len() as int);
        lemma_span_before_agrees(b, head, head.len() as int);
        assert((a + b)[(a + b).len() - 1] == b[b.len() - 1]);
    }
}

/// In source order the first clips together are no longer than the stretch
/// from the start of the first to the end of the last of them.
pub proof fn lemma_span_before_bounded(clips: Seq<Clip>, count: int)
    requires
        source_ordered(clips),
        0 < count <= clips.len(),
    ensures
        0 <= span_before(clips, count) <= clips[count - 1].source_end - clips[0].source_start,
    decreases count,
{
    assert(clips[count - 1].source_start <= clips[count - 1].source_end);
    assert(span_before(clips, count) == span_before(clips, count - 1) + clips[count - 1].span());
    if count > 1 {
        lemma_span_before_bounded(clips, count - 1);
        assert(clips[count - 2].source_end <= clips[count - 1].source_start);
    } else {
        assert(span_before(clips, 0) == 0);
    }
}

/// Laying clips that are in source order end to end gives a timeline that is
/// gap-free from zero and ends at their summed length; nothing but the
/// timeline positions changes.
pub proof fn lemma_retimed(clips: Seq<Clip>)
    requires
        source_ordered(clips),
    ensures
        contiguous(retimed(clips)),
        source_ordered(retimed(clips)),
        total_span(retimed(clips)) == total_span(clips),
        0 <= total_span(clips) <= u64::MAX,
        clips.len() > 0 ==> retimed(clips).last().timeline_end == total_span(clips),
        forall|limit: u64| within_source(clips, limit) ==> within_source(retimed(clips), limit),
{
    let out = retimed(clips);
    assert forall|i: int| 0 <= i <= clips.len() implies 0 <= #[trigger] span_before(clips, i)
        <= u64::MAX by {
        if i > 0 {
            lemma_span_before_bounded(clips, i);
        }
    }
    assert forall|i: int| 0 <= i < out.len() implies (#[trigger] out[i]).keeps_length() by {
        assert(0 <= span_before(clips, i) <= u64::MAX);
        assert(0 <= span_before(clips, i + 1) <= u64::MAX);
    }
    assert forall|i: int, j: int| 0 <= i < out.len() && j == i + 1 && j < out.len() implies (
    #[trigger] out[i]).timeline_end == (#[trigger] out[j]).timeline_start by {}
    assert forall|i: int| 0 <= i < out.len() implies (#[trigger] out[i]).source_start
        <= out[i].source_end by {
        assert(clips[i].source_start <= clips[i].source_end);
    }
    assert forall|i: int, j: int| 0 <= i < j < out.len() implies (#[trigger] out[i]).source_end <= (
    #[trigger] out[j]).source_start by {
        assert(clips[i].source_end <= clips[j].source_start);
    }
    lemma_span_before_agrees(out, clips, clips.len() as int);
    assert(0 <= span_before(clips, clips.len() as int) <= u64::MAX);
    assert forall|limit: u64| within_source(clips, limit) implies within_source(out, limit) by {
        assert forall|i: int| 0 <= i < out.len() implies (#[trigger] out[i]).source_end <= limit by {
            assert(clips[i].source_end <= limit);
        }
    }
}

// ---------------------------------------------------------------------------
// Source order under concatenation and splitting
// ---------------------------------------------------------------------------

/// Two lists in source order, the first ending where the second has not yet
/// begun, are in source order one behind the other.
pub proof fn lemma_source_ordered_add(a: Seq<Clip>, b: Seq<Clip>, at: u64)
    requires
        source_ordered(a),
        source_ordered(b),
        within_source(a, at),
        from_source(b, at),
    ensures
        source_ordered(a + b),
{
    let all = a + b;
    assert forall|i: int| 0 <= i < all.len() implies (#[trigger] all[i]).source_start
        <= all[i].source_end by {
        if i < a.len() {
            assert(all[i] == a[i]);
        } else {
            assert(all[i] == b[i - a.len()]);
        }
    }
    assert forall|i: int, j: int| 0 <= i < j < all.len() implies (#[trigger] all[i]).source_end <= (
    #[trigger] all[j]).source_start by {
        if j < a.len() {
            assert(all[i] == a[i] && all[j] == a[j]);
        } else if i < a.len() {
            assert(all[i] == a[i] && all[j] == b[j - a.len()]);
        } else {
            assert(all[i] == b[i - a.len()] && all[j] == b[j - a.len()]);
        }
    }
}

/// What takes the place of one clip lies where the clip lay, is in source
/// order, and is as long as the clip was.
pub proof fn lemma_split_clip(clip: Clip, start: u64, end: u64)
    requires
        clip.source_start <= clip.source_end,
        start <= end,
    ensures
        source_ordered(split_clip(clip, start, end)),
        from_source(split_clip(clip, start, end), clip.source_start),
        within_source(split_clip(clip, start, end), clip.source_end),
        total_span(split_clip(clip, start, end)) == clip.span(),
        1 <= split_clip(clip, start, end).len() <= 3,
{
    let out = split_clip(clip, start, end);
    reveal_with_fuel(span_before, 4);
}

/// No clip reaches beyond a limit after a split if none did before, and none
/// starts before a limit if none did before.
pub proof fn lemma_split_clips_bounds(clips: Seq<Clip>, start: u64, end: u64, low: u64, high: u64)
    requires
        source_ordered(clips),
        start <= end,
        from_source(clips, low),
        within_source(clips, high),
    ensures
        from_source(split_clips(clips, start, end), low),
        within_source(split_clips(clips, start, end), high),
    decreases clips.len(),
{
    if clips.len() > 0 {
        let head = clips.drop_last();
        let last = clips.last();
        lemma_source_ordered_prefix(clips);
        assert forall|i: int| 0 <= i < head.len() implies low <= (#[trigger] head[i]).source_start by {
            assert(head[i] == clips[i]);
        }
        assert forall|i: int| 0 <= i < head.len() implies (#[trigger] head[i]).source_end <= high by {
            assert(head[i] == clips[i]);
        }
        lemma_split_clips_bounds(head, start, end, low, high);
        assert(last == clips[clips.len() - 1]);
        lemma_split_clip(last, start, end);
        let a = split_clips(head, start, end);
        let b = split_clip(last, start, end);
        let all = a + b;
        assert forall|i: int| 0 <= i < all.len() implies low <= (#[trigger] all[i]).source_start by {
            if i < a.len() {
                assert(all[i] == a[i]);
            } else {
                assert(all[i] == b[i - a.len()]);
            }
        }
        assert forall|i: int| 0 <= i < all.len() implies (#[trigger] all[i]).source_end <= high by {
            if i < a.len() {
                assert(all[i] == a[i]);
            } else {
                assert(all[i] == b[i - a.len()]);
            }
        }
    }
}

/// A list in source order without its last clip is in source order, and ends
/// where the last clip has not yet begun.
pub proof fn lemma_source_ordered_prefix(clips: Seq<Clip>)
    requires
        source_ordered(clips),
        clips.len() > 0,
    ensures
        source_ordered(clips.drop_last()),
        within_source(clips.drop_last(), clips.last().source_start),
        clips.last().source_start <= clips.last().source_end,
{
    let head = clips.drop_last();
    assert forall|i: int| 0 <= i < head.len() implies (#[trigger] head[i]).source_start
        <= head[i].source_end by {
        assert(head[i] == clips[i]);
    }
    assert forall|i: int, j: int| 0 <= i < j < head.len() implies (#[trigger] head[i]).source_end <= (
    #[trigger] head[j]).source_start by {
        assert(head[i] == clips[i] && head[j] == clips[j]);
    }
    assert forall|i: int| 0 <= i < head.len() implies (#[trigger] head[i]).source_end
        <= clips.last().source_start by {
        assert(head[i] == clips[i]);
        assert(clips[i].source_end <= clips[clips.len() - 1].source_start);
    }
    assert(clips[clips.len() - 1].source_start <= clips[clips.len() - 1].source_end);
}

/// Splitting by one valid interval keeps the source order and the summed
/// length, and never shortens the list.
pub proof fn lemma_split_clips(clips: Seq<Clip>, start: u64, end: u64)
    requires
        source_ordered(clips),
        start <= end,
    ensures
        source_ordered(split_clips(clips, start, end)),
        total_span(split_clips(clips, start, end)) == total_span(clips),
        split_clips(clips, start, end).len() >= clips.len(),
        forall|limit: u64|
            within_source(clips, limit) ==> within_source(split_clips(clips, start, end), limit),
    decreases clips.len(),
{
    if clips.len() > 0 {
        let head = clips.drop_last();
        let last = clips.last();
        lemma_source_ordered_prefix(clips);
        lemma_split_clips(head, start, end);
        lemma_split_clip(last, start, end);
        assert(from_source(head, 0));
        lemma_split_clips_bounds(head, start, end, 0, last.source_start);
        lemma_source_ordered_add(
            split_clips(head, start, end),
            split_clip(last, start, end),
            last.source_start,
        );
        lemma_total_span_add(split_clips(head, start, end), split_clip(last, start, end));
        lemma_span_before_agrees(clips, head, head.len() as int);
        assert(last == clips[clips.len() - 1]);
    }
    assert forall|limit: u64| within_source(clips, limit) implies within_source(
        split_clips(clips, start, end),
        limit,
    ) by {
        assert(from_source(clips, 0));
        lemma_split_clips_bounds(clips, start, end, 0, limit);
    }
}

/// Splitting by valid intervals keeps the source order and the summed length.
pub proof fn lemma_split_all(clips: Seq<Clip>, ranges: Seq<Range>)
    requires
        source_ordered(clips),
        ranges_valid(ranges),
    ensures
        source_ordered(split_all(clips, ranges)),
        total_span(split_all(clips, ranges)) == total_span(clips),
        split_all(clips, ranges).len() >= clips.len(),
        forall|limit: u64| within_source(clips, limit) ==> within_source(split_all(clips, ranges), limit),
    decreases ranges.len(),
{
    if ranges.len() > 0 {
        let head = ranges.drop_last();
        assert forall|i: int| 0 <= i < head.len() implies (#[trigger] head[i]).0 <= head[i].1 by {
            assert(head[i] == ranges[i]);
        }
        lemma_split_all(clips, head);
        assert(ranges.last() == ranges[ranges.len() - 1]);
        lemma_split_clips(split_all(clips, head), ranges.last().0, ranges.last().1);
    }
}

// ---------------------------------------------------------------------------
// Removing, merging, moving a boundary, leaving silence out
// ---------------------------------------------------------------------------

/// Removing a clip keeps the source order and every upper limit.
pub proof fn lemma_remove_ordered(clips: Seq<Clip>, index: int)
    requires
        source_ordered(clips),
        0 <= index < clips.len(),
    ensures
        source_ordered(clips.remove(index)),
        forall|limit: u64| within_source(clips, limit) ==> within_source(clips.remove(index), limit),
{
    let out = clips.remove(index);
    assert forall|i: int| 0 <= i < out.len() implies (#[trigger] out[i]).source_start
        <= out[i].source_end by {
        assert(out[i] == clips[if i < index { i } else { i + 1 }]);
    }
    assert forall|i: int, j: int| 0 <= i < j < out.len() implies (#[trigger] out[i]).source_end <= (
    #[trigger] out[j]).source_start by {
        assert(out[i] == clips[if i < index { i } else { i + 1 }]);
        assert(out[j] == clips[if j < index { j } else { j + 1 }]);
    }
    assert forall|limit: u64| within_source(clips, limit) implies within_source(out, limit) by {
        assert forall|i: int| 0 <= i < out.len() implies (#[trigger] out[i]).source_end <= limit by {
            assert(out[i] == clips[if i < index { i } else { i + 1 }]);
        }
    }
}

/// Merging a clip with the one behind it keeps the source order and every
/// upper limit.
pub proof fn lemma_merge_ordered(clips: Seq<Clip>, index: int)
    requires
        source_ordered(clips),
        0 <= index,
        index + 1 < clips.len(),
    ensures
        source_ordered(merged_unretimed(clips, index)),
        forall|limit: u64|
            within_source(clips, limit) ==> within_source(merged_unretimed(clips, index), limit),
{
    let out = merged_unretimed(clips, index);
    assert(clips[index].source_end <= clips[index + 1].source_start);
    assert(clips[index + 1].source_start <= clips[index + 1].source_end);
    assert(clips[index].source_start <= clips[index].source_end);
    assert forall|i: int| 0 <= i < out.len() implies (#[trigger] out[i]).source_start
        <= out[i].source_end by {
        if i != index {
            assert(out[i] == clips[if i < index { i } else { i + 1 }]);
        }
    }
    assert forall|i: int, j: int| 0 <= i < j < out.len() implies (#[trigger] out[i]).source_end <= (
    #[trigger] out[j]).source_start by {
        let from_i = if i <= index { i } else { i + 1 };
        let from_j = if j <= index { j } else { j + 1 };
        assert(out[j].source_start == clips[from_j].source_start);
        if i == index {
            assert(clips[index + 1].source_end <= clips[from_j].source_start);
        } else {
            assert(out[i] == clips[from_i]);
            assert(clips[from_i].source_end <= clips[from_j].source_start);
        }
    }
    assert forall|limit: u64| within_source(clips, limit) implies within_source(out, limit) by {
        assert forall|i: int| 0 <= i < out.len() implies (#[trigger] out[i]).source_end <= limit by {
            if i == index {
                assert(clips[index + 1].source_end <= limit);
            } else {
                assert(out[i] == clips[if i < index { i } else { i + 1 }]);
            }
        }
    }
}

/// Moving a boundary to a time strictly inside the two clips it parts keeps
/// the source order and every upper limit, and leaves both clips with length.
pub proof fn lemma_boundary_ordered(clips: Seq<Clip>, index: int, new_time: u64)
    requires
        source_ordered(clips),
        0 <= index,
        index + 1 < clips.len(),
        boundary_in_range(clips, index, new_time),
    ensures
        source_ordered(boundary_unretimed(clips, index, new_time)),
        forall|limit: u64|
            within_source(clips, limit) ==> within_source(
                boundary_unretimed(clips, index, new_time),
                limit,
            ),
        boundary_unretimed(clips, index, new_time)[index].source_start < boundary_unretimed(
            clips,
            index,
            new_time,
        )[index].source_end,
        boundary_unretimed(clips, index, new_time)[index + 1].source_start < boundary_unretimed(
            clips,
            index,
            new_time,
        )[index + 1].source_end,
{
    let out = boundary_unretimed(clips, index, new_time);
    assert(clips[index].source_end <= clips[index + 1].source_start);
    assert forall|i: int| 0 <= i < out.len() implies (#[trigger] out[i]).source_start
        <= out[i].source_end by {
        if i != index && i != index + 1 {
            assert(out[i] == clips[i]);
        }
    }
    assert forall|i: int, j: int| 0 <= i < j < out.len() implies (#[trigger] out[i]).source_end <= (
    #[trigger] out[j]).source_start by {
        assert(clips[i].source_end <= clips[j].source_start);
        if i == index && j > index + 1 {
            assert(clips[index + 1].source_end <= clips[j].source_start);
        }
        if j == index + 1 && i < index {
            assert(clips[i].source_end <= clips[index].source_start);
        }
    }
    assert forall|limit: u64| within_source(clips, limit) implies within_source(out, limit) by {
        assert forall|i: int| 0 <= i < out.len() implies (#[trigger] out[i]).source_end <= limit by {
            assert(clips[i].source_end <= limit);
            assert(clips[index + 1].source_end <= limit);
        }
    }
}

/// Leaving clips out keeps the source order and every upper limit.
pub proof fn lemma_filter_ordered(clips: Seq<Clip>, keep: spec_fn(Clip) -> bool)
    requires
        source_ordered(clips),
    ensures
        source_ordered(clips.filter(keep)),
        forall|limit: u64| within_source(clips, limit) ==> within_source(clips.filter(keep), limit),
    decreases clips.len(),
{
    reveal(Seq::filter);
    if clips.len() > 0 {
        let head = clips.drop_last();
        let last = clips.last();
        lemma_source_ordered_prefix(clips);
        lemma_filter_ordered(head, keep);
        if keep(last) {
            assert(head.filter(keep).push(last) == head.filter(keep) + seq![last]);
            assert(within_source(head.filter(keep), last.source_start));
            lemma_source_ordered_add(head.filter(keep), seq![last], last.source_start);
        }
        assert forall|limit: u64| within_source(clips, limit) implies within_source(
            clips.filter(keep),
            limit,
        ) by {
            assert forall|i: int| 0 <= i < head.len() implies (#[trigger] head[i]).source_end
                <= limit by {
                assert(head[i] == clips[i]);
            }
            assert(clips[clips.len() - 1].source_end <= limit);
            assert(within_source(head.filter(keep), limit));
        }
    }
}

/// The content clips and the silence clips together are as long as all clips.
pub proof fn lemma_content_and_silence_span(clips: Seq<Clip>)
    ensures
        total_span(content_clips(clips)) + total_span(silence_clips(clips)) == total_span(clips),
    decreases clips.len(),
{
    reveal(Seq::filter);
    if clips.len() > 0 {
        let head = clips.drop_last();
        let last = clips.last();
        lemma_content_and_silence_span(head);
        lemma_span_before_agrees(clips, head, head.len() as int);
        let content = content_clips(head);
        let silence = silence_clips(head);
        if last.is_silence {
            lemma_span_before_agrees(silence.push(last), silence, silence.len() as int);
        } else {
            lemma_span_before_agrees(content.push(last), content, content.len() as int);
        }
    }
}

// ---------------------------------------------------------------------------
// Softness
// ---------------------------------------------------------------------------

/// Softening keeps valid intervals valid.
pub proof fn lemma_softened_valid(ranges: Seq<Range>, percent: u8)
    requires
        ranges_valid(ranges),
    ensures
        ranges_valid(softened(ranges, percent)),
        softened(ranges, percent).len() <= ranges.len(),
        percent == 0 ==> softened(ranges, percent) == ranges,
    decreases ranges.len(),
{
    if ranges.len() > 0 {
        let head = ranges.drop_last();
        assert forall|i: int| 0 <= i < head.len() implies (#[trigger] head[i]).0 <= head[i].1 by {
            assert(head[i] == ranges[i]);
        }
        lemma_softened_valid(head, percent);
        assert(ranges.last() == ranges[ranges.len() - 1]);
        assert(ranges.last().0 <= ranges.last().1);
        let out = softened(ranges, percent);
        let inner = softened(head, percent);
        assert forall|i: int| 0 <= i < out.len() implies (#[trigger] out[i]).0 <= out[i].1 by {
            if i < inner.len() {
                assert(out[i] == inner[i]);
            }
        }
        if percent == 0 {
            assert(ranges == head.push(ranges.last()));
        }
    } else {
        assert(ranges =~= Seq::empty());
    }
}

} // verus!
