use super::clip::Clip;
use super::lemmas::{
    lemma_boundary_ordered, lemma_filter_ordered, lemma_insert_by_start_at, lemma_merge_ordered,
    lemma_remove_ordered, lemma_retimed, lemma_softened_valid, lemma_sort_by_start,
    lemma_span_before_agrees, lemma_span_before_bounded, lemma_split_all,
};
use super::model::{
    boundary_in_range, boundary_moved, content_clips, contiguous, holds_source_time, merged_at,
    pre_padding, post_padding, ranges_valid, removed_at, retimed, soften_range, softened,
    softened_clips, sort_by_start, source_ordered, span_before, split_all, split_clip,
    split_clips, whole_source, within_source, Range, MAX_POST_PADDING, MAX_PRE_PADDING,
    MIN_POST_PADDING, MIN_PRE_PADDING,
};
use crate::error::Error;
use vstd::prelude::*;

verus! {

/// The ordered, editable list of clips of one source video.
#[derive(Debug, Clone)]
pub struct Timeline {
    /// The clips in ascending source order. Operations name a clip by its
    /// position in this list.
    pub clips: Vec<Clip>,
    /// Length of the whole source in microseconds, fixed when the timeline is
    /// made.
    pub total_duration: u64,
    /// Names the media file the timeline was made for.
    pub video_path: String,
    /// Names the extracted audio, once there is one.
    pub audio_path: Option<String>,
    /// The silence intervals as the detector last reported them. Softness is
    /// always worked out from these, never from an earlier result.
    pub raw_silence_ranges: Vec<Range>,
}

/// The intervals in ascending order of their starts, intervals with equal
/// starts in the order they came in.
pub fn sort_ranges(ranges: &Vec<Range>) -> (sorted: Vec<Range>)
    ensures
        sorted@ == sort_by_start(ranges@),
{
    let mut sorted: Vec<Range> = Vec::new();
    let mut i: usize = 0;
    while i < ranges.len()
        invariant
            i <= ranges.len(),
            sorted@ == sort_by_start(ranges@.take(i as int)),
        decreases ranges.len() - i,
    {
        let range = ranges[i];
        let mut at: usize = sorted.len();
        while at > 0 && sorted[at - 1].0 > range.0
            invariant
                at <= sorted.len(),
                forall|k: int| at <= k < sorted.len() ==> (#[trigger] sorted[k]).0 > range.0,
            decreases at,
        {
            at -= 1;
        }
        proof {
            lemma_insert_by_start_at(sorted@, range, at as int);
            assert(ranges@.take(i + 1).drop_last() == ranges@.take(i as int));
        }
        sorted.insert(at, range);
        i += 1;
    }
    proof {
        assert(ranges@.take(ranges.len() as int) == ranges@);
    }
    sorted
}

/// The clips that take the place of one clip when `start..end` is cut out.
fn push_split_clip(out: &mut Vec<Clip>, clip: &Clip, start: u64, end: u64)
    ensures
        final(out)@ == old(out)@ + split_clip(*clip, start, end),
{
    if clip.is_silence || end <= clip.source_start || start >= clip.source_end {
        out.push(*clip);
        assert(out@ == old(out)@ + seq![*clip]);
    } else {
        let ghost before = out@;
        let ghost mut pieces: Seq<Clip> = Seq::empty();
        if start > clip.source_start {
            out.push(Clip::new(clip.source_start, start, false));
            proof {
                pieces = pieces.push(Clip::spec_new(clip.source_start, start, false));
            }
        }
        let silence_start = if start > clip.source_start { start } else { clip.source_start };
        let silence_end = if end < clip.source_end { end } else { clip.source_end };
        out.push(Clip::new(silence_start, silence_end, true));
        proof {
            pieces = pieces.push(Clip::spec_new(silence_start, silence_end, true));
            assert(out@ == before + pieces);
        }
        if end < clip.source_end {
            out.push(Clip::new(end, clip.source_end, false));
            proof {
                pieces = pieces.push(Clip::spec_new(end, clip.source_end, false));
            }
        }
        assert(out@ == before + pieces);
        assert(pieces == split_clip(*clip, start, end));
    }
}

/// Every clip split by the one interval `start..end`.
fn split_clips_by(clips: &Vec<Clip>, start: u64, end: u64) -> (out: Vec<Clip>)
    ensures
        out@ == split_clips(clips@, start, end),
{
    let mut out: Vec<Clip> = Vec::new();
    let mut i: usize = 0;
    while i < clips.len()
        invariant
            i <= clips.len(),
            out@ == split_clips(clips@.take(i as int), start, end),
        decreases clips.len() - i,
    {
        proof {
            assert(clips@.take(i + 1).drop_last() == clips@.take(i as int));
        }
        push_split_clip(&mut out, &clips[i], start, end);
        i += 1;
    }
    proof {
        assert(clips@.take(clips.len() as int) == clips@);
    }
    out
}


/// What is left of one silence interval at the given softness.
///
/// At zero the interval stays as it is. Otherwise a part of the silence is
/// kept as a pause on both sides of the cut, so the interval to cut shrinks
/// from both ends; where the two paddings use the interval up, nothing is cut.
pub fn soften(range: Range, percent: u8) -> (out: Option<Range>)
    ensures
        out == soften_range(range, percent),
{
    if percent == 0 {
        return Some(range);
    }
    let start = range.0;
    let end = range.1;
    if end <= start {
        return None;
    }
    let duration: u64 = end - start;
    assert(duration * percent <= 0xffff_ffff_ffff_ffff * 255) by (nonlinear_arith)
        requires
            duration <= 0xffff_ffff_ffff_ffff,
            percent <= 255,
    ;
    let scaled: u128 = duration as u128 * percent as u128;
    let raw_pre: u128 = scaled * 4 / 1000;
    let raw_post: u128 = scaled * 6 / 1000;
    let pre: u64 = if raw_pre < MIN_PRE_PADDING as u128 {
        MIN_PRE_PADDING
    } else if raw_pre > MAX_PRE_PADDING as u128 {
        MAX_PRE_PADDING
    } else {
        raw_pre as u64
    };
    let post: u64 = if raw_post < MIN_POST_PADDING as u128 {
        MIN_POST_PADDING
    } else if raw_post > MAX_POST_PADDING as u128 {
        MAX_POST_PADDING
    } else {
        raw_post as u64
    };
    assert(pre == pre_padding(range, percent));
    assert(post == post_padding(range, percent));
    if pre + post >= duration {
        None
    } else {
        Some((start + pre, end - post))
    }
}

/// The intervals at the given softness, without those that are used up.
pub fn soften_ranges(ranges: &Vec<Range>, percent: u8) -> (out: Vec<Range>)
    ensures
        out@ == softened(ranges@, percent),
{
    let mut out: Vec<Range> = Vec::new();
    let mut i: usize = 0;
    while i < ranges.len()
        invariant
            i <= ranges.len(),
            out@ == softened(ranges@.take(i as int), percent),
        decreases ranges.len() - i,
    {
        proof {
            assert(ranges@.take(i + 1).drop_last() == ranges@.take(i as int));
        }
        match soften(ranges[i], percent) {
            Some(range) => {
                out.push(range);
            },
            None => {},
        }
        i += 1;
    }
    proof {
        assert(ranges@.take(ranges.len() as int) == ranges@);
    }
    out
}

impl Timeline {
    /// Creates a timeline with a single content clip over the whole video.
    pub fn new(video_duration: u64, video_path: String) -> (timeline: Timeline)
        ensures
            timeline.clips@ == whole_source(video_duration),
            timeline.total_duration == video_duration,
            timeline.video_path == video_path,
            timeline.audio_path is None,
            timeline.raw_silence_ranges@ == Seq::<Range>::empty(),
            timeline.wf(),
            timeline.is_contiguous(),
    {
        let mut clips: Vec<Clip> = Vec::new();
        clips.push(Clip::new(0, video_duration, false));
        assert(clips@ == whole_source(video_duration));
        assert(contiguous(clips@)) by {
            reveal_with_fuel(span_before, 2);
        }
        Timeline {
            clips,
            total_duration: video_duration,
            video_path,
            audio_path: None,
            raw_silence_ranges: Vec::new(),
        }
    }

    /// The clips are in source order inside the source, and no stored silence
    /// interval is the wrong way round. [`Timeline::new`] sets this up and
    /// every operation keeps it.
    pub open spec fn wf(&self) -> bool {
        &&& source_ordered(self.clips@)
        &&& within_source(self.clips@, self.total_duration)
        &&& ranges_valid(self.raw_silence_ranges@)
    }

    /// The playback timeline is gap-free from zero.
    pub open spec fn is_contiguous(&self) -> bool {
        contiguous(self.clips@)
    }

    /// Everything but the clip list is as in `other`.
    pub open spec fn same_source_as(&self, other: &Timeline) -> bool {
        &&& self.total_duration == other.total_duration
        &&& self.video_path == other.video_path
        &&& self.audio_path == other.audio_path
        &&& self.raw_silence_ranges == other.raw_silence_ranges
    }

    /// Whether the timeline is well formed: the clips in source order inside
    /// the source, and no stored silence interval the wrong way round.
    pub fn is_well_formed(&self) -> (ok: bool)
        ensures
            ok == self.wf(),
    {
        let mut i: usize = 0;
        while i < self.clips.len()
            invariant
                i <= self.clips.len(),
                source_ordered(self.clips@.take(i as int)),
                within_source(self.clips@.take(i as int), self.total_duration),
            decreases self.clips.len() - i,
        {
            let clip = self.clips[i];
            if clip.source_start > clip.source_end || clip.source_end > self.total_duration {
                return false;
            }
            if i > 0 && self.clips[i - 1].source_end > clip.source_start {
                return false;
            }
            proof {
                let before = self.clips@.take(i as int);
                let now = self.clips@.take(i + 1);
                assert forall|a: int| 0 <= a < now.len() implies (#[trigger] now[a]).source_start
                    <= now[a].source_end && now[a].source_end <= self.total_duration by {
                    if a < i {
                        assert(now[a] == before[a]);
                    }
                }
                assert forall|a: int, b: int| 0 <= a < b < now.len() implies (
                #[trigger] now[a]).source_end <= (#[trigger] now[b]).source_start by {
                    if b < i {
                        assert(now[a] == before[a] && now[b] == before[b]);
                    } else if a == i - 1 {
                    } else {
                        assert(now[a] == before[a]);
                        assert(before[a].source_end <= before[i - 1].source_start);
                        assert(before[i - 1].source_start <= before[i - 1].source_end);
                    }
                }
            }
            i += 1;
        }
        proof {
            assert(self.clips@.take(self.clips.len() as int) == self.clips@);
        }
        let mut k: usize = 0;
        while k < self.raw_silence_ranges.len()
            invariant
                k <= self.raw_silence_ranges.len(),
                forall|a: int| 0 <= a < k ==> (#[trigger] self.raw_silence_ranges@[a]).0
                    <= self.raw_silence_ranges@[a].1,
            decreases self.raw_silence_ranges.len() - k,
        {
            let range = self.raw_silence_ranges[k];
            if range.0 > range.1 {
                return false;
            }
            k += 1;
        }
        true
    }

    /// Stores the detector's intervals and splits the clips by them, taken in
    /// ascending order of their starts. Timeline positions are not laid out
    /// again: new clips sit on the timeline where they sit in the source.
    pub fn split_by_silence(&mut self, silence_ranges: Vec<Range>)
        ensures
            final(self).clips@ == split_all(old(self).clips@, sort_by_start(silence_ranges@)),
            final(self).raw_silence_ranges@ == silence_ranges@,
            final(self).total_duration == old(self).total_duration,
            final(self).video_path == old(self).video_path,
            final(self).audio_path == old(self).audio_path,
            old(self).wf() && ranges_valid(silence_ranges@) ==> final(self).wf(),
    {
        self.apply_silence_splitting(&silence_ranges);
        proof {
            if old(self).wf() && ranges_valid(silence_ranges@) {
                lemma_sort_by_start(silence_ranges@);
                lemma_split_all(old(self).clips@, sort_by_start(silence_ranges@));
            }
        }
        self.raw_silence_ranges = silence_ranges;
    }

    /// Removes every silence clip. The timeline is left with the gaps this
    /// tears; [`Timeline::recalculate_timeline_times`] closes them.
    pub fn delete_silence_clips(&mut self)
        ensures
            final(self).clips@ == content_clips(old(self).clips@),
            final(self).same_source_as(old(self)),
            old(self).wf() ==> final(self).wf(),
    {
        let mut kept: Vec<Clip> = Vec::new();
        let mut i: usize = 0;
        while i < self.clips.len()
            invariant
                i <= self.clips.len(),
                *self == *old(self),
                kept@ == content_clips(self.clips@.take(i as int)),
            decreases self.clips.len() - i,
        {
            proof {
                reveal(Seq::filter);
                assert(self.clips@.take(i + 1).drop_last() == self.clips@.take(i as int));
            }
            let clip = self.clips[i];
            if !clip.is_silence {
                kept.push(clip);
            }
            i += 1;
        }
        proof {
            assert(self.clips@.take(self.clips.len() as int) == self.clips@);
            if old(self).wf() {
                lemma_filter_ordered(old(self).clips@, |clip: Clip| !clip.is_silence);
            }
        }
        self.clips = kept;
    }

    /// Lays the clips end to end on the timeline from zero, each as long as
    /// it is in the source.
    pub fn recalculate_timeline_times(&mut self)
        requires
            old(self).wf(),
        ensures
            final(self).clips@ == retimed(old(self).clips@),
            final(self).same_source_as(old(self)),
            final(self).wf(),
            final(self).is_contiguous(),
    {
        let ghost before = self.clips@;
        let mut position: u64 = 0;
        let mut i: usize = 0;
        while i < self.clips.len()
            invariant
                i <= self.clips.len(),
                self.clips@.len() == before.len(),
                source_ordered(before),
                position == span_before(before, i as int),
                forall|j: int| 0 <= j < i ==> #[trigger] self.clips@[j] == retimed(before)[j],
                forall|j: int| i <= j < before.len() ==> #[trigger] self.clips@[j] == before[j],
                self.same_source_as(old(self)),
            decreases self.clips.len() - i,
        {
            let clip = self.clips[i];
            proof {
                lemma_span_before_bounded(before, i + 1);
                assert(before[i as int].source_start <= before[i as int].source_end);
            }
            let duration = clip.duration();
            let end: u64 = position + duration;
            self.clips.set(
                i,
                Clip {
                    timeline_start: position,
                    timeline_end: end,
                    source_start: clip.source_start,
                    source_end: clip.source_end,
                    is_silence: clip.is_silence,
                    included: clip.included,
                },
            );
            position = end;
            i += 1;
        }
        proof {
            assert(self.clips@ =~= retimed(before));
            lemma_retimed(before);
        }
    }

    /// Flips whether the clip at `index` takes part in the export. Nothing
    /// else changes, timeline positions neither.
    pub fn toggle_segment_include(&mut self, index: usize) -> (result: Result<(), Error>)
        ensures
            index >= old(self).clips@.len() ==> result == Err::<(), Error>(Error::IndexOutOfBounds)
                && *final(self) == *old(self),
            index < old(self).clips@.len() ==> result is Ok && final(self).clips@ == old(
                self,
            ).clips@.update(index as int, old(self).clips@[index as int].toggled())
                && final(self).same_source_as(old(self)),
            old(self).wf() ==> final(self).wf(),
            old(self).is_contiguous() ==> final(self).is_contiguous(),
    {
        if index >= self.clips.len() {
            return Err(Error::IndexOutOfBounds);
        }
        let clip = self.clips[index];
        self.clips.set(
            index,
            Clip {
                timeline_start: clip.timeline_start,
                timeline_end: clip.timeline_end,
                source_start: clip.source_start,
                source_end: clip.source_end,
                is_silence: clip.is_silence,
                included: !clip.included,
            },
        );
        proof {
            let before = old(self).clips@;
            let after = self.clips@;
            assert forall|i: int| 0 <= i < after.len() implies (#[trigger] after[i]).source_start
                == before[i].source_start && after[i].source_end == before[i].source_end
                && after[i].timeline_start == before[i].timeline_start && after[i].timeline_end
                == before[i].timeline_end by {}
            if old(self).wf() {
                assert forall|i: int, j: int| 0 <= i < j < after.len() implies (
                #[trigger] after[i]).source_end <= (#[trigger] after[j]).source_start by {
                    assert(before[i].source_end <= before[j].source_start);
                }
                assert forall|i: int| 0 <= i < after.len() implies (#[trigger] after[i]).source_start
                    <= after[i].source_end && after[i].source_end <= self.total_duration by {
                    assert(before[i].source_start <= before[i].source_end);
                    assert(before[i].source_end <= self.total_duration);
                }
            }
            if old(self).is_contiguous() {
                lemma_span_before_agrees(after, before, after.len() as int);
                assert forall|i: int| 0 <= i < after.len() implies (
                #[trigger] after[i]).keeps_length() by {
                    assert(before[i].keeps_length());
                }
                assert forall|i: int, j: int|
                    0 <= i < after.len() && j == i + 1 && j < after.len() implies (
                #[trigger] after[i]).timeline_end == (#[trigger] after[j]).timeline_start by {
                    assert(before[i].timeline_end == before[j].timeline_start);
                }
            }
        }
        Ok(())
    }

    /// Removes the clip at `index` and lays the rest end to end again.
    pub fn remove_segment(&mut self, index: usize) -> (result: Result<(), Error>)
        requires
            old(self).wf(),
        ensures
            index >= old(self).clips@.len() ==> result == Err::<(), Error>(Error::IndexOutOfBounds)
                && *final(self) == *old(self),
            index < old(self).clips@.len() ==> result is Ok && final(self).clips@ == removed_at(
                old(self).clips@,
                index as int,
            ) && final(self).same_source_as(old(self)),
            final(self).wf(),
            result is Ok ==> final(self).is_contiguous(),
    {
        if index >= self.clips.len() {
            return Err(Error::IndexOutOfBounds);
        }
        proof {
            lemma_remove_ordered(self.clips@, index as int);
        }
        self.clips.remove(index);
        self.recalculate_timeline_times();
        Ok(())
    }

    /// Merges the clip at `index` with the clip behind it: the clip at
    /// `index` reaches to the end of the other, which goes; the merged clip
    /// keeps the flags of the clip at `index`. The timeline is laid out again.
    pub fn merge_segments(&mut self, index: usize) -> (result: Result<(), Error>)
        requires
            old(self).wf(),
        ensures
            index >= old(self).clips@.len() ==> result == Err::<(), Error>(Error::IndexOutOfBounds),
            index + 1 == old(self).clips@.len() ==> result == Err::<(), Error>(Error::NoNextSegment),
            index + 1 < old(self).clips@.len() ==> result is Ok && final(self).clips@ == merged_at(
                old(self).clips@,
                index as int,
            ) && final(self).same_source_as(old(self)),
            result is Err ==> *final(self) == *old(self),
            final(self).wf(),
            result is Ok ==> final(self).is_contiguous(),
    {
        if index >= self.clips.len() {
            return Err(Error::IndexOutOfBounds);
        }
        if index + 1 >= self.clips.len() {
            return Err(Error::NoNextSegment);
        }
        proof {
            lemma_merge_ordered(self.clips@, index as int);
        }
        let next = self.clips.remove(index + 1);
        let clip = self.clips[index];
        self.clips.set(
            index,
            Clip {
                timeline_start: clip.timeline_start,
                timeline_end: clip.timeline_end,
                source_start: clip.source_start,
                source_end: next.source_end,
                is_silence: clip.is_silence,
                included: clip.included,
            },
        );
        self.recalculate_timeline_times();
        Ok(())
    }

    /// Moves the boundary between the clip at `index` and the clip behind it
    /// to `new_time` in the source, and lays the timeline out again.
    ///
    /// The new boundary has to lie strictly after the start of the first clip
    /// and strictly before the end of the second, so that both keep a length.
    pub fn adjust_segment_boundary(&mut self, index: usize, new_time: u64) -> (result: Result<
        (),
        Error,
    >)
        requires
            old(self).wf(),
        ensures
            index + 1 >= old(self).clips@.len() ==> result == Err::<(), Error>(Error::NoNextSegment),
            index + 1 < old(self).clips@.len() && !boundary_in_range(
                old(self).clips@,
                index as int,
                new_time,
            ) ==> result == Err::<(), Error>(Error::BoundaryOutOfRange),
            index + 1 < old(self).clips@.len() && boundary_in_range(
                old(self).clips@,
                index as int,
                new_time,
            ) ==> result is Ok && final(self).clips@ == boundary_moved(
                old(self).clips@,
                index as int,
                new_time,
            ) && final(self).same_source_as(old(self)),
            result is Err ==> *final(self) == *old(self),
            final(self).wf(),
            result is Ok ==> final(self).is_contiguous(),
    {
        if self.clips.len() < 2 || index > self.clips.len() - 2 {
            return Err(Error::NoNextSegment);
        }
        let current = self.clips[index];
        let next = self.clips[index + 1];
        if new_time <= current.source_start || new_time >= next.source_end {
            return Err(Error::BoundaryOutOfRange);
        }
        proof {
            lemma_boundary_ordered(self.clips@, index as int, new_time);
        }
        self.clips.set(
            index,
            Clip {
                timeline_start: current.timeline_start,
                timeline_end: current.timeline_end,
                source_start: current.source_start,
                source_end: new_time,
                is_silence: current.is_silence,
                included: current.included,
            },
        );
        self.clips.set(
            index + 1,
            Clip {
                timeline_start: next.timeline_start,
                timeline_end: next.timeline_end,
                source_start: new_time,
                source_end: next.source_end,
                is_silence: next.is_silence,
                included: next.included,
            },
        );
        self.recalculate_timeline_times();
        Ok(())
    }

    /// Sets how soft the cuts are, from 0 (cut all detected silence) upwards.
    ///
    /// The clips are thrown away and made again from the whole source and the
    /// stored raw intervals, each shortened for the given softness, so the
    /// result does not depend on any softness set before.
    pub fn apply_softness(&mut self, softness_percent: u8)
        requires
            ranges_valid(old(self).raw_silence_ranges@),
        ensures
            final(self).clips@ == softened_clips(
                old(self).total_duration,
                old(self).raw_silence_ranges@,
                softness_percent,
            ),
            final(self).same_source_as(old(self)),
            final(self).wf(),
            final(self).is_contiguous(),
    {
        let mut clips: Vec<Clip> = Vec::new();
        clips.push(Clip::new(0, self.total_duration, false));
        assert(clips@ == whole_source(self.total_duration));
        self.clips = clips;
        let effective = soften_ranges(&self.raw_silence_ranges, softness_percent);
        proof {
            lemma_softened_valid(self.raw_silence_ranges@, softness_percent);
            lemma_sort_by_start(effective@);
            assert(source_ordered(self.clips@));
            assert(within_source(self.clips@, self.total_duration));
            lemma_split_all(self.clips@, sort_by_start(effective@));
        }
        self.apply_silence_splitting(&effective);
        self.recalculate_timeline_times();
    }

    /// The position of the first clip whose source extent, start counted in
    /// and end counted out, holds `source_time`.
    pub fn segment_at_time(&self, source_time: u64) -> (found: Option<usize>)
        ensures
            match found {
                Some(index) => index < self.clips@.len() && holds_source_time(
                    self.clips@[index as int],
                    source_time,
                ) && forall|i: int|
                    0 <= i < index ==> !holds_source_time(#[trigger] self.clips@[i], source_time),
                None => forall|i: int|
                    0 <= i < self.clips@.len() ==> !holds_source_time(
                        #[trigger] self.clips@[i],
                        source_time,
                    ),
            },
    {
        let mut i: usize = 0;
        while i < self.clips.len()
            invariant
                i <= self.clips.len(),
                forall|k: int| 0 <= k < i ==> !holds_source_time(#[trigger] self.clips@[k], source_time),
            decreases self.clips.len() - i,
        {
            let clip = self.clips[i];
            if source_time >= clip.source_start && source_time < clip.source_end {
                return Some(i);
            }
            i += 1;
        }
        None
    }

    /// Splits the clips by the given silence intervals, taken in ascending
    /// order of their starts, each working on what the ones before it left.
    fn apply_silence_splitting(&mut self, silence_ranges: &Vec<Range>)
        ensures
            final(self).clips@ == split_all(old(self).clips@, sort_by_start(silence_ranges@)),
            final(self).total_duration == old(self).total_duration,
            final(self).video_path == old(self).video_path,
            final(self).audio_path == old(self).audio_path,
            final(self).raw_silence_ranges == old(self).raw_silence_ranges,
    {
        let sorted = sort_ranges(silence_ranges);
        let mut k: usize = 0;
        while k < sorted.len()
            invariant
                k <= sorted.len(),
                self.clips@ == split_all(old(self).clips@, sorted@.take(k as int)),
                self.total_duration == old(self).total_duration,
                self.video_path == old(self).video_path,
                self.audio_path == old(self).audio_path,
                self.raw_silence_ranges == old(self).raw_silence_ranges,
            decreases sorted.len() - k,
        {
            proof {
                assert(sorted@.take(k + 1).drop_last() == sorted@.take(k as int));
            }
            let range = sorted[k];
            self.clips = split_clips_by(&self.clips, range.0, range.1);
            k += 1;
        }
        proof {
            assert(sorted@.take(sorted.len() as int) == sorted@);
        }
    }
}

} // verus!
