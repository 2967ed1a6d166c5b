use vstd::prelude::*;

verus! {

/// One contiguous segment of the edited video.
///
/// Every time is a whole number of microseconds. A clip has an extent in the
/// playback timeline, which is gap-free, and an extent in the unedited source
/// file, which keeps gaps where content was removed.
#[derive(Debug, Clone, Copy, PartialEq, Eq)]
pub struct Clip {
    /// Start in the playback timeline.
    pub timeline_start: u64,
    /// End in the playback timeline.
    pub timeline_end: u64,
    /// Start in the source file.
    pub source_start: u64,
    /// End in the source file.
    pub source_end: u64,
    /// Whether the segment was classified as silence when it was cut.
    pub is_silence: bool,
    /// Whether the segment takes part in the export.
    pub included: bool,
}

impl Clip {
    /// The clip that [`Clip::new`] builds: its timeline range equals its source
    /// range, content is kept for export and silence is left out.
    pub open spec fn spec_new(source_start: u64, source_end: u64, is_silence: bool) -> Clip {
        Clip {
            timeline_start: source_start,
            timeline_end: source_end,
            source_start,
            source_end,
            is_silence,
            included: !is_silence,
        }
    }

    /// Length of the clip in the source file. Negative where the clip's ends
    /// are the wrong way round.
    pub open spec fn span(&self) -> int {
        self.source_end - self.source_start
    }

    /// Both extents start before they end.
    pub open spec fn spec_is_valid(&self) -> bool {
        &&& self.source_end > self.source_start
        &&& self.timeline_end > self.timeline_start
    }

    /// The timeline extent is as long as the source extent: a clip is moved
    /// along the timeline, never stretched.
    pub open spec fn keeps_length(&self) -> bool {
        self.timeline_end - self.timeline_start == self.source_end - self.source_start
    }

    /// The timeline extent, half-open, holds `time`.
    pub open spec fn spec_contains_timeline_time(&self, time: u64) -> bool {
        self.timeline_start <= time < self.timeline_end
    }

    /// The clip with `included` flipped.
    pub open spec fn toggled(&self) -> Clip {
        Clip { included: !self.included, ..*self }
    }

    /// The clip with its source extent ending at `source_end`.
    pub open spec fn with_source_end(&self, source_end: u64) -> Clip {
        Clip { source_end, ..*self }
    }

    /// The clip with its source extent starting at `source_start`.
    pub open spec fn with_source_start(&self, source_start: u64) -> Clip {
        Clip { source_start, ..*self }
    }

    /// Creates a clip whose timeline range equals its source range.
    pub fn new(source_start: u64, source_end: u64, is_silence: bool) -> (clip: Clip)
        ensures
            clip == Clip::spec_new(source_start, source_end, is_silence),
    {
        Clip {
            timeline_start: source_start,
            timeline_end: source_end,
            source_start,
            source_end,
            is_silence,
            included: !is_silence,
        }
    }

    /// Length of the clip in microseconds, measured in the source file.
    pub fn duration(&self) -> (d: u64)
        requires
            self.source_start <= self.source_end,
        ensures
            d == self.span(),
    {
        self.source_end - self.source_start
    }

    /// Whether both extents of the clip start before they end.
    #[verifier::when_used_as_spec(spec_is_valid)]
    pub fn is_valid(&self) -> (valid: bool)
        ensures
            valid == self.spec_is_valid(),
    {
        self.source_end > self.source_start && self.timeline_end > self.timeline_start
    }

    /// Whether `time` falls into the clip's timeline extent, start counted in
    /// and end counted out.
    #[verifier::when_used_as_spec(spec_contains_timeline_time)]
    pub fn contains_timeline_time(&self, time: u64) -> (inside: bool)
        ensures
            inside == self.spec_contains_timeline_time(time),
    {
        time >= self.timeline_start && time < self.timeline_end
    }

    /// Maps a timeline time to the source time that plays at it.
    ///
    /// The time is taken to lie at or after the clip's timeline start; it is
    /// carried over by its offset from there.
    pub fn timeline_to_source(&self, timeline_time: u64) -> (source_time: u64)
        requires
            self.timeline_start <= timeline_time,
            self.source_start + (timeline_time - self.timeline_start) <= u64::MAX,
        ensures
            source_time == self.source_start + (timeline_time - self.timeline_start),
    {
        let offset: u64 = timeline_time - self.timeline_start;
        self.source_start + offset
    }
}

} // verus!
