//! What an export takes from a timeline.

use super::filter::{build_filter_complex_from_clips, filter_complex};
use crate::error::Error;
use crate::timeline::clip::Clip;
use crate::timeline::lemmas::{lemma_filter_ordered, lemma_span_before_bounded};
use crate::timeline::model::{source_ordered, span_before, total_span};
use crate::timeline::timeline::Timeline;
use vstd::prelude::*;

verus! {

/// What the encoder is handed for one export.
#[derive(Debug, Clone, PartialEq, Eq)]
pub struct ExportPlan {
    /// The clips that are exported, in order.
    pub clips: Vec<Clip>,
    /// The filter graph that trims these clips out of the source and joins
    /// them.
    pub filter: String,
    /// Length of the exported video in microseconds.
    pub total_duration: u64,
}

/// The clips that are marked for export, in order.
pub open spec fn exported_clips(clips: Seq<Clip>) -> Seq<Clip> {
    clips.filter(|clip: Clip| clip.included)
}

/// The clips of the list that are marked for export.
pub fn select_exported(clips: &Vec<Clip>) -> (kept: Vec<Clip>)
    ensures
        kept@ == exported_clips(clips@),
{
    let mut kept: Vec<Clip> = Vec::new();
    let mut i: usize = 0;
    while i < clips.len()
        invariant
            i <= clips.len(),
            kept@ == exported_clips(clips@.take(i as int)),
        decreases clips.len() - i,
    {
        proof {
            reveal(Seq::filter);
            assert(clips@.take(i + 1).drop_last() == clips@.take(i as int));
        }
        let clip = clips[i];
        if clip.included {
            kept.push(clip);
        }
        i += 1;
    }
    proof {
        assert(clips@.take(clips.len() as int) == clips@);
    }
    kept
}

/// The summed length of clips that are in source order.
pub fn total_duration_of(clips: &Vec<Clip>) -> (total: u64)
    requires
        source_ordered(clips@),
    ensures
        total == total_span(clips@),
{
    let mut total: u64 = 0;
    let mut i: usize = 0;
    while i < clips.len()
        invariant
            i <= clips.len(),
            source_ordered(clips@),
            total == span_before(clips@, i as int),
        decreases clips.len() - i,
    {
        proof {
            lemma_span_before_bounded(clips@, i + 1);
            assert(clips@[i as int].source_start <= clips@[i as int].source_end);
        }
        total = total + clips[i].duration();
        i += 1;
    }
    total
}

/// Prepares the export of a timeline: the clips marked for export, the filter
/// graph for them, and the length of what comes out. There is nothing to
/// export where no clip is marked.
pub fn plan_export(timeline: &Timeline) -> (result: Result<ExportPlan, Error>)
    requires
        timeline.wf(),
    ensures
        exported_clips(timeline.clips@).len() == 0 ==> result == Err::<ExportPlan, Error>(
            Error::ExportError,
        ),
        exported_clips(timeline.clips@).len() > 0 ==> (result matches Ok(plan) && plan.clips@
            == exported_clips(timeline.clips@) && plan.filter@ == filter_complex(plan.clips@)
            && plan.total_duration == total_span(plan.clips@)),
{
    let clips = select_exported(&timeline.clips);
    if clips.len() == 0 {
        return Err(Error::ExportError);
    }
    proof {
        lemma_filter_ordered(timeline.clips@, |clip: Clip| clip.included);
    }
    let total_duration = total_duration_of(&clips);
    match build_filter_complex_from_clips(clips.as_slice()) {
        Ok(filter) => Ok(ExportPlan { clips, filter, total_duration }),
        Err(_) => Err(Error::ExportError),
    }
}

} // verus!
