use video_silence_remover::error::Error;
use video_silence_remover::timeline::timeline::{soften, soften_ranges, sort_ranges};
use video_silence_remover::timeline::{Clip, Timeline};

/// One second in the library's time unit.
const SECOND: u64 = 1_000_000;

#[test]
fn test_timeline_creation() {
    let timeline = Timeline::new(10 * SECOND, "test.mp4".to_string());
    assert_eq!(timeline.clips.len(), 1);
    assert_eq!(timeline.total_duration, 10 * SECOND);
    assert_eq!(timeline.clips[0].source_start, 0);
    assert_eq!(timeline.clips[0].source_end, 10 * SECOND);
}

#[test]
fn test_split_by_silence() {
    let mut timeline = Timeline::new(10 * SECOND, "test.mp4".to_string());

    timeline.split_by_silence(vec![(3 * SECOND, 5 * SECOND)]);

    assert_eq!(timeline.clips.len(), 3);
    assert_eq!(timeline.clips[0].is_silence, false);
    assert_eq!(timeline.clips[1].is_silence, true);
    assert_eq!(timeline.clips[2].is_silence, false);
}

#[test]
fn test_delete_silence() {
    let mut timeline = Timeline::new(10 * SECOND, "test.mp4".to_string());
    timeline.split_by_silence(vec![(3 * SECOND, 5 * SECOND)]);

    timeline.delete_silence_clips();

    assert_eq!(timeline.clips.len(), 2);
    assert!(timeline.clips.iter().all(|c| !c.is_silence));
}

fn split_timeline() -> Timeline {
    let mut timeline = Timeline::new(10 * SECOND, "test.mp4".to_string());
    timeline.split_by_silence(vec![(3 * SECOND, 5 * SECOND)]);
    timeline
}

fn source_extents(timeline: &Timeline) -> Vec<(u64, u64)> {
    timeline.clips.iter().map(|c| (c.source_start, c.source_end)).collect()
}

fn timeline_extents(timeline: &Timeline) -> Vec<(u64, u64)> {
    timeline.clips.iter().map(|c| (c.timeline_start, c.timeline_end)).collect()
}

#[test]
fn new_timeline_has_no_audio_and_no_ranges() {
    let timeline = Timeline::new(10 * SECOND, "test.mp4".to_string());
    assert_eq!(timeline.video_path, "test.mp4");
    assert_eq!(timeline.audio_path, None);
    assert!(timeline.raw_silence_ranges.is_empty());
    assert_eq!(timeline.clips[0], Clip::new(0, 10 * SECOND, false));
}

#[test]
fn split_yields_content_silence_content() {
    let timeline = split_timeline();
    assert_eq!(
        timeline.clips,
        vec![
            Clip::new(0, 3 * SECOND, false),
            Clip::new(3 * SECOND, 5 * SECOND, true),
            Clip::new(5 * SECOND, 10 * SECOND, false),
        ]
    );
    let flags: Vec<bool> = timeline.clips.iter().map(|c| c.included).collect();
    assert_eq!(flags, vec![true, false, true]);
    assert_eq!(timeline.raw_silence_ranges, vec![(3 * SECOND, 5 * SECOND)]);
}

#[test]
fn split_takes_intervals_in_order_of_start() {
    let mut timeline = Timeline::new(10 * SECOND, "test.mp4".to_string());
    timeline.split_by_silence(vec![(7 * SECOND, 8 * SECOND), (SECOND, 2 * SECOND)]);
    assert_eq!(
        source_extents(&timeline),
        vec![
            (0, SECOND),
            (SECOND, 2 * SECOND),
            (2 * SECOND, 7 * SECOND),
            (7 * SECOND, 8 * SECOND),
            (8 * SECOND, 10 * SECOND),
        ]
    );
    let silence: Vec<bool> = timeline.clips.iter().map(|c| c.is_silence).collect();
    assert_eq!(silence, vec![false, true, false, true, false]);
    assert_eq!(
        timeline.raw_silence_ranges,
        vec![(7 * SECOND, 8 * SECOND), (SECOND, 2 * SECOND)]
    );
}

#[test]
fn split_cuts_silence_to_the_clip() {
    let mut timeline = Timeline::new(10 * SECOND, "test.mp4".to_string());
    timeline.split_by_silence(vec![(0, 2 * SECOND), (9 * SECOND, 12 * SECOND)]);
    assert_eq!(
        timeline.clips,
        vec![
            Clip::new(0, 2 * SECOND, true),
            Clip::new(2 * SECOND, 9 * SECOND, false),
            Clip::new(9 * SECOND, 10 * SECOND, true),
        ]
    );
}

#[test]
fn split_leaves_clips_outside_the_interval_alone() {
    let mut timeline = Timeline::new(10 * SECOND, "test.mp4".to_string());
    timeline.split_by_silence(vec![(10 * SECOND, 11 * SECOND)]);
    assert_eq!(timeline.clips, vec![Clip::new(0, 10 * SECOND, false)]);
}

#[test]
fn split_never_splits_silence_again() {
    let mut timeline = split_timeline();
    timeline.split_by_silence(vec![(4 * SECOND, 6 * SECOND)]);
    assert_eq!(
        timeline.clips,
        vec![
            Clip::new(0, 3 * SECOND, false),
            Clip::new(3 * SECOND, 5 * SECOND, true),
            Clip::new(5 * SECOND, 6 * SECOND, true),
            Clip::new(6 * SECOND, 10 * SECOND, false),
        ]
    );
}

#[test]
fn split_delete_recalculate_closes_the_gap() {
    let mut timeline = split_timeline();
    timeline.delete_silence_clips();
    timeline.recalculate_timeline_times();
    assert_eq!(source_extents(&timeline), vec![(0, 3 * SECOND), (5 * SECOND, 10 * SECOND)]);
    assert_eq!(timeline_extents(&timeline), vec![(0, 3 * SECOND), (3 * SECOND, 8 * SECOND)]);
    assert_eq!(timeline.clips[1].timeline_end, 10 * SECOND - 2 * SECOND);
}

#[test]
fn delete_without_recalculate_leaves_the_gap() {
    let mut timeline = split_timeline();
    timeline.delete_silence_clips();
    assert_eq!(timeline_extents(&timeline), vec![(0, 3 * SECOND), (5 * SECOND, 10 * SECOND)]);
}

#[test]
fn toggle_flips_one_flag_only() {
    let mut timeline = split_timeline();
    let before = timeline.clips.clone();
    assert_eq!(timeline.toggle_segment_include(1), Ok(()));
    assert_eq!(timeline.clips[1].included, true);
    assert_eq!(timeline.clips[0], before[0]);
    assert_eq!(timeline.clips[2], before[2]);
    assert_eq!(timeline.clips[1].source_start, before[1].source_start);
    assert_eq!(timeline.clips[1].is_silence, true);
    assert_eq!(timeline.toggle_segment_include(1), Ok(()));
    assert_eq!(timeline.clips, before);
}

#[test]
fn toggle_out_of_bounds_fails() {
    let mut timeline = split_timeline();
    let before = timeline.clips.clone();
    assert_eq!(timeline.toggle_segment_include(3), Err(Error::IndexOutOfBounds));
    assert_eq!(timeline.clips, before);
}

#[test]
fn remove_segment_lays_the_rest_end_to_end() {
    let mut timeline = split_timeline();
    assert_eq!(timeline.remove_segment(0), Ok(()));
    assert_eq!(source_extents(&timeline), vec![(3 * SECOND, 5 * SECOND), (5 * SECOND, 10 * SECOND)]);
    assert_eq!(timeline_extents(&timeline), vec![(0, 2 * SECOND), (2 * SECOND, 7 * SECOND)]);
}

#[test]
fn remove_segment_out_of_bounds_fails() {
    let mut timeline = split_timeline();
    let before = timeline.clips.clone();
    assert_eq!(timeline.remove_segment(3), Err(Error::IndexOutOfBounds));
    assert_eq!(timeline.clips, before);
}

#[test]
fn remove_last_segment_leaves_no_clip() {
    let mut timeline = Timeline::new(10 * SECOND, "test.mp4".to_string());
    assert_eq!(timeline.remove_segment(0), Ok(()));
    assert!(timeline.clips.is_empty());
}

#[test]
fn merge_keeps_the_flags_of_the_first() {
    let mut timeline = split_timeline();
    assert_eq!(timeline.merge_segments(1), Ok(()));
    assert_eq!(timeline.clips.len(), 2);
    assert_eq!(source_extents(&timeline), vec![(0, 3 * SECOND), (3 * SECOND, 10 * SECOND)]);
    assert_eq!(timeline_extents(&timeline), vec![(0, 3 * SECOND), (3 * SECOND, 10 * SECOND)]);
    assert_eq!(timeline.clips[1].is_silence, true);
    assert_eq!(timeline.clips[1].included, false);
}

#[test]
fn merge_errors() {
    let mut timeline = split_timeline();
    let before = timeline.clips.clone();
    assert_eq!(timeline.merge_segments(2), Err(Error::NoNextSegment));
    assert_eq!(timeline.merge_segments(3), Err(Error::IndexOutOfBounds));
    assert_eq!(timeline.merge_segments(usize::MAX), Err(Error::IndexOutOfBounds));
    assert_eq!(timeline.clips, before);
}

#[test]
fn merge_then_remove_leaves_no_gap() {
    let mut timeline = Timeline::new(10 * SECOND, "test.mp4".to_string());
    timeline.split_by_silence(vec![(SECOND, 2 * SECOND), (4 * SECOND, 6 * SECOND)]);
    assert_eq!(timeline.clips.len(), 5);
    assert_eq!(timeline.merge_segments(0), Ok(()));
    assert_eq!(timeline.remove_segment(1), Ok(()));
    assert_eq!(
        source_extents(&timeline),
        vec![(0, 2 * SECOND), (4 * SECOND, 6 * SECOND), (6 * SECOND, 10 * SECOND)]
    );
    assert_eq!(
        timeline_extents(&timeline),
        vec![(0, 2 * SECOND), (2 * SECOND, 4 * SECOND), (4 * SECOND, 8 * SECOND)]
    );
}

#[test]
fn adjust_segment_boundary_moves_both_clips() {
    let mut timeline = split_timeline();
    assert_eq!(timeline.adjust_segment_boundary(0, 2_900_000), Ok(()));
    assert_eq!(
        source_extents(&timeline),
        vec![(0, 2_900_000), (2_900_000, 5 * SECOND), (5 * SECOND, 10 * SECOND)]
    );
    assert_eq!(
        timeline_extents(&timeline),
        vec![(0, 2_900_000), (2_900_000, 5 * SECOND), (5 * SECOND, 10 * SECOND)]
    );
}

#[test]
fn adjust_segment_boundary_out_of_range_fails() {
    let mut timeline = split_timeline();
    let before = timeline.clips.clone();
    assert_eq!(timeline.adjust_segment_boundary(0, 5_500_000), Err(Error::BoundaryOutOfRange));
    assert_eq!(timeline.adjust_segment_boundary(0, 5 * SECOND), Err(Error::BoundaryOutOfRange));
    assert_eq!(timeline.adjust_segment_boundary(0, 0), Err(Error::BoundaryOutOfRange));
    assert_eq!(timeline.clips, before);
    assert_eq!(timeline.adjust_segment_boundary(0, 5 * SECOND - 1), Ok(()));
    assert_eq!(timeline.clips[1].duration(), 1);
}

#[test]
fn adjust_segment_boundary_needs_a_next_segment() {
    let mut timeline = split_timeline();
    let before = timeline.clips.clone();
    assert_eq!(timeline.adjust_segment_boundary(2, 7 * SECOND), Err(Error::NoNextSegment));
    assert_eq!(timeline.adjust_segment_boundary(usize::MAX, 7 * SECOND), Err(Error::NoNextSegment));
    assert_eq!(timeline.clips, before);
    let mut single = Timeline::new(10 * SECOND, "test.mp4".to_string());
    assert_eq!(single.adjust_segment_boundary(0, SECOND), Err(Error::NoNextSegment));
}

#[test]
fn softness_zero_is_the_plain_split() {
    let mut timeline = split_timeline();
    timeline.delete_silence_clips();
    timeline.recalculate_timeline_times();
    timeline.apply_softness(0);
    assert_eq!(timeline.clips, split_timeline().clips);
}

#[test]
fn softness_shrinks_the_silence_from_both_ends() {
    // 2 s of silence at 50 %: 1 s kept, 0.4 s in front and 0.6 s behind,
    // held to 0.2 s and 0.3 s.
    let mut timeline = split_timeline();
    timeline.apply_softness(50);
    assert_eq!(
        source_extents(&timeline),
        vec![(0, 3_200_000), (3_200_000, 4_700_000), (4_700_000, 10 * SECOND)]
    );
    assert_eq!(timeline_extents(&timeline), source_extents(&timeline));
    assert_eq!(timeline.raw_silence_ranges, vec![(3 * SECOND, 5 * SECOND)]);
}

#[test]
fn softness_is_worked_out_from_the_raw_ranges_each_time() {
    let mut once = split_timeline();
    once.apply_softness(10);
    let mut twice = split_timeline();
    twice.apply_softness(100);
    twice.apply_softness(10);
    assert_eq!(once.clips, twice.clips);
    // 2 s at 10 %: 0.2 s kept, 0.08 s in front and 0.12 s behind.
    assert_eq!(once.clips[1].source_start, 3_080_000);
    assert_eq!(once.clips[1].source_end, 4_880_000);
}

#[test]
fn softness_holds_small_paddings_up_to_the_least() {
    // 1 s at 1 %: 4 ms and 6 ms, raised to 30 ms and 50 ms.
    let mut timeline = Timeline::new(10 * SECOND, "test.mp4".to_string());
    timeline.split_by_silence(vec![(2 * SECOND, 3 * SECOND)]);
    timeline.apply_softness(1);
    assert_eq!(timeline.clips[1].source_start, 2_030_000);
    assert_eq!(timeline.clips[1].source_end, 2_950_000);
}

#[test]
fn softness_drops_a_silence_that_the_paddings_use_up() {
    let mut timeline = Timeline::new(10 * SECOND, "test.mp4".to_string());
    timeline.split_by_silence(vec![(2 * SECOND, 2_080_000), (5 * SECOND, 5_400_000)]);
    assert_eq!(timeline.clips.len(), 5);
    timeline.apply_softness(100);
    // 80 ms: paddings of 32 ms and 50 ms use it up. 400 ms: 160 ms and 240 ms
    // use it up as well.
    assert_eq!(timeline.clips, vec![Clip::new(0, 10 * SECOND, false)]);
    timeline.apply_softness(50);
    // 400 ms at 50 %: 80 ms and 120 ms leave 200 ms.
    assert_eq!(
        source_extents(&timeline),
        vec![(0, 5_080_000), (5_080_000, 5_280_000), (5_280_000, 10 * SECOND)]
    );
}

#[test]
fn segment_at_time_finds_the_clip() {
    let timeline = split_timeline();
    assert_eq!(timeline.segment_at_time(0), Some(0));
    assert_eq!(timeline.segment_at_time(3 * SECOND), Some(1));
    assert_eq!(timeline.segment_at_time(5 * SECOND - 1), Some(1));
    assert_eq!(timeline.segment_at_time(10 * SECOND - 1), Some(2));
    assert_eq!(timeline.segment_at_time(10 * SECOND), None);
}

#[test]
fn softness_at_full_keeps_the_greatest_paddings() {
    // 2 s at 100 %: 0.8 s and 1.2 s, held to 0.2 s and 0.3 s.
    let mut timeline = split_timeline();
    timeline.apply_softness(100);
    assert_eq!(
        source_extents(&timeline),
        vec![(0, 3_200_000), (3_200_000, 4_700_000), (4_700_000, 10 * SECOND)]
    );
    for clip in &timeline.clips {
        assert!(clip.is_valid());
    }
}

#[test]
fn softness_lays_the_timeline_out_again() {
    let mut timeline = split_timeline();
    timeline.delete_silence_clips();
    timeline.recalculate_timeline_times();
    timeline.toggle_segment_include(0).unwrap();
    timeline.apply_softness(25);
    // 2 s at 25 %: 0.2 s in front and 0.3 s behind.
    assert_eq!(
        timeline.clips,
        vec![
            Clip::new(0, 3_200_000, false),
            Clip::new(3_200_000, 4_700_000, true),
            Clip::new(4_700_000, 10 * SECOND, false),
        ]
    );
}

#[test]
fn well_formed_timelines() {
    let mut timeline = split_timeline();
    assert!(timeline.is_well_formed());
    timeline.delete_silence_clips();
    assert!(timeline.is_well_formed());
    timeline.clips.swap(0, 1);
    assert!(!timeline.is_well_formed());
    timeline.clips.swap(0, 1);
    timeline.clips[1].source_end = 10 * SECOND + 1;
    assert!(!timeline.is_well_formed());
    timeline.clips[1].source_end = 10 * SECOND;
    timeline.clips[0].source_end = 6 * SECOND;
    assert!(!timeline.is_well_formed());
    timeline.clips[0].source_end = 3 * SECOND;
    timeline.raw_silence_ranges = vec![(5 * SECOND, 3 * SECOND)];
    assert!(!timeline.is_well_formed());
    timeline.raw_silence_ranges = vec![(5 * SECOND, 5 * SECOND)];
    assert!(timeline.is_well_formed());
}

#[test]
fn empty_timeline_stays_empty() {
    let mut timeline = Timeline::new(0, "test.mp4".to_string());
    assert_eq!(timeline.clips, vec![Clip::new(0, 0, false)]);
    timeline.split_by_silence(vec![(0, SECOND)]);
    assert_eq!(timeline.clips, vec![Clip::new(0, 0, false)]);
    timeline.recalculate_timeline_times();
    assert_eq!(timeline_extents(&timeline), vec![(0, 0)]);
}

#[test]
fn sorting_keeps_equal_starts_in_order() {
    let ranges = vec![(5, 9), (2, 3), (5, 6), (0, 1), (2, 8)];
    assert_eq!(sort_ranges(&ranges), vec![(0, 1), (2, 3), (2, 8), (5, 9), (5, 6)]);
    assert_eq!(sort_ranges(&Vec::new()), vec![]);
}

#[test]
fn softened_interval_by_the_formula() {
    // 1 s at 30 %: 0.3 s kept, 0.12 s in front and 0.18 s behind.
    assert_eq!(soften((2 * SECOND, 3 * SECOND), 30), Some((2_120_000, 2_820_000)));
    assert_eq!(soften((2 * SECOND, 3 * SECOND), 0), Some((2 * SECOND, 3 * SECOND)));
    // 90 ms: the least paddings of 30 ms and 50 ms leave 10 ms.
    assert_eq!(soften((0, 90_000), 1), Some((30_000, 40_000)));
    // 80 ms: the least paddings use it up.
    assert_eq!(soften((0, 80_000), 1), None);
    // An interval the wrong way round, or without length, is used up.
    assert_eq!(soften((SECOND, 0), 50), None);
    assert_eq!(soften((SECOND, SECOND), 50), None);
    assert_eq!(soften((SECOND, 0), 0), Some((SECOND, 0)));
    // The greatest values do not overflow.
    assert_eq!(soften((0, u64::MAX), 255), Some((200_000, u64::MAX - 300_000)));
    assert_eq!(
        soften_ranges(&vec![(0, 80_000), (2 * SECOND, 3 * SECOND)], 30),
        vec![(2_120_000, 2_820_000)]
    );
}
