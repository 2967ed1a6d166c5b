use video_silence_remover::error::Error;
use video_silence_remover::export::{
    build_filter_complex_from_clips, parse_progress_line, plan_export, progress_percentage,
};
use video_silence_remover::timeline::{Clip, Timeline};
#[test]
fn filter_for_two_clips() {
    let clips = vec![Clip::new(0, 3_000_000, false), Clip::new(5_000_000, 10_000_000, false)];
    let filter = build_filter_complex_from_clips(&clips).unwrap();
    assert_eq!(
        filter,
        "[0:v]trim=start=0:end=3,setpts=PTS-STARTPTS[v0];\
         [0:v]trim=start=5:end=10,setpts=PTS-STARTPTS[v1];\
         [0:a]atrim=start=0:end=3,asetpts=PTS-STARTPTS[a0];\
         [0:a]atrim=start=5:end=10,asetpts=PTS-STARTPTS[a1];\
         [v0][a0][v1][a1]concat=n=2:v=1:a=1[outv][outa]"
    );
}

#[test]
fn filter_writes_fractions_of_seconds() {
    let clips = vec![Clip::new(30_000, 2_900_000, false), Clip::new(12_000_001, 3_600_500_000, true)];
    let filter = build_filter_complex_from_clips(&clips).unwrap();
    assert_eq!(
        filter,
        "[0:v]trim=start=0.03:end=2.9,setpts=PTS-STARTPTS[v0];\
         [0:v]trim=start=12.000001:end=3600.5,setpts=PTS-STARTPTS[v1];\
         [0:a]atrim=start=0.03:end=2.9,asetpts=PTS-STARTPTS[a0];\
         [0:a]atrim=start=12.000001:end=3600.5,asetpts=PTS-STARTPTS[a1];\
         [v0][a0][v1][a1]concat=n=2:v=1:a=1[outv][outa]"
    );
}

#[test]
fn filter_for_no_clip() {
    let filter = build_filter_complex_from_clips(&[]).unwrap();
    assert_eq!(filter, "concat=n=0:v=1:a=1[outv][outa]");
}

#[test]
fn filter_numbers_clips_in_decimal() {
    let clips = vec![Clip::new(0, 1_000_000, false); 11];
    let filter = build_filter_complex_from_clips(&clips).unwrap();
    assert!(filter.contains("[0:v]trim=start=0:end=1,setpts=PTS-STARTPTS[v10];"));
    assert!(filter.ends_with("[v9][a9][v10][a10]concat=n=11:v=1:a=1[outv][outa]"));
}


#[test]
fn plan_takes_the_marked_clips() {
    let mut timeline = Timeline::new(10_000_000, "test.mp4".to_string());
    timeline.split_by_silence(vec![(3_000_000, 5_000_000)]);
    let plan = plan_export(&timeline).unwrap();
    assert_eq!(
        plan.clips,
        vec![Clip::new(0, 3_000_000, false), Clip::new(5_000_000, 10_000_000, false)]
    );
    assert_eq!(plan.total_duration, 8_000_000);
    assert_eq!(plan.filter, build_filter_complex_from_clips(&plan.clips).unwrap());
    assert!(plan.filter.starts_with("[0:v]trim=start=0:end=3,"));
}

#[test]
fn plan_follows_the_flags_not_the_kind() {
    let mut timeline = Timeline::new(10_000_000, "test.mp4".to_string());
    timeline.split_by_silence(vec![(3_000_000, 5_000_000)]);
    timeline.toggle_segment_include(0).unwrap();
    timeline.toggle_segment_include(1).unwrap();
    let plan = plan_export(&timeline).unwrap();
    let extents: Vec<(u64, u64)> = plan.clips.iter().map(|c| (c.source_start, c.source_end)).collect();
    assert_eq!(extents, vec![(3_000_000, 5_000_000), (5_000_000, 10_000_000)]);
    assert_eq!(plan.total_duration, 7_000_000);
}

#[test]
fn plan_without_a_marked_clip_fails() {
    let mut timeline = Timeline::new(10_000_000, "test.mp4".to_string());
    timeline.toggle_segment_include(0).unwrap();
    assert_eq!(plan_export(&timeline), Err(Error::ExportError));
    timeline.remove_segment(0).unwrap();
    assert_eq!(plan_export(&timeline), Err(Error::ExportError));
}

#[test]
fn progress_line_gives_the_time() {
    assert_eq!(parse_progress_line(b"out_time_us=12345678"), Some(12_345_678));
    assert_eq!(parse_progress_line(b"out_time_us=0"), Some(0));
    assert_eq!(parse_progress_line(b"out_time_us= 42 \r"), Some(42));
    assert_eq!(parse_progress_line(b"out_time_us=\t007"), Some(7));
    assert_eq!(parse_progress_line(b"out_time_us=-5"), Some(-5));
    assert_eq!(parse_progress_line(b"out_time_us=+7"), Some(7));
    assert_eq!(parse_progress_line(b"out_time_us=-0"), Some(0));
}

#[test]
fn progress_line_at_the_limits() {
    assert_eq!(parse_progress_line(b"out_time_us=9223372036854775807"), Some(i64::MAX));
    assert_eq!(parse_progress_line(b"out_time_us=9223372036854775808"), None);
    assert_eq!(parse_progress_line(b"out_time_us=-9223372036854775808"), Some(i64::MIN));
    assert_eq!(parse_progress_line(b"out_time_us=-9223372036854775809"), None);
    assert_eq!(parse_progress_line(b"out_time_us=99999999999999999999"), None);
}

#[test]
fn other_lines_give_no_time() {
    assert_eq!(parse_progress_line(b""), None);
    assert_eq!(parse_progress_line(b"out_time_us="), None);
    assert_eq!(parse_progress_line(b"out_time_us=   "), None);
    assert_eq!(parse_progress_line(b"out_time_us=-"), None);
    assert_eq!(parse_progress_line(b"out_time_us=+"), None);
    assert_eq!(parse_progress_line(b"out_time_us=N/A"), None);
    assert_eq!(parse_progress_line(b"out_time_us=1 2"), None);
    assert_eq!(parse_progress_line(b"out_time_us=12x"), None);
    assert_eq!(parse_progress_line(b"out_time_us=--1"), None);
    assert_eq!(parse_progress_line(b"out_time_ms=12345"), None);
    assert_eq!(parse_progress_line(b" out_time_us=12345"), None);
    assert_eq!(parse_progress_line(b"frame=12"), None);
}

#[test]
fn percentage_of_the_export() {
    assert_eq!(progress_percentage(0, 8_000_000), 0);
    assert_eq!(progress_percentage(2_000_000, 8_000_000), 25_000);
    assert_eq!(progress_percentage(1, 3), 33_333);
    assert_eq!(progress_percentage(8_000_000, 8_000_000), 100_000);
    assert_eq!(progress_percentage(9_000_000, 8_000_000), 100_000);
    assert_eq!(progress_percentage(i64::MAX, 1), 100_000);
    assert_eq!(progress_percentage(-1, 3), -33_333);
    assert_eq!(progress_percentage(i64::MIN, 1), -922_337_203_685_477_580_800_000);
}
