use video_splitter::duration::{parse_duration, Duration, ProbeError};
use video_splitter::plan::{
    decimal_string, seek_argument, segment_count, segment_file_name, segment_start,
    SEGMENT_SECONDS,
};
use video_splitter::select::is_video_extension;
use video_splitter::session::{Action, Phase, SplitOutcome, SplitSession};

fn count_of(text: &str) -> u64 {
    let d = parse_duration(text.as_bytes()).expect("a readable duration");
    segment_count(&d)
}

/// Drives a session through creation and probing; returns the split commands
/// it asks for, answering each with the outcome `outcome_of(index)`.
fn drive(
    stem: &str,
    probed: Result<Duration, ProbeError>,
    outcome_of: impl Fn(u64) -> SplitOutcome,
) -> (SplitSession, Vec<(u64, String, String)>) {
    let mut s = SplitSession::new(stem.to_string());
    assert_eq!(s.next_action(), Action::CreateOutputDir);
    s.on_output_dir(true);
    assert_eq!(s.next_action(), Action::Probe);
    s.on_probe(probed);
    let mut cmds = Vec::new();
    loop {
        match s.next_action() {
            Action::Split(c) => {
                let i = c.index;
                cmds.push((c.index, c.seek, c.output_name));
                s.on_split(outcome_of(i));
            }
            Action::Finished => break,
            other => panic!("unexpected action {:?}", other),
        }
    }
    (s, cmds)
}

#[test]
fn count_zero_duration() {
    assert_eq!(count_of("0"), 0);
    assert_eq!(count_of("0.000000"), 0);
}

#[test]
fn count_exactly_one_segment() {
    assert_eq!(count_of("59.0"), 1);
    assert_eq!(count_of("59"), 1);
}

#[test]
fn count_just_over_one_segment() {
    assert_eq!(count_of("59.0001"), 2);
}

#[test]
fn count_exactly_two_segments() {
    assert_eq!(count_of("118.0"), 2);
}

#[test]
fn count_fraction_below_one_second() {
    assert_eq!(count_of("0.5"), 1);
    assert_eq!(count_of(".5"), 1);
}

#[test]
fn count_of_largest_whole_part() {
    let d = parse_duration(b"18446744073709551615").unwrap();
    assert_eq!(d.whole, u64::MAX);
    assert_eq!(segment_count(&d), u64::MAX / 59 + 1);
}

#[test]
fn parse_trims_whitespace_and_keeps_digits() {
    let d = parse_duration(b" \t130.500000\r\n").unwrap();
    assert_eq!(d, Duration { whole: 130, fraction: vec![5, 0, 0, 0, 0, 0] });
    assert_eq!(segment_count(&d), 3);
}

#[test]
fn parse_plain_forms() {
    assert_eq!(parse_duration(b"+7").unwrap(), Duration { whole: 7, fraction: vec![] });
    assert_eq!(parse_duration(b"7.").unwrap(), Duration { whole: 7, fraction: vec![] });
    assert_eq!(parse_duration(b"007.25").unwrap(), Duration { whole: 7, fraction: vec![2, 5] });
}

#[test]
fn parse_negative_reads_as_zero() {
    let d = parse_duration(b"-12.5").unwrap();
    assert_eq!(d, Duration { whole: 0, fraction: vec![] });
    assert_eq!(segment_count(&d), 0);
}

#[test]
fn parse_rejects_non_numbers() {
    for raw in [&b"N/A"[..], b"", b"  \n", b"abc", b"1.2.3", b".", b"-", b"12 34", b"1e3"] {
        assert_eq!(
            parse_duration(raw),
            Err(ProbeError::UnparseableDuration(raw.to_vec())),
            "input {:?}",
            raw
        );
    }
}

#[test]
fn parse_rejects_whole_part_too_large() {
    let raw = b"18446744073709551616.5";
    assert_eq!(parse_duration(raw), Err(ProbeError::UnparseableDuration(raw.to_vec())));
}

#[test]
fn start_offsets_are_multiples_of_segment_length() {
    assert_eq!(SEGMENT_SECONDS, 59);
    for i in 0..1000u64 {
        assert_eq!(segment_start(i), i * 59);
        assert_eq!(seek_argument(i), (i * 59).to_string());
    }
    assert_eq!(seek_argument(0), "0");
    assert_eq!(seek_argument(1), "59");
    assert_eq!(seek_argument(2), "118");
}

#[test]
fn decimal_strings() {
    assert_eq!(decimal_string(0), "0");
    assert_eq!(decimal_string(9), "9");
    assert_eq!(decimal_string(10), "10");
    assert_eq!(decimal_string(1234567890), "1234567890");
    assert_eq!(decimal_string(u64::MAX), u64::MAX.to_string());
}

#[test]
fn segment_names_use_stem_index_and_mp4() {
    assert_eq!(segment_file_name("clip", 0), "clip_segment_0.mp4");
    assert_eq!(segment_file_name("clip", 12), "clip_segment_12.mp4");
    assert_eq!(segment_file_name("", 3), "_segment_3.mp4");
}

#[test]
fn segment_names_distinct_within_a_file() {
    let names: Vec<String> = (0..200).map(|i| segment_file_name("movie", i)).collect();
    for i in 0..names.len() {
        for j in 0..i {
            assert_ne!(names[i], names[j]);
        }
    }
}

#[test]
fn video_extensions() {
    assert!(is_video_extension("mp4"));
    assert!(is_video_extension("webm"));
    assert!(!is_video_extension("MP4"));
    assert!(!is_video_extension("mkv"));
    assert!(!is_video_extension("mp"));
    assert!(!is_video_extension(""));
    assert!(!is_video_extension("webmx"));
}

#[test]
fn clip_of_130_and_a_half_seconds() {
    let d = parse_duration(b"130.500000\n").unwrap();
    let (s, cmds) = drive("clip", Ok(d), |_| SplitOutcome::Succeeded);
    assert_eq!(
        cmds,
        vec![
            (0, "0".to_string(), "clip_segment_0.mp4".to_string()),
            (1, "59".to_string(), "clip_segment_1.mp4".to_string()),
            (2, "118".to_string(), "clip_segment_2.mp4".to_string()),
        ]
    );
    assert_eq!(s.phase, Phase::Done);
    assert_eq!((s.total, s.next, s.succeeded, s.failed), (3, 3, 3, 0));
}

#[test]
fn two_files_share_output_dir_without_collision() {
    let d = parse_duration(b"100").unwrap();
    let (_, a) = drive("a", Ok(d.clone()), |_| SplitOutcome::Succeeded);
    let (_, b) = drive("b", Ok(d), |_| SplitOutcome::Succeeded);
    let a_names: Vec<String> = a.into_iter().map(|c| c.2).collect();
    let b_names: Vec<String> = b.into_iter().map(|c| c.2).collect();
    assert_eq!(a_names, vec!["a_segment_0.mp4", "a_segment_1.mp4"]);
    assert_eq!(b_names, vec!["b_segment_0.mp4", "b_segment_1.mp4"]);
    for n in &a_names {
        assert!(!b_names.contains(n));
    }
}

#[test]
fn failed_probe_splits_nothing() {
    let bad = parse_duration(b"not a number");
    assert!(bad.is_err());
    let (s, cmds) = drive("clip", bad, |_| SplitOutcome::Succeeded);
    assert!(cmds.is_empty());
    assert_eq!((s.phase, s.total, s.next), (Phase::Done, 0, 0));

    let (s, cmds) = drive(
        "clip",
        Err(ProbeError::LaunchFailed("not found".to_string())),
        |_| SplitOutcome::Succeeded,
    );
    assert!(cmds.is_empty());
    assert_eq!(s.phase, Phase::Done);
}

#[test]
fn failed_split_does_not_stop_later_segments() {
    let d = parse_duration(b"300").unwrap();
    let (s, cmds) = drive("long", Ok(d), |i| match i {
        1 => SplitOutcome::ExitFailed,
        3 => SplitOutcome::LaunchFailed,
        _ => SplitOutcome::Succeeded,
    });
    let indices: Vec<u64> = cmds.iter().map(|c| c.0).collect();
    assert_eq!(indices, vec![0, 1, 2, 3, 4, 5]);
    assert_eq!((s.succeeded, s.failed), (4, 2));
    assert_eq!(s.phase, Phase::Done);
}

#[test]
fn zero_duration_splits_nothing() {
    let d = parse_duration(b"0.0").unwrap();
    let (s, cmds) = drive("empty", Ok(d), |_| SplitOutcome::Succeeded);
    assert!(cmds.is_empty());
    assert_eq!((s.phase, s.total), (Phase::Done, 0));
}

#[test]
fn output_dir_failure_gives_up_the_file() {
    let mut s = SplitSession::new("clip".to_string());
    s.on_output_dir(false);
    assert_eq!(s.phase, Phase::Done);
    assert_eq!(s.next_action(), Action::Finished);
}
