use podspine::paths::{join_path, path_is_under, path_stem};
use podspine::splitter::{
    accept_image, accept_output, build_cover_args, build_cover_thumb_args, build_encode_args, build_remux_args,
    chapter_job, cover_job, cover_thumb_path, episode_file_name, ffmpeg_parallelism, is_episode_stem, is_mp4_family, part_path,
    remux_job, split_workers, thumb_job, whole_job, ChapterCut, CoverError, Encoding,
    PartAction, Permits, Publication, RunError, SplitFault, SplitError, FFMPEG_TIMEOUT, TRANSCODE_TIMEOUT,
};
use podspine::ticks::TICKS_PER_SEC;

fn secs(n: i128) -> i128 {
    n * TICKS_PER_SEC
}

fn args_as_strings(start: i128, end: i128) -> Vec<String> {
    build_encode_args("in.m4b", "out.m4a", Some((secs(start), secs(end))), Encoding::Copy)
}

#[test]
fn ss_comes_before_i_and_uses_t_not_to() {
    let args = args_as_strings(10, 40);
    let pos = |s: &str| args.iter().position(|x| x == s);

    let ss = pos("-ss").expect("-ss present");
    let i = pos("-i").expect("-i present");
    assert!(ss < i, "-ss must come before -i (fast seek)");

    assert!(pos("-t").is_some(), "-t must be present");
    assert!(pos("-to").is_none(), "-to must NEVER be used (2x-file bug)");
}

#[test]
fn duration_is_end_minus_start() {
    let args = args_as_strings(10, 40);
    let t = args.iter().position(|x| x == "-t").unwrap();
    assert_eq!(args[t + 1], "30.000000");
}

#[test]
fn carries_copy_faststart_and_single_audio_map() {
    let args = args_as_strings(0, 5);
    let pair = |a: &str, b: &str| args.windows(2).any(|w| w[0] == a && w[1] == b);
    assert!(pair("-c", "copy"), "must stream-copy");
    assert!(
        pair("-map", "0:a:0"),
        "must map only the first audio stream"
    );
    assert!(
        pair("-map_chapters", "-1"),
        "must drop chapters from output"
    );
    assert!(
        pair("-movflags", "+faststart"),
        "must move moov atom to head"
    );
    assert_eq!(args.last().unwrap(), "out.m4a", "output path is last");
}

#[test]
fn aac_transcode_replaces_copy_and_keeps_cut_invariants() {
    let args = build_encode_args(
        "in.flac",
        "out/001.m4a",
        Some((secs(10), secs(40))),
        Encoding::Aac,
    );
    let pair = |a: &str, b: &str| args.windows(2).any(|w| w[0] == a && w[1] == b);
    assert!(pair("-c:a", "aac"), "must select the aac encoder");
    assert!(pair("-b:a", "128k"), "must target 128 kbps");
    assert!(
        !args.iter().any(|a| a == "copy"),
        "a transcode must NOT stream-copy"
    );
    let pos = |s: &str| args.iter().position(|x| x == s);
    assert!(pos("-ss") < pos("-i"), "-ss must still precede -i");
    assert!(pos("-to").is_none(), "-to must NEVER be used (2x-file bug)");
    let t = pos("-t").expect("-t present");
    assert_eq!(args[t + 1], "30.000000");
    assert!(pair("-map", "0:a:0"), "still one audio stream only");
    assert!(pair("-map_chapters", "-1"), "still drops chapters");
    assert!(pair("-movflags", "+faststart"));
    assert_eq!(args.last().unwrap(), "out/001.m4a");
}

#[test]
fn mp3_transcode_keeps_a_xing_header() {
    let args = build_encode_args("in.flac", "out/001.mp3", Some((0, secs(5))), Encoding::Mp3);
    let pair = |a: &str, b: &str| args.windows(2).any(|w| w[0] == a && w[1] == b);
    assert!(pair("-c:a", "libmp3lame"));
    assert!(pair("-b:a", "128k"));
    assert!(pair("-write_xing", "1"));
    assert!(
        !args.iter().any(|a| a == "-movflags"),
        "no mp4-only flag on an .mp3 output"
    );
}

#[test]
fn whole_file_transcode_emits_no_seek_or_duration() {
    let args = build_encode_args("in.flac", "out/001.m4a", None, Encoding::Aac);
    assert!(!args.iter().any(|a| a == "-ss"), "no -ss for a whole file");
    assert!(!args.iter().any(|a| a == "-t"), "no -t for a whole file");
    assert!(!args.iter().any(|a| a == "-to"), "and never -to");
    assert!(
        args.windows(2).any(|w| w[0] == "-c:a" && w[1] == "aac"),
        "still re-encodes"
    );
}

#[test]
fn a_reencode_gets_the_longer_timeout() {
    assert_eq!(Encoding::Copy.timeout(), FFMPEG_TIMEOUT);
    assert_eq!(Encoding::Aac.timeout(), TRANSCODE_TIMEOUT);
    assert_eq!(Encoding::Mp3.timeout(), TRANSCODE_TIMEOUT);
    assert!(TRANSCODE_TIMEOUT > FFMPEG_TIMEOUT);
    assert_eq!(Encoding::default(), Encoding::Copy);
}

#[test]
fn tier2_output_omits_mp4_only_faststart() {
    let args = build_encode_args("in.flac", "out/001.flac", Some((0, secs(5))), Encoding::Copy);
    assert!(args.iter().any(|a| a == "copy"), "still stream-copies");
    assert!(
        !args.iter().any(|a| a == "-movflags"),
        "no -movflags for flac"
    );
    assert_eq!(args.last().unwrap(), "out/001.flac", "output path is last");
    assert!(is_mp4_family("x.m4a"));
    assert!(!is_mp4_family("x.ogg"));
}

#[test]
fn remux_args_are_whole_file_copy_faststart() {
    let args = build_remux_args("in.m4b", "out/001.m4b");
    let pair = |a: &str, b: &str| args.windows(2).any(|w| w[0] == a && w[1] == b);
    assert!(pair("-c", "copy"), "stream copy, no re-encode");
    assert!(
        pair("-movflags", "+faststart"),
        "relocates moov to the front"
    );
    assert!(pair("-map", "0:a:0"), "audio only");
    assert!(pair("-map_chapters", "-1"), "drops chapters");
    assert!(
        !args.iter().any(|a| a == "-ss" || a == "-t"),
        "whole file: no seek/duration cut"
    );
    assert_eq!(args.last().unwrap(), "out/001.m4b", "output path is last");
}

#[test]
fn cover_args_copy_first_video_stream_to_named_output() {
    let args = build_cover_args("in.m4b", "out/cover.jpg");
    let pair = |a: &str, b: &str| args.windows(2).any(|w| w[0] == a && w[1] == b);
    assert!(
        pair("-map", "0:v:0"),
        "must map the attached-picture stream"
    );
    assert!(
        pair("-c", "copy"),
        "must stream-copy the cover (no re-encode)"
    );
    assert!(pair("-frames:v", "1"), "one frame only");
    assert!(!args.iter().any(|a| a == "-to"));
    assert_eq!(args.last().unwrap(), "out/cover.jpg", "output path is last");
}

#[test]
fn cover_thumb_args_scale_and_reencode_to_jpeg() {
    let args = build_cover_thumb_args("cover.png", "out/cover_thumb.jpg");
    let pair = |a: &str, b: &str| args.windows(2).any(|w| w[0] == a && w[1] == b);
    assert!(pair("-c:v", "mjpeg"), "re-encode to JPEG");
    assert!(pair("-frames:v", "1"), "one frame only");
    assert!(
        args.iter()
            .any(|a| a.contains("scale=") && a.contains("min(400,iw)")),
        "must cap the long edge at 400px: {args:?}"
    );
    assert_eq!(args.last().unwrap(), "out/cover_thumb.jpg");
}

#[test]
fn semaphore_bounds_and_releases_permits() {
    let mut permits = Permits::new(1);
    assert!(permits.take());
    assert_eq!(permits.free, 0, "permit taken");
    assert!(!permits.take(), "a second one has to wait");
    permits.give_back();
    assert_eq!(permits.free, 1, "permit released");
    assert!(ffmpeg_parallelism(None) >= 1);
    assert_eq!(ffmpeg_parallelism(Some(3)), 3);
    assert_eq!(split_workers(8, 3), 3);
    assert_eq!(split_workers(2, 3), 2);
}

#[test]
fn zero_length_chapter_errors_without_spawning_ffmpeg() {
    let ch = ChapterCut { idx: 3, start: secs(5), end: secs(5) };
    let err = chapter_job("does-not-exist.m4b", "/tmp", &ch, "m4a", Encoding::Copy)
        .expect_err("zero-length chapter must error");
    assert!(matches!(err, SplitError::EmptyChapter { idx: 3 }));
    assert_eq!(ch.duration(), 0);
}

#[test]
fn a_temporary_keeps_the_extension_and_hides_from_the_sweeps() {
    let p = part_path("/data/books/b/001.m4a");
    assert_eq!(p, "/data/books/b/001.part.m4a");
    assert!(is_mp4_family(&p), "a temporary must still look mp4-family");
    assert!(
        !is_episode_stem("001.part"),
        "a temporary must not look like an episode file"
    );
    assert_eq!(
        part_path("/data/001"),
        "/data/001.part",
        "an extensionless output still gets a distinct temporary"
    );
}

#[test]
fn episode_files_are_numbered_from_one() {
    assert_eq!(episode_file_name(0, "m4a"), "001.m4a");
    assert_eq!(episode_file_name(41, "opus"), "042.opus");
    assert_eq!(episode_file_name(1233, "mp3"), "1234.mp3");
    assert!(is_episode_stem("001"));
    assert!(!is_episode_stem("cover"));
    assert!(!is_episode_stem("01"));
    assert!(!is_episode_stem("0001"));
    assert!(!is_episode_stem("0a1"));
}

#[test]
fn a_job_is_written_beside_its_place() {
    let ch = ChapterCut { idx: 1, start: secs(10), end: secs(40) };
    let job = chapter_job("/lib/b.m4b", "/data/books/b", &ch, "m4a", Encoding::Copy).unwrap();
    assert_eq!(job.out, "/data/books/b/002.m4a");
    assert_eq!(job.part, "/data/books/b/002.part.m4a");
    assert_eq!(job.args.last(), Some(&job.part));
    assert_eq!(job.timeout, FFMPEG_TIMEOUT);

    let job = whole_job("/lib/b.flac", "/data/books/b", 0, "m4a", Encoding::Aac);
    assert_eq!(job.part, "/data/books/b/001.part.m4a");
    assert_eq!(job.timeout, TRANSCODE_TIMEOUT);
    assert!(!job.args.iter().any(|a| a == "-ss"));

    let job = remux_job("/lib/b.m4b", "/data/books/b", 0, "m4b");
    assert_eq!(job.out, "/data/books/b/001.m4b");
    assert_eq!(job.part, "/data/books/b/001.part.m4b");
    assert_eq!(job.args.last(), Some(&job.part));
    assert_eq!(job.timeout, FFMPEG_TIMEOUT);
}

#[test]
fn covers_and_thumbnails_have_their_places() {
    let job = cover_job("/lib/b.m4b", "/data/books/b", "png");
    assert_eq!(job.out, "/data/books/b/cover.png");
    assert_eq!(job.part, "/data/books/b/cover.part.png");
    assert_eq!(job.args, build_cover_args("/lib/b.m4b", &job.part));

    let job = thumb_job("/data/books/b/cover.png", "/data/books/b");
    assert_eq!(job.out, cover_thumb_path("/data/books/b"));
    assert_eq!(job.out, "/data/books/b/cover_thumb.jpg");
    assert_eq!(job.part, "/data/books/b/cover_thumb.part.jpg");
    assert_eq!(job.args, build_cover_thumb_args("/data/books/b/cover.png", &job.part));

    assert_eq!(accept_image("/c.png".to_string(), 9).unwrap(), "/c.png");
    assert!(matches!(
        accept_image("/c.png".to_string(), 0),
        Err(CoverError::OutputMissing { path }) if path == "/c.png"
    ));
}

#[test]
fn an_empty_output_counts_as_missing() {
    let err = accept_output(4, "/o/005.m4a".to_string(), 0, secs(9)).unwrap_err();
    assert!(matches!(err, SplitError::OutputMissing { idx: 4, path } if path == "/o/005.m4a"));
    let ep = accept_output(4, "/o/005.m4a".to_string(), 77, secs(9)).unwrap();
    assert_eq!((ep.idx, ep.byte_length, ep.duration), (4, 77, secs(9)));
}

#[test]
fn a_book_is_published_as_a_whole_or_not_at_all() {
    let begin = |produced: &[bool], blocked: &[bool]| {
        Publication::begin(&produced.to_vec(), &blocked.to_vec())
    };
    let (mut p, first) = begin(&[true, true], &[false, false]);
    assert!(matches!(first, PartAction::Move(0)));
    assert!(matches!(p.step(true), PartAction::Move(1)));
    assert!(matches!(p.step(true), PartAction::Finish));
    assert!(matches!(begin(&[], &[]).1, PartAction::Finish));

    let (_, failed) = begin(&[true, false, true, false], &[false; 4]);
    assert!(matches!(
        failed,
        PartAction::GiveUp { fault: SplitFault::NotProduced(1), remove } if remove == vec![0, 2]
    ));
    let (_, blocked) = begin(&[true, true, true], &[false, true, true]);
    assert!(matches!(
        blocked,
        PartAction::GiveUp { fault: SplitFault::Blocked(1), remove } if remove == vec![0, 1, 2]
    ));
}

#[test]
fn a_part_that_cannot_be_moved_takes_the_rest_with_it() {
    let (mut p, _) = Publication::begin(&vec![true; 3], &vec![false; 3]);
    assert!(matches!(p.step(true), PartAction::Move(1)));
    assert!(matches!(
        p.step(false),
        PartAction::GiveUp { fault: SplitFault::NotMoved(1), remove } if remove == vec![1, 2]
    ));
}

#[test]
fn failures_of_a_run_are_told_apart() {
    assert!(matches!(
        RunError::Spawn("x".to_string()).of_chapter(2),
        SplitError::Spawn(_)
    ));
    assert!(matches!(
        RunError::Failed { code: Some(1), stderr: "bad".to_string() }.of_chapter(2),
        SplitError::Ffmpeg { idx: 2, code: Some(1), .. }
    ));
    assert!(matches!(
        RunError::TimedOut.of_chapter(2),
        SplitError::TimedOut { idx: 2 }
    ));
    assert!(matches!(RunError::TimedOut.of_cover(), CoverError::TimedOut));
    assert!(matches!(
        RunError::Failed { code: None, stderr: String::new() }.of_cover(),
        CoverError::Ffmpeg { code: None, .. }
    ));
    assert!(matches!(
        RunError::Spawn("x".to_string()).of_cover(),
        CoverError::Spawn(_)
    ));
}

#[test]
fn a_joined_path_lies_inside_its_directory() {
    assert_eq!(join_path("/a//b/./c/", "001.m4a"), "/a/b/c/001.m4a");
    assert_eq!(join_path("", "x"), "x");
    assert_eq!(join_path("/", "x"), "/x");
    assert_eq!(join_path("./lib", "x"), "./lib/x");
    assert!(path_is_under("/a/b/c/001.m4a", "/a//b/./c/"));
    assert!(!path_is_under("/a/bc/001.m4a", "/a/b"));
}

#[test]
fn an_episode_and_its_part_share_a_directory() {
    let out = join_path("/data/books/b", &episode_file_name(41, "m4a"));
    let part = part_path(&out);
    assert_eq!(out, "/data/books/b/042.m4a");
    assert_eq!(part, "/data/books/b/042.part.m4a");
    assert!(path_is_under(&out, "/data/books/b") && path_is_under(&part, "/data/books/b"));
    assert!(is_episode_stem(&path_stem(&out).unwrap()));
    assert!(!is_episode_stem(&path_stem(&part).unwrap()));
}
