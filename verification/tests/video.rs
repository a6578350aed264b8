use skein::video::{
    fallback_metadata, find_codec_in_moov, metadata_from_probe, mvhd_duration_fits, next_box_action,
    parse_mvhd, segment_entry, segment_plan, whole_file_entry, BoxAction, VideoMetadata,
};

fn mvhd_v0(timescale: u32, duration: u32) -> Vec<u8> {
    let mut d = vec![0u8; 3];
    d.extend_from_slice(b"mvhd");
    d.push(0); // version
    d.extend_from_slice(&[0, 0, 0]); // flags
    d.extend_from_slice(&[0; 8]); // creation, modification
    d.extend_from_slice(&timescale.to_be_bytes());
    d.extend_from_slice(&duration.to_be_bytes());
    d
}

fn mvhd_v1(timescale: u32, duration: u64) -> Vec<u8> {
    let mut d = b"mvhd".to_vec();
    d.push(1);
    d.extend_from_slice(&[0, 0, 0]);
    d.extend_from_slice(&[0; 16]);
    d.extend_from_slice(&timescale.to_be_bytes());
    d.extend_from_slice(&duration.to_be_bytes());
    d
}

#[test]
fn parses_version_0_headers() {
    assert_eq!(parse_mvhd(&mvhd_v0(600, 3000)), Some((5000, 600)));
    assert_eq!(parse_mvhd(&mvhd_v0(1000, 1)), Some((1, 1000)));
    assert_eq!(parse_mvhd(&mvhd_v0(3, 1)), Some((333, 3)));
}

#[test]
fn parses_version_1_headers() {
    assert_eq!(parse_mvhd(&mvhd_v1(90000, 900000)), Some((10000, 90000)));
}

#[test]
fn rejects_missing_short_or_zero_timescale_headers() {
    assert_eq!(parse_mvhd(b"no header here at all, none"), None);
    assert_eq!(parse_mvhd(&mvhd_v0(0, 3000)), None);
    let mut short = mvhd_v0(600, 3000);
    short.truncate(short.len() - 1);
    assert_eq!(parse_mvhd(&short), None);
    let mut v1_short = mvhd_v1(90000, 900000);
    v1_short.truncate(30);
    assert_eq!(parse_mvhd(&v1_short), None);
    let mut v2 = mvhd_v0(600, 3000);
    v2[7] = 2;
    assert_eq!(parse_mvhd(&v2), None);
    assert_eq!(parse_mvhd(b"mvh"), None);
}

#[test]
fn duration_fit_check_flags_overflowing_headers() {
    assert!(mvhd_duration_fits(&mvhd_v1(1, u64::MAX / 1000)));
    assert!(!mvhd_duration_fits(&mvhd_v1(1, u64::MAX / 1000 + 1)));
    assert!(mvhd_duration_fits(&mvhd_v1(0, u64::MAX)));
    assert!(mvhd_duration_fits(&mvhd_v0(1, u32::MAX)));
}

#[test]
fn names_codecs_by_sample_entry() {
    assert_eq!(find_codec_in_moov(b"..avc1.."), Some("h264".to_string()));
    assert_eq!(find_codec_in_moov(b"avc3"), Some("h264".to_string()));
    assert_eq!(find_codec_in_moov(b"xhvc1"), Some("hevc".to_string()));
    assert_eq!(find_codec_in_moov(b"hev1"), Some("hevc".to_string()));
    assert_eq!(find_codec_in_moov(b"av01"), Some("av1".to_string()));
    assert_eq!(find_codec_in_moov(b"vp09"), Some("vp9".to_string()));
    assert_eq!(find_codec_in_moov(b"vp09avc1"), Some("h264".to_string()));
    assert_eq!(find_codec_in_moov(b"mp4a"), None);
    assert_eq!(find_codec_in_moov(b""), None);
}

#[test]
fn box_headers_decide_the_scan() {
    let mut moov = [0u8; 8];
    moov[..4].copy_from_slice(&100u32.to_be_bytes());
    moov[4..].copy_from_slice(b"moov");
    assert_eq!(next_box_action(&moov), BoxAction::ReadMoov(92));
    moov[..4].copy_from_slice(&u32::MAX.to_be_bytes());
    assert_eq!(next_box_action(&moov), BoxAction::ReadMoov(2 * 1024 * 1024));
    moov[..4].copy_from_slice(&4u32.to_be_bytes());
    assert_eq!(next_box_action(&moov), BoxAction::ReadMoov(0));
    let mut ftyp = [0u8; 8];
    ftyp[..4].copy_from_slice(&24u32.to_be_bytes());
    ftyp[4..].copy_from_slice(b"ftyp");
    assert_eq!(next_box_action(&ftyp), BoxAction::Skip(16));
    ftyp[..4].copy_from_slice(&8u32.to_be_bytes());
    assert_eq!(next_box_action(&ftyp), BoxAction::Stop);
}

#[test]
fn metadata_comes_from_the_moov_box_or_defaults() {
    let mut moov = mvhd_v0(1000, 42000);
    moov.extend_from_slice(b"hev1");
    let m = metadata_from_probe(Some(&moov), 5_000_000);
    assert_eq!(m, VideoMetadata { duration_ms: 42000, codec: "hevc".to_string(), file_size: 5_000_000, timescale: 1000 });
    let m = metadata_from_probe(None, 5_000_000);
    assert_eq!(m, VideoMetadata { duration_ms: 24000, codec: "h264".to_string(), file_size: 5_000_000, timescale: 1000 });
    let m = metadata_from_probe(None, 10);
    assert_eq!(m.duration_ms, 1000);
    // A zero duration in the header falls back to the estimate, keeping the timescale.
    let m = metadata_from_probe(Some(&mvhd_v0(600, 0)), 409600);
    assert_eq!((m.duration_ms, m.timescale), (2000, 600));
}

#[test]
fn fallback_and_whole_file_entries() {
    let f = fallback_metadata();
    assert_eq!(f, VideoMetadata { duration_ms: 10_000, codec: "h264".to_string(), file_size: 0, timescale: 1000 });
    let e = whole_file_entry([3; 32], VideoMetadata { duration_ms: 7, codec: "av1".to_string(), file_size: 99, timescale: 1 });
    assert_eq!((e.hash, e.duration_ms, e.codec.as_str(), e.source_offset), ([3; 32], 7, "av1", 0));
    assert!(e.is_keyframe);
    assert_eq!((e.keyframe_offset_ms, e.byte_size), (0, 99));
}

#[test]
fn segmentation_plan_and_entries() {
    assert_eq!(segment_plan(10, 4, 9000), (3, 3000));
    assert_eq!(segment_plan(8, 4, 9000), (2, 4500));
    assert_eq!(segment_plan(0, 4, 9000), (1, 9000));
    assert_eq!(segment_plan(100, 1, 50), (100, 1));
    let (pos, e) = segment_entry(2, 3000, [1; 32], "h264".to_string(), 8, 2);
    assert_eq!(pos, 6000);
    assert!(!e.is_keyframe);
    assert_eq!((e.duration_ms, e.source_offset, e.byte_size), (3000, 8, 2));
    let (pos, e) = segment_entry(0, 3000, [1; 32], "h264".to_string(), 0, 4);
    assert_eq!(pos, 0);
    assert!(e.is_keyframe);
}
