use editorcito::timebase::Timebase;

#[test]
fn formats_and_parses_drop_frame_timecode() {
    assert_eq!(Timebase::NTSC30().timecode(1_798), "00:00:59;28");
    assert_eq!(Timebase::NTSC30().timecode(1_800), "00:01:00;02");
    assert_eq!(Timebase::NTSC30().timecode(17_982), "00:10:00;00");
    assert_eq!(
        Timebase::NTSC30().frames_from_timecode("00:11:00;02"),
        Some(19_782)
    );
    assert_eq!(Timebase::NTSC30().frames_from_timecode("00:01:00;00"), None);
}

#[test]
fn custom_fractions_are_reduced_to_the_named_rates() {
    assert_eq!(Timebase::new(48_000, 2_000, false).unwrap(), Timebase::P24());
    assert_eq!(Timebase::new(48_000, 1_001, false).unwrap().ffmpeg_rate(), "48000/1001");
    assert_eq!(Timebase::new(60_000, 2_002, true).unwrap(), Timebase::NTSC30());
}

#[test]
fn invalid_fractions_are_refused() {
    assert!(Timebase::new(0, 1_001, false).is_err());
    assert!(Timebase::new(24_000, 0, false).is_err());
}

#[test]
fn named_rates_write_their_ffmpeg_fraction() {
    assert_eq!(Timebase::P23_976().ffmpeg_rate(), "24000/1001");
    assert_eq!(Timebase::NTSC30().ffmpeg_rate(), "30000/1001");
    assert_eq!(Timebase::P60().ffmpeg_rate(), "60/1");
}

#[test]
fn nominal_rates_round_to_the_counting_rate() {
    assert_eq!(Timebase::P23_976().nominal_fps(), 24);
    assert_eq!(Timebase::NTSC30().nominal_fps(), 30);
    assert_eq!(Timebase::NTSC60().nominal_fps(), 60);
    assert_eq!(Timebase::P50().nominal_fps(), 50);
    assert_eq!(Timebase::new(25, 2, false).unwrap().nominal_fps(), 13);
}

#[test]
fn every_timecode_reads_back_as_its_frame() {
    for rate in [Timebase::P23_976(), Timebase::NTSC30(), Timebase::NTSC60(), Timebase::P25()] {
        for frame in [0_i64, 1, 29, 1_798, 1_799, 1_800, 17_982, 107_892, 1_000_000] {
            let text = rate.timecode(frame);
            assert_eq!(rate.frames_from_timecode(&text), Some(frame), "{text}");
        }
    }
}

#[test]
fn negative_frames_clamp_to_zero() {
    assert_eq!(Timebase::P25().timecode(-10), "00:00:00:00");
}

#[test]
fn timecodes_with_the_wrong_shape_are_refused() {
    let rate = Timebase::P25();
    assert_eq!(rate.frames_from_timecode("00:00:01"), Some(1));
    assert_eq!(rate.frames_from_timecode("42"), Some(42));
    assert_eq!(rate.frames_from_timecode("2:05"), Some(55));
    assert_eq!(rate.frames_from_timecode("2:25"), None);
    assert_eq!(rate.frames_from_timecode("-1"), None);
    assert_eq!(rate.frames_from_timecode(""), None);
    assert_eq!(rate.frames_from_timecode("00:00:01:25"), None);
    assert_eq!(rate.frames_from_timecode("00:60:00:00"), None);
    assert_eq!(rate.frames_from_timecode(" 00:00:01:05 "), Some(30));
    assert_eq!(rate.frames_from_timecode("aa:00:01:05"), None);
}

#[test]
fn the_default_rate_is_thirty_frames() {
    let default = Timebase::default();
    assert_eq!(default, Timebase::P30());
    assert_eq!(default.timecode(30 * 60), "00:01:00:00");
}
