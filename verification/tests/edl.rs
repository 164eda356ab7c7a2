use editorcito::edl::{cut_fits, to_edl, write_edl, Channel, EdlClip, Motion, Retime};
use editorcito::timebase::Timebase;

fn sample() -> Vec<EdlClip> {
    vec![
        EdlClip {
            source: "/medios/Entrevista.mov".into(),
            name: "Entrevista".into(),
            channel: Channel::Both,
            source_in: 0,
            record_in: 0,
            duration: 120,
            speed: 1.0f64.to_bits(),
        },
        EdlClip {
            source: "/medios/B roll.mov".into(),
            name: "B-roll".into(),
            channel: Channel::Video,
            source_in: 50,
            record_in: 120,
            duration: 80,
            speed: 1.0f64.to_bits(),
        },
        EdlClip {
            source: "/medios/Entrevista.mov".into(),
            name: "Rampa".into(),
            channel: Channel::Audio(2),
            source_in: 10,
            record_in: 200,
            duration: 100,
            speed: 2.0f64.to_bits(),
        },
    ]
}

/// What the speed of a cut writes, worked out in floating point.
fn retime(clip: &EdlClip, timebase: Timebase) -> Retime {
    let speed = f64::from_bits(clip.speed);
    let source_span = if !speed.is_finite() || speed == 0.0 {
        clip.duration
    } else {
        ((clip.duration as f64 * speed.abs()).round() as i64).max(1)
    };
    let motion = if speed != 1.0 && speed.is_finite() {
        Some(Motion {
            rate: format!("{:.1}", speed * f64::from(timebase.nominal_fps())),
            percent: (speed * 100.0).round() as i64,
        })
    } else {
        None
    };
    Retime { source_span, motion }
}

fn written(title: &str, timebase: Timebase, clips: &Vec<EdlClip>) -> String {
    let retimes: Vec<Retime> = clips.iter().map(|clip| retime(clip, timebase)).collect();
    assert!(clips.iter().zip(retimes.iter()).all(|(c, r)| cut_fits(c, r, timebase)));
    to_edl(title, timebase, clips, &retimes)
}

#[test]
fn the_written_file_keeps_the_shape_a_master_room_expects() {
    let written = written("Formato", Timebase::P25(), &sample());
    let lines: Vec<&str> = written.lines().collect();
    assert_eq!(lines[0], "TITLE: Formato");
    assert_eq!(lines[1], "FCM: NON-DROP FRAME");
    let events: Vec<&&str> = lines
        .iter()
        .filter(|line| line.starts_with(|c: char| c.is_ascii_digit()))
        .collect();
    assert_eq!(events.len(), 3);
    assert!(events.iter().all(|line| line.len() <= 80), "{events:?}");
    assert!(events[0].starts_with("001  ENTREVIS"[..12].trim_end()), "{}", events[0]);
    assert!(written.contains("M2   "), "{written}");
    assert!(written.contains("* SPEED CHANGE RATE: 200"));
    assert!(written.contains("00:00:00:10 00:00:08:10"), "{written}");
}

#[test]
fn every_line_of_a_written_list_is_laid_out_in_columns() {
    let written = written("Formato", Timebase::P25(), &sample());
    let expected = "TITLE: Formato\n\
FCM: NON-DROP FRAME\n\
\n\
001  ENTREVI   B    C      00:00:00:00 00:00:04:20 00:00:00:00 00:00:04:20\n\
* FROM CLIP NAME: Entrevista\n\
\n\
002  BROLL     V    C      00:00:02:00 00:00:05:05 00:00:04:20 00:00:08:00\n\
* FROM CLIP NAME: B-roll\n\
\n\
003  ENTREVI   A2   C      00:00:00:10 00:00:08:10 00:00:08:00 00:00:12:00\n\
* FROM CLIP NAME: Rampa\n\
M2   ENTREVI      50.0    00:00:00:10\n\
* SPEED CHANGE RATE: 200\n\
\n";
    assert_eq!(written, expected);
}

#[test]
fn events_go_by_record_in_then_channel() {
    let clip = |name: &str, channel: Channel, record_in: i64| EdlClip {
        source: format!("/m/{name}.mov"),
        name: format!("  {name}  "),
        channel,
        source_in: 0,
        record_in,
        duration: 10,
        speed: 1.0f64.to_bits(),
    };
    let clips = vec![
        clip("c", Channel::Video, 50),
        clip("b", Channel::Audio(10), 0),
        clip("a", Channel::Audio(2), 0),
        clip("d", Channel::Both, 0),
    ];
    let written = written("Orden", Timebase::P24(), &clips);
    let events: Vec<&str> = written.lines().filter(|l| l.starts_with(|c: char| c.is_ascii_digit())).collect();
    let reels: Vec<&str> = events.iter().map(|l| l[5..12].trim_end()).collect();
    assert_eq!(reels, vec!["B", "A", "D", "C"]);
    assert!(written.contains("* FROM CLIP NAME: b\n"));
    assert!(events[0].starts_with("001  B         A10  C"));
}

#[test]
fn a_list_without_cuts_is_its_header() {
    let written = to_edl("Vacío", Timebase::P25(), &vec![], &vec![]);
    assert_eq!(written, "TITLE: Vacío\nFCM: NON-DROP FRAME\n\n");
    assert_eq!(written.lines().count(), 3);
}

#[test]
fn drop_frame_lists_say_so_and_use_semicolons() {
    let clips = vec![EdlClip {
        source: "toma.mov".into(),
        name: "   ".into(),
        channel: Channel::Video,
        source_in: 1_800,
        record_in: 0,
        duration: 30,
        speed: 1.0f64.to_bits(),
    }];
    let written = written("NTSC", Timebase::NTSC30(), &clips);
    assert!(written.contains("FCM: DROP FRAME\n"));
    assert!(written.contains("00:01:00;02 00:01:01;02"), "{written}");
    assert!(written.contains("* FROM CLIP NAME: TOMA\n"), "{written}");
}

#[test]
fn the_reels_given_are_the_reels_written() {
    let clips = sample();
    let retimes: Vec<Retime> = clips.iter().map(|clip| retime(clip, Timebase::P25())).collect();
    let reels = vec![("/medios/B roll.mov".to_string(), "CINTA9".to_string())];
    let written = write_edl("R", Timebase::P25(), &clips, &retimes, &reels);
    assert!(written.contains("001  AX        B"));
    assert!(written.contains("002  CINTA9    V"));
}

#[test]
fn cuts_whose_timecodes_overflow_are_refused() {
    let mut clip = sample().remove(0);
    let plain = Retime { source_span: 10, motion: None };
    assert!(cut_fits(&clip, &plain, Timebase::P25()));
    clip.record_in = i64::MAX;
    assert!(!cut_fits(&clip, &plain, Timebase::P25()));
    clip.record_in = i64::MAX - 200;
    clip.duration = 0;
    assert!(cut_fits(&clip, &plain, Timebase::P25()));
    assert!(!cut_fits(&clip, &plain, Timebase::NTSC30()));
    assert!(Timebase::NTSC30().timecode_writable(1_000));
    assert!(!Timebase::NTSC30().timecode_writable(i64::MAX));
    assert!(Timebase::P25().timecode_fits("01:00:00:00"));
    assert!(!Timebase::P25().timecode_fits("9223372036854775807:00"));
}

use editorcito::edl_read::{edl_readable, read_edl, EdlNotice, EdlRead, SpeedText};

/// Reads a list the way a caller does: it must be readable.
fn read(text: &str, timebase: Timebase) -> EdlRead {
    assert!(edl_readable(text, timebase));
    read_edl(text, timebase)
}

/// The speed the texts of a cut give, read in floating point.
fn speed_of(speeds: &[SpeedText], timebase: Timebase) -> f64 {
    let mut speed = 1.0;
    for text in speeds {
        match text {
            SpeedText::Percent(p) => {
                if let Ok(p) = p.parse::<f64>() {
                    if p != 0.0 && p.is_finite() {
                        speed = p / 100.0;
                    }
                }
            }
            SpeedText::Rate(r) => {
                if let Ok(r) = r.parse::<f64>() {
                    if r != 0.0 && r.is_finite() {
                        speed = r / f64::from(timebase.nominal_fps());
                    }
                }
            }
        }
    }
    speed
}

#[test]
fn a_timeline_survives_the_round_trip_through_the_format() {
    let written = written("Ida y vuelta", Timebase::P25(), &sample());
    let read = read(&written, Timebase::P25());
    assert_eq!(read.title.as_deref(), Some("Ida y vuelta"));
    assert!(read.notices.iter().all(|n| matches!(n, EdlNotice::Rate(_, r) if r != "0.0")), "{:?}", read.notices);
    assert_eq!(read.cuts.len(), 3);
    for (before, after) in sample().iter().zip(read.cuts.iter()) {
        assert_eq!(after.record_in, before.record_in);
        assert_eq!(after.duration, before.duration);
        assert_eq!(after.source_in, before.source_in);
        assert_eq!(after.channel, before.channel);
        assert_eq!(after.name, before.name);
        assert!((speed_of(&after.speeds, Timebase::P25()) - f64::from_bits(before.speed)).abs() < 1e-9, "{after:?}");
    }
    // The same file uses the same reel in all its events.
    assert_eq!(read.cuts[0].reel, read.cuts[2].reel);
    assert_ne!(read.cuts[0].reel, read.cuts[1].reel);
    assert_eq!(
        read.cuts[2].speeds,
        vec![SpeedText::Rate("50.0".into()), SpeedText::Percent("200".into())]
    );
}

#[test]
fn an_edl_from_another_room_is_read_with_its_own_spacing() {
    let text = "TITLE: MONTAJE AJENO\nFCM: NON-DROP FRAME\n\n\
001  CINTA01 V     C        01:00:00:00 01:00:04:00 00:00:00:00 00:00:04:00\n\
* FROM CLIP NAME: Plano general\n\
002  CINTA02 B     D    025 02:00:00:00 02:00:02:00 00:00:04:00 00:00:06:00\n\
003  CINTA01 A2    C        01:00:10:00 01:00:12:00 00:00:04:00 00:00:06:00\n\
M2   CINTA01       050.0    01:00:10:00\n\
004  CINTA03 V     C        00:00:00:00 00:00:00:00 00:00:06:00 00:00:06:00\n\
ESTO NO ES UN EVENTO\n";
    let read = read(text, Timebase::P25());
    assert_eq!(read.title.as_deref(), Some("MONTAJE AJENO"));
    assert_eq!(read.cuts.len(), 3, "the event of no duration is left out");
    assert_eq!(read.cuts[0].name, "Plano general");
    assert_eq!(read.cuts[0].source_in, 90_000);
    assert_eq!(read.cuts[1].channel, Channel::Both);
    assert_eq!(read.cuts[2].channel, Channel::Audio(2));
    assert_eq!(speed_of(&read.cuts[2].speeds, Timebase::P25()), 2.0);
    assert!(read.notices.contains(&EdlNotice::Transition(2, 'D')));
    assert!(read.notices.contains(&EdlNotice::NotPositive(4)));
    assert_eq!(read.notices.len(), 3, "{:?}", read.notices);
}

#[test]
fn drop_frame_is_honoured_where_it_exists_and_refused_where_it_does_not() {
    let ntsc = read(
        "FCM: DROP FRAME\n001  A       V    C      00:00:00;00 00:00:01;00 00:00:00;00 00:00:01;00\n",
        Timebase::NTSC30(),
    );
    assert!(ntsc.timebase.drop_frame);
    assert!(ntsc.notices.is_empty(), "{:?}", ntsc.notices);
    assert_eq!(ntsc.cuts.len(), 1);

    // NTSC without drop frame is legitimate and the header rules.
    let ndf = read(
        "FCM: NON-DROP FRAME\n001  A       V    C      00:00:00:00 00:00:01:00 00:00:00:00 00:00:01:00\n",
        Timebase::NTSC30(),
    );
    assert!(!ndf.timebase.drop_frame);
    assert!(ndf.notices.is_empty(), "{:?}", ndf.notices);

    let impossible = read(
        "FCM: DROP FRAME\n001  A       V    C      00:00:00:00 00:00:01:00 00:00:00:00 00:00:01:00\n",
        Timebase::P25(),
    );
    assert!(!impossible.timebase.drop_frame);
    assert!(impossible.notices.contains(&EdlNotice::FrameMode(true)));
    assert_eq!(impossible.cuts.len(), 1);
}

#[test]
fn empty_and_meaningless_input_is_harmless() {
    assert_eq!(read("", Timebase::P25()).cuts.len(), 0);
    assert!(read("", Timebase::P25()).notices.is_empty());
    assert_eq!(read("basura sin formato", Timebase::P25()).cuts.len(), 0);
    assert_eq!(to_edl("Vacío", Timebase::P25(), &vec![], &vec![]).lines().count(), 3);
}

#[test]
fn unreadable_lines_and_frozen_rates_are_noticed() {
    let text = "001 esto no es un corte\n\
002  R V C 00:00:00:00 00:00:01:00 00:00:00:00 00:00:01:00\r\n\
m2 R 0.0 00:00:00:00\n\
* speed change rate: 50%%\n\
* from clip name:   Nombre  \n";
    let read = read(text, Timebase::P25());
    assert_eq!(
        read.notices,
        vec![EdlNotice::Unreadable("001 esto no es un corte".into()), EdlNotice::Rate(2, "0.0".into())]
    );
    assert_eq!(read.cuts[0].name, "Nombre");
    assert_eq!(
        read.cuts[0].speeds,
        vec![SpeedText::Rate("0.0".into()), SpeedText::Percent("50".into())]
    );
    let long = format!("1{}", "x".repeat(60));
    assert_eq!(read_edl(&long, Timebase::P25()).notices, vec![EdlNotice::Unreadable(long[..40].to_string())]);
    let split = format!("1{}", "\u{e9}".repeat(20));
    assert!(!edl_readable(&split, Timebase::P25()));
    assert!(edl_readable(&format!("1{}", "\u{e9}".repeat(19)), Timebase::P25()));
}

#[test]
fn a_written_list_reads_back_trimmed_renumbered_and_with_its_rates_noticed() {
    let clips = vec![
        EdlClip {
            source: "/medios/Toma dos.mov".into(),
            name: "   ".into(),
            channel: Channel::Video,
            source_in: 5,
            record_in: 40,
            duration: 10,
            speed: 1.0f64.to_bits(),
        },
        EdlClip {
            source: "/medios/Toma uno.mov".into(),
            name: "  Primera toma  ".into(),
            channel: Channel::Both,
            source_in: 0,
            record_in: 0,
            duration: 40,
            speed: 0.5f64.to_bits(),
        },
    ];
    let text = written("  Prueba  ", Timebase::P25(), &clips);
    let read = read(&text, Timebase::P25());
    assert_eq!(read.title.as_deref(), Some("Prueba"));
    assert_eq!(read.timebase, Timebase::P25());
    assert_eq!(read.cuts.len(), 2);
    assert_eq!(read.cuts[0].number, 1);
    assert_eq!(read.cuts[0].name, "Primera toma");
    assert_eq!(read.cuts[0].record_in, 0);
    assert_eq!(read.cuts[0].duration, 40);
    assert_eq!(
        read.cuts[0].speeds,
        vec![SpeedText::Rate("12.5".into()), SpeedText::Percent("50".into())]
    );
    assert_eq!(read.cuts[1].number, 2);
    assert_eq!(read.cuts[1].name, read.cuts[1].reel);
    assert_eq!(read.cuts[1].source_in, 5);
    assert_eq!(read.cuts[1].record_in, 40);
    assert!(read.cuts[1].speeds.is_empty());
    assert_eq!(read.notices, vec![EdlNotice::Rate(1, "12.5".into())]);
}
