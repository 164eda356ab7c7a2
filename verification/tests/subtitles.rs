use editorcito::subtitles::{srt_timestamp_millis, srt_timestamp_millis_of};

#[test]
fn timestamps_are_written_in_hours_minutes_seconds_and_millis() {
    assert_eq!(srt_timestamp_millis(0), "00:00:00,000");
    assert_eq!(srt_timestamp_millis(599_000), "00:09:59,000");
    assert_eq!(srt_timestamp_millis(600_000), "00:10:00,000");
    assert_eq!(srt_timestamp_millis(3_723_004), "01:02:03,004");
    assert_eq!(srt_timestamp_millis(360_000_000), "100:00:00,000");
}

#[test]
fn timestamps_read_back_as_written() {
    for ms in [0_u64, 1, 999, 1_000, 59_999, 3_599_999, 3_600_000, 86_399_999, 359_999_999_999_999] {
        assert_eq!(srt_timestamp_millis_of(&srt_timestamp_millis(ms)), Some(ms));
    }
}

#[test]
fn timestamps_accept_dots_short_fractions_and_spaces() {
    assert_eq!(srt_timestamp_millis_of(" 00:00:01.5 "), Some(1_500));
    assert_eq!(srt_timestamp_millis_of("00:00:01,05"), Some(1_050));
    assert_eq!(srt_timestamp_millis_of("00:00:01"), Some(1_000));
    assert_eq!(srt_timestamp_millis_of("12345678:00:00,000"), Some(12_345_678 * 3_600_000));
}

#[test]
fn timestamps_out_of_shape_are_refused() {
    for bad in [
        "-1:00:00,000",
        "00:60:00,000",
        "00:00:60,000",
        "00:00:NaN",
        "123456789:00:00,000",
        "0:00:00,000",
        "00:00:00,0000",
        "00:00:00,",
        "00:00",
        "00:00:00:00",
        "",
    ] {
        assert_eq!(srt_timestamp_millis_of(bad), None, "{bad}");
    }
}

use editorcito::subtitles::{parse_srt, SrtCue};

fn cue(start_ms: u64, end_ms: u64, text: &str) -> SrtCue {
    SrtCue { start_ms, end_ms, text: text.to_owned() }
}

#[test]
fn imports_bom_whitespace_separators_and_position_metadata() {
    let cues = parse_srt("\u{feff}00:00:01,250-->00:00:03,000 X1:10 X2:20\r\nHola\r\nmundo\r\n \t\r\n2\r\n00:00:04.000 --> 00:00:05.500\r\nFin\r\n").unwrap();
    assert_eq!(cues.len(), 2);
    assert_eq!(cues[0].text, "Hola\nmundo");
    assert_eq!((cues[0].start_ms, cues[0].end_ms), (1_250, 3_000));
    assert_eq!(cues[1].end_ms, 5_500);
}

#[test]
fn rejects_invalid_or_unbounded_timestamps() {
    for value in [
        "-1:00:00,000",
        "00:60:00,000",
        "00:00:60,000",
        "00:00:NaN",
        "00:00:inf",
        "1e9:00:00,000",
        "00:00:01.2.3",
        "00:00:01,0000",
        "999999999999999999999999:00:00,000",
    ] {
        assert_eq!(srt_timestamp_millis_of(value), None, "{value}");
        assert_eq!(
            parse_srt(&format!("1\n00:00:00,000 --> {value}\nInvalid")),
            Err(format!("Final SRT no válido:  {value}"))
        );
    }
    assert!(parse_srt("1\n00:00:02,000 --> 00:00:01,000\nReversed").is_err());
}

#[test]
fn cues_come_out_in_time_order() {
    let text = "1\n00:00:05,000 --> 00:00:07,000\nFin\n\n2\n00:00:01,250 --> 00:00:03,000\nHola\nmundo\n";
    assert_eq!(
        parse_srt(text).unwrap(),
        vec![cue(1_250, 3_000, "Hola\nmundo"), cue(5_000, 7_000, "Fin")]
    );
}

#[test]
fn refusals_name_the_first_bad_block() {
    assert_eq!(parse_srt("1\nHola"), Err("Tiempo SRT no válido: Hola".to_owned()));
    assert_eq!(parse_srt("solo una línea"), Err("Bloque SRT sin tiempos".to_owned()));
    assert_eq!(
        parse_srt("x --> 00:00:01,000\nA"),
        Err("Inicio SRT no válido: x ".to_owned())
    );
    assert_eq!(parse_srt(""), Err("El archivo SRT no contiene subtítulos válidos".to_owned()));
    assert_eq!(
        parse_srt("1\n00:00:01,000 --> 00:00:02,000\n\n"),
        Err("El archivo SRT no contiene subtítulos válidos".to_owned())
    );
}

#[test]
fn equal_starts_keep_their_order_and_blank_lines_split_blocks() {
    let text = "00:00:01,000 --> 00:00:02,000\nB\n \n00:00:01,000 --> 00:00:03,000\nA\r\rC\n00:00:00,500 --> 00:00:00,600\nD";
    assert_eq!(
        parse_srt(text).unwrap(),
        vec![cue(500, 600, "D"), cue(1_000, 2_000, "B"), cue(1_000, 3_000, "A")]
    );
}

use editorcito::subtitles::{search_subtitles, Subtitle};

fn sample_cues() -> Vec<Subtitle> {
    vec![
        Subtitle { start: 4.0_f64.to_bits(), end: 6.0_f64.to_bits(), text: "Hola\nmundo".into() },
        Subtitle { start: 1.0_f64.to_bits(), end: 2.0_f64.to_bits(), text: "HOLA otra vez".into() },
    ]
}

#[test]
fn search_returns_original_indices_in_time_order() {
    let cues = sample_cues();
    assert_eq!(search_subtitles(&cues, "  hola  "), vec![1, 0]);
    assert_eq!(search_subtitles(&cues, "\n "), vec![1, 0]);
    assert_eq!(search_subtitles(&cues, "MUNDO"), vec![0]);
    assert!(search_subtitles(&cues, "[a-z]").is_empty());
    assert!(search_subtitles(&cues, "ausente").is_empty());
    assert_eq!(cues, sample_cues());
}

#[test]
fn search_orders_negative_starts_first_and_keeps_ties() {
    let cue = |start: f64, text: &str| Subtitle { start: start.to_bits(), end: 0, text: text.into() };
    let cues = vec![cue(2.0, "b"), cue(-1.0, "a"), cue(2.0, "c"), cue(-0.0, "d"), cue(0.0, "e")];
    assert_eq!(search_subtitles(&cues, ""), vec![1, 3, 4, 0, 2]);
}

use editorcito::subtitles::build_srt;

fn millis_of(seconds: f64) -> u64 {
    (seconds.max(0.0) * 1000.0).round() as u64
}

fn subtitle(start: f64, end: f64, text: &str) -> Subtitle {
    Subtitle { start: start.to_bits(), end: end.to_bits(), text: text.to_owned() }
}

#[test]
fn export_orders_cues_and_carries_millisecond_rounding() {
    assert_eq!(srt_timestamp_millis(millis_of(599.9995)), "00:10:00,000");
    let cues = vec![subtitle(5.0, 7.0, "Fin"), subtitle(1.25, 3.0, "Hola\nmundo")];
    let millis: Vec<(u64, u64)> = [(5.0, 7.0), (1.25, 3.0)]
        .iter()
        .map(|&(s, e)| (millis_of(s), millis_of(e)))
        .collect();
    let written = build_srt(&cues, &millis);
    assert_eq!(
        written,
        "1\n00:00:01,250 --> 00:00:03,000\nHola\nmundo\n\n2\n00:00:05,000 --> 00:00:07,000\nFin\n\n"
    );
    assert_eq!(
        parse_srt(&written).unwrap(),
        vec![cue(1_250, 3_000, "Hola\nmundo"), cue(5_000, 7_000, "Fin")]
    );
}

#[test]
fn written_texts_are_trimmed_and_ties_keep_document_order() {
    let cues = vec![
        subtitle(2.0, 3.0, "  segundo \n"),
        subtitle(1.0, 2.0, "primero"),
        subtitle(2.0, 4.0, "tercero"),
    ];
    let millis = vec![(2_000, 3_000), (1_000, 2_000), (2_000, 4_000)];
    let written = build_srt(&cues, &millis);
    assert_eq!(
        parse_srt(&written).unwrap(),
        vec![cue(1_000, 2_000, "primero"), cue(2_000, 3_000, "segundo"), cue(2_000, 4_000, "tercero")]
    );
    assert!(written.starts_with("1\n00:00:01,000 --> 00:00:02,000\nprimero\n\n2\n"));
    assert_eq!(build_srt(&vec![], &vec![]), "");
}
