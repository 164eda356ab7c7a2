use editorcito::batch::{supports, ClipTraits, Field};
use editorcito::encoder::{Encoder, EncoderPreset, ExportFormat};
use editorcito::decode::supported_extension;
use editorcito::edl::Channel;
use editorcito::efectos::{motion_of, transition_label, AudioRole};
use editorcito::project::{autosave_file_name, backup_file_name, checksum_text, project_id, BackupFile, ProjectCodec, BACKUP_FOLDER};
use editorcito::subtitulos_animados::CaptionPreset;

#[test]
fn transition_labels_keep_the_legacy_ids() {
    assert_eq!(transition_label("negro"), "Pasar a negro");
    assert_eq!(transition_label("dissolve"), "Disolución cruzada");
    assert_eq!(transition_label("empujar_der"), "Empujar a la derecha");
    assert_eq!(transition_label("desconocida"), "Pasar a negro");
    assert_eq!(AudioRole::default(), AudioRole::Ninguno);
}

#[test]
fn caption_presets_have_their_names() {
    assert_eq!(CaptionPreset::default(), CaptionPreset::Clasico);
    assert_eq!(CaptionPreset::Karaoke.label(), "Karaoke (se van coloreando)");
    assert_eq!(CaptionPreset::Pop.label(), "Pop (la palabra crece)");
}

#[test]
fn edl_channels_are_written_and_read() {
    assert_eq!(Channel::Video.label(), "V");
    assert_eq!(Channel::Both.label(), "B");
    assert_eq!(Channel::Audio(2).label(), "A2");
    assert_eq!(Channel::Audio(0).label(), "A1");
    assert_eq!(Channel::parse("VA"), Some(Channel::Both));
    assert_eq!(Channel::parse("A1A2"), Some(Channel::Audio(1)));
    assert_eq!(Channel::parse("A16"), Some(Channel::Audio(16)));
    assert_eq!(Channel::parse("A17"), None);
    assert_eq!(Channel::parse("A0"), None);
    assert_eq!(Channel::parse("NONE"), None);
    for channel in [Channel::Video, Channel::Both, Channel::Audio(1), Channel::Audio(9)] {
        assert_eq!(Channel::parse(&channel.label()), Some(channel));
    }
}

#[test]
fn fields_fall_in_their_categories() {
    assert_eq!(Field::Opacity.category(), 0);
    assert_eq!(Field::Blur.category(), 1);
    assert_eq!(Field::Mute.category(), 2);
    assert_eq!(Field::FadeOut.category(), 3);
}

#[test]
fn clips_take_only_the_categories_they_can_show() {
    let video = ClipTraits { nested: false, title: false, has_video: true, has_audio: false, is_adjustment: false };
    let adjustment = ClipTraits { is_adjustment: true, ..video };
    let title = ClipTraits { title: true, ..video };
    assert!(supports(&video, 0) && supports(&video, 1) && !supports(&video, 2) && supports(&video, 3));
    assert!(!supports(&adjustment, 0) && supports(&adjustment, 1) && !supports(&adjustment, 3));
    assert!(supports(&adjustment, 4));
    assert!(!supports(&title, 4));
    assert!(!supports(&video, 5));
}

#[test]
fn the_decoder_opens_known_extensions_in_any_case() {
    assert!(supported_extension("mp4"));
    assert!(supported_extension("MOV"));
    assert!(supported_extension("Flac"));
    assert!(!supported_extension("txt"));
    assert!(!supported_extension(""));
}

#[test]
fn snapshots_are_named_after_the_project_and_version() {
    assert_eq!(backup_file_name("p1", 3), "backup_p1_3.json");
    assert_eq!(autosave_file_name("p1", 12), "autosave_p1_12.json");
    assert_eq!(project_id(42, 1_700_000_000_000, 7), "editorcito_42_1700000000000_7");
    assert_eq!(checksum_text(0xab), "fnv1a64:00000000000000ab");
    assert_eq!(BACKUP_FOLDER, ".editorcito_backups");
}

#[test]
fn the_oldest_snapshots_of_the_project_are_pruned() {
    let codec = ProjectCodec::new("/w/.editorcito_backups".into());
    assert_eq!(codec.backup_dir(), "/w/.editorcito_backups");
    let files = vec![
        BackupFile { name: "backup_p_2.json".into(), modified: 20 },
        BackupFile { name: "notes.txt".into(), modified: 1 },
        BackupFile { name: "autosave_p_1.json".into(), modified: 10 },
        BackupFile { name: "backup_q_1.json".into(), modified: 5 },
        BackupFile { name: "backup_p_3.json".into(), modified: 30 },
    ];
    let (plan, remove) = codec.backups_to_prune(&files, "p", 2);
    assert_eq!(plan, vec![2, 0, 4]);
    assert_eq!(remove, 1);
    let (_, none) = codec.backups_to_prune(&files, "p", 10);
    assert_eq!(none, 0);
}

#[test]
fn equally_old_snapshots_go_in_listing_order() {
    let codec = ProjectCodec::new("b".into());
    let files = vec![
        BackupFile { name: "autosave_p_2.json".into(), modified: 7 },
        BackupFile { name: "backup_p_1.json".into(), modified: 7 },
    ];
    let (plan, remove) = codec.backups_to_prune(&files, "p", 0);
    assert_eq!(plan, vec![0, 1]);
    assert_eq!(remove, 2);
}

#[test]
fn rejects_invalid_export_description() {
    assert!(Encoder::new(
        ExportFormat::Mp4,
        EncoderPreset::Balanced,
        1920,
        1080,
        0.0f64.to_bits(),
        true,
    )
    .is_err());
}

#[test]
fn export_descriptions_need_a_frame_and_a_finite_rate() {
    let ok = Encoder::new(ExportFormat::Mov, EncoderPreset::Master, 3840, 2160, 25.0f64.to_bits(), false).unwrap();
    assert_eq!(ok.width, 3840);
    assert_eq!(f64::from_bits(ok.fps), 25.0);
    assert_eq!(ok.format, ExportFormat::Mov);
    assert_eq!(
        Encoder::new(ExportFormat::Mp4, EncoderPreset::Preview, 0, 1080, 25.0f64.to_bits(), true),
        Err("Export dimensions must be greater than zero".to_string())
    );
    for fps in [f64::NAN, f64::INFINITY, -25.0, -0.0, 0.0, f64::NEG_INFINITY] {
        assert_eq!(
            Encoder::new(ExportFormat::WebM, EncoderPreset::Balanced, 640, 360, fps.to_bits(), true),
            Err("Export frame rate must be finite and greater than zero".to_string())
        );
    }
    assert!(Encoder::new(ExportFormat::Wav, EncoderPreset::Balanced, 1, 1, 5e-324f64.to_bits(), true).is_ok());
}

#[test]
fn transitions_catalog_keeps_legacy_ids() {
    assert_eq!(transition_label("negro"), "Pasar a negro");
    assert_eq!(transition_label("dissolve"), "Disolución cruzada");
    assert_eq!(motion_of("empujar_der"), Some(((-1.0f64).to_bits(), 0.0f64.to_bits(), true)));
    assert_eq!(motion_of("dissolve"), None);
}

#[test]
fn moving_transitions_enter_from_their_side() {
    let at = |id: &str| motion_of(id).map(|(dx, dy, push)| (f64::from_bits(dx), f64::from_bits(dy), push));
    assert_eq!(at("deslizar_izq"), Some((1.0, 0.0, false)));
    assert_eq!(at("deslizar_der"), Some((-1.0, 0.0, false)));
    assert_eq!(at("deslizar_arriba"), Some((0.0, 1.0, false)));
    assert_eq!(at("deslizar_abajo"), Some((0.0, -1.0, false)));
    assert_eq!(at("empujar_izq"), Some((1.0, 0.0, true)));
    assert_eq!(at("negro"), None);
}
