use editorcito::aceleracion::{listed_backends, HwBackend};
use editorcito::media_browser::{validate_drop_destination, FileStatus, Kind, Options, Proxy, Sort};
use editorcito::navigation::{normalized, search_score};

const ENCODERS: &str = " V....D libx264              libx264 H.264
 V....D h264_amf             AMD AMF H.264 Encoder (codec h264)
 V....D h264_nvenc           NVIDIA NVENC H.264 encoder (codec h264)
 V....D h264_qsv             H.264 / AVC (Intel Quick Sync Video acceleration) (codec h264)
 V....D hevc_nvenc           NVIDIA NVENC hevc encoder (codec hevc)";

#[test]
fn lists_backends_in_preference_order() {
    assert_eq!(
        listed_backends(ENCODERS),
        vec![HwBackend::Nvidia, HwBackend::Amd, HwBackend::Intel]
    );
    assert!(listed_backends(" V....D libx264  x").is_empty());
}

#[test]
fn video_args_pick_encoder_and_quality() {
    assert_eq!(
        HwBackend::Nvidia.video_args(false, false).join(" "),
        "-c:v h264_nvenc -pix_fmt yuv420p -preset p5 -tune hq -rc vbr -cq 19 -b:v 0"
    );
    assert_eq!(
        HwBackend::Intel.video_args(true, false).join(" "),
        "-c:v hevc_qsv -pix_fmt nv12 -preset medium -global_quality 23 -tag:v hvc1"
    );
    assert_eq!(
        HwBackend::Amd.video_args(false, true).join(" "),
        "-c:v h264_amf -pix_fmt yuv420p -quality speed -rc cqp -qp_i 28 -qp_p 30"
    );
}

#[test]
fn backends_name_their_encoders() {
    assert_eq!(HwBackend::Apple.encoder(true), "hevc_videotoolbox");
    assert_eq!(HwBackend::Nvidia.label(), "NVIDIA NVENC");
    assert_eq!(listed_backends(""), vec![]);
    assert_eq!(
        listed_backends(" V....D h264_videotoolbox x\n V....D h264_qsv y\n V....D h264_qsv y"),
        vec![HwBackend::Intel, HwBackend::Apple]
    );
}

#[test]
fn media_drop_rejects_locked_video_and_audio_destinations() {
    for is_video in [false, true] {
        for has_video in [false, true] {
            for has_audio in [false, true] {
                assert_eq!(
                    validate_drop_destination(true, is_video, has_video, has_audio),
                    Err("La pista de destino esta bloqueada"),
                );
            }
        }
    }
}

#[test]
fn media_drop_rejects_missing_destination_stream() {
    for has_video in [false, true] {
        assert_eq!(
            validate_drop_destination(false, false, has_video, false),
            Err("Ese medio no tiene audio"),
        );
    }
    for has_audio in [false, true] {
        assert_eq!(
            validate_drop_destination(false, true, false, has_audio),
            Err("Ese medio no tiene video"),
        );
    }
}

#[test]
fn media_drop_accepts_compatible_unlocked_destinations() {
    assert_eq!(validate_drop_destination(false, true, true, false), Ok(()));
    assert_eq!(validate_drop_destination(false, true, true, true), Ok(()));
    assert_eq!(validate_drop_destination(false, false, false, true), Ok(()));
    assert_eq!(validate_drop_destination(false, false, true, true), Ok(()));
}

#[test]
fn file_status_reuses_results_until_expiry() {
    let mut cache = FileStatus::default();
    cache.begin_frame(0);
    let path = "";
    // A synthetic result proves repeated reads do not touch the filesystem.
    assert!(cache.is_file(path, || true));
    cache.begin_frame(1_000);
    assert!(cache.is_file(path, || panic!("the cached answer must be reused")));
    // Three seconds later the answer has expired.
    cache.begin_frame(3_000);
    assert!(!cache.is_file(path, || std::path::Path::new(path).is_file()));
}

#[test]
fn a_fresh_status_asks_once_per_path() {
    let mut cache = FileStatus::new();
    cache.begin_frame(10);
    assert!(!cache.is_file("a", || false));
    assert!(cache.is_file("b", || true));
    assert!(!cache.is_file("a", || true));
    cache.begin_frame(2_009);
    assert!(!cache.is_file("a", || true));
    cache.begin_frame(2_010);
    assert!(cache.is_file("a", || true));
}

#[test]
fn browser_options_start_with_everything() {
    let options = Options::default();
    assert_eq!(options.kind, Kind::All);
    assert_eq!(options.proxy, Proxy::All);
    assert_eq!(options.sort, Sort::Name);
    assert!(!options.offline_only);
    assert!(!options.descending);
}

#[test]
fn search_ignores_case_accents_and_word_order() {
    assert!(search_score("color seleccion", "Selecci\u{f3}n: Color", "").is_some());
}

#[test]
fn search_requires_every_token_and_includes_details() {
    assert!(search_score("toma v2", "Toma 5", "V2 00:01:00").is_some());
    assert!(search_score("toma v3", "Toma 5", "V2").is_none());
}

#[test]
fn title_matches_rank_above_metadata() {
    assert!(
        search_score("audio", "Audio", "").unwrap()
            < search_score("audio", "Clip", "audio").unwrap()
    );
}

#[test]
fn empty_query_returns_results() {
    assert!(search_score("  ", "Clip", "").is_some());
}

#[test]
fn scores_rank_exact_then_prefix_then_missing_words() {
    assert_eq!(search_score("Audio", "audio", ""), Some(0));
    assert_eq!(search_score(" aud ", "Audio 2", ""), Some(1));
    assert_eq!(search_score("2 audio", "Audio 2", ""), Some(2));
    assert_eq!(search_score("audio x", "Audio 2", "x"), Some(3));
    assert_eq!(search_score("", "", ""), Some(0));
}

#[test]
fn normalization_lowercases_and_folds_spanish_accents() {
    assert_eq!(normalized("ÁRBOL Ñandú Pingüino"), "arbol nandu pinguino");
    assert_eq!(normalized("Ça"), "ça");
}
