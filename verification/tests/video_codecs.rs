//! Video codecs and the encoders that produce them.

use ltc_timecode::capabilities::{FfmpegCapabilities, HwDeviceCapabilities};
use ltc_timecode::video_codecs::{
    available_video_codecs, candidate_args, codec_args, codec_supports_container, describe_chain,
    encoder_class, hw_frames_for, normalize_video_codec, resolve_encoder_chain,
    static_encoder_chain, supported_video_codecs, EncoderClass, HwFramePath,
};

const YUV420P: &[(&str, &str)] = &[("pix_fmt", "yuv420p")];

const NO_ARGS: &[(&str, &str)] = &[];

fn caps<I: IntoIterator<Item = &'static str>>(encoders: I) -> FfmpegCapabilities {
    FfmpegCapabilities {
        has_ffmpeg: true,
        available_encoders: encoders.into_iter().map(String::from).collect(),
        available_formats: Vec::new(),
        hw: HwDeviceCapabilities::default(),
        error_message: None,
    }
}

/// Linux AV1 encoder list (from `ffmpeg -encoders` on Linux).
const LINUX_AV1: &[&str] = &[
    "libaom-av1", "librav1e", "libsvtav1", "av1_nvenc", "av1_qsv", "av1_vaapi", "av1_vulkan",
];

/// Windows AV1 encoder list.
const WINDOWS_AV1: &[&str] = &["libaom-av1", "av1_nvenc", "av1_qsv", "av1_amf"];

fn strs(v: &[String]) -> Vec<&str> {
    v.iter().map(String::as_str).collect()
}

#[test]
fn test_static_chain_orders_hardware_first() {
    assert_eq!(
        strs(&static_encoder_chain("av1")),
        vec!["av1_nvenc", "av1_qsv", "av1_amf", "libsvtav1", "libaom-av1", "librav1e"]
    );
    assert_eq!(
        strs(&static_encoder_chain("h265")),
        vec![
            "hevc_nvenc", "hevc_qsv", "hevc_amf", "hevc_mf", "hevc_v4l2m2m", "libx265"
        ]
    );
    assert_eq!(strs(&static_encoder_chain("prores")), vec!["prores_ks", "prores_aw"]);
    assert_eq!(strs(&static_encoder_chain("dnxhd")), vec!["dnxhd"]);
}

#[test]
fn test_resolve_chain_filters_availability_and_keeps_priority() {
    let c = caps(LINUX_AV1.iter().copied());
    // av1_vaapi / av1_vulkan exist in ffmpeg but are not registry
    // candidates (they need hw-frame plumbing), so they are filtered out.
    assert_eq!(
        strs(&resolve_encoder_chain("av1", &c)),
        vec!["av1_nvenc", "av1_qsv", "libsvtav1", "libaom-av1", "librav1e"]
    );
}

#[test]
fn test_resolve_chain_windows_av1() {
    let c = caps(WINDOWS_AV1.iter().copied());
    assert_eq!(
        strs(&resolve_encoder_chain("av1", &c)),
        vec!["av1_nvenc", "av1_qsv", "av1_amf", "libaom-av1"]
    );
}

#[test]
fn test_resolve_chain_software_only() {
    let c = caps(["libsvtav1"]);
    assert_eq!(strs(&resolve_encoder_chain("av1", &c)), vec!["libsvtav1"]);
}

#[test]
fn test_resolve_chain_empty_when_none_available() {
    let c = caps(["libx264"]);
    assert!(resolve_encoder_chain("av1", &c).is_empty());
}

#[test]
fn test_static_chain_unknown_codec_passthrough() {
    assert_eq!(strs(&static_encoder_chain("weird")), vec!["weird"]);
}

#[test]
fn test_codec_supports_container_matrix() {
    assert!(codec_supports_container("av1", "mkv"));
    assert!(codec_supports_container("av1", "mp4"));
    assert!(!codec_supports_container("av1", "mxf"));
    assert!(codec_supports_container("prores", "mov"));
    assert!(codec_supports_container("prores", "mkv"));
    assert!(!codec_supports_container("prores", "mp4"));
    assert!(codec_supports_container("dnxhd", "mxf"));
    assert!(!codec_supports_container("dnxhd", "mp4"));
    assert!(codec_supports_container("h265", "mxf"));
    assert!(codec_supports_container("h264", "mxf"));
    assert!(!codec_supports_container("unknown", "mkv"));
}

#[test]
fn test_available_video_codecs_for_container() {
    // mov: prores, dnxhd, h264, h265, av1 — only h264/h265 have candidates
    let c = caps(["libx264", "libx265", "pcm_s24le"]);
    let available = available_video_codecs("mov", &c);
    let ids: Vec<&str> = available.iter().map(|(k, _)| *k).collect();
    assert_eq!(ids, vec!["h264", "h265"]);
}

#[test]
fn test_available_video_codecs_excludes_codec_without_candidates() {
    // av1 listed in mkv but no AV1 encoder installed
    let c = caps(["libx264"]);
    let ids: Vec<&str> = available_video_codecs("mkv", &c)
        .iter()
        .map(|(k, _)| *k)
        .collect();
    assert!(!ids.contains(&"av1"));
    assert!(ids.contains(&"h264"));
}

#[test]
fn test_normalize_video_codec() {
    // Already codec ids
    assert_eq!(normalize_video_codec("av1"), "av1");
    assert_eq!(normalize_video_codec("h264"), "h264");
    // Legacy concrete encoder names
    assert_eq!(normalize_video_codec("libsvtav1"), "av1");
    assert_eq!(normalize_video_codec("libx264"), "h264");
    assert_eq!(normalize_video_codec("libx265"), "h265");
    assert_eq!(normalize_video_codec("prores_ks"), "prores");
    assert_eq!(normalize_video_codec("dnxhd"), "dnxhd");
    // Hardware variants not in the registry
    assert_eq!(normalize_video_codec("h264_vaapi"), "h264");
    assert_eq!(normalize_video_codec("hevc_vaapi"), "h265");
    assert_eq!(normalize_video_codec("av1_vulkan"), "av1");
    // Unknown passthrough
    assert_eq!(normalize_video_codec("mystery"), "mystery");
}

#[test]
fn test_candidate_and_codec_args() {
    assert_eq!(candidate_args("libx264"), YUV420P);
    assert_eq!(candidate_args("av1_nvenc"), NO_ARGS);
    assert_eq!(candidate_args("nonexistent"), NO_ARGS);
    assert_eq!(codec_args("h265"), &[("tag:v", "hvc1")]);
    assert_eq!(codec_args("h264"), NO_ARGS);
}

#[test]
fn test_encoder_class() {
    assert_eq!(encoder_class("av1_nvenc"), Some(EncoderClass::Hardware));
    assert_eq!(encoder_class("libsvtav1"), Some(EncoderClass::Software));
    assert_eq!(encoder_class("nope"), None);
}

#[test]
fn test_describe_chain() {
    let c = caps(["av1_nvenc", "libsvtav1"]);
    assert_eq!(describe_chain("av1", &c), "av1_nvenc (hardware) → libsvtav1");
    let empty = caps(["libx264"]);
    assert!(describe_chain("av1", &empty).contains("no available encoder"));
}

#[test]
fn test_supported_video_codecs_ids_unique() {
    let mut ids: Vec<&str> = supported_video_codecs().iter().map(|(k, _)| *k).collect();
    ids.sort_unstable();
    ids.dedup();
    assert_eq!(ids.len(), supported_video_codecs().len());
}

#[test]
fn hardware_frames_go_by_the_name_of_the_encoder() {
    assert_eq!(hw_frames_for("h264_vaapi"), Some(HwFramePath::Vaapi));
    assert_eq!(hw_frames_for("av1_vulkan"), Some(HwFramePath::Vulkan));
    assert_eq!(hw_frames_for("h264_nvenc"), None);
    assert_eq!(hw_frames_for("libx264"), None);
}

#[test]
fn normalizing_twice_changes_nothing() {
    for name in ["av1", "libx265", "hevc_vaapi", "prores_aw", "mystery"] {
        let once = normalize_video_codec(name);
        assert_eq!(normalize_video_codec(once), once);
    }
}

#[test]
fn hardware_comes_before_software_in_every_chain() {
    for (id, _) in supported_video_codecs() {
        let classes: Vec<Option<EncoderClass>> =
            static_encoder_chain(id).iter().map(|e| encoder_class(e)).collect();
        let first_software =
            classes.iter().position(|c| *c == Some(EncoderClass::Software)).unwrap();
        assert!(classes[first_software..].iter().all(|c| *c == Some(EncoderClass::Software)));
    }
}
