//! Hardware devices and the encoders that need them.

use ltc_timecode::capabilities::HwDeviceCapabilities;
use ltc_timecode::hw_device::{
    build_test_encode_args, discover, list_vaapi_render_nodes, test_encode_with,
    validate_hw_encoders_with, wanted_probes,
};
use ltc_timecode::video_codecs::HwFramePath;

fn names(list: &[&str]) -> Vec<String> {
    list.iter().map(|s| s.to_string()).collect()
}

#[test]
fn test_list_render_nodes_sorts_by_suffix() {
    // Render nodes out of order, among other entries
    let entries = names(&["renderD128", "renderD129", "renderD127", "card0", "other"]);
    let nodes = list_vaapi_render_nodes(&entries);
    assert_eq!(nodes, vec!["renderD127", "renderD128", "renderD129"]);
}

#[test]
fn test_list_render_nodes_empty_dir() {
    assert!(list_vaapi_render_nodes(&Vec::new()).is_empty());
}

#[test]
fn test_list_render_nodes_nonexistent_dir() {
    // A folder that cannot be read has no entries
    assert!(list_vaapi_render_nodes(&Vec::new()).is_empty());
}

#[test]
fn test_discover_skips_non_linux() {
    let encoders = names(&["av1_vaapi"]);
    let nodes = vec![("/dev/dri/renderD128".to_string(), true)];
    let caps = discover(false, &encoders, &nodes, true);
    assert!(caps.vaapi_device.is_none());
    assert!(!caps.vulkan_available);
}

#[test]
fn test_discover_skips_when_no_relevant_encoder() {
    // Even on Linux, when no *_vaapi or *_vulkan encoder is listed,
    // probing should be skipped entirely.
    let encoders = names(&["libx264", "pcm_s24le"]);
    assert_eq!(wanted_probes(true, &encoders), (false, false));
    let nodes = vec![("/dev/dri/renderD128".to_string(), true)];
    let caps = discover(true, &encoders, &nodes, true);
    assert!(caps.vaapi_device.is_none());
    assert!(!caps.vulkan_available);
}

#[test]
fn test_discover_vaapi_no_render_nodes() {
    let nodes = list_vaapi_render_nodes(&Vec::new());
    assert!(nodes.is_empty());
    let caps = discover(true, &names(&["h264_vaapi"]), &Vec::new(), false);
    assert!(caps.vaapi_device.is_none());
}

#[test]
fn the_first_node_that_works_is_used() {
    let nodes = vec![
        ("/dev/dri/renderD128".to_string(), false),
        ("/dev/dri/renderD129".to_string(), true),
        ("/dev/dri/renderD130".to_string(), true),
    ];
    let caps = discover(true, &names(&["h264_vaapi", "av1_vulkan"]), &nodes, true);
    assert_eq!(caps.vaapi_device.as_deref(), Some("/dev/dri/renderD129"));
    assert!(caps.vulkan_available);
}

#[test]
fn a_trial_names_the_encoder_and_its_device() {
    let args = build_test_encode_args("h264_vaapi", Some(HwFramePath::Vaapi), Some("/dev/dri/renderD128"));
    assert!(args.iter().any(|a| a == "h264_vaapi"));
    assert!(args.iter().any(|a| a.contains("/dev/dri/renderD128")));
    let args = build_test_encode_args("h264_nvenc", None, None);
    assert!(args.iter().any(|a| a == "h264_nvenc"));
    assert!(!args.iter().any(|a| a == "-init_hw_device"));
    assert!(test_encode_with(|args: &Vec<String>| args.len() > 3, "h264_nvenc", None, None));
    assert!(!test_encode_with(|_: &Vec<String>| false, "h264_nvenc", None, None));
}

#[test]
fn hardware_encoders_that_fail_are_dropped() {
    let mut encoders = names(&["av1_nvenc", "h264_nvenc", "libx264"]);
    let hw = HwDeviceCapabilities::default();
    validate_hw_encoders_with(
        &mut encoders,
        &hw,
        |name: &str, _: Option<HwFramePath>, _: Option<&str>| name == "h264_nvenc",
    );
    assert_eq!(encoders, vec!["h264_nvenc", "libx264"]);
}
