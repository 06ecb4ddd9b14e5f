//! What is kept between sessions.

use ltc_timecode::config::{config_path, save_input_folder, save_output_folder, ConverterConfig};

#[test]
fn path_is_below_the_users_folder() {
    assert_eq!(
        config_path(Some("/home/u/.config")),
        Some("/home/u/.config/ltc-timecode-generator/converter_config.json".to_string())
    );
    assert_eq!(config_path(None), None);
}

#[test]
fn folders_are_kept_apart() {
    let mut config = ConverterConfig::default();
    assert_eq!(config.last_input_folder, None);
    assert_eq!(config.last_output_folder, None);
    save_input_folder(&mut config, "/in");
    assert_eq!(config.last_input_folder.as_deref(), Some("/in"));
    assert_eq!(config.last_output_folder, None);
    save_output_folder(&mut config, "/out");
    assert_eq!(config.last_input_folder.as_deref(), Some("/in"));
    assert_eq!(config.last_output_folder.as_deref(), Some("/out"));
}
