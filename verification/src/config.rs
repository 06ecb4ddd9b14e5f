//! What the program remembers between two runs.

use vstd::prelude::*;

use crate::paths::{join_path, joined_path};

verus! {

/// The folder of the program's files below the user's configuration folder.
pub const CONFIG_DIR: &'static str = "ltc-timecode-generator";

/// The file that holds the configuration.
pub const CONFIG_FILE: &'static str = "converter_config.json";

/// The folders that were used last.
#[derive(Clone, Debug, PartialEq)]
pub struct ConverterConfig {
    pub last_input_folder: Option<String>,
    pub last_output_folder: Option<String>,
}

impl Default for ConverterConfig {
    fn default() -> (r: ConverterConfig)
        ensures
            r.last_input_folder is None,
            r.last_output_folder is None,
    {
        ConverterConfig { last_input_folder: None, last_output_folder: None }
    }
}

/// Where the configuration is, given the user's configuration folder.
pub fn config_path(base: Option<&str>) -> (r: Option<String>)
    ensures
        match (base, r) {
            (Some(b), Some(p)) => p@ == joined_path(joined_path(b@, CONFIG_DIR@), CONFIG_FILE@),
            (None, None) => true,
            _ => false,
        },
{
    match base {
        Some(b) => Some(join_path(join_path(b, CONFIG_DIR).as_str(), CONFIG_FILE)),
        None => None,
    }
}

/// Remembers the folder that input was read from.
pub fn save_input_folder(config: &mut ConverterConfig, path: &str)
    ensures
        final(config).last_input_folder matches Some(p) && p@ == path@,
        final(config).last_output_folder == old(config).last_output_folder,
{
    config.last_input_folder = Some(path.to_owned());
}

/// Remembers the folder that output was written to.
pub fn save_output_folder(config: &mut ConverterConfig, path: &str)
    ensures
        final(config).last_output_folder matches Some(p) && p@ == path@,
        final(config).last_input_folder == old(config).last_input_folder,
{
    config.last_output_folder = Some(path.to_owned());
}

} // verus!
