//! Numbered outputs get different names.

use std::collections::HashSet;

use ltc_timecode::settings::ConverterSettings;
use ltc_timecode::settings::{build_output_name, number_suffix};

#[test]
fn numbers_name_outputs_apart() {
    for template in ["_audio_track{:01d}", "{:02d}", "{:03d}_{:01d}", "a{:01d}{:02d}b"] {
        assert!(ConverterSettings::validate_suffix_template(template).is_ok());
        let names: HashSet<String> = (0..1200)
            .map(|n| build_output_name("take", &number_suffix(template, n), "", "wav"))
            .collect();
        assert_eq!(names.len(), 1200);
    }
}

#[test]
fn every_place_is_filled() {
    assert_eq!(number_suffix("{:01d}-{:02d}-{:03d}", 7), "7-07-007");
    assert_eq!(number_suffix("{:01d}-{:02d}-{:03d}", 1234), "1234-1234-1234");
    assert_eq!(number_suffix("_mix", 3), "_mix");
}
