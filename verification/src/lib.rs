//! Linear timecode (LTC) and media conversion logic with machine-checked contracts.
#![allow(unused_imports)]

pub mod text;
pub mod text_laws;
pub mod time_laws;
pub mod timecode;
pub mod ltc_encoder;
pub mod ltc_frames;
pub mod ltc_signal;
pub mod square_signal;
pub mod recording;
pub mod ltc_decoder;
pub mod round_trip;
pub mod wav;
pub mod ltc_chunks;
pub mod ltc_decoder_libltc;
pub mod capabilities;
pub mod video_codecs;
pub mod hw_device;
pub mod path_laws;
pub mod paths;
pub mod formats;
pub mod channel_map;
pub mod timecode_meta;
pub mod search_laws;
pub mod settings;
pub mod unique_names;
pub mod json;
pub mod ffprobe;
pub mod plan_laws;
pub mod planner;
pub mod offer_laws;
pub mod outputs;
pub mod run_laws;
pub mod sample_laws;
pub mod sanity;
pub mod ffmpeg_args;
pub mod command_lines;
pub mod regexes;
pub mod progress;
pub mod fallback;
pub mod keyframes;
pub mod copy_mode;
pub mod conversion;
pub mod readiness;
pub mod scan;
pub mod file_pattern;
pub mod grouping_laws;
pub mod decoder_laws;
pub mod duration;
pub mod log_buffer;
pub mod config;
pub mod command;
pub mod state;
pub mod message_laws;
pub mod messages;
pub mod steppers;
pub mod turns;
pub mod encoder_laws;
pub mod engine;
pub mod engine_decode;
pub mod engine_laws;
pub mod engine_commands;
