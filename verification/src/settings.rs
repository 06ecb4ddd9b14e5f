//! What a conversion does: its inputs, its routing, its formats and the names
//! of its outputs.

use vstd::prelude::*;

use crate::channel_map::ChannelMap;
use crate::paths::{
    file_stem, file_stem_of, join_path, joined_path, listed, path_listed,
};
use crate::text::{
    contains, decimal, found_at, padded2, padded3, push_decimal, push_padded2, push_padded3,
    replace, replaced, same, strs,
};
use crate::timecode_meta::TimecodeMetadata;
use crate::video_codecs::{
    is_known_encoder, known_encoder, normalize_video_codec, normalized_codec, static_chain,
    static_encoder_chain,
};

verus! {

/// The suffix of audio outputs, with a place for the track number.
pub const DEFAULT_AUDIO_SUFFIX: &'static str = "_audio_track{:01d}";

/// The suffix of video outputs, with a place for the clip number.
pub const DEFAULT_VIDEO_SUFFIX: &'static str = "_video_clip{:02d}";

/// What goes in and what comes out.
#[derive(Clone, Copy, Debug, PartialEq, Eq, Structural)]
pub enum ConversionPipeline {
    /// Audio files become audio files, or a synthetic video with their sound.
    AudioOnly { generate_synthetic_video: bool },
    /// Video files become video files.
    VideoPassthrough,
}

/// What the input files are to each other.
#[derive(Clone, Copy, Debug, PartialEq, Eq, Structural)]
pub enum RecordingType {
    MultiTrackAudio,
    VideoClipSequence,
}

/// Where the names of outputs come from.
#[derive(Clone, Copy, Debug, PartialEq, Eq, Structural)]
pub enum OutputNamingMode {
    /// From the filename prefix.
    PrefixTemplates,
    /// From the name of the source file.
    SourceStems,
}

impl OutputNamingMode {
    /// Whether names come from the source files.
    pub fn is_source_stems(&self) -> (r: bool)
        ensures
            r == (*self == OutputNamingMode::SourceStems),
    {
        matches!(self, OutputNamingMode::SourceStems)
    }
}

/// The hardware device that an encoder runs on.
#[derive(Clone, Debug)]
pub enum ResolvedHwDevice {
    Vaapi { device_path: String },
    Vulkan,
}

/// Everything that a conversion is told.
#[derive(Clone, Debug)]
pub struct ConverterSettings {
    pub pipeline: ConversionPipeline,
    pub input_files: Vec<String>,
    pub recording_type: RecordingType,
    pub ltc_track_channel_index: usize,
    pub channel_map: ChannelMap,
    pub split_tracks: bool,
    pub drop_ltc_track: bool,
    /// The stream and channel that carry LTC in a video.
    pub ltc_video_source: Option<(usize, usize)>,
    pub container: String,
    /// Whether the video stream is copied as it is.
    pub copy_video: bool,
    /// A video codec id; names of encoders are taken too.
    pub video_encoder: String,
    pub audio_encoder: String,
    /// The encoder that was found to work; empty until then.
    pub resolved_video_encoder: String,
    pub resolved_hw_device: Option<ResolvedHwDevice>,
    pub output_folder: String,
    pub filename_prefix: String,
    pub audio_suffix_template: String,
    pub video_suffix_template: String,
    pub naming_mode: OutputNamingMode,
    pub trim_to_first_ltc: bool,
    /// How much is cut from the start of each file.
    pub trim_offsets_nanos: Vec<u64>,
    pub timecode_meta_per_file: Vec<Option<TimecodeMetadata>>,
    /// Whether each audio track is joined across all clips.
    pub concat_audio: bool,
}

// ── Names ──────────────────────────────────────────────────────────────────

/// A suffix template with the number put in its places.
pub open spec fn numbered(template: Seq<char>, index: nat) -> Seq<char> {
    replaced(
        replaced(replaced(template, "{:01d}"@, decimal(index)), "{:02d}"@, padded2(index)),
        "{:03d}"@,
        padded3(index),
    )
}

/// Puts a number in the places of a suffix template.
pub fn number_suffix(template: &str, index: usize) -> (r: String)
    ensures
        r@ == numbered(template@, index as nat),
{
    let mut one = String::new();
    push_decimal(&mut one, index as u64);
    let mut two = String::new();
    push_padded2(&mut two, index as u64);
    let mut three = String::new();
    push_padded3(&mut three, index as u64);
    proof {
        reveal_strlit("{:01d}");
        reveal_strlit("{:02d}");
        reveal_strlit("{:03d}");
        assert(one@ =~= decimal(index as nat));
        assert(two@ =~= padded2(index as nat));
        assert(three@ =~= padded3(index as nat));
    }
    let a = replace(template, "{:01d}", one.as_str());
    let b = replace(a.as_str(), "{:02d}", two.as_str());
    replace(b.as_str(), "{:03d}", three.as_str())
}

/// A template has a place for a number.
pub open spec fn has_placeholder(template: Seq<char>) -> bool {
    ||| exists|k: int| found_at(template, "{:01d}"@, k)
    ||| exists|k: int| found_at(template, "{:02d}"@, k)
    ||| exists|k: int| found_at(template, "{:03d}"@, k)
}

/// A template that is taken: it is empty, names come from the source files, or it
/// has a place for a number.
pub open spec fn template_taken(template: Seq<char>, mode: OutputNamingMode) -> bool {
    template.len() == 0 || mode == OutputNamingMode::SourceStems || has_placeholder(template)
}

/// What is told about a template that is not taken.
pub open spec fn template_error() -> Seq<char> {
    "Suffix template must contain at least one placeholder ({:01d}, {:02d}, or {:03d}) to ensure unique filenames. Examples: _audio_track{:01d} or _clip{:02d}"@
}

/// An output's file name.
pub open spec fn output_name(base: Seq<char>, suffix: Seq<char>, mark: Seq<char>, extension: Seq<char>) -> Seq<char> {
    base + suffix + mark + "."@ + extension
}

/// Puts an output's file name together.
pub fn build_output_name(base: &str, suffix: &str, mark: &str, extension: &str) -> (r: String)
    ensures
        r@ == output_name(base@, suffix@, mark@, extension@),
{
    let mut out = base.to_owned();
    out.append(suffix);
    out.append(mark);
    out.append(".");
    out.append(extension);
    out
}

/// The output path, with `_conv` before the extension where it would be that of an
/// input.
pub open spec fn output_path(
    folder: Seq<char>,
    inputs: Seq<Seq<char>>,
    base: Seq<char>,
    suffix: Seq<char>,
    extension: Seq<char>,
) -> Seq<char> {
    let plain = joined_path(folder, output_name(base, suffix, seq![], extension));
    if listed(inputs, plain) {
        joined_path(folder, output_name(base, suffix, "_conv"@, extension))
    } else {
        plain
    }
}

/// The base of output names for a source file.
pub open spec fn base_name(
    mode: OutputNamingMode,
    inputs: Seq<Seq<char>>,
    prefix: Seq<char>,
    file_idx: int,
) -> Seq<char> {
    if mode == OutputNamingMode::SourceStems && 0 <= file_idx < inputs.len() {
        match file_stem_of(inputs[file_idx]) {
            Some(stem) => stem,
            None => prefix,
        }
    } else {
        prefix
    }
}

impl ConverterSettings {
    /// The input paths.
    pub open spec fn inputs(self) -> Seq<Seq<char>> {
        strs(self.input_files@)
    }

    /// The suffix for outputs of a kind with a number.
    pub open spec fn suffix(self, kind: Seq<char>, index: nat) -> Seq<char> {
        if kind == "audio"@ {
            numbered(self.audio_suffix_template@, index)
        } else if kind == "video"@ {
            numbered(self.video_suffix_template@, index)
        } else {
            seq![]
        }
    }

    /// The base of output names for a source file.
    pub open spec fn base(self, file_idx: int) -> Seq<char> {
        base_name(self.naming_mode, self.inputs(), self.filename_prefix@, file_idx)
    }

    /// The output path for a kind, a source file and a number.
    pub open spec fn path_for(self, kind: Seq<char>, file_idx: int, index: nat, extension: Seq<char>) -> Seq<char> {
        output_path(
            self.output_folder@,
            self.inputs(),
            self.base(file_idx),
            self.suffix(kind, index),
            extension,
        )
    }

    /// The encoder that the video is encoded with.
    pub open spec fn encoder(self) -> Seq<char> {
        if self.resolved_video_encoder@.len() > 0 {
            self.resolved_video_encoder@
        } else if known_encoder(self.video_encoder@) is Some {
            self.video_encoder@
        } else {
            let codec = normalized_codec(self.video_encoder@);
            let chain = static_chain(codec);
            if chain.len() > 0 {
                chain[0]
            } else {
                codec
            }
        }
    }

    /// The outputs are joined across clips.
    pub open spec fn joins_clips(self) -> bool {
        self.concat_audio && self.split_tracks && self.recording_type
            == RecordingType::VideoClipSequence
    }

    /// Whether the outputs are joined across clips.
    pub fn use_concat(&self) -> (r: bool)
        ensures
            r == self.joins_clips(),
    {
        self.concat_audio && self.split_tracks && self.recording_type
            == RecordingType::VideoClipSequence
    }

    /// The encoder that the video is encoded with: the one found to work, an
    /// encoder that was named, or the first of the codec.
    pub fn effective_video_encoder(&self) -> (r: String)
        ensures
            r@ == self.encoder(),
    {
        if !self.resolved_video_encoder.as_str().is_empty() {
            return self.resolved_video_encoder.clone();
        }
        let input = self.video_encoder.as_str();
        if is_known_encoder(input) {
            return input.to_owned();
        }
        let codec = normalize_video_codec(input);
        let chain = static_encoder_chain(codec);
        assert(strs(chain@).len() == chain@.len());
        if chain.len() > 0 {
            assert(strs(chain@)[0] == chain@[0]@);
            chain[0].clone()
        } else {
            codec.to_owned()
        }
    }

    /// The base of output names for a source file: its stem, or the prefix.
    pub fn output_base_for_file(&self, file_idx: usize) -> (r: String)
        ensures
            r@ == self.base(file_idx as int),
    {
        if self.naming_mode.is_source_stems() && file_idx < self.input_files.len() {
            assert(self.inputs()[file_idx as int] == self.input_files@[file_idx as int]@);
            match file_stem(self.input_files[file_idx].as_str()) {
                Some(stem) => stem,
                None => self.filename_prefix.clone(),
            }
        } else {
            self.filename_prefix.clone()
        }
    }

    /// The output path for a kind and a number, named after the first file.
    pub fn output_path_for_index(&self, kind: &str, index: usize, extension: &str) -> (r: String)
        ensures
            r@ == self.path_for(kind@, 0, index as nat, extension@),
    {
        self.output_path_for_file(kind, 0, index, extension)
    }

    /// The output path for a kind, a source file and a number. Where it is the
    /// path of an input, `_conv` is put into the name.
    pub fn output_path_for_file(
        &self,
        kind: &str,
        file_idx: usize,
        index: usize,
        extension: &str,
    ) -> (r: String)
        ensures
            r@ == self.path_for(kind@, file_idx as int, index as nat, extension@),
    {
        let base = self.output_base_for_file(file_idx);
        let suffix = if same(kind, "audio") {
            number_suffix(self.audio_suffix_template.as_str(), index)
        } else if same(kind, "video") {
            number_suffix(self.video_suffix_template.as_str(), index)
        } else {
            String::new()
        };
        assert(suffix@ =~= self.suffix(kind@, index as nat));
        avoid_inputs(
            self.output_folder.as_str(),
            &self.input_files,
            base.as_str(),
            suffix.as_str(),
            extension,
        )
    }

    /// Checks a suffix template for names from a prefix.
    pub fn validate_suffix_template(template: &str) -> (r: Result<(), String>)
        ensures
            r is Ok <==> template_taken(template@, OutputNamingMode::PrefixTemplates),
            r matches Err(e) ==> e@ == template_error(),
    {
        Self::validate_suffix_template_for_mode(template, &OutputNamingMode::PrefixTemplates)
    }

    /// Checks a suffix template: unless names come from the source files it
    /// must be empty or have a place for a number.
    pub fn validate_suffix_template_for_mode(template: &str, naming_mode: &OutputNamingMode) -> (r:
        Result<(), String>)
        ensures
            r is Ok <==> template_taken(template@, *naming_mode),
            r matches Err(e) ==> e@ == template_error(),
    {
        if template.is_empty() || naming_mode.is_source_stems() || contains(template, "{:01d}")
            || contains(template, "{:02d}") || contains(template, "{:03d}") {
            return Ok(());
        }
        Err(
            "Suffix template must contain at least one placeholder ({:01d}, {:02d}, or {:03d}) to ensure unique filenames. Examples: _audio_track{:01d} or _clip{:02d}".to_string(),
        )
    }
}

/// The output path, with `_conv` before the extension where it would be that of an
/// input.
pub fn avoid_inputs(
    folder: &str,
    inputs: &Vec<String>,
    base: &str,
    suffix: &str,
    extension: &str,
) -> (r: String)
    ensures
        r@ == output_path(folder@, strs(inputs@), base@, suffix@, extension@),
{
    proof {
        reveal_strlit("");
        assert(""@ =~= seq![]);
    }
    let name = build_output_name(base, suffix, "", extension);
    let path = join_path(folder, name.as_str());
    if path_listed(inputs, path.as_str()) {
        let aside = build_output_name(base, suffix, "_conv", extension);
        join_path(folder, aside.as_str())
    } else {
        path
    }
}

// ── Laws ───────────────────────────────────────────────────────────────────

/// An output is never written over an input, unless the name with `_conv` is
/// that of an input too.
pub proof fn law_outputs_spare_inputs(
    folder: Seq<char>,
    inputs: Seq<Seq<char>>,
    base: Seq<char>,
    suffix: Seq<char>,
    extension: Seq<char>,
)
    requires
        !listed(inputs, joined_path(folder, output_name(base, suffix, "_conv"@, extension))),
    ensures
        !listed(inputs, output_path(folder, inputs, base, suffix, extension)),
{
}

} // verus!
