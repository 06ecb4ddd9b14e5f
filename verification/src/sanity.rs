//! Checking a conversion before it starts.

use vstd::prelude::*;

use crate::capabilities::FfmpegCapabilities;
use crate::formats::{
    audio_fits, container_supports_audio_encoder, encoder_available_in_ffmpeg, ffmpeg_format,
    format_available_in_ffmpeg,
};
use crate::settings::{template_error, template_taken, ConverterSettings, OutputNamingMode};
use crate::text::{concat2, concat3, join, joined, push_str, same, strs};
use crate::video_codecs::{
    codec_supports_container, find_codec, fits_container, normalize_video_codec, normalized_codec,
    pairs, registered, registry, resolve_encoder_chain, resolved_chain, static_chain,
    static_encoder_chain, supported_video_codecs, CodecModel,
};

verus! {

/// An input file and whether it exists.
#[derive(Clone, Debug)]
pub struct InputFile {
    pub path: String,
    pub exists: bool,
}

/// What a conversion is asked to do.
pub struct Request {
    pub container: Seq<char>,
    pub video_codec: Seq<char>,
    pub audio_encoder: Seq<char>,
    pub inputs: Seq<InputFile>,
    pub output_folder: Seq<char>,
    pub folder_exists: bool,
    pub prefix: Seq<char>,
    pub audio_suffix: Option<Seq<char>>,
    pub video_suffix: Option<Seq<char>>,
    pub naming_mode: Option<OutputNamingMode>,
    pub copy_video: bool,
}

/// The path of the first input from `from` on that does not exist.
pub open spec fn first_missing(inputs: Seq<InputFile>, from: int) -> Option<Seq<char>>
    decreases inputs.len() - from,
{
    if from < 0 || from >= inputs.len() {
        None
    } else if !inputs[from].exists {
        Some(inputs[from].path@)
    } else {
        first_missing(inputs, from + 1)
    }
}

/// The naming mode that suffixes are checked for.
pub open spec fn mode_of(mode: Option<OutputNamingMode>) -> OutputNamingMode {
    match mode {
        Some(m) => m,
        None => OutputNamingMode::PrefixTemplates,
    }
}

/// A suffix that is given must be taken.
pub open spec fn suffix_taken(suffix: Option<Seq<char>>, mode: Option<OutputNamingMode>) -> bool {
    suffix matches Some(s) ==> template_taken(s, mode_of(mode))
}

/// The ids of all codecs between commas.
pub open spec fn known_codecs() -> Seq<char> {
    joined(registry().map_values(|c: CodecModel| c.id), ", "@)
}

/// What helps with a codec that does not fit a container.
pub open spec fn codec_hint(codec: Seq<char>) -> Seq<char> {
    if codec == "prores"@ {
        "ProRes typically requires MOV or MKV containers."@
    } else if codec == "av1"@ {
        "AV1 works in MKV, MP4, and MOV containers."@
    } else if codec == "dnxhd"@ {
        "DNxHD requires MXF, MOV, or MKV containers."@
    } else if codec == "h264"@ || codec == "h265"@ {
        "H.264/HEVC work in all containers."@
    } else {
        ""@
    }
}

/// What helps with an audio encoder that does not fit a container.
pub open spec fn audio_hint(encoder: Seq<char>) -> Seq<char> {
    if encoder == "libopus"@ {
        "Opus is only supported in MKV and MOV containers."@
    } else if encoder == "pcm_s24le"@ || encoder == "pcm_s16le"@ {
        "Uncompressed PCM works in all containers."@
    } else if encoder == "aac"@ {
        "AAC works in all containers."@
    } else {
        ""@
    }
}

/// What is wrong with the files of a request: its inputs, its prefix and its
/// output folder, in this order.
pub open spec fn file_fault(r: Request) -> Option<Seq<char>> {
    if r.inputs.len() == 0 {
        Some("No input files selected."@)
    } else if let Some(path) = first_missing(r.inputs, 0) {
        Some("Input file does not exist: "@ + path)
    } else if mode_of(r.naming_mode) != OutputNamingMode::SourceStems && r.prefix.len() == 0 {
        Some("No output filename prefix specified."@)
    } else if r.output_folder.len() > 0 && !r.folder_exists {
        Some("Output directory does not exist: "@ + r.output_folder)
    } else {
        None
    }
}

/// What is wrong with the video codec: it is unknown, or ffmpeg has no encoder
/// for it.
pub open spec fn codec_fault(r: Request, encoders: Seq<Seq<char>>) -> Option<Seq<char>> {
    let codec = normalized_codec(r.video_codec);
    if r.copy_video {
        None
    } else if registered(codec) is None {
        Some(
            "Unknown video codec '"@ + r.video_codec + "'. Supported codecs: "@ + known_codecs()
                + "."@,
        )
    } else if resolved_chain(codec, encoders).len() == 0 {
        Some(
            "No "@ + codec
                + " encoder is available in your ffmpeg installation (needs one of: "@
                + joined(static_chain(codec), ", "@)
                + "). Run `ffmpeg -encoders` to see available encoders."@,
        )
    } else {
        None
    }
}

/// What is wrong with putting the codec and the audio encoder into the container.
pub open spec fn fit_fault(r: Request) -> Option<Seq<char>> {
    let codec = normalized_codec(r.video_codec);
    if !r.copy_video && !fits_container(codec, r.container) {
        Some(
            "Video codec '"@ + codec + "' is not compatible with container format '"@ + r.container
                + "'. "@ + codec_hint(codec),
        )
    } else if !audio_fits(r.container, r.audio_encoder) {
        Some(
            "Audio encoder '"@ + r.audio_encoder + "' is not compatible with container format '"@
                + r.container + "'. "@ + audio_hint(r.audio_encoder),
        )
    } else {
        None
    }
}

/// The first thing that is wrong with a request, if anything is.
pub open spec fn fault(r: Request, has_ffmpeg: bool, encoders: Seq<Seq<char>>, formats: Seq<Seq<char>>) -> Option<
    Seq<char>,
> {
    if !has_ffmpeg {
        Some(
            "ffmpeg is not available. Please install ffmpeg and ensure it is in your PATH."@,
        )
    } else if let Some(text) = file_fault(r) {
        Some(text)
    } else if !formats.contains(ffmpeg_format(r.container)) {
        Some(
            "Container format '"@ + r.container
                + "' is not supported by your ffmpeg installation. Run `ffmpeg -formats` to see available formats."@,
        )
    } else if !suffix_taken(r.audio_suffix, r.naming_mode) || !suffix_taken(
        r.video_suffix,
        r.naming_mode,
    ) {
        Some(template_error())
    } else if let Some(text) = codec_fault(r, encoders) {
        Some(text)
    } else if !encoders.contains(r.audio_encoder) {
        Some(
            "Audio encoder '"@ + r.audio_encoder
                + "' is not supported by your ffmpeg installation. Run `ffmpeg -encoders` to see available encoders. Common alternatives: pcm_s24le (PCM 24-bit), pcm_s16le (PCM 16-bit), aac, libopus."@,
        )
    } else {
        fit_fault(r)
    }
}

/// An optional text.
pub open spec fn opt_text(s: Option<&str>) -> Option<Seq<char>> {
    match s {
        Some(t) => Some(t@),
        None => None,
    }
}

fn check_files(
    input_files: &Vec<InputFile>,
    output_folder: &str,
    folder_exists: bool,
    prefix: &str,
    naming_mode: Option<OutputNamingMode>,
    Ghost(r): Ghost<Request>,
) -> (e: Result<(), String>)
    requires
        r.inputs == input_files@,
        r.output_folder == output_folder@,
        r.folder_exists == folder_exists,
        r.prefix == prefix@,
        r.naming_mode == naming_mode,
    ensures
        match e {
            Ok(_) => file_fault(r) is None,
            Err(text) => file_fault(r) == Some(text@),
        },
{
    if input_files.len() == 0 {
        return Err("No input files selected.".to_string());
    }
    let mut i: usize = 0;
    while i < input_files.len()
        invariant
            i <= input_files@.len(),
            input_files@.len() > 0,
            r.inputs == input_files@,
            first_missing(r.inputs, i as int) == first_missing(r.inputs, 0),
        decreases input_files@.len() - i,
    {
        if !input_files[i].exists {
            return Err(concat2("Input file does not exist: ", input_files[i].path.as_str()));
        }
        i += 1;
    }
    let stems = match naming_mode {
        Some(m) => m.is_source_stems(),
        None => false,
    };
    if !stems && prefix.is_empty() {
        return Err("No output filename prefix specified.".to_string());
    }
    if !output_folder.is_empty() && !folder_exists {
        return Err(concat2("Output directory does not exist: ", output_folder));
    }
    Ok(())
}

fn list_codecs() -> (r: String)
    ensures
        r@ == known_codecs(),
{
    let all = supported_video_codecs();
    let ghost models = registry().map_values(|c: CodecModel| (c.id, c.label));
    let ghost wanted = registry().map_values(|c: CodecModel| c.id);
    let mut ids: Vec<String> = Vec::new();
    let mut i: usize = 0;
    assert(strs(ids@) =~= wanted.take(0));
    assert(pairs(all@).len() == all@.len());
    while i < all.len()
        invariant
            i <= all@.len(),
            all@.len() == registry().len(),
            models == registry().map_values(|c: CodecModel| (c.id, c.label)),
            wanted == registry().map_values(|c: CodecModel| c.id),
            pairs(all@) == models,
            strs(ids@) == wanted.take(i as int),
        decreases all@.len() - i,
    {
        assert(pairs(all@)[i as int] == (all@[i as int].0@, all@[i as int].1@));
        assert(models[i as int] == (registry()[i as int].id, registry()[i as int].label));
        push_str(&mut ids, all[i].0);
        assert(wanted.take(i + 1) =~= wanted.take(i as int).push(wanted[i as int]));
        i += 1;
    }
    assert(wanted.take(i as int) =~= wanted);
    join(&ids, ", ")
}

fn check_codec(video_codec: &str, copy_video: bool, caps: &FfmpegCapabilities, Ghost(r): Ghost<Request>) -> (e:
    Result<(), String>)
    requires
        r.video_codec == video_codec@,
        r.copy_video == copy_video,
    ensures
        match e {
            Ok(_) => codec_fault(r, caps.encoders()) is None,
            Err(text) => codec_fault(r, caps.encoders()) == Some(text@),
        },
{
    if copy_video {
        return Ok(());
    }
    let codec = normalize_video_codec(video_codec);
    if find_codec(codec).is_none() {
        let known = list_codecs();
        let mut text = concat3("Unknown video codec '", video_codec, "'. Supported codecs: ");
        text.append(known.as_str());
        text.append(".");
        return Err(text);
    }
    let chain = resolve_encoder_chain(codec, caps);
    assert(strs(chain@).len() == chain@.len());
    if chain.len() == 0 {
        let wanted = join(&static_encoder_chain(codec), ", ");
        let mut text = concat3(
            "No ",
            codec,
            " encoder is available in your ffmpeg installation (needs one of: ",
        );
        text.append(wanted.as_str());
        text.append("). Run `ffmpeg -encoders` to see available encoders.");
        return Err(text);
    }
    Ok(())
}

fn hint_for_codec(codec: &str) -> (r: &'static str)
    ensures
        r@ == codec_hint(codec@),
{
    if same(codec, "prores") {
        "ProRes typically requires MOV or MKV containers."
    } else if same(codec, "av1") {
        "AV1 works in MKV, MP4, and MOV containers."
    } else if same(codec, "dnxhd") {
        "DNxHD requires MXF, MOV, or MKV containers."
    } else if same(codec, "h264") || same(codec, "h265") {
        "H.264/HEVC work in all containers."
    } else {
        ""
    }
}

fn hint_for_audio(encoder: &str) -> (r: &'static str)
    ensures
        r@ == audio_hint(encoder@),
{
    if same(encoder, "libopus") {
        "Opus is only supported in MKV and MOV containers."
    } else if same(encoder, "pcm_s24le") || same(encoder, "pcm_s16le") {
        "Uncompressed PCM works in all containers."
    } else if same(encoder, "aac") {
        "AAC works in all containers."
    } else {
        ""
    }
}

fn check_fit(
    container: &str,
    video_codec: &str,
    audio_encoder: &str,
    copy_video: bool,
    Ghost(r): Ghost<Request>,
) -> (e: Result<(), String>)
    requires
        r.container == container@,
        r.video_codec == video_codec@,
        r.audio_encoder == audio_encoder@,
        r.copy_video == copy_video,
    ensures
        match e {
            Ok(_) => fit_fault(r) is None,
            Err(text) => fit_fault(r) == Some(text@),
        },
{
    let codec = normalize_video_codec(video_codec);
    if !copy_video && !codec_supports_container(codec, container) {
        let mut text = concat3(
            "Video codec '",
            codec,
            "' is not compatible with container format '",
        );
        text.append(container);
        text.append("'. ");
        text.append(hint_for_codec(codec));
        return Err(text);
    }
    if !container_supports_audio_encoder(container, audio_encoder) {
        let mut text = concat3(
            "Audio encoder '",
            audio_encoder,
            "' is not compatible with container format '",
        );
        text.append(container);
        text.append("'. ");
        text.append(hint_for_audio(audio_encoder));
        return Err(text);
    }
    Ok(())
}

fn check_suffix(suffix: Option<&str>, naming_mode: Option<OutputNamingMode>) -> (r: Result<(), String>)
    ensures
        r is Ok <==> suffix_taken(opt_text(suffix), naming_mode),
        r matches Err(e) ==> e@ == template_error(),
{
    let mode = match naming_mode {
        Some(m) => m,
        None => OutputNamingMode::PrefixTemplates,
    };
    match suffix {
        Some(s) => ConverterSettings::validate_suffix_template_for_mode(s, &mode),
        None => Ok(()),
    }
}

/// Checks a conversion: `Ok`, or what is wrong with it first. Names of encoders
/// count as their codec; a copied video needs no codec.
pub fn conversion_sanity_check_with_naming(
    container: &str,
    video_codec: &str,
    audio_encoder: &str,
    input_files: &Vec<InputFile>,
    output_folder: &str,
    folder_exists: bool,
    filename_prefix: &str,
    caps: &FfmpegCapabilities,
    audio_suffix: Option<&str>,
    video_suffix: Option<&str>,
    naming_mode: Option<OutputNamingMode>,
    copy_video: bool,
) -> (e: Result<(), String>)
    ensures
        ({
            let request = Request {
                container: container@,
                video_codec: video_codec@,
                audio_encoder: audio_encoder@,
                inputs: input_files@,
                output_folder: output_folder@,
                folder_exists,
                prefix: filename_prefix@,
                audio_suffix: opt_text(audio_suffix),
                video_suffix: opt_text(video_suffix),
                naming_mode,
                copy_video,
            };
            match e {
                Ok(_) => fault(request, caps.has_ffmpeg, caps.encoders(), caps.formats()) is None,
                Err(text) => fault(request, caps.has_ffmpeg, caps.encoders(), caps.formats())
                    == Some(text@),
            }
        }),
{
    let ghost request = Request {
        container: container@,
        video_codec: video_codec@,
        audio_encoder: audio_encoder@,
        inputs: input_files@,
        output_folder: output_folder@,
        folder_exists,
        prefix: filename_prefix@,
        audio_suffix: opt_text(audio_suffix),
        video_suffix: opt_text(video_suffix),
        naming_mode,
        copy_video,
    };
    if !caps.has_ffmpeg {
        return Err(
            "ffmpeg is not available. Please install ffmpeg and ensure it is in your PATH.".to_string(),
        );
    }
    match check_files(
        input_files,
        output_folder,
        folder_exists,
        filename_prefix,
        naming_mode,
        Ghost(request),
    ) {
        Err(text) => {
            return Err(text);
        },
        Ok(_) => {},
    }
    if !format_available_in_ffmpeg(container, caps) {
        return Err(
            concat3(
                "Container format '",
                container,
                "' is not supported by your ffmpeg installation. Run `ffmpeg -formats` to see available formats.",
            ),
        );
    }
    match check_suffix(audio_suffix, naming_mode) {
        Err(text) => {
            return Err(text);
        },
        Ok(_) => {},
    }
    match check_suffix(video_suffix, naming_mode) {
        Err(text) => {
            return Err(text);
        },
        Ok(_) => {},
    }
    match check_codec(video_codec, copy_video, caps, Ghost(request)) {
        Err(text) => {
            return Err(text);
        },
        Ok(_) => {},
    }
    if !encoder_available_in_ffmpeg(audio_encoder, caps) {
        return Err(
            concat3(
                "Audio encoder '",
                audio_encoder,
                "' is not supported by your ffmpeg installation. Run `ffmpeg -encoders` to see available encoders. Common alternatives: pcm_s24le (PCM 24-bit), pcm_s16le (PCM 16-bit), aac, libopus.",
            ),
        );
    }
    check_fit(container, video_codec, audio_encoder, copy_video, Ghost(request))
}

/// Checks a conversion that encodes the video and names outputs by the prefix.
pub fn conversion_sanity_check(
    container: &str,
    video_codec: &str,
    audio_encoder: &str,
    input_files: &Vec<InputFile>,
    output_folder: &str,
    folder_exists: bool,
    filename_prefix: &str,
    caps: &FfmpegCapabilities,
    audio_suffix: Option<&str>,
    video_suffix: Option<&str>,
) -> (e: Result<(), String>)
    ensures
        ({
            let request = Request {
                container: container@,
                video_codec: video_codec@,
                audio_encoder: audio_encoder@,
                inputs: input_files@,
                output_folder: output_folder@,
                folder_exists,
                prefix: filename_prefix@,
                audio_suffix: opt_text(audio_suffix),
                video_suffix: opt_text(video_suffix),
                naming_mode: None,
                copy_video: false,
            };
            match e {
                Ok(_) => fault(request, caps.has_ffmpeg, caps.encoders(), caps.formats()) is None,
                Err(text) => fault(request, caps.has_ffmpeg, caps.encoders(), caps.formats())
                    == Some(text@),
            }
        }),
{
    conversion_sanity_check_with_naming(
        container,
        video_codec,
        audio_encoder,
        input_files,
        output_folder,
        folder_exists,
        filename_prefix,
        caps,
        audio_suffix,
        video_suffix,
        None,
        false,
    )
}

/// Checks a conversion that copies the video: its codec does not matter.
pub fn conversion_sanity_check_copy(
    container: &str,
    video_codec: &str,
    audio_encoder: &str,
    input_files: &Vec<InputFile>,
    output_folder: &str,
    folder_exists: bool,
    filename_prefix: &str,
    caps: &FfmpegCapabilities,
    audio_suffix: Option<&str>,
    video_suffix: Option<&str>,
) -> (e: Result<(), String>)
    ensures
        ({
            let request = Request {
                container: container@,
                video_codec: video_codec@,
                audio_encoder: audio_encoder@,
                inputs: input_files@,
                output_folder: output_folder@,
                folder_exists,
                prefix: filename_prefix@,
                audio_suffix: opt_text(audio_suffix),
                video_suffix: opt_text(video_suffix),
                naming_mode: None,
                copy_video: true,
            };
            match e {
                Ok(_) => fault(request, caps.has_ffmpeg, caps.encoders(), caps.formats()) is None,
                Err(text) => fault(request, caps.has_ffmpeg, caps.encoders(), caps.formats())
                    == Some(text@),
            }
        }),
{
    conversion_sanity_check_with_naming(
        container,
        video_codec,
        audio_encoder,
        input_files,
        output_folder,
        folder_exists,
        filename_prefix,
        caps,
        audio_suffix,
        video_suffix,
        None,
        true,
    )
}

// ── Laws ───────────────────────────────────────────────────────────────────

/// For a copied video the codec does not matter.
pub proof fn law_copy_ignores_codec(
    r: Request,
    codec: Seq<char>,
    has_ffmpeg: bool,
    encoders: Seq<Seq<char>>,
    formats: Seq<Seq<char>>,
)
    requires
        r.copy_video,
    ensures
        fault(Request { video_codec: codec, ..r }, has_ffmpeg, encoders, formats) == fault(
            r,
            has_ffmpeg,
            encoders,
            formats,
        ),
{
}

/// A combination that the check lets pass is one that ffmpeg can do and whose
/// parts fit together.
pub proof fn law_checked_is_usable(
    r: Request,
    has_ffmpeg: bool,
    encoders: Seq<Seq<char>>,
    formats: Seq<Seq<char>>,
)
    requires
        !r.copy_video,
        fault(r, has_ffmpeg, encoders, formats) is None,
    ensures
        crate::formats::usable(
            crate::formats::Combination {
                container: r.container,
                codec: normalized_codec(r.video_codec),
                audio: r.audio_encoder,
            },
            encoders,
            formats,
        ),
{
}

} // verus!
