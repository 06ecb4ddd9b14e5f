//! The registry of video codecs.
//!
//! A codec ("av1", "h265", …) stands for an ordered chain of concrete ffmpeg
//! encoders: hardware accelerated candidates first, software encoders last as
//! fallbacks. Only encoders that accept ordinary software frames are registered;
//! encoders on VAAPI or Vulkan frames need a device and an upload stage besides.

use vstd::prelude::*;

use crate::capabilities::FfmpegCapabilities;
use crate::text::{
    concat2, ends_with, join, joined, list_contains, names, names_contain, push_str, push_string,
    same, starts_with, strs,
};

verus! {

#[derive(Clone, Copy, Debug, PartialEq, Eq, Structural)]
pub enum EncoderClass {
    Hardware,
    Software,
}

/// The kind of hardware frames an encoder takes.
#[derive(Clone, Copy, Debug, PartialEq, Eq, Structural)]
pub enum HwFramePath {
    Vaapi,
    Vulkan,
}

/// Option names and values, in order.
pub type ArgPairs = Vec<(&'static str, &'static str)>;

/// The characters of option names and values.
pub open spec fn pairs(v: Seq<(&'static str, &'static str)>) -> Seq<(Seq<char>, Seq<char>)> {
    v.map_values(|p: (&'static str, &'static str)| (p.0@, p.1@))
}

/// A concrete ffmpeg encoder and the arguments it needs.
#[derive(Clone, Debug)]
pub struct EncoderCandidate {
    pub name: &'static str,
    pub class: EncoderClass,
    /// Arguments applied after `-c:v` and after the codec's own.
    pub args: ArgPairs,
    /// The hardware frames the encoder takes, if it takes any.
    pub hw_frames: Option<HwFramePath>,
}

/// What a candidate says.
#[verifier::ext_equal]
pub struct CandidateModel {
    pub name: Seq<char>,
    pub class: EncoderClass,
    pub args: Seq<(Seq<char>, Seq<char>)>,
    pub hw_frames: Option<HwFramePath>,
}

impl View for EncoderCandidate {
    type V = CandidateModel;

    open spec fn view(&self) -> CandidateModel {
        CandidateModel {
            name: self.name@,
            class: self.class,
            args: pairs(self.args@),
            hw_frames: self.hw_frames,
        }
    }
}

/// A video codec: its name in a list of choices, the containers it can be put
/// into, and its encoders in order of preference.
#[derive(Clone, Debug)]
pub struct VideoCodecSpec {
    pub id: &'static str,
    pub label: &'static str,
    pub containers: Vec<&'static str>,
    /// Arguments that go with every encoder of the codec.
    pub codec_args: ArgPairs,
    /// Hardware first, software last.
    pub candidates: Vec<EncoderCandidate>,
}

/// What a codec says.
#[verifier::ext_equal]
pub struct CodecModel {
    pub id: Seq<char>,
    pub label: Seq<char>,
    pub containers: Seq<Seq<char>>,
    pub codec_args: Seq<(Seq<char>, Seq<char>)>,
    pub candidates: Seq<CandidateModel>,
}

/// What each of a list of candidates says.
pub open spec fn candidate_models(v: Seq<EncoderCandidate>) -> Seq<CandidateModel> {
    v.map_values(|c: EncoderCandidate| c@)
}

impl View for VideoCodecSpec {
    type V = CodecModel;

    open spec fn view(&self) -> CodecModel {
        CodecModel {
            id: self.id@,
            label: self.label@,
            containers: names(self.containers@),
            codec_args: pairs(self.codec_args@),
            candidates: candidate_models(self.candidates@),
        }
    }
}

// ── The registry ───────────────────────────────────────────────────────────

pub open spec fn hardware(name: Seq<char>) -> CandidateModel {
    CandidateModel { name, class: EncoderClass::Hardware, args: seq![], hw_frames: None }
}

pub open spec fn software(name: Seq<char>, args: Seq<(Seq<char>, Seq<char>)>) -> CandidateModel {
    CandidateModel { name, class: EncoderClass::Software, args, hw_frames: None }
}

pub open spec fn yuv420p() -> Seq<(Seq<char>, Seq<char>)> {
    seq![("pix_fmt"@, "yuv420p"@)]
}

/// ProRes.
pub open spec fn prores_codec() -> CodecModel {
    CodecModel {
        id: "prores"@,
        label: "ProRes — ideal for Resolve, larger files"@,
        containers: seq!["mov"@, "mkv"@],
        codec_args: seq![],
        candidates: seq![
            software("prores_ks"@, seq![("profile:v"@, "0"@), ("pix_fmt"@, "yuv422p10le"@)]),
            software("prores_aw"@, seq![("pix_fmt"@, "yuv422p10le"@)]),
        ],
    }
}

/// DNxHD.
pub open spec fn dnxhd_codec() -> CodecModel {
    CodecModel {
        id: "dnxhd"@,
        label: "DNxHD — broadcast codec, ideal for MXF"@,
        containers: seq!["mxf"@, "mov"@, "mkv"@],
        codec_args: seq![],
        candidates: seq![
            software(
                "dnxhd"@,
                seq![("pix_fmt"@, "yuv422p"@), ("profile:v"@, "dnxhd"@), ("b:v"@, "36M"@)],
            ),
        ],
    }
}

/// H.264.
pub open spec fn h264_codec() -> CodecModel {
    CodecModel {
        id: "h264"@,
        label: "H.264 — maximum compatibility"@,
        containers: seq!["mkv"@, "mov"@, "mp4"@, "mxf"@],
        codec_args: seq![],
        candidates: seq![
            hardware("h264_nvenc"@),
            hardware("h264_qsv"@),
            hardware("h264_amf"@),
            hardware("h264_mf"@),
            hardware("h264_v4l2m2m"@),
            software("libx264"@, yuv420p()),
        ],
    }
}

/// H.265.
pub open spec fn h265_codec() -> CodecModel {
    CodecModel {
        id: "h265"@,
        label: "H.265/HEVC — efficient, Resolve-compatible"@,
        containers: seq!["mkv"@, "mov"@, "mp4"@, "mxf"@],
        codec_args: seq![("tag:v"@, "hvc1"@)],
        candidates: seq![
            hardware("hevc_nvenc"@),
            hardware("hevc_qsv"@),
            hardware("hevc_amf"@),
            hardware("hevc_mf"@),
            hardware("hevc_v4l2m2m"@),
            software("libx265"@, yuv420p()),
        ],
    }
}

/// AV1.
pub open spec fn av1_codec() -> CodecModel {
    CodecModel {
        id: "av1"@,
        label: "AV1 — good compression, widely supported"@,
        containers: seq!["mkv"@, "mov"@, "mp4"@],
        codec_args: seq![],
        candidates: seq![
            hardware("av1_nvenc"@),
            hardware("av1_qsv"@),
            hardware("av1_amf"@),
            software("libsvtav1"@, yuv420p()),
            software("libaom-av1"@, yuv420p()),
            software("librav1e"@, yuv420p()),
        ],
    }
}

/// All registered codecs, in the order in which they are offered.
pub open spec fn registry() -> Seq<CodecModel> {
    seq![prores_codec(), dnxhd_codec(), h264_codec(), h265_codec(), av1_codec()]
}

/// The codec that is chosen when nothing else fits.
pub const DEFAULT_VIDEO_CODEC: &'static str = "av1";

fn no_args() -> (r: ArgPairs)
    ensures
        pairs(r@) == Seq::<(Seq<char>, Seq<char>)>::empty(),
{
    let r: ArgPairs = Vec::new();
    assert(pairs(r@) =~= seq![]);
    r
}

fn one_arg(key: &'static str, value: &'static str) -> (r: ArgPairs)
    ensures
        pairs(r@) == seq![(key@, value@)],
{
    let r: ArgPairs = vec![(key, value)];
    assert(pairs(r@) =~= seq![(key@, value@)]);
    r
}

fn hardware_candidate(name: &'static str) -> (r: EncoderCandidate)
    ensures
        r@ == hardware(name@),
{
    EncoderCandidate { name, class: EncoderClass::Hardware, args: no_args(), hw_frames: None }
}

fn software_candidate(name: &'static str, args: ArgPairs) -> (r: EncoderCandidate)
    ensures
        r@ == software(name@, pairs(args@)),
{
    EncoderCandidate { name, class: EncoderClass::Software, args, hw_frames: None }
}

fn prores() -> (r: VideoCodecSpec)
    ensures
        r@ == prores_codec(),
{
    let ks: ArgPairs = vec![("profile:v", "0"), ("pix_fmt", "yuv422p10le")];
    assert(pairs(ks@) =~= seq![("profile:v"@, "0"@), ("pix_fmt"@, "yuv422p10le"@)]);
    let candidates: Vec<EncoderCandidate> = vec![
        software_candidate("prores_ks", ks),
        software_candidate("prores_aw", one_arg("pix_fmt", "yuv422p10le")),
    ];
    let r = VideoCodecSpec {
        id: "prores",
        label: "ProRes — ideal for Resolve, larger files",
        containers: vec!["mov", "mkv"],
        codec_args: no_args(),
        candidates,
    };
    assert(r@.containers =~= prores_codec().containers);
    assert(r@.candidates =~= prores_codec().candidates);
    r
}

fn dnxhd() -> (r: VideoCodecSpec)
    ensures
        r@ == dnxhd_codec(),
{
    let args: ArgPairs = vec![("pix_fmt", "yuv422p"), ("profile:v", "dnxhd"), ("b:v", "36M")];
    assert(pairs(args@) =~= seq![("pix_fmt"@, "yuv422p"@), ("profile:v"@, "dnxhd"@), ("b:v"@, "36M"@)]);
    let r = VideoCodecSpec {
        id: "dnxhd",
        label: "DNxHD — broadcast codec, ideal for MXF",
        containers: vec!["mxf", "mov", "mkv"],
        codec_args: no_args(),
        candidates: vec![software_candidate("dnxhd", args)],
    };
    assert(r@.containers =~= dnxhd_codec().containers);
    assert(r@.candidates =~= dnxhd_codec().candidates);
    r
}

fn h264() -> (r: VideoCodecSpec)
    ensures
        r@ == h264_codec(),
{
    let candidates: Vec<EncoderCandidate> = vec![
        hardware_candidate("h264_nvenc"),
        hardware_candidate("h264_qsv"),
        hardware_candidate("h264_amf"),
        hardware_candidate("h264_mf"),
        hardware_candidate("h264_v4l2m2m"),
        software_candidate("libx264", one_arg("pix_fmt", "yuv420p")),
    ];
    let r = VideoCodecSpec {
        id: "h264",
        label: "H.264 — maximum compatibility",
        containers: vec!["mkv", "mov", "mp4", "mxf"],
        codec_args: no_args(),
        candidates,
    };
    assert(r@.containers =~= h264_codec().containers);
    assert(r@.candidates =~= h264_codec().candidates);
    r
}

fn h265() -> (r: VideoCodecSpec)
    ensures
        r@ == h265_codec(),
{
    let candidates: Vec<EncoderCandidate> = vec![
        hardware_candidate("hevc_nvenc"),
        hardware_candidate("hevc_qsv"),
        hardware_candidate("hevc_amf"),
        hardware_candidate("hevc_mf"),
        hardware_candidate("hevc_v4l2m2m"),
        software_candidate("libx265", one_arg("pix_fmt", "yuv420p")),
    ];
    let r = VideoCodecSpec {
        id: "h265",
        label: "H.265/HEVC — efficient, Resolve-compatible",
        containers: vec!["mkv", "mov", "mp4", "mxf"],
        codec_args: one_arg("tag:v", "hvc1"),
        candidates,
    };
    assert(r@.containers =~= h265_codec().containers);
    assert(r@.candidates =~= h265_codec().candidates);
    r
}

fn av1() -> (r: VideoCodecSpec)
    ensures
        r@ == av1_codec(),
{
    let candidates: Vec<EncoderCandidate> = vec![
        hardware_candidate("av1_nvenc"),
        hardware_candidate("av1_qsv"),
        hardware_candidate("av1_amf"),
        software_candidate("libsvtav1", one_arg("pix_fmt", "yuv420p")),
        software_candidate("libaom-av1", one_arg("pix_fmt", "yuv420p")),
        software_candidate("librav1e", one_arg("pix_fmt", "yuv420p")),
    ];
    let r = VideoCodecSpec {
        id: "av1",
        label: "AV1 — good compression, widely supported",
        containers: vec!["mkv", "mov", "mp4"],
        codec_args: no_args(),
        candidates,
    };
    assert(r@.containers =~= av1_codec().containers);
    assert(r@.candidates =~= av1_codec().candidates);
    r
}

/// What each of a list of codecs says.
pub open spec fn codec_models(v: Seq<VideoCodecSpec>) -> Seq<CodecModel> {
    v.map_values(|c: VideoCodecSpec| c@)
}

/// All registered codecs, in the order in which they are offered.
pub fn video_codecs() -> (r: Vec<VideoCodecSpec>)
    ensures
        codec_models(r@) == registry(),
        r@.len() == 5,
{
    let r: Vec<VideoCodecSpec> = vec![prores(), dnxhd(), h264(), h265(), av1()];
    assert(codec_models(r@) =~= registry());
    r
}

// ── Lookups ────────────────────────────────────────────────────────────────

/// The first codec with the given id.
pub open spec fn codec_with_id(codecs: Seq<CodecModel>, id: Seq<char>) -> Option<CodecModel>
    decreases codecs.len(),
{
    if codecs.len() == 0 {
        None
    } else if codecs[0].id == id {
        Some(codecs[0])
    } else {
        codec_with_id(codecs.drop_first(), id)
    }
}

/// The registered codec with the given id.
pub open spec fn registered(id: Seq<char>) -> Option<CodecModel> {
    codec_with_id(registry(), id)
}

/// Finds a registered codec.
pub fn find_codec(codec_id: &str) -> (r: Option<VideoCodecSpec>)
    ensures
        match r {
            Some(c) => registered(codec_id@) == Some(c@),
            None => registered(codec_id@) is None,
        },
{
    let mut codecs = video_codecs();
    let ghost models = registry();
    let mut i: usize = 0;
    assert(models.skip(0) =~= models);
    while i < codecs.len()
        invariant
            i <= codecs@.len(),
            models == codec_models(codecs@),
            models == registry(),
            codec_with_id(models.skip(i as int), codec_id@) == codec_with_id(models, codec_id@),
        decreases codecs@.len() - i,
    {
        proof {
            assert(models.skip(i as int).drop_first() =~= models.skip(i + 1));
            assert(models.skip(i as int)[0] == codecs@[i as int]@);
        }
        if same(codecs[i].id, codec_id) {
            return Some(codecs.remove(i));
        }
        i += 1;
    }
    None
}

/// The ids and labels of all codecs.
pub fn supported_video_codecs() -> (r: Vec<(&'static str, &'static str)>)
    ensures
        pairs(r@) == registry().map_values(|c: CodecModel| (c.id, c.label)),
{
    let codecs = video_codecs();
    let mut out: Vec<(&'static str, &'static str)> = Vec::new();
    let mut i: usize = 0;
    while i < codecs.len()
        invariant
            i <= codecs@.len(),
            codec_models(codecs@) == registry(),
            out@.len() == i,
            forall|k: int|
                0 <= k < i ==> (#[trigger] out@[k]).0@ == registry()[k].id && out@[k].1@
                    == registry()[k].label,
        decreases codecs@.len() - i,
    {
        assert(registry()[i as int] == codecs@[i as int]@);
        out.push((codecs[i].id, codecs[i].label));
        i += 1;
    }
    assert(codecs@.len() == registry().len());
    assert(pairs(out@) =~= registry().map_values(|c: CodecModel| (c.id, c.label)));
    out
}

/// A codec can be put into a container.
pub open spec fn fits_container(id: Seq<char>, container: Seq<char>) -> bool {
    registered(id) matches Some(c) && c.containers.contains(container)
}

/// Tells whether a codec can be put into a container; unknown codecs cannot.
pub fn codec_supports_container(codec_id: &str, container: &str) -> (r: bool)
    ensures
        r == fits_container(codec_id@, container@),
{
    match find_codec(codec_id) {
        Some(c) => names_contain(&c.containers, container),
        None => false,
    }
}

/// The first candidate with the given name.
pub open spec fn candidate_named(candidates: Seq<CandidateModel>, name: Seq<char>) -> Option<CandidateModel>
    decreases candidates.len(),
{
    if candidates.len() == 0 {
        None
    } else if candidates[0].name == name {
        Some(candidates[0])
    } else {
        candidate_named(candidates.drop_first(), name)
    }
}

/// The first candidate with the given name among those of several codecs.
pub open spec fn encoder_among(codecs: Seq<CodecModel>, name: Seq<char>) -> Option<CandidateModel>
    decreases codecs.len(),
{
    if codecs.len() == 0 {
        None
    } else {
        match candidate_named(codecs[0].candidates, name) {
            Some(c) => Some(c),
            None => encoder_among(codecs.drop_first(), name),
        }
    }
}

/// The registered encoder with the given name.
pub open spec fn known_encoder(name: Seq<char>) -> Option<CandidateModel> {
    encoder_among(registry(), name)
}

fn find_in(candidates: &Vec<EncoderCandidate>, name: &str) -> (r: Option<usize>)
    ensures
        match r {
            Some(i) => i < candidates@.len() && candidate_named(
                candidate_models(candidates@),
                name@,
            ) == Some(candidates@[i as int]@),
            None => candidate_named(candidate_models(candidates@), name@) is None,
        },
{
    let ghost models = candidate_models(candidates@);
    let mut i: usize = 0;
    assert(models.skip(0) =~= models);
    while i < candidates.len()
        invariant
            i <= candidates@.len(),
            models == candidate_models(candidates@),
            candidate_named(models.skip(i as int), name@) == candidate_named(models, name@),
        decreases candidates@.len() - i,
    {
        proof {
            assert(models.skip(i as int).drop_first() =~= models.skip(i + 1));
            assert(models.skip(i as int)[0] == candidates@[i as int]@);
        }
        if same(candidates[i].name, name) {
            return Some(i);
        }
        i += 1;
    }
    None
}

/// Finds a registered encoder.
pub fn find_candidate(name: &str) -> (r: Option<EncoderCandidate>)
    ensures
        match r {
            Some(c) => known_encoder(name@) == Some(c@),
            None => known_encoder(name@) is None,
        },
{
    let mut codecs = video_codecs();
    let ghost models = registry();
    let mut i: usize = 0;
    assert(models.skip(0) =~= models);
    while i < codecs.len()
        invariant
            i <= codecs@.len(),
            models == codec_models(codecs@),
            models == registry(),
            encoder_among(models.skip(i as int), name@) == encoder_among(models, name@),
        decreases codecs@.len() - i,
    {
        proof {
            assert(models.skip(i as int).drop_first() =~= models.skip(i + 1));
            assert(models.skip(i as int)[0] == codecs@[i as int]@);
        }
        if let Some(k) = find_in(&codecs[i].candidates, name) {
            let mut codec = codecs.remove(i);
            return Some(codec.candidates.remove(k));
        }
        i += 1;
    }
    None
}

/// Tells whether a name is a registered encoder.
pub fn is_known_encoder(name: &str) -> (r: bool)
    ensures
        r == known_encoder(name@) is Some,
{
    find_candidate(name).is_some()
}

/// The arguments of an encoder; none for unknown names.
pub open spec fn encoder_args(name: Seq<char>) -> Seq<(Seq<char>, Seq<char>)> {
    match known_encoder(name) {
        Some(c) => c.args,
        None => seq![],
    }
}

/// The arguments of an encoder; none for unknown names.
pub fn candidate_args(encoder: &str) -> (r: ArgPairs)
    ensures
        pairs(r@) == encoder_args(encoder@),
{
    match find_candidate(encoder) {
        Some(c) => c.args,
        None => no_args(),
    }
}

/// The arguments of a codec; none for unknown ids.
pub open spec fn args_of_codec(id: Seq<char>) -> Seq<(Seq<char>, Seq<char>)> {
    match registered(id) {
        Some(c) => c.codec_args,
        None => seq![],
    }
}

/// The arguments of a codec; none for unknown ids.
pub fn codec_args(codec_id: &str) -> (r: ArgPairs)
    ensures
        pairs(r@) == args_of_codec(codec_id@),
{
    match find_codec(codec_id) {
        Some(c) => c.codec_args,
        None => no_args(),
    }
}

/// The class of a registered encoder.
pub fn encoder_class(encoder: &str) -> (r: Option<EncoderClass>)
    ensures
        r == match known_encoder(encoder@) {
            Some(c) => Some(c.class),
            None => None,
        },
{
    match find_candidate(encoder) {
        Some(c) => Some(c.class),
        None => None,
    }
}

/// The hardware frames that an encoder of this name takes.
pub open spec fn hw_frame_path(name: Seq<char>) -> Option<HwFramePath> {
    if "_vaapi"@.is_suffix_of(name) {
        Some(HwFramePath::Vaapi)
    } else if "_vulkan"@.is_suffix_of(name) {
        Some(HwFramePath::Vulkan)
    } else {
        None
    }
}

/// Tells which hardware frames an encoder takes: names end in `_vaapi` or `_vulkan`.
pub fn hw_frames_for(encoder: &str) -> (r: Option<HwFramePath>)
    ensures
        r == hw_frame_path(encoder@),
{
    if ends_with(encoder, "_vaapi") {
        Some(HwFramePath::Vaapi)
    } else if ends_with(encoder, "_vulkan") {
        Some(HwFramePath::Vulkan)
    } else {
        None
    }
}

// ── Resolution ─────────────────────────────────────────────────────────────

/// The names of all candidates of a codec, in order of preference; an unknown id
/// stands for itself.
pub open spec fn static_chain(id: Seq<char>) -> Seq<Seq<char>> {
    match registered(id) {
        Some(c) => c.candidates.map_values(|k: CandidateModel| k.name),
        None => seq![id],
    }
}

/// Lists all candidates of a codec, whether or not ffmpeg has them.
pub fn static_encoder_chain(codec_id: &str) -> (r: Vec<String>)
    ensures
        strs(r@) == static_chain(codec_id@),
{
    let mut out: Vec<String> = Vec::new();
    match find_codec(codec_id) {
        Some(c) => {
            let mut i: usize = 0;
            while i < c.candidates.len()
                invariant
                    i <= c.candidates@.len(),
                    strs(out@) == c@.candidates.take(i as int).map_values(
                        |k: CandidateModel| k.name,
                    ),
                decreases c.candidates@.len() - i,
            {
                push_str(&mut out, c.candidates[i].name);
                i += 1;
                assert(strs(out@) =~= c@.candidates.take(i as int).map_values(
                    |k: CandidateModel| k.name,
                ));
            }
            assert(c@.candidates.take(i as int) =~= c@.candidates);
        },
        None => {
            push_str(&mut out, codec_id);
            assert(strs(out@) =~= seq![codec_id@]);
        },
    }
    out
}

/// The first `n` names that are available.
pub open spec fn available_of(chain: Seq<Seq<char>>, available: Seq<Seq<char>>, n: int) -> Seq<Seq<char>>
    decreases n,
{
    if n <= 0 {
        seq![]
    } else if available.contains(chain[n - 1]) {
        available_of(chain, available, n - 1).push(chain[n - 1])
    } else {
        available_of(chain, available, n - 1)
    }
}

/// The candidates of a codec that ffmpeg has, in order of preference.
pub open spec fn resolved_chain(id: Seq<char>, available: Seq<Seq<char>>) -> Seq<Seq<char>> {
    available_of(static_chain(id), available, static_chain(id).len() as int)
}

/// Lists the candidates of a codec that ffmpeg has: hardware first, software as
/// fallbacks; empty where it has none.
pub fn resolve_encoder_chain(codec_id: &str, caps: &FfmpegCapabilities) -> (r: Vec<String>)
    ensures
        strs(r@) == resolved_chain(codec_id@, caps.encoders()),
{
    let chain = static_encoder_chain(codec_id);
    let mut out: Vec<String> = Vec::new();
    let mut i: usize = 0;
    assert(strs(out@) =~= seq![]);
    while i < chain.len()
        invariant
            i <= chain@.len(),
            strs(chain@) == static_chain(codec_id@),
            strs(out@) == available_of(static_chain(codec_id@), caps.encoders(), i as int),
        decreases chain@.len() - i,
    {
        assert(static_chain(codec_id@)[i as int] == chain@[i as int]@);
        if list_contains(&caps.available_encoders, chain[i].as_str()) {
            push_str(&mut out, chain[i].as_str());
        }
        i += 1;
    }
    assert(chain@.len() == static_chain(codec_id@).len());
    out
}

/// A codec is offered for a container: it fits and ffmpeg has an encoder for it.
pub open spec fn offered(codec: CodecModel, container: Seq<char>, available: Seq<Seq<char>>) -> bool {
    codec.containers.contains(container) && resolved_chain(codec.id, available).len() > 0
}

/// The ids and labels of the first `n` codecs that are offered.
pub open spec fn offered_codecs(container: Seq<char>, available: Seq<Seq<char>>, n: int) -> Seq<(Seq<char>, Seq<char>)>
    decreases n,
{
    if n <= 0 {
        seq![]
    } else {
        let before = offered_codecs(container, available, n - 1);
        let c = registry()[n - 1];
        if offered(c, container, available) {
            before.push((c.id, c.label))
        } else {
            before
        }
    }
}

/// Lists the codecs that can be put into a container and that ffmpeg has an
/// encoder for.
pub fn available_video_codecs(container: &str, caps: &FfmpegCapabilities) -> (r: Vec<
    (&'static str, &'static str),
>)
    ensures
        pairs(r@) == offered_codecs(container@, caps.encoders(), registry().len() as int),
{
    let codecs = video_codecs();
    let mut out: Vec<(&'static str, &'static str)> = Vec::new();
    let mut i: usize = 0;
    assert(pairs(out@) =~= seq![]);
    while i < codecs.len()
        invariant
            i <= codecs@.len(),
            codec_models(codecs@) == registry(),
            pairs(out@) == offered_codecs(container@, caps.encoders(), i as int),
        decreases codecs@.len() - i,
    {
        assert(registry()[i as int] == codecs@[i as int]@);
        if names_contain(&codecs[i].containers, container) && resolve_encoder_chain(
            codecs[i].id,
            caps,
        ).len() > 0 {
            let ghost before = pairs(out@);
            out.push((codecs[i].id, codecs[i].label));
            assert(pairs(out@) =~= before.push((registry()[i as int].id, registry()[i as int].label)));
        }
        i += 1;
    }
    assert(codecs@.len() == registry().len());
    out
}

/// The first codec with the given id or a candidate of that name.
pub open spec fn codec_owning(codecs: Seq<CodecModel>, name: Seq<char>) -> Option<CodecModel>
    decreases codecs.len(),
{
    if codecs.len() == 0 {
        None
    } else if codecs[0].id == name || candidate_named(codecs[0].candidates, name) is Some {
        Some(codecs[0])
    } else {
        codec_owning(codecs.drop_first(), name)
    }
}

/// The codec id that a name stands for: ids and registered encoders by the
/// registry, other hardware variants by their prefix, anything else as it is.
pub open spec fn normalized_codec(name: Seq<char>) -> Seq<char> {
    match codec_owning(registry(), name) {
        Some(c) => c.id,
        None => if "h264_"@.is_prefix_of(name) {
            "h264"@
        } else if "hevc_"@.is_prefix_of(name) {
            "h265"@
        } else if "av1_"@.is_prefix_of(name) {
            "av1"@
        } else if "prores"@.is_prefix_of(name) {
            "prores"@
        } else {
            name
        },
    }
}

/// Maps the name of an encoder to its codec id; ids and unknown names stay.
pub fn normalize_video_codec<'a>(input: &'a str) -> (r: &'a str)
    ensures
        r@ == normalized_codec(input@),
{
    let codecs = video_codecs();
    let ghost models = registry();
    let mut i: usize = 0;
    assert(models.skip(0) =~= models);
    while i < codecs.len()
        invariant
            i <= codecs@.len(),
            models == codec_models(codecs@),
            models == registry(),
            codec_owning(models.skip(i as int), input@) == codec_owning(models, input@),
        decreases codecs@.len() - i,
    {
        proof {
            assert(models.skip(i as int).drop_first() =~= models.skip(i + 1));
            assert(models.skip(i as int)[0] == codecs@[i as int]@);
        }
        if same(codecs[i].id, input) || find_in(&codecs[i].candidates, input).is_some() {
            return codecs[i].id;
        }
        i += 1;
    }
    if starts_with(input, "h264_") {
        "h264"
    } else if starts_with(input, "hevc_") {
        "h265"
    } else if starts_with(input, "av1_") {
        "av1"
    } else if starts_with(input, "prores") {
        "prores"
    } else {
        input
    }
}

/// An encoder as it is shown: hardware encoders are marked.
pub open spec fn shown_encoder(name: Seq<char>) -> Seq<char> {
    match known_encoder(name) {
        Some(c) if c.class == EncoderClass::Hardware => name + " (hardware)"@,
        _ => name,
    }
}

/// What is shown of the chain of a codec.
pub open spec fn chain_text(id: Seq<char>, available: Seq<Seq<char>>) -> Seq<char> {
    let chain = resolved_chain(id, available);
    if chain.len() == 0 {
        "no available encoder (needs one of: "@ + joined(static_chain(id), ", "@) + ")"@
    } else {
        joined(chain.map_values(|n: Seq<char>| shown_encoder(n)), " → "@)
    }
}

/// Describes the encoders that will be tried for a codec, or which ones are missing.
pub fn describe_chain(codec_id: &str, caps: &FfmpegCapabilities) -> (r: String)
    ensures
        r@ == chain_text(codec_id@, caps.encoders()),
{
    let chain = resolve_encoder_chain(codec_id, caps);
    assert(chain@.len() == strs(chain@).len());
    if chain.len() == 0 {
        let mut out = "no available encoder (needs one of: ".to_string();
        let wanted = join(&static_encoder_chain(codec_id), ", ");
        out.append(wanted.as_str());
        out.append(")");
        return out;
    }
    let ghost shown = strs(chain@).map_values(|n: Seq<char>| shown_encoder(n));
    let mut parts: Vec<String> = Vec::new();
    let mut i: usize = 0;
    assert(strs(parts@) =~= shown.take(0));
    while i < chain.len()
        invariant
            i <= chain@.len(),
            shown == strs(chain@).map_values(|n: Seq<char>| shown_encoder(n)),
            strs(parts@) == shown.take(i as int),
        decreases chain@.len() - i,
    {
        let name = chain[i].as_str();
        match encoder_class(name) {
            Some(EncoderClass::Hardware) => {
                push_string(&mut parts, concat2(name, " (hardware)"));
            },
            _ => {
                push_str(&mut parts, name);
            },
        }
        assert(shown.take(i + 1) =~= shown.take(i as int).push(shown_encoder(chain@[i as int]@)));
        i += 1;
    }
    assert(shown.take(i as int) =~= shown);
    join(&parts, " → ")
}

// ── Laws ───────────────────────────────────────────────────────────────────

/// In every codec all hardware encoders come before all software encoders.
pub proof fn law_hardware_first(codec: int, i: int, j: int)
    requires
        0 <= codec < registry().len(),
        0 <= i < j < registry()[codec].candidates.len(),
        registry()[codec].candidates[j].class == EncoderClass::Hardware,
    ensures
        registry()[codec].candidates[i].class == EncoderClass::Hardware,
{
}

/// What is resolved for a codec is available and among its candidates, and every
/// available candidate is resolved.
pub proof fn law_resolved_is_available(chain: Seq<Seq<char>>, available: Seq<Seq<char>>, n: int)
    requires
        0 <= n <= chain.len(),
    ensures
        forall|name: Seq<char>| #[trigger]
            available_of(chain, available, n).contains(name) <==> available.contains(name)
                && chain.take(n).contains(name),
    decreases n,
{
    if n > 0 {
        law_resolved_is_available(chain, available, n - 1);
        let before = available_of(chain, available, n - 1);
        assert(chain.take(n) =~= chain.take(n - 1).push(chain[n - 1]));
        assert forall|name: Seq<char>|
            available_of(chain, available, n).contains(name) <==> available.contains(name)
                && chain.take(n).contains(name) by {
            lemma_push_contains(chain.take(n - 1), chain[n - 1], name);
            lemma_push_contains(before, chain[n - 1], name);
        }
    }
}

proof fn lemma_push_contains(s: Seq<Seq<char>>, x: Seq<char>, name: Seq<char>)
    ensures
        s.push(x).contains(name) <==> s.contains(name) || x == name,
{
    if s.contains(name) {
        let i = choose|i: int| 0 <= i < s.len() && s[i] == name;
        assert(s.push(x)[i] == name);
    }
    if x == name {
        assert(s.push(x)[s.len() as int] == name);
    }
}

/// Resolving keeps the order of preference: of two resolved encoders, the one
/// that is preferred comes first.
pub proof fn law_resolved_keeps_order(chain: Seq<Seq<char>>, available: Seq<Seq<char>>, n: int, a: int, b: int)
    requires
        0 <= a < b < available_of(chain, available, n).len(),
        n <= chain.len(),
    ensures
        exists|i: int, j: int|
            0 <= i < j < n && #[trigger] chain[i] == available_of(chain, available, n)[a]
                && #[trigger] chain[j] == available_of(chain, available, n)[b],
    decreases n,
{
    let before = available_of(chain, available, n - 1);
    if b < before.len() {
        law_resolved_keeps_order(chain, available, n - 1, a, b);
        let (i, j) = choose|i: int, j: int|
            0 <= i < j < n - 1 && #[trigger] chain[i] == before[a] && #[trigger] chain[j]
                == before[b];
        assert(chain[i] == available_of(chain, available, n)[a]);
        assert(chain[j] == available_of(chain, available, n)[b]);
    } else {
        law_resolved_is_available(chain, available, n - 1);
        assert(before.contains(before[a]));
        let head = chain.take(n - 1);
        assert(head.contains(before[a]));
        let i = choose|i: int| 0 <= i < head.len() && head[i] == before[a];
        assert(chain[i] == available_of(chain, available, n)[a]);
        assert(chain[n - 1] == available_of(chain, available, n)[b]);
    }
}

proof fn lemma_ids()
    ensures
        "prores"@.len() == 6 && "dnxhd"@.len() == 5 && "h264"@.len() == 4 && "h265"@.len() == 4
            && "av1"@.len() == 3,
        "h264"@[3] == '4',
        "h265"@[3] == '5',
        "dnxhd"@[0] == 'd',
{
    reveal_strlit("prores");
    reveal_strlit("dnxhd");
    reveal_strlit("h264");
    reveal_strlit("h265");
    reveal_strlit("av1");
}

/// No two codecs have the same id.
pub proof fn law_codec_ids_unique(i: int, j: int)
    requires
        0 <= i < j < registry().len(),
    ensures
        registry()[i].id != registry()[j].id,
{
    lemma_ids();
}

proof fn lemma_not_named(candidates: Seq<CandidateModel>, name: Seq<char>)
    requires
        forall|i: int| 0 <= i < candidates.len() ==> (#[trigger] candidates[i]).name != name,
    ensures
        candidate_named(candidates, name) is None,
    decreases candidates.len(),
{
    if candidates.len() > 0 {
        assert(candidates[0].name != name);
        let rest = candidates.drop_first();
        assert forall|i: int| 0 <= i < rest.len() implies (#[trigger] rest[i]).name != name by {
            assert(rest[i] == candidates[i + 1]);
        }
        lemma_not_named(rest, name);
    }
}

/// No candidate of the other codecs is named like a codec.
proof fn lemma_names_are_no_ids(k: int, name: Seq<char>)
    requires
        0 <= k < registry().len(),
        k != 1,
        name == "prores"@ || name == "dnxhd"@ || name == "h264"@ || name == "h265"@ || name == "av1"@,
    ensures
        candidate_named(registry()[k].candidates, name) is None,
{
    lemma_ids();
    reveal_strlit("prores_ks");
    reveal_strlit("prores_aw");
    reveal_strlit("h264_nvenc");
    reveal_strlit("h264_qsv");
    reveal_strlit("h264_amf");
    reveal_strlit("h264_mf");
    reveal_strlit("h264_v4l2m2m");
    reveal_strlit("libx264");
    reveal_strlit("hevc_nvenc");
    reveal_strlit("hevc_qsv");
    reveal_strlit("hevc_amf");
    reveal_strlit("hevc_mf");
    reveal_strlit("hevc_v4l2m2m");
    reveal_strlit("libx265");
    reveal_strlit("av1_nvenc");
    reveal_strlit("av1_qsv");
    reveal_strlit("av1_amf");
    reveal_strlit("libsvtav1");
    reveal_strlit("libaom-av1");
    reveal_strlit("librav1e");
    let candidates = registry()[k].candidates;
    assert forall|i: int| 0 <= i < candidates.len() implies (#[trigger] candidates[i]).name != name by {
        assert(candidates[i].name.len() > 6);
    }
    lemma_not_named(candidates, name);
}

proof fn lemma_dnxhd_candidate(name: Seq<char>)
    requires
        name != "dnxhd"@,
    ensures
        candidate_named(dnxhd_codec().candidates, name) is None,
{
    lemma_not_named(dnxhd_codec().candidates, name);
}

/// A codec id stands for itself, and normalizing twice is normalizing once.
pub proof fn law_normalize_idempotent(name: Seq<char>)
    ensures
        forall|i: int| 0 <= i < registry().len() ==> normalized_codec(#[trigger] registry()[i].id) == registry()[i].id,
        normalized_codec(normalized_codec(name)) == normalized_codec(name),
{
    lemma_ids();
    assert forall|i: int| 0 <= i < registry().len() implies normalized_codec(
        #[trigger] registry()[i].id,
    ) == registry()[i].id by {
        let id = registry()[i].id;
        lemma_names_are_no_ids(0, id);
        lemma_names_are_no_ids(2, id);
        lemma_names_are_no_ids(3, id);
        if id != "dnxhd"@ {
            lemma_dnxhd_candidate(id);
        }
        let r0 = registry();
        let r1 = r0.drop_first();
        let r2 = r1.drop_first();
        let r3 = r2.drop_first();
        let r4 = r3.drop_first();
        assert(r1[0] == r0[1] && r2[0] == r0[2] && r3[0] == r0[3] && r4[0] == r0[4]);
        reveal_with_fuel(codec_owning, 6);
    }
    lemma_owner_registered(registry(), name);
    let n = normalized_codec(name);
    if codec_owning(registry(), name) is Some {
        let i = choose|i: int| 0 <= i < registry().len() && registry()[i] == codec_owning(registry(), name)->0;
        assert(normalized_codec(registry()[i].id) == registry()[i].id);
    } else {
        assert(registry()[0].id == "prores"@ && registry()[2].id == "h264"@ && registry()[3].id
            == "h265"@ && registry()[4].id == "av1"@);
    }
}

proof fn lemma_owner_registered(codecs: Seq<CodecModel>, name: Seq<char>)
    ensures
        codec_owning(codecs, name) matches Some(c) ==> exists|i: int|
            0 <= i < codecs.len() && #[trigger] codecs[i] == c,
    decreases codecs.len(),
{
    if codecs.len() > 0 {
        let rest = codecs.drop_first();
        lemma_owner_registered(rest, name);
        if let Some(c) = codec_owning(rest, name) {
            let i = choose|i: int| 0 <= i < rest.len() && #[trigger] rest[i] == c;
            assert(codecs[i + 1] == c);
        }
        assert(codecs[0] == codecs[0]);
    }
}

} // verus!
