//! Which audio encoders go into which containers, and which combination of
//! container, video codec and audio encoder an ffmpeg build does best.

use vstd::prelude::*;

use crate::capabilities::FfmpegCapabilities;
use crate::paths::{extension_of, lower_extension, lower_extension_of};
use crate::text::{all_ascii, ascii_lower, list_contains, same, strs};
use crate::video_codecs::{
    available_video_codecs, codec_supports_container, codec_with_id, law_normalize_idempotent,
    fits_container, normalize_video_codec, normalized_codec, offered, offered_codecs, pairs,
    registered, registry, resolve_encoder_chain, resolved_chain, supported_video_codecs, CodecModel,
    DEFAULT_VIDEO_CODEC,
};

verus! {

// ── Tables ─────────────────────────────────────────────────────────────────

/// The audio encoders with their labels.
pub open spec fn audio_encoders() -> Seq<(Seq<char>, Seq<char>)> {
    seq![
        ("pcm_s24le"@, "PCM 24-bit — uncompressed, Resolve-compatible"@),
        ("pcm_s16le"@, "PCM 16-bit — uncompressed, smaller"@),
        ("aac"@, "AAC — compressed, good for MP4"@),
        ("libopus"@, "Opus — modern compressed, MKV/MOV only"@),
    ]
}

/// The audio encoders with their labels, in the order in which they are offered.
pub fn supported_audio_encoders() -> (r: Vec<(&'static str, &'static str)>)
    ensures
        pairs(r@) == audio_encoders(),
        r@.len() == 4,
{
    let r: Vec<(&'static str, &'static str)> = vec![
        ("pcm_s24le", "PCM 24-bit — uncompressed, Resolve-compatible"),
        ("pcm_s16le", "PCM 16-bit — uncompressed, smaller"),
        ("aac", "AAC — compressed, good for MP4"),
        ("libopus", "Opus — modern compressed, MKV/MOV only"),
    ];
    assert(pairs(r@) =~= audio_encoders());
    r
}

/// The containers with their labels.
pub open spec fn containers() -> Seq<(Seq<char>, Seq<char>)> {
    seq![
        ("mov"@, "QuickTime MOV — ProRes native, Resolve-friendly"@),
        ("mkv"@, "Matroska MKV — versatile, all codecs"@),
        ("mp4"@, "MPEG-4 MP4 — universal compatibility"@),
        ("mxf"@, "MXF (Material eXchange Format) — professional broadcast"@),
    ]
}

/// The containers with their labels, in the order in which they are offered.
pub fn supported_containers() -> (r: Vec<(&'static str, &'static str)>)
    ensures
        pairs(r@) == containers(),
        r@.len() == 4,
{
    let r: Vec<(&'static str, &'static str)> = vec![
        ("mov", "QuickTime MOV — ProRes native, Resolve-friendly"),
        ("mkv", "Matroska MKV — versatile, all codecs"),
        ("mp4", "MPEG-4 MP4 — universal compatibility"),
        ("mxf", "MXF (Material eXchange Format) — professional broadcast"),
    ];
    assert(pairs(r@) =~= containers());
    r
}

/// An encoder that every container takes.
pub open spec fn universal_audio(encoder: Seq<char>) -> bool {
    encoder == "pcm_s24le"@ || encoder == "pcm_s16le"@ || encoder == "aac"@
}

/// An audio encoder goes into a container.
pub open spec fn audio_fits(container: Seq<char>, encoder: Seq<char>) -> bool {
    if container == "mkv"@ || container == "mov"@ {
        universal_audio(encoder) || encoder == "libopus"@
    } else {
        (container == "mp4"@ || container == "mxf"@) && universal_audio(encoder)
    }
}

/// Tells whether an audio encoder goes into a container.
pub fn container_supports_audio_encoder(container: &str, encoder: &str) -> (r: bool)
    ensures
        r == audio_fits(container@, encoder@),
{
    let universal = same(encoder, "pcm_s24le") || same(encoder, "pcm_s16le") || same(
        encoder,
        "aac",
    );
    if same(container, "mkv") || same(container, "mov") {
        universal || same(encoder, "libopus")
    } else {
        (same(container, "mp4") || same(container, "mxf")) && universal
    }
}

/// ffmpeg's name for a container.
pub open spec fn ffmpeg_format(container: Seq<char>) -> Seq<char> {
    if container == "mkv"@ {
        "matroska"@
    } else {
        container
    }
}

/// ffmpeg's name for a container.
pub fn container_to_ffmpeg_format<'a>(container: &'a str) -> (r: &'a str)
    ensures
        r@ == ffmpeg_format(container@),
{
    if same(container, "mkv") {
        "matroska"
    } else {
        container
    }
}

/// Tells whether ffmpeg can write a container.
pub fn format_available_in_ffmpeg(format: &str, caps: &FfmpegCapabilities) -> (r: bool)
    ensures
        r == caps.formats().contains(ffmpeg_format(format@)),
{
    list_contains(&caps.available_formats, container_to_ffmpeg_format(format))
}

/// Tells whether ffmpeg has an encoder.
pub fn encoder_available_in_ffmpeg(encoder: &str, caps: &FfmpegCapabilities) -> (r: bool)
    ensures
        r == caps.encoders().contains(encoder@),
{
    list_contains(&caps.available_encoders, encoder)
}

/// The file extension of a container: its name.
pub fn extension_for_container<'a>(container: &'a str) -> (r: &'a str)
    ensures
        r@ == container@,
{
    container
}

/// The muxer and the file extension for the output of an audio encoder.
pub open spec fn audio_output_format(encoder: Seq<char>) -> (Seq<char>, Seq<char>) {
    if encoder == "aac"@ {
        ("adts"@, "aac"@)
    } else if encoder == "libopus"@ {
        ("opus"@, "opus"@)
    } else {
        ("wav"@, "wav"@)
    }
}

/// The muxer and the file extension for the output of an audio encoder.
pub fn audio_encoder_to_output_format(encoder: &str) -> (r: (&'static str, &'static str))
    ensures
        (r.0@, r.1@) == audio_output_format(encoder@),
{
    if same(encoder, "aac") {
        ("adts", "aac")
    } else if same(encoder, "libopus") {
        ("opus", "opus")
    } else {
        ("wav", "wav")
    }
}

// ── What is available ──────────────────────────────────────────────────────

/// The first `n` audio encoders that fit a container and that ffmpeg has.
pub open spec fn offered_audio(container: Seq<char>, available: Seq<Seq<char>>, n: int) -> Seq<(Seq<char>, Seq<char>)>
    decreases n,
{
    if n <= 0 {
        seq![]
    } else {
        let before = offered_audio(container, available, n - 1);
        let e = audio_encoders()[n - 1];
        if audio_fits(container, e.0) && available.contains(e.0) {
            before.push(e)
        } else {
            before
        }
    }
}

/// Lists the audio encoders that fit a container and that ffmpeg has.
pub fn available_audio_encoders_for_container(container: &str, caps: &FfmpegCapabilities) -> (r: Vec<
    (&'static str, &'static str),
>)
    ensures
        pairs(r@) == offered_audio(container@, caps.encoders(), audio_encoders().len() as int),
{
    let all = supported_audio_encoders();
    let mut out: Vec<(&'static str, &'static str)> = Vec::new();
    let mut i: usize = 0;
    assert(pairs(out@) =~= seq![]);
    while i < all.len()
        invariant
            i <= all@.len(),
            pairs(all@) == audio_encoders(),
            pairs(out@) == offered_audio(container@, caps.encoders(), i as int),
        decreases all@.len() - i,
    {
        assert(pairs(all@)[i as int] == (all@[i as int].0@, all@[i as int].1@));
        if container_supports_audio_encoder(container, all[i].0) && encoder_available_in_ffmpeg(
            all[i].0,
            caps,
        ) {
            let ghost before = pairs(out@);
            out.push(all[i]);
            assert(pairs(out@) =~= before.push(audio_encoders()[i as int]));
        }
        i += 1;
    }
    assert(all@.len() == audio_encoders().len());
    out
}

/// The first `n` containers that ffmpeg can write.
pub open spec fn offered_containers(formats: Seq<Seq<char>>, n: int) -> Seq<(Seq<char>, Seq<char>)>
    decreases n,
{
    if n <= 0 {
        seq![]
    } else {
        let before = offered_containers(formats, n - 1);
        let c = containers()[n - 1];
        if formats.contains(ffmpeg_format(c.0)) {
            before.push(c)
        } else {
            before
        }
    }
}

/// Lists the containers that ffmpeg can write.
pub fn available_containers(caps: &FfmpegCapabilities) -> (r: Vec<(&'static str, &'static str)>)
    ensures
        pairs(r@) == offered_containers(caps.formats(), containers().len() as int),
{
    let all = supported_containers();
    let mut out: Vec<(&'static str, &'static str)> = Vec::new();
    let mut i: usize = 0;
    assert(pairs(out@) =~= seq![]);
    while i < all.len()
        invariant
            i <= all@.len(),
            pairs(all@) == containers(),
            pairs(out@) == offered_containers(caps.formats(), i as int),
        decreases all@.len() - i,
    {
        assert(pairs(all@)[i as int] == (all@[i as int].0@, all@[i as int].1@));
        if format_available_in_ffmpeg(all[i].0, caps) {
            let ghost before = pairs(out@);
            out.push(all[i]);
            assert(pairs(out@) =~= before.push(containers()[i as int]));
        }
        i += 1;
    }
    assert(all@.len() == containers().len());
    out
}

// ── The best combination ───────────────────────────────────────────────────

/// A container, a video codec and an audio encoder.
#[verifier::ext_equal]
pub struct Combination {
    pub container: Seq<char>,
    pub codec: Seq<char>,
    pub audio: Seq<char>,
}

/// A combination whose parts fit together and that ffmpeg can do.
pub open spec fn usable(c: Combination, encoders: Seq<Seq<char>>, formats: Seq<Seq<char>>) -> bool {
    &&& formats.contains(ffmpeg_format(c.container))
    &&& encoders.contains(c.audio)
    &&& audio_fits(c.container, c.audio)
    &&& fits_container(c.codec, c.container)
    &&& resolved_chain(c.codec, encoders).len() > 0
}

/// The combinations that are preferred to all others, best first.
pub open spec fn preferences() -> Seq<Combination> {
    seq![
        Combination { container: "mov"@, codec: "prores"@, audio: "pcm_s24le"@ },
        Combination { container: "mxf"@, codec: "dnxhd"@, audio: "pcm_s24le"@ },
        Combination { container: "mov"@, codec: "h264"@, audio: "pcm_s24le"@ },
        Combination { container: "mkv"@, codec: "h264"@, audio: "pcm_s24le"@ },
        Combination { container: "mkv"@, codec: "h265"@, audio: "aac"@ },
        Combination { container: "mp4"@, codec: "h264"@, audio: "aac"@ },
    ]
}

/// The number of combinations that the tables give.
pub open spec fn combination_count() -> int {
    80
}

/// The combination with number `k`, by container, then codec, then audio encoder.
pub open spec fn combination(k: int) -> Combination {
    Combination {
        container: containers()[k / 20].0,
        codec: registry()[k / 4 % 5].id,
        audio: audio_encoders()[k % 4].0,
    }
}

/// All combinations that are looked at, in order: the preferred ones and then
/// those of the tables.
pub open spec fn considered(k: int) -> Combination {
    if k < preferences().len() {
        preferences()[k]
    } else {
        combination(k - preferences().len())
    }
}

/// The first usable combination from number `k` on.
pub open spec fn first_usable(encoders: Seq<Seq<char>>, formats: Seq<Seq<char>>, k: int) -> Option<Combination>
    decreases preferences().len() + combination_count() - k,
{
    if k < 0 || k >= preferences().len() + combination_count() {
        None
    } else if usable(considered(k), encoders, formats) {
        Some(considered(k))
    } else {
        first_usable(encoders, formats, k + 1)
    }
}

/// The combination that is chosen when ffmpeg can do none.
pub open spec fn last_resort() -> Combination {
    Combination { container: "mkv"@, codec: DEFAULT_VIDEO_CODEC@, audio: "pcm_s24le"@ }
}

/// The best combination.
pub open spec fn best_combination(encoders: Seq<Seq<char>>, formats: Seq<Seq<char>>) -> Combination {
    match first_usable(encoders, formats, 0) {
        Some(c) => c,
        None => last_resort(),
    }
}

fn is_usable(container: &str, codec: &str, audio: &str, caps: &FfmpegCapabilities) -> (r: bool)
    ensures
        r == usable(
            Combination { container: container@, codec: codec@, audio: audio@ },
            caps.encoders(),
            caps.formats(),
        ),
{
    let chain = resolve_encoder_chain(codec, caps);
    assert(chain@.len() == strs(chain@).len());
    format_available_in_ffmpeg(container, caps) && encoder_available_in_ffmpeg(audio, caps)
        && container_supports_audio_encoder(container, audio) && codec_supports_container(
        codec,
        container,
    ) && chain.len() > 0
}

/// Chooses a container, a video codec and an audio encoder: the preferred
/// combinations first, then any that fits, then the last resort.
pub fn select_best_combination(caps: &FfmpegCapabilities) -> (r: (String, String, String))
    ensures
        (Combination { container: r.0@, codec: r.1@, audio: r.2@ }) == best_combination(
            caps.encoders(),
            caps.formats(),
        ),
{
    let preferred: Vec<(&'static str, &'static str, &'static str)> = vec![
        ("mov", "prores", "pcm_s24le"),
        ("mxf", "dnxhd", "pcm_s24le"),
        ("mov", "h264", "pcm_s24le"),
        ("mkv", "h264", "pcm_s24le"),
        ("mkv", "h265", "aac"),
        ("mp4", "h264", "aac"),
    ];
    let ghost encoders = caps.encoders();
    let ghost formats = caps.formats();
    let mut i: usize = 0;
    while i < 6
        invariant
            i <= 6,
            preferred@.len() == 6,
            encoders == caps.encoders(),
            formats == caps.formats(),
            forall|k: int|
                0 <= k < 6 ==> preferences()[k] == (Combination {
                    container: (#[trigger] preferred@[k]).0@,
                    codec: preferred@[k].1@,
                    audio: preferred@[k].2@,
                }),
            first_usable(encoders, formats, i as int) == first_usable(encoders, formats, 0),
        decreases 6 - i,
    {
        let (container, codec, audio) = preferred[i];
        if is_usable(container, codec, audio, caps) {
            return (container.to_string(), codec.to_string(), audio.to_string());
        }
        i += 1;
    }
    let boxes = supported_containers();
    let codecs = supported_video_codecs();
    let audios = supported_audio_encoders();
    proof {
        assert(pairs(codecs@).len() == codecs@.len());
        assert(registry().len() == 5);
    }
    let mut n: usize = 0;
    while n < 80
        invariant
            n <= 80,
            encoders == caps.encoders(),
            formats == caps.formats(),
            boxes@.len() == 4,
            codecs@.len() == 5,
            audios@.len() == 4,
            pairs(boxes@) == containers(),
            pairs(codecs@) == registry().map_values(|c: CodecModel| (c.id, c.label)),
            pairs(audios@) == audio_encoders(),
            first_usable(encoders, formats, n + 6) == first_usable(encoders, formats, 0),
        decreases 80 - n,
    {
        let container = boxes[n / 20].0;
        let codec = codecs[n / 4 % 5].0;
        let audio = audios[n % 4].0;
        proof {
            let b = (n / 20) as int;
            let c = (n / 4 % 5) as int;
            let a = (n % 4) as int;
            assert(pairs(boxes@)[b] == (boxes@[b].0@, boxes@[b].1@));
            assert(pairs(codecs@)[c] == (codecs@[c].0@, codecs@[c].1@));
            assert(registry().map_values(|c: CodecModel| (c.id, c.label))[c] == (
                registry()[c].id,
                registry()[c].label,
            ));
            assert(pairs(audios@)[a] == (audios@[a].0@, audios@[a].1@));
            assert(considered(n + 6) == combination(n as int));
        }
        if is_usable(container, codec, audio, caps) {
            return (container.to_string(), codec.to_string(), audio.to_string());
        }
        n += 1;
    }
    ("mkv".to_string(), DEFAULT_VIDEO_CODEC.to_string(), "pcm_s24le".to_string())
}

// ── Defaults ───────────────────────────────────────────────────────────────

/// A selection that is on offer.
pub open spec fn on_offer(c: Combination, encoders: Seq<Seq<char>>, formats: Seq<Seq<char>>) -> bool {
    &&& exists|i: int| 0 <= i < 4 && (#[trigger] containers()[i]).0 == c.container
    &&& formats.contains(ffmpeg_format(c.container))
    &&& exists|i: int|
        0 <= i < registry().len() && (#[trigger] registry()[i]).id == c.codec && offered(
            registry()[i],
            c.container,
            encoders,
        )
    &&& exists|i: int| 0 <= i < 4 && (#[trigger] audio_encoders()[i]).0 == c.audio
    &&& audio_fits(c.container, c.audio)
    &&& encoders.contains(c.audio)
}

/// The selection that is made of a wish: the wish itself where it is on offer,
/// the best combination otherwise.
pub open spec fn granted(c: Combination, encoders: Seq<Seq<char>>, formats: Seq<Seq<char>>) -> Combination {
    let wish = Combination { codec: normalized_codec(c.codec), ..c };
    if on_offer(wish, encoders, formats) {
        wish
    } else {
        best_combination(encoders, formats)
    }
}

fn keys_contain(list: &Vec<(&'static str, &'static str)>, key: &str) -> (r: bool)
    ensures
        r == exists|i: int| 0 <= i < list@.len() && (#[trigger] pairs(list@)[i]).0 == key@,
{
    let mut i: usize = 0;
    while i < list.len()
        invariant
            i <= list@.len(),
            forall|k: int| 0 <= k < i ==> (#[trigger] pairs(list@)[k]).0 != key@,
        decreases list@.len() - i,
    {
        assert(pairs(list@)[i as int] == (list@[i as int].0@, list@[i as int].1@));
        if same(list[i].0, key) {
            return true;
        }
        i += 1;
    }
    false
}

proof fn lemma_offered_containers(formats: Seq<Seq<char>>, key: Seq<char>, n: int)
    requires
        0 <= n <= 4,
    ensures
        (exists|i: int|
            0 <= i < offered_containers(formats, n).len() && (#[trigger] offered_containers(
                formats,
                n,
            )[i]).0 == key) <==> formats.contains(ffmpeg_format(key)) && exists|i: int|
            0 <= i < n && (#[trigger] containers()[i]).0 == key,
    decreases n,
{
    if n > 0 {
        lemma_offered_containers(formats, key, n - 1);
        let before = offered_containers(formats, n - 1);
        let now = offered_containers(formats, n);
        let c = containers()[n - 1];
        if now.len() > before.len() {
            assert(now == before.push(c));
            assert(now[now.len() - 1] == c);
            assert forall|i: int| 0 <= i < before.len() implies now[i] == before[i] by {}
            if exists|i: int| 0 <= i < before.len() && (#[trigger] before[i]).0 == key {
                let i = choose|i: int| 0 <= i < before.len() && (#[trigger] before[i]).0 == key;
                assert(now[i].0 == key);
            }
        }
    }
}

proof fn lemma_offered_codecs(container: Seq<char>, encoders: Seq<Seq<char>>, key: Seq<char>, n: int)
    requires
        0 <= n <= registry().len(),
    ensures
        (exists|i: int|
            0 <= i < offered_codecs(container, encoders, n).len() && (#[trigger] offered_codecs(
                container,
                encoders,
                n,
            )[i]).0 == key) <==> exists|i: int|
            0 <= i < n && (#[trigger] registry()[i]).id == key && offered(
                registry()[i],
                container,
                encoders,
            ),
    decreases n,
{
    if n > 0 {
        lemma_offered_codecs(container, encoders, key, n - 1);
        let before = offered_codecs(container, encoders, n - 1);
        let now = offered_codecs(container, encoders, n);
        let c = registry()[n - 1];
        if offered(c, container, encoders) {
            assert(now == before.push((c.id, c.label)));
            assert(now[now.len() - 1].0 == c.id);
            assert forall|i: int| 0 <= i < before.len() implies now[i] == before[i] by {}
            if exists|i: int| 0 <= i < before.len() && (#[trigger] before[i]).0 == key {
                let i = choose|i: int| 0 <= i < before.len() && (#[trigger] before[i]).0 == key;
                assert(now[i].0 == key);
            }
        }
    }
}

proof fn lemma_offered_audio(container: Seq<char>, encoders: Seq<Seq<char>>, key: Seq<char>, n: int)
    requires
        0 <= n <= 4,
    ensures
        (exists|i: int|
            0 <= i < offered_audio(container, encoders, n).len() && (#[trigger] offered_audio(
                container,
                encoders,
                n,
            )[i]).0 == key) <==> audio_fits(container, key) && encoders.contains(key) && exists|
            i: int,
        |
            0 <= i < n && (#[trigger] audio_encoders()[i]).0 == key,
    decreases n,
{
    if n > 0 {
        lemma_offered_audio(container, encoders, key, n - 1);
        let before = offered_audio(container, encoders, n - 1);
        let now = offered_audio(container, encoders, n);
        let c = audio_encoders()[n - 1];
        if now.len() > before.len() {
            assert(now == before.push(c));
            assert(now[now.len() - 1] == c);
            assert forall|i: int| 0 <= i < before.len() implies now[i] == before[i] by {}
            if exists|i: int| 0 <= i < before.len() && (#[trigger] before[i]).0 == key {
                let i = choose|i: int| 0 <= i < before.len() && (#[trigger] before[i]).0 == key;
                assert(now[i].0 == key);
            }
        }
    }
}

/// Replaces a selection that is not on offer by the best combination. The name
/// of an encoder counts as its codec.
pub fn apply_available_defaults(
    container: &mut String,
    video_encoder: &mut String,
    audio_encoder: &mut String,
    caps: &FfmpegCapabilities,
)
    ensures
        (Combination {
            container: final(container)@,
            codec: final(video_encoder)@,
            audio: final(audio_encoder)@,
        }) == granted(
            Combination {
                container: old(container)@,
                codec: old(video_encoder)@,
                audio: old(audio_encoder)@,
            },
            caps.encoders(),
            caps.formats(),
        ),
{
    let codec = normalize_video_codec(video_encoder.as_str()).to_owned();
    let boxes = available_containers(caps);
    let codecs = available_video_codecs(container.as_str(), caps);
    let audios = available_audio_encoders_for_container(container.as_str(), caps);
    proof {
        lemma_offered_containers(caps.formats(), container@, 4);
        lemma_offered_codecs(container@, caps.encoders(), codec@, registry().len() as int);
        lemma_offered_audio(container@, caps.encoders(), audio_encoder@, 4);
        assert(pairs(boxes@).len() == boxes@.len());
        assert(pairs(codecs@).len() == codecs@.len());
        assert(pairs(audios@).len() == audios@.len());
    }
    if keys_contain(&boxes, container.as_str()) && keys_contain(&codecs, codec.as_str())
        && keys_contain(&audios, audio_encoder.as_str()) {
        *video_encoder = codec;
    } else {
        let (c, v, a) = select_best_combination(caps);
        *container = c;
        *video_encoder = v;
        *audio_encoder = a;
    }
}

// ── Stream copy ────────────────────────────────────────────────────────────

/// The container for a stream copy, from the input's extension in lower case.
pub open spec fn copy_container(ext: Seq<char>) -> Seq<char> {
    if ext == "mp4"@ || ext == "m4v"@ || ext == "mts"@ || ext == "m2ts"@ || ext == "m2t"@ || ext
        == "ts"@ {
        "mp4"@
    } else if ext == "mov"@ {
        "mov"@
    } else if ext == "mxf"@ {
        "mxf"@
    } else {
        "mkv"@
    }
}

/// The container for a stream copy of a file.
pub open spec fn copy_container_for(path: Seq<char>) -> Seq<char> {
    copy_container(lower_extension_of(path))
}

/// The container for a stream copy by extension.
pub fn copy_mode_container_for_extension(ext: &str) -> (r: &'static str)
    ensures
        r@ == copy_container(ext@),
{
    if same(ext, "mp4") || same(ext, "m4v") || same(ext, "mts") || same(ext, "m2ts") || same(
        ext,
        "m2t",
    ) || same(ext, "ts") {
        "mp4"
    } else if same(ext, "mov") {
        "mov"
    } else if same(ext, "mxf") {
        "mxf"
    } else {
        "mkv"
    }
}

/// The container for a stream copy of a file: its own where it can carry a
/// timecode, MP4 for transport streams, Matroska for everything else.
pub fn copy_mode_container_for_input(path: &str) -> (r: &'static str)
    ensures
        r@ == copy_container_for(path@),
        extension_of(path@) matches Some(ext) ==> (all_ascii(ext) ==> r@ == copy_container(
            ext.map_values(|c: char| ascii_lower(c)),
        )),
        extension_of(path@) is None ==> r@ == copy_container(seq![]),
{
    let ext = lower_extension(path);
    copy_mode_container_for_extension(ext.as_str())
}

// ── Laws ───────────────────────────────────────────────────────────────────

/// The best combination is usable whenever a combination of the tables is.
pub proof fn law_best_is_usable(encoders: Seq<Seq<char>>, formats: Seq<Seq<char>>, k: int)
    requires
        0 <= k < combination_count(),
        usable(combination(k), encoders, formats),
    ensures
        usable(best_combination(encoders, formats), encoders, formats),
{
    assert(considered(k + 6) == combination(k));
    lemma_first_usable(encoders, formats, 0, k + 6);
}

proof fn lemma_first_usable(encoders: Seq<Seq<char>>, formats: Seq<Seq<char>>, from: int, k: int)
    requires
        0 <= from <= k < preferences().len() + combination_count(),
        usable(considered(k), encoders, formats),
    ensures
        first_usable(encoders, formats, from) matches Some(c) && usable(c, encoders, formats),
    decreases k - from,
{
    if !usable(considered(from), encoders, formats) {
        lemma_first_usable(encoders, formats, from + 1, k);
    }
}

/// A preferred combination is chosen over every combination behind it.
pub proof fn law_preference_order(encoders: Seq<Seq<char>>, formats: Seq<Seq<char>>, k: int)
    requires
        0 <= k < preferences().len(),
        usable(preferences()[k], encoders, formats),
    ensures
        exists|j: int|
            0 <= j <= k && best_combination(encoders, formats) == #[trigger] preferences()[j],
{
    lemma_preferred(encoders, formats, 0, k);
}

proof fn lemma_preferred(encoders: Seq<Seq<char>>, formats: Seq<Seq<char>>, from: int, k: int)
    requires
        0 <= from <= k < preferences().len(),
        usable(preferences()[k], encoders, formats),
    ensures
        exists|j: int|
            0 <= j <= k && first_usable(encoders, formats, from) == Some(#[trigger] preferences()[j]),
    decreases k - from,
{
    if usable(considered(from), encoders, formats) {
        assert(first_usable(encoders, formats, from) == Some(preferences()[from]));
    } else {
        lemma_preferred(encoders, formats, from + 1, k);
    }
}

/// Opus goes into Matroska and QuickTime alone.
pub proof fn law_opus_containers(container: Seq<char>)
    ensures
        audio_fits(container, "libopus"@) <==> container == "mkv"@ || container == "mov"@,
{
    reveal_strlit("libopus");
    reveal_strlit("pcm_s24le");
    reveal_strlit("pcm_s16le");
    reveal_strlit("aac");
    assert("libopus"@[0] == 'l');
    assert("pcm_s24le"@[0] == 'p');
    assert("pcm_s16le"@[0] == 'p');
    assert("aac"@[0] == 'a');
}

proof fn lemma_registered(codecs: Seq<CodecModel>, id: Seq<char>)
    ensures
        codec_with_id(codecs, id) matches Some(c) ==> c.id == id && exists|i: int|
            0 <= i < codecs.len() && #[trigger] codecs[i] == c,
    decreases codecs.len(),
{
    if codecs.len() > 0 {
        let rest = codecs.drop_first();
        lemma_registered(rest, id);
        if let Some(c) = codec_with_id(rest, id) {
            if codecs[0].id != id {
                let i = choose|i: int| 0 <= i < rest.len() && #[trigger] rest[i] == c;
                assert(codecs[i + 1] == c);
            }
        }
        assert(codecs[0] == codecs[0]);
    }
}

proof fn lemma_considered_on_offer(encoders: Seq<Seq<char>>, formats: Seq<Seq<char>>, k: int)
    requires
        0 <= k < preferences().len() + combination_count(),
        usable(considered(k), encoders, formats),
    ensures
        on_offer(considered(k), encoders, formats),
        normalized_codec(considered(k).codec) == considered(k).codec,
{
    let c = considered(k);
    lemma_registered(registry(), c.codec);
    let i = choose|i: int| 0 <= i < registry().len() && #[trigger] registry()[i] == registered(c.codec)->0;
    assert(registry()[i].id == c.codec && offered(registry()[i], c.container, encoders));
    law_normalize_idempotent(c.codec);
    assert(containers()[0].0 == "mov"@ && containers()[1].0 == "mkv"@ && containers()[2].0
        == "mp4"@ && containers()[3].0 == "mxf"@);
    assert(audio_encoders()[0].0 == "pcm_s24le"@ && audio_encoders()[2].0 == "aac"@);
    if k >= preferences().len() {
        let n = k - preferences().len();
        assert(containers()[n / 20].0 == c.container);
        assert(audio_encoders()[n % 4].0 == c.audio);
    }
}

proof fn lemma_first_is_considered(encoders: Seq<Seq<char>>, formats: Seq<Seq<char>>, from: int)
    requires
        0 <= from,
        first_usable(encoders, formats, from) is Some,
    ensures
        exists|k: int|
            0 <= k < preferences().len() + combination_count() && first_usable(
                encoders,
                formats,
                from,
            ) == Some(#[trigger] considered(k)) && usable(considered(k), encoders, formats),
    decreases preferences().len() + combination_count() - from,
{
    if usable(considered(from), encoders, formats) {
        assert(first_usable(encoders, formats, from) == Some(considered(from)));
    } else {
        lemma_first_is_considered(encoders, formats, from + 1);
    }
}

/// Granting a selection twice is granting it once, and what is granted is on
/// offer whenever ffmpeg can do any combination of the tables.
pub proof fn law_defaults_settle(c: Combination, encoders: Seq<Seq<char>>, formats: Seq<Seq<char>>)
    ensures
        granted(granted(c, encoders, formats), encoders, formats) == granted(c, encoders, formats),
        (exists|k: int|
            0 <= k < combination_count() && usable(#[trigger] combination(k), encoders, formats))
            ==> on_offer(granted(c, encoders, formats), encoders, formats),
{
    let first = granted(c, encoders, formats);
    law_normalize_idempotent(c.codec);
    let wish = Combination { codec: normalized_codec(c.codec), ..c };
    if !on_offer(wish, encoders, formats) {
        if first_usable(encoders, formats, 0) is Some {
            lemma_first_is_considered(encoders, formats, 0);
            let k = choose|k: int|
                0 <= k < preferences().len() + combination_count() && first_usable(
                    encoders,
                    formats,
                    0,
                ) == Some(#[trigger] considered(k)) && usable(considered(k), encoders, formats);
            lemma_considered_on_offer(encoders, formats, k);
        } else {
            law_normalize_idempotent("av1"@);
            assert(registry()[4].id == "av1"@);
            assert(normalized_codec(last_resort().codec) == last_resort().codec);
        }
    }
    if exists|k: int|
        0 <= k < combination_count() && usable(#[trigger] combination(k), encoders, formats) {
        let k = choose|k: int|
            0 <= k < combination_count() && usable(#[trigger] combination(k), encoders, formats);
        assert(considered(k + 6) == combination(k));
        lemma_first_usable(encoders, formats, 0, k + 6);
    }
}

} // verus!
