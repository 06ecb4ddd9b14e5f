//! Hardware devices: which ones to probe, how an encoder is tried out, and what
//! follows from the outcome.

use vstd::prelude::*;

use crate::capabilities::HwDeviceCapabilities;
use crate::text::{
    concat2, ends_with, list_contains, parse_u32, parsed_number, push_str, push_string, same,
    starts_with, strs,
};
use crate::video_codecs::{
    candidate_args, candidate_models, codec_models, encoder_args, pairs, registry, video_codecs,
    CandidateModel, EncoderCandidate, EncoderClass, HwFramePath,
};

verus! {

// ── Render nodes ───────────────────────────────────────────────────────────

/// `s` without the `prefix` it begins with, as often as it begins with it.
pub open spec fn stripped(s: Seq<char>, prefix: Seq<char>) -> Seq<char>
    decreases s.len(),
{
    if prefix.len() > 0 && prefix.is_prefix_of(s) {
        stripped(s.skip(prefix.len() as int), prefix)
    } else {
        s
    }
}

/// The number of a render node, 0 where there is none.
pub open spec fn node_number(name: Seq<char>) -> nat {
    match parsed_number(stripped(name, "renderD"@), u32::MAX as nat) {
        Some(n) => n,
        None => 0,
    }
}

/// The first `n` names that are render nodes.
pub open spec fn render_nodes(all: Seq<Seq<char>>, n: int) -> Seq<Seq<char>>
    decreases n,
{
    if n <= 0 {
        seq![]
    } else if "renderD"@.is_prefix_of(all[n - 1]) {
        insert_by_number(render_nodes(all, n - 1), all[n - 1])
    } else {
        render_nodes(all, n - 1)
    }
}

/// `x` put behind every node that does not have a higher number.
pub open spec fn insert_by_number(s: Seq<Seq<char>>, x: Seq<char>) -> Seq<Seq<char>>
    decreases s.len(),
{
    if s.len() == 0 || node_number(s.last()) <= node_number(x) {
        s.push(x)
    } else {
        insert_by_number(s.drop_last(), x).push(s.last())
    }
}

fn strip_all(name: &str, prefix: &str) -> (r: String)
    requires
        prefix@.len() > 0,
    ensures
        r@ == stripped(name@, prefix@),
{
    let mut rest = name.to_owned();
    while starts_with(rest.as_str(), prefix)
        invariant
            prefix@.len() > 0,
            stripped(rest@, prefix@) == stripped(name@, prefix@),
        decreases rest@.len(),
    {
        let n: usize = rest.as_str().unicode_len();
        let m: usize = prefix.unicode_len();
        let tail = rest.as_str().substring_char(m, n).to_owned();
        assert(tail@ =~= rest@.skip(m as int));
        rest = tail;
    }
    rest
}

fn number_of(name: &str) -> (r: u32)
    ensures
        r == node_number(name@),
{
    proof {
        reveal_strlit("renderD");
    }
    let rest = strip_all(name, "renderD");
    match parse_u32(rest.as_str()) {
        Some(n) => n,
        None => 0,
    }
}

proof fn lemma_insert_at(s: Seq<Seq<char>>, x: Seq<char>, i: int)
    requires
        0 <= i <= s.len(),
        i > 0 ==> node_number(s[i - 1]) <= node_number(x),
        forall|k: int| i <= k < s.len() ==> node_number(#[trigger] s[k]) > node_number(x),
    ensures
        insert_by_number(s, x) == s.insert(i, x),
    decreases s.len(),
{
    if i == s.len() {
        assert(s.insert(i, x) =~= s.push(x));
    } else {
        assert(node_number(s[s.len() - 1]) > node_number(x));
        let rest = s.drop_last();
        assert forall|k: int| i <= k < rest.len() implies node_number(#[trigger] rest[k])
            > node_number(x) by {
            assert(rest[k] == s[k]);
        }
        lemma_insert_at(rest, x, i);
        assert(rest.insert(i, x).push(s.last()) =~= s.insert(i, x));
    }
}

/// Picks the render nodes out of the names in a device directory, in order of
/// their numbers.
pub fn list_vaapi_render_nodes(entries: &Vec<String>) -> (r: Vec<String>)
    ensures
        strs(r@) == render_nodes(strs(entries@), entries@.len() as int),
{
    let mut nodes: Vec<String> = Vec::new();
    let mut n: usize = 0;
    assert(strs(nodes@) =~= seq![]);
    while n < entries.len()
        invariant
            n <= entries@.len(),
            strs(nodes@) == render_nodes(strs(entries@), n as int),
        decreases entries@.len() - n,
    {
        let name = entries[n].as_str();
        if starts_with(name, "renderD") {
            let number: u32 = number_of(name);
            let mut i: usize = nodes.len();
            while i > 0 && number_of(nodes[i - 1].as_str()) > number
                invariant
                    i <= nodes@.len(),
                    number == node_number(name@),
                    forall|k: int|
                        i <= k < nodes@.len() ==> node_number((#[trigger] nodes@[k])@)
                            > node_number(name@),
                decreases i,
            {
                i -= 1;
            }
            let ghost before = strs(nodes@);
            proof {
                assert forall|k: int| i <= k < before.len() implies node_number(
                    #[trigger] before[k],
                ) > node_number(name@) by {
                    assert(nodes@[k]@ == before[k]);
                }
                if i > 0 {
                    assert(before[i - 1] == nodes@[i - 1]@);
                }
                lemma_insert_at(before, name@, i as int);
            }
            nodes.insert(i, name.to_owned());
            assert(strs(nodes@) =~= before.insert(i as int, name@));
        }
        n += 1;
    }
    nodes
}

// ── Discovery ──────────────────────────────────────────────────────────────

/// Some encoder of the list takes frames of the kind that `suffix` names.
pub open spec fn any_ends_with(encoders: Seq<Seq<char>>, suffix: Seq<char>) -> bool {
    exists|i: int| 0 <= i < encoders.len() && suffix.is_suffix_of(#[trigger] encoders[i])
}

fn any_with_suffix(encoders: &Vec<String>, suffix: &str) -> (r: bool)
    ensures
        r == any_ends_with(strs(encoders@), suffix@),
{
    let mut i: usize = 0;
    while i < encoders.len()
        invariant
            i <= encoders@.len(),
            forall|k: int| 0 <= k < i ==> !suffix@.is_suffix_of((#[trigger] encoders@[k])@),
        decreases encoders@.len() - i,
    {
        if ends_with(encoders[i].as_str(), suffix) {
            assert(suffix@.is_suffix_of(strs(encoders@)[i as int]));
            return true;
        }
        i += 1;
    }
    assert forall|k: int| 0 <= k < strs(encoders@).len() implies !suffix@.is_suffix_of(
        #[trigger] strs(encoders@)[k],
    ) by {
        assert(!suffix@.is_suffix_of(encoders@[k]@));
    }
    false
}

/// Which devices are worth probing: VAAPI and Vulkan, each only on a platform
/// that has them and only where an encoder would use them.
pub fn wanted_probes(supported_platform: bool, encoders: &Vec<String>) -> (r: (bool, bool))
    ensures
        r.0 == (supported_platform && any_ends_with(strs(encoders@), "_vaapi"@)),
        r.1 == (supported_platform && any_ends_with(strs(encoders@), "_vulkan"@)),
{
    (
        supported_platform && any_with_suffix(encoders, "_vaapi"),
        supported_platform && any_with_suffix(encoders, "_vulkan"),
    )
}

/// The first node that works.
pub open spec fn first_working(nodes: Seq<(String, bool)>) -> Option<Seq<char>>
    decreases nodes.len(),
{
    if nodes.len() == 0 {
        None
    } else if nodes[0].1 {
        Some(nodes[0].0@)
    } else {
        first_working(nodes.drop_first())
    }
}

/// Puts together what probing found: the first VAAPI node that works and whether
/// Vulkan works, each only where it was worth probing.
pub fn discover(
    supported_platform: bool,
    encoders: &Vec<String>,
    vaapi_nodes: &Vec<(String, bool)>,
    vulkan_works: bool,
) -> (r: HwDeviceCapabilities)
    ensures
        supported_platform && any_ends_with(strs(encoders@), "_vaapi"@) ==> match r.vaapi_device {
            Some(d) => first_working(vaapi_nodes@) == Some(d@),
            None => first_working(vaapi_nodes@) is None,
        },
        !(supported_platform && any_ends_with(strs(encoders@), "_vaapi"@)) ==> r.vaapi_device is None,
        r.vulkan_available == (supported_platform && any_ends_with(strs(encoders@), "_vulkan"@)
            && vulkan_works),
{
    let (vaapi, vulkan) = wanted_probes(supported_platform, encoders);
    let mut device: Option<String> = None;
    if vaapi {
        let mut i: usize = 0;
        assert(vaapi_nodes@.skip(0) =~= vaapi_nodes@);
        while i < vaapi_nodes.len() && !vaapi_nodes[i].1
            invariant
                i <= vaapi_nodes@.len(),
                first_working(vaapi_nodes@.skip(i as int)) == first_working(vaapi_nodes@),
            decreases vaapi_nodes@.len() - i,
        {
            assert(vaapi_nodes@.skip(i as int).drop_first() =~= vaapi_nodes@.skip(i + 1));
            i += 1;
        }
        if i < vaapi_nodes.len() {
            device = Some(vaapi_nodes[i].0.clone());
        }
    }
    HwDeviceCapabilities { vaapi_device: device, vulkan_available: vulkan && vulkan_works }
}

// ── Trying out encoders ────────────────────────────────────────────────────

/// The arguments that set up a hardware device named `name` for the filters.
pub open spec fn device_args(device: Seq<char>, name: Seq<char>) -> Seq<Seq<char>> {
    seq!["-init_hw_device"@, device, "-filter_hw_device"@, name]
}

/// `-key value` for every pair of the first `n`.
pub open spec fn option_args(args: Seq<(Seq<char>, Seq<char>)>, n: int) -> Seq<Seq<char>>
    decreases n,
{
    if n <= 0 {
        seq![]
    } else {
        option_args(args, n - 1).push("-"@ + args[n - 1].0).push(args[n - 1].1)
    }
}

/// Appends `-key value` for every pair.
pub fn push_options(out: &mut Vec<String>, args: &Vec<(&'static str, &'static str)>)
    ensures
        strs(final(out)@) == strs(old(out)@) + option_args(pairs(args@), args@.len() as int),
{
    let mut i: usize = 0;
    assert(strs(out@) =~= strs(old(out)@) + option_args(pairs(args@), 0));
    while i < args.len()
        invariant
            i <= args@.len(),
            strs(out@) == strs(old(out)@) + option_args(pairs(args@), i as int),
        decreases args@.len() - i,
    {
        push_string(out, concat2("-", args[i].0));
        push_str(out, args[i].1);
        i += 1;
        assert(strs(out@) =~= strs(old(out)@) + option_args(pairs(args@), i as int));
    }
}

/// The command line of a trial encode.
pub open spec fn trial_args(encoder: Seq<char>, hw_frames: Option<HwFramePath>, vaapi_device: Option<Seq<char>>) -> Seq<Seq<char>> {
    let prelude = match hw_frames {
        Some(HwFramePath::Vaapi) => device_args(
            "vaapi=vaapi0:"@ + match vaapi_device {
                Some(d) => d,
                None => "/dev/dri/renderD128"@,
            },
            "vaapi0"@,
        ),
        Some(HwFramePath::Vulkan) => device_args("vulkan=vulkan0"@, "vulkan0"@),
        None => seq![],
    };
    let filter = if hw_frames is Some {
        "format=nv12,hwupload"@
    } else {
        "format=yuv420p"@
    };
    seq!["-v"@, "error"@, "-nostdin"@] + prelude + seq![
        "-f"@,
        "lavfi"@,
        "-i"@,
        "testsrc=size=160x120:rate=25:duration=0.08"@,
        "-vf"@,
        filter,
        "-c:v"@,
        encoder,
    ] + option_args(encoder_args(encoder), encoder_args(encoder).len() as int) + seq![
        "-f"@,
        "null"@,
        "-"@,
    ]
}

/// The characters of a device that may be given.
pub open spec fn device_text(device: Option<&str>) -> Option<Seq<char>> {
    match device {
        Some(d) => Some(d@),
        None => None,
    }
}

/// Builds the command line that encodes a few generated frames with an encoder
/// and throws the result away.
pub fn build_test_encode_args(
    encoder: &str,
    hw_frames: Option<HwFramePath>,
    vaapi_device: Option<&str>,
) -> (r: Vec<String>)
    ensures
        strs(r@) == trial_args(encoder@, hw_frames, device_text(vaapi_device)),
{
    let mut args: Vec<String> = Vec::new();
    assert(strs(args@) =~= seq![]);
    push_str(&mut args, "-v");
    push_str(&mut args, "error");
    push_str(&mut args, "-nostdin");
    match hw_frames {
        Some(HwFramePath::Vaapi) => {
            let device: &str = match vaapi_device {
                Some(d) => d,
                None => "/dev/dri/renderD128",
            };
            push_str(&mut args, "-init_hw_device");
            push_string(&mut args, concat2("vaapi=vaapi0:", device));
            push_str(&mut args, "-filter_hw_device");
            push_str(&mut args, "vaapi0");
        },
        Some(HwFramePath::Vulkan) => {
            push_str(&mut args, "-init_hw_device");
            push_str(&mut args, "vulkan=vulkan0");
            push_str(&mut args, "-filter_hw_device");
            push_str(&mut args, "vulkan0");
        },
        None => {},
    }
    push_str(&mut args, "-f");
    push_str(&mut args, "lavfi");
    push_str(&mut args, "-i");
    push_str(&mut args, "testsrc=size=160x120:rate=25:duration=0.08");
    push_str(&mut args, "-vf");
    if hw_frames.is_some() {
        push_str(&mut args, "format=nv12,hwupload");
    } else {
        push_str(&mut args, "format=yuv420p");
    }
    push_str(&mut args, "-c:v");
    push_str(&mut args, encoder);
    let options = candidate_args(encoder);
    push_options(&mut args, &options);
    push_str(&mut args, "-f");
    push_str(&mut args, "null");
    push_str(&mut args, "-");
    assert(options@.len() == pairs(options@).len());
    assert(strs(args@) =~= trial_args(encoder@, hw_frames, device_text(vaapi_device)));
    args
}

/// Tries out an encoder with a runner that takes the command line and tells
/// whether it succeeded.
pub fn test_encode_with<F: Fn(&Vec<String>) -> bool>(
    runner: F,
    encoder: &str,
    hw_frames: Option<HwFramePath>,
    vaapi_device: Option<&str>,
) -> (r: bool)
    requires
        forall|args: &Vec<String>| call_requires(runner, (args,)),
    ensures
        exists|args: &Vec<String>|
            strs(args@) == trial_args(encoder@, hw_frames, device_text(vaapi_device))
                && #[trigger] call_ensures(runner, (args,), r),
{
    let args = build_test_encode_args(encoder, hw_frames, vaapi_device);
    runner(&args)
}

/// How a candidate is to be tried out: `None` where it is not, because it is no
/// hardware encoder, ffmpeg does not have it, or its device is missing; else the
/// device to hand over.
pub open spec fn trial_of(c: CandidateModel, encoders: Seq<Seq<char>>, hw: HwDeviceCapabilities) -> Option<Option<Seq<char>>> {
    if c.class != EncoderClass::Hardware || !encoders.contains(c.name) {
        None
    } else {
        match c.hw_frames {
            Some(HwFramePath::Vaapi) => match hw.vaapi_device {
                Some(d) => Some(Some(d@)),
                None => None,
            },
            Some(HwFramePath::Vulkan) => if hw.vulkan_available {
                Some(None)
            } else {
                None
            },
            None => Some(None),
        }
    }
}

/// The names other than `name`.
pub open spec fn without(list: Seq<Seq<char>>, name: Seq<char>, n: int) -> Seq<Seq<char>>
    decreases n,
{
    if n <= 0 {
        seq![]
    } else if list[n - 1] == name {
        without(list, name, n - 1)
    } else {
        without(list, name, n - 1).push(list[n - 1])
    }
}

fn remove_name(list: &Vec<String>, name: &str) -> (r: Vec<String>)
    ensures
        strs(r@) == without(strs(list@), name@, list@.len() as int),
{
    let mut out: Vec<String> = Vec::new();
    let mut i: usize = 0;
    assert(strs(out@) =~= seq![]);
    while i < list.len()
        invariant
            i <= list@.len(),
            strs(out@) == without(strs(list@), name@, i as int),
        decreases list@.len() - i,
    {
        if !same(list[i].as_str(), name) {
            push_str(&mut out, list[i].as_str());
        }
        i += 1;
    }
    out
}

/// All candidates of the first `n` codecs.
pub open spec fn candidates_upto(n: int) -> Seq<CandidateModel>
    decreases n,
{
    if n <= 0 {
        seq![]
    } else {
        candidates_upto(n - 1) + registry()[n - 1].candidates
    }
}

/// The encoders left once the first `n` candidates have been tried out with
/// these outcomes.
pub open spec fn after_trials(
    candidates: Seq<CandidateModel>,
    encoders: Seq<Seq<char>>,
    hw: HwDeviceCapabilities,
    outcomes: Seq<bool>,
    n: int,
) -> Seq<Seq<char>>
    decreases n,
{
    if n <= 0 {
        encoders
    } else {
        let before = after_trials(candidates, encoders, hw, outcomes, n - 1);
        let c = candidates[n - 1];
        if trial_of(c, before, hw) is Some && !outcomes[n - 1] {
            without(before, c.name, before.len() as int)
        } else {
            before
        }
    }
}

/// The outcome of trying out candidate `k` is one that the probe gave.
pub open spec fn probed<F: Fn(&str, Option<HwFramePath>, Option<&str>) -> bool>(
    probe: F,
    c: CandidateModel,
    device: Option<Seq<char>>,
    outcome: bool,
) -> bool {
    exists|name: &str, d: Option<&str>|
        name@ == c.name && device_text(d) == device && #[trigger] call_ensures(
            probe,
            (name, c.hw_frames, d),
            outcome,
        )
}

/// Every outcome of a trial that was due is one that the probe gave.
pub open spec fn all_probed<F: Fn(&str, Option<HwFramePath>, Option<&str>) -> bool>(
    probe: F,
    candidates: Seq<CandidateModel>,
    encoders: Seq<Seq<char>>,
    hw: HwDeviceCapabilities,
    outcomes: Seq<bool>,
) -> bool {
    forall|k: int|
        0 <= k < outcomes.len() ==> (trial_of(
            candidates[k],
            after_trials(candidates, encoders, hw, outcomes, k),
            hw,
        ) matches Some(device) ==> probed(probe, candidates[k], device, #[trigger] outcomes[k]))
}

fn all_candidates() -> (r: Vec<EncoderCandidate>)
    ensures
        candidate_models(r@) == candidates_upto(registry().len() as int),
{
    let mut codecs = video_codecs();
    let mut out: Vec<EncoderCandidate> = Vec::new();
    let ghost mut n: int = 0;
    assert(candidate_models(out@) =~= candidates_upto(0));
    assert(codec_models(codecs@) =~= registry().skip(0));
    while codecs.len() > 0
        invariant
            0 <= n <= registry().len(),
            codec_models(codecs@) == registry().skip(n),
            candidate_models(out@) == candidates_upto(n),
        decreases codecs@.len(),
    {
        let ghost left = codec_models(codecs@);
        assert(left.len() == codecs@.len());
        assert(registry().skip(n).len() == registry().len() - n);
        assert(left[0] == registry()[n]);
        let mut codec = codecs.remove(0);
        assert(codec_models(codecs@) =~= left.drop_first());
        let ghost before = out@;
        let ghost added = codec.candidates@;
        out.append(&mut codec.candidates);
        proof {
            assert(candidate_models(before + added) =~= candidate_models(before)
                + candidate_models(added));
            n = n + 1;
            assert(left.drop_first() =~= registry().skip(n));
        }
    }
    assert(codec_models(codecs@).len() == 0);
    out
}

proof fn lemma_outcomes_prefix(
    candidates: Seq<CandidateModel>,
    encoders: Seq<Seq<char>>,
    hw: HwDeviceCapabilities,
    outcomes: Seq<bool>,
    b: bool,
    k: int,
)
    requires
        k <= outcomes.len(),
    ensures
        after_trials(candidates, encoders, hw, outcomes.push(b), k) == after_trials(
            candidates,
            encoders,
            hw,
            outcomes,
            k,
        ),
    decreases k,
{
    if k > 0 {
        lemma_outcomes_prefix(candidates, encoders, hw, outcomes, b, k - 1);
    }
}

/// `after` is what is left of the encoders once every candidate has been tried
/// out with these outcomes of the probe.
pub open spec fn is_validation<F: Fn(&str, Option<HwFramePath>, Option<&str>) -> bool>(
    probe: F,
    before: Seq<Seq<char>>,
    hw: HwDeviceCapabilities,
    outcomes: Seq<bool>,
    after: Seq<Seq<char>>,
) -> bool {
    let candidates = candidates_upto(registry().len() as int);
    &&& outcomes.len() == candidates.len()
    &&& after == after_trials(candidates, before, hw, outcomes, candidates.len() as int)
    &&& all_probed(probe, candidates, before, hw, outcomes)
}

/// Tries out every registered hardware encoder that ffmpeg has and whose device
/// is there, and removes those that fail from the list.
pub fn validate_hw_encoders_with<F: Fn(&str, Option<HwFramePath>, Option<&str>) -> bool>(
    encoders: &mut Vec<String>,
    hw: &HwDeviceCapabilities,
    probe: F,
)
    requires
        forall|name: &str, frames: Option<HwFramePath>, device: Option<&str>|
            call_requires(probe, (name, frames, device)),
    ensures
        exists|outcomes: Seq<bool>|
            is_validation(probe, strs(old(encoders)@), *hw, outcomes, strs(final(encoders)@)),
{
    let candidates = all_candidates();
    let ghost models = candidates_upto(registry().len() as int);
    let ghost first = strs(encoders@);
    let ghost mut outcomes: Seq<bool> = seq![];
    let mut k: usize = 0;
    assert(models.len() == candidates@.len()) by {
        assert(candidate_models(candidates@).len() == candidates@.len());
    }
    while k < candidates.len()
        invariant
            k <= candidates@.len(),
            models == candidate_models(candidates@),
            outcomes.len() == k,
            strs(encoders@) == after_trials(models, first, *hw, outcomes, k as int),
            all_probed(probe, models, first, *hw, outcomes),
            forall|name: &str, frames: Option<HwFramePath>, device: Option<&str>|
                call_requires(probe, (name, frames, device)),
        decreases candidates@.len() - k,
    {
        let name = candidates[k].name;
        let frames = candidates[k].hw_frames;
        let class = candidates[k].class;
        let ghost now = strs(encoders@);
        assert(models[k as int] == candidates@[k as int]@);
        let mut outcome: bool = true;
        if class == EncoderClass::Hardware && list_contains(encoders, name) {
            let (due, device): (bool, Option<&str>) = match frames {
                Some(HwFramePath::Vaapi) => match &hw.vaapi_device {
                    Some(d) => (true, Some(d.as_str())),
                    None => (false, None),
                },
                Some(HwFramePath::Vulkan) => (hw.vulkan_available, None),
                None => (true, None),
            };
            if due {
                outcome = probe(name, frames, device);
                assert(trial_of(models[k as int], now, *hw) == Some(device_text(device)));
                assert(probed(probe, models[k as int], device_text(device), outcome));
                if !outcome {
                    let left = remove_name(encoders, name);
                    *encoders = left;
                }
            } else {
                assert(trial_of(models[k as int], now, *hw) is None);
            }
        }
        proof {
            let extended = outcomes.push(outcome);
            assert forall|j: int| 0 <= j < extended.len() implies (trial_of(
                models[j],
                after_trials(models, first, *hw, extended, j),
                *hw,
            ) matches Some(device) ==> probed(probe, models[j], device, #[trigger] extended[j])) by {
                lemma_outcomes_prefix(models, first, *hw, outcomes, outcome, j);
                if j < outcomes.len() {
                    assert(extended[j] == outcomes[j]);
                }
            }
            lemma_outcomes_prefix(models, first, *hw, outcomes, outcome, k as int);
            outcomes = extended;
        }
        k += 1;
    }
    assert(is_validation(probe, first, *hw, outcomes, strs(encoders@)));
}

} // verus!
