//! Falling back from one encoder to the next.

use vstd::prelude::*;

use crate::settings::ResolvedHwDevice;
use crate::text::{concat3, insert_text, inserted, list_contains, push_string, strs};
use crate::video_codecs::{hw_frame_path, hw_frames_for, HwFramePath};

verus! {

/// The hardware devices that encoders may use.
#[derive(Clone, Debug)]
pub struct HwDeviceContext {
    pub vaapi_device: Option<String>,
    pub vulkan_available: bool,
}

impl Default for HwDeviceContext {
    /// No device.
    fn default() -> (r: HwDeviceContext)
        ensures
            r.vaapi_device is None,
            !r.vulkan_available,
    {
        HwDeviceContext { vaapi_device: None, vulkan_available: false }
    }
}

/// The model of [`ResolvedHwDevice`].
#[verifier::ext_equal]
pub enum Device {
    Vaapi(Seq<char>),
    Vulkan,
}

/// The model of a device that may be there.
pub open spec fn device_model(d: Option<ResolvedHwDevice>) -> Option<Device> {
    match d {
        Some(ResolvedHwDevice::Vaapi { device_path }) => Some(Device::Vaapi(device_path@)),
        Some(ResolvedHwDevice::Vulkan) => Some(Device::Vulkan),
        None => None,
    }
}

/// The device for an encoder: none where it takes no hardware frames or where
/// the device is missing.
pub open spec fn device_for(encoder: Seq<char>, vaapi: Option<Seq<char>>, vulkan: bool) -> Option<Device> {
    match hw_frame_path(encoder) {
        Some(HwFramePath::Vaapi) => match vaapi {
            Some(path) => Some(Device::Vaapi(path)),
            None => None,
        },
        Some(HwFramePath::Vulkan) => if vulkan {
            Some(Device::Vulkan)
        } else {
            None
        },
        None => None,
    }
}

impl HwDeviceContext {
    /// The path of the VAAPI device.
    pub open spec fn vaapi(self) -> Option<Seq<char>> {
        match self.vaapi_device {
            Some(path) => Some(path@),
            None => None,
        }
    }
}

/// The device for an encoder.
pub fn resolve_device_for_candidate(encoder: &str, ctx: &HwDeviceContext) -> (r: Option<
    ResolvedHwDevice,
>)
    ensures
        device_model(r) == device_for(encoder@, ctx.vaapi(), ctx.vulkan_available),
{
    match hw_frames_for(encoder) {
        Some(HwFramePath::Vaapi) => match &ctx.vaapi_device {
            Some(path) => Some(ResolvedHwDevice::Vaapi { device_path: path.clone() }),
            None => None,
        },
        Some(HwFramePath::Vulkan) => if ctx.vulkan_available {
            Some(ResolvedHwDevice::Vulkan)
        } else {
            None
        },
        None => None,
    }
}

// ── The chain ──────────────────────────────────────────────────────────────

/// The encoders of a conversion: those to try in order, those that failed, and
/// the one that worked, which is then kept.
#[derive(Clone, Debug)]
pub struct EncoderFallback {
    chain: Vec<String>,
    failed: Vec<String>,
    resolved: Option<String>,
    hw_ctx: HwDeviceContext,
}

/// The model of [`EncoderFallback`]. The failed encoders are in ascending order.
#[verifier::ext_equal]
pub struct Fallback {
    pub chain: Seq<Seq<char>>,
    pub failed: Seq<Seq<char>>,
    pub resolved: Option<Seq<char>>,
    pub vaapi: Option<Seq<char>>,
    pub vulkan: bool,
}

impl View for EncoderFallback {
    type V = Fallback;

    closed spec fn view(&self) -> Fallback {
        Fallback {
            chain: strs(self.chain@),
            failed: strs(self.failed@),
            resolved: match self.resolved {
                Some(e) => Some(e@),
                None => None,
            },
            vaapi: self.hw_ctx.vaapi(),
            vulkan: self.hw_ctx.vulkan_available,
        }
    }
}

/// The first `n` encoders without those that failed.
pub open spec fn untried(chain: Seq<Seq<char>>, failed: Seq<Seq<char>>, n: int) -> Seq<Seq<char>>
    decreases n,
{
    if n <= 0 {
        seq![]
    } else if failed.contains(chain[n - 1]) {
        untried(chain, failed, n - 1)
    } else {
        untried(chain, failed, n - 1).push(chain[n - 1])
    }
}

impl Fallback {
    /// The encoders that are still worth trying.
    pub open spec fn remaining(self) -> Seq<Seq<char>> {
        match self.resolved {
            Some(e) => seq![e],
            None => untried(self.chain, self.failed, self.chain.len() as int),
        }
    }

    /// After an encoder has failed.
    pub open spec fn without(self, encoder: Seq<char>) -> Fallback {
        Fallback { failed: inserted(self.failed, encoder), ..self }
    }

    /// After an encoder has worked.
    pub open spec fn pinned(self, encoder: Seq<char>) -> Fallback {
        Fallback { resolved: Some(encoder), ..self }
    }

    /// An encoder that can be tried at once: it needs no device, or has one.
    pub open spec fn ready(self, encoder: Seq<char>) -> bool {
        hw_frame_path(encoder) is None || device_for(encoder, self.vaapi, self.vulkan) is Some
    }
}

impl EncoderFallback {
    /// A chain of which nothing was tried yet.
    pub fn new_with_hw(chain: Vec<String>, hw_ctx: HwDeviceContext) -> (r: EncoderFallback)
        ensures
            r@ == (Fallback {
                chain: strs(chain@),
                failed: seq![],
                resolved: None,
                vaapi: hw_ctx.vaapi(),
                vulkan: hw_ctx.vulkan_available,
            }),
    {
        let r = EncoderFallback { chain, failed: Vec::new(), resolved: None, hw_ctx };
        assert(strs(r.failed@) =~= seq![]);
        r
    }

    /// The encoders that are still worth trying: the one that worked, or all that
    /// did not fail.
    pub fn remaining(&self) -> (r: Vec<String>)
        ensures
            strs(r@) == self@.remaining(),
    {
        let mut out: Vec<String> = Vec::new();
        assert(strs(out@) =~= seq![]);
        match &self.resolved {
            Some(e) => {
                push_string(&mut out, e.clone());
                assert(strs(out@) =~= seq![e@]);
                return out;
            },
            None => {},
        }
        let ghost chain = strs(self.chain@);
        let mut i: usize = 0;
        while i < self.chain.len()
            invariant
                i <= self.chain@.len(),
                chain == strs(self.chain@),
                strs(out@) == untried(chain, strs(self.failed@), i as int),
            decreases self.chain@.len() - i,
        {
            assert(chain[i as int] == self.chain@[i as int]@);
            if !list_contains(&self.failed, self.chain[i].as_str()) {
                push_string(&mut out, self.chain[i].clone());
            }
            i += 1;
        }
        out
    }

    /// Keeps an encoder that worked.
    pub fn note_success(&mut self, encoder: &str)
        ensures
            final(self)@ == old(self)@.pinned(encoder@),
    {
        self.resolved = Some(encoder.to_owned());
    }

    /// Leaves out an encoder that failed.
    pub fn note_failure(&mut self, encoder: &str)
        ensures
            final(self)@ == old(self)@.without(encoder@),
    {
        insert_text(&mut self.failed, encoder);
    }

    /// The encoder that worked.
    pub fn resolved(&self) -> (r: Option<&str>)
        ensures
            match r {
                Some(e) => self@.resolved == Some(e@),
                None => self@.resolved is None,
            },
    {
        match &self.resolved {
            Some(e) => Some(e.as_str()),
            None => None,
        }
    }

    /// The encoders that failed, in ascending order.
    pub fn failed(&self) -> (r: &Vec<String>)
        ensures
            strs(r@) == self@.failed,
    {
        &self.failed
    }

    /// The device for an encoder.
    pub fn device(&self, encoder: &str) -> (r: Option<ResolvedHwDevice>)
        ensures
            device_model(r) == device_for(encoder@, self@.vaapi, self@.vulkan),
    {
        resolve_device_for_candidate(encoder, &self.hw_ctx)
    }
}

// ── Choosing the next encoder ──────────────────────────────────────────────

/// What is told about an encoder that is passed over.
pub open spec fn skip_text(encoder: Seq<char>) -> Seq<char> {
    "\n--- "@ + ("--- no hardware device available for '"@ + encoder + "'; skipping ---"@)
        + " ---\n"@
}

/// The first encoder from number `from` on that can be tried.
pub open spec fn first_ready(f: Fallback, candidates: Seq<Seq<char>>, from: int) -> int
    decreases candidates.len() - from,
{
    if from < 0 || from >= candidates.len() || f.ready(candidates[from]) {
        from
    } else {
        first_ready(f, candidates, from + 1)
    }
}

/// After the encoders with numbers from `from` up to `to` were passed over.
pub open spec fn passed_over(f: Fallback, candidates: Seq<Seq<char>>, from: int, to: int) -> Fallback
    decreases to - from,
{
    if to <= from {
        f
    } else {
        passed_over(f, candidates, from, to - 1).without(candidates[to - 1])
    }
}

/// What is told about the encoders that were passed over.
pub open spec fn skip_log(candidates: Seq<Seq<char>>, from: int, to: int) -> Seq<char>
    decreases to - from,
{
    if to <= from {
        seq![]
    } else {
        skip_log(candidates, from, to - 1) + skip_text(candidates[to - 1])
    }
}

proof fn lemma_passed_ctx(f: Fallback, candidates: Seq<Seq<char>>, from: int, to: int)
    ensures
        passed_over(f, candidates, from, to).vaapi == f.vaapi,
        passed_over(f, candidates, from, to).vulkan == f.vulkan,
        passed_over(f, candidates, from, to).chain == f.chain,
        passed_over(f, candidates, from, to).resolved == f.resolved,
    decreases to - from,
{
    if to > from {
        lemma_passed_ctx(f, candidates, from, to - 1);
    }
}

/// Passes over the encoders whose device is missing and tells the number of the
/// first one that can be tried; the number of candidates where none can.
pub fn next_ready(
    fallback: &mut EncoderFallback,
    candidates: &Vec<String>,
    from: usize,
    log: &mut String,
) -> (r: usize)
    requires
        from <= candidates@.len(),
    ensures
        r == first_ready(old(fallback)@, strs(candidates@), from as int),
        r <= candidates@.len(),
        final(fallback)@ == passed_over(old(fallback)@, strs(candidates@), from as int, r as int),
        final(log)@ == old(log)@ + skip_log(strs(candidates@), from as int, r as int),
{
    let ghost all = strs(candidates@);
    let ghost start = fallback@;
    let mut i: usize = from;
    assert(log@ =~= old(log)@ + skip_log(all, from as int, from as int));
    while i < candidates.len()
        invariant
            from <= i <= candidates@.len(),
            all == strs(candidates@),
            start == old(fallback)@,
            first_ready(start, all, i as int) == first_ready(start, all, from as int),
            fallback@ == passed_over(start, all, from as int, i as int),
            log@ == old(log)@ + skip_log(all, from as int, i as int),
        decreases candidates@.len() - i,
    {
        let encoder = candidates[i].as_str();
        proof {
            assert(all[i as int] == encoder@);
            lemma_passed_ctx(start, all, from as int, i as int);
        }
        let device = fallback.device(encoder);
        if hw_frames_for(encoder).is_none() || device.is_some() {
            return i;
        }
        log.append("\n--- ");
        let text = concat3(
            "--- no hardware device available for '",
            encoder,
            "'; skipping ---",
        );
        log.append(text.as_str());
        log.append(" ---\n");
        fallback.note_failure(encoder);
        i += 1;
        assert(log@ =~= old(log)@ + skip_log(all, from as int, i as int));
    }
    i
}

// ── Laws ───────────────────────────────────────────────────────────────────

/// Once an encoder has worked it is the only one that is tried again.
pub proof fn law_success_is_kept(f: Fallback, encoder: Seq<char>, other: Seq<char>)
    ensures
        f.pinned(encoder).remaining() == seq![encoder],
        f.pinned(encoder).without(other).remaining() == seq![encoder],
{
}

proof fn lemma_untried(chain: Seq<Seq<char>>, failed: Seq<Seq<char>>, n: int)
    requires
        0 <= n <= chain.len(),
    ensures
        forall|e: Seq<char>| #[trigger]
            untried(chain, failed, n).contains(e) <==> chain.take(n).contains(e)
                && !failed.contains(e),
    decreases n,
{
    if n > 0 {
        lemma_untried(chain, failed, n - 1);
        let before = untried(chain, failed, n - 1);
        let last = chain[n - 1];
        let head = chain.take(n - 1);
        assert(chain.take(n) =~= head.push(last));
        assert forall|e: Seq<char>| #[trigger]
            untried(chain, failed, n).contains(e) <==> chain.take(n).contains(e)
                && !failed.contains(e) by {
            if head.contains(e) {
                let k = choose|k: int| 0 <= k < head.len() && head[k] == e;
                assert(head.push(last)[k] == e);
            }
            assert(head.push(last)[head.len() as int] == last);
            if before.contains(e) {
                let k = choose|k: int| 0 <= k < before.len() && before[k] == e;
                assert(before.push(last)[k] == e);
            }
            assert(before.push(last)[before.len() as int] == last);
        }
    }
}

/// An encoder that has failed is not tried again, and no other is left out.
pub proof fn law_failures_are_not_retried(f: Fallback, encoder: Seq<char>)
    requires
        f.resolved is None,
        crate::text::ascending(f.failed),
    ensures
        forall|e: Seq<char>| #[trigger]
            f.without(encoder).remaining().contains(e) <==> f.remaining().contains(e) && e
                != encoder,
{
    crate::text::law_insert_keeps_order(f.failed, encoder);
    lemma_untried(f.chain, f.failed, f.chain.len() as int);
    lemma_untried(f.chain, f.without(encoder).failed, f.chain.len() as int);
}

} // verus!
