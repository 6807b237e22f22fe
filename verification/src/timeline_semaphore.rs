//! Timeline semaphores: counters that only grow, and the fence that two sides of
//! a layered computation keep in step by.
//!
//! What is here is the state and what each side may do in it; blocking and
//! waking threads is up to whoever shares it.

use vstd::prelude::*;

verus! {

/// A counter that only grows.
#[derive(Debug, Clone, Copy, PartialEq, Eq, Structural)]
pub struct TimelineSemaphore {
    pub value: u64,
}

impl TimelineSemaphore {
    /// A semaphore at `initial`.
    pub fn new(initial: u64) -> (s: TimelineSemaphore)
        ensures
            s.value == initial,
    {
        TimelineSemaphore { value: initial }
    }

    /// The counter.
    pub fn current(&self) -> (v: u64)
        ensures
            v == self.value,
    {
        self.value
    }

    /// Raises the counter to `value`, if it is below. Says whether that was so,
    /// and who waits has to be woken.
    pub fn signal(&mut self, value: u64) -> (wake: bool)
        ensures
            final(self).value == if value > old(self).value {
                value
            } else {
                old(self).value
            },
            wake == (value > old(self).value),
    {
        if value > self.value {
            self.value = value;
            true
        } else {
            false
        }
    }

    /// A wait for `value` is over.
    pub open spec fn reached(&self, value: u64) -> bool {
        self.value >= value
    }

    /// Whether a wait for `value` is over.
    pub fn wait_for(&self, value: u64) -> (b: bool)
        ensures
            b == self.reached(value),
    {
        self.value >= value
    }

    /// How a wait for `value` ends, given whether its time is up: true where the
    /// counter is there, false where the time is up before, and nothing where the
    /// wait goes on.
    pub fn wait_for_timeout(&self, value: u64, expired: bool) -> (r: Option<bool>)
        ensures
            r == if self.reached(value) {
                Some(true)
            } else if expired {
                Some(false)
            } else {
                None
            },
    {
        if self.value >= value {
            Some(true)
        } else if expired {
            Some(false)
        } else {
            None
        }
    }
}

/// The counter after a signal.
pub open spec fn signalled(s: TimelineSemaphore, value: u64) -> TimelineSemaphore {
    TimelineSemaphore {
        value: if value > s.value {
            value
        } else {
            s.value
        },
    }
}

/// Signals are permanent: a wait that is over stays so whatever is signalled,
/// and after a signal every wait for its value or less is over.
pub proof fn signals_are_permanent(s: TimelineSemaphore, v: u64, w: u64)
    ensures
        s.reached(w) ==> signalled(s, v).reached(w),
        w <= v ==> signalled(s, v).reached(w),
        signalled(s, v).value >= s.value,
{
}

/// Signals may come in any order.
pub proof fn signals_commute(s: TimelineSemaphore, v: u64, w: u64)
    ensures
        signalled(signalled(s, v), w) == signalled(signalled(s, w), v),
        signalled(signalled(s, v), v) == signalled(s, v),
{
}

/// The counter after signals, one after the other.
pub open spec fn signalled_all(s: TimelineSemaphore, values: Seq<u64>) -> TimelineSemaphore
    decreases values.len(),
{
    if values.len() == 0 {
        s
    } else {
        signalled(signalled_all(s, values.drop_last()), values.last())
    }
}

/// The counter is the largest signal made, or where it began if none was larger.
/// So a wait that was not over at the beginning is over exactly where a signal of
/// its value or more was made.
pub proof fn counter_is_the_largest_signal(s: TimelineSemaphore, values: Seq<u64>, w: u64)
    ensures
        signalled_all(s, values).value >= s.value,
        forall|k: int|
            0 <= k < values.len() ==> signalled_all(s, values).value >= #[trigger] values[k],
        signalled_all(s, values) == s || values.contains(signalled_all(s, values).value),
        signalled_all(s, values).reached(w) <==> s.reached(w) || exists|k: int|
            0 <= k < values.len() && #[trigger] values[k] >= w,
    decreases values.len(),
{
    if values.len() > 0 {
        let before = values.drop_last();
        counter_is_the_largest_signal(s, before, w);
        let v = signalled_all(s, values).value;
        let n = values.len() - 1;
        assert forall|k: int| 0 <= k < values.len() implies v >= #[trigger] values[k] by {
            if k < n {
                assert(before[k] == values[k]);
            }
        }
        if v == values[n] {
            assert(values.contains(v));
        } else if before.contains(v) {
            let k = choose|k: int| 0 <= k < before.len() && before[k] == v;
            assert(values[k] == v);
        }
        if v >= w && !s.reached(w) {
            let k = choose|k: int| 0 <= k < values.len() && values[k] == v;
            assert(values[k] >= w);
        }
    }
}

// ─── The layer fence ─────────────────────────────────────────────────────────

/// The fence of a computation whose layers are an attention step on one side
/// and a feed-forward step on the other.
#[derive(Debug, Clone, Copy, PartialEq, Eq, Structural)]
pub struct LayerFence {
    /// How many attention steps are done.
    pub attn: TimelineSemaphore,
    /// How many feed-forward steps are done.
    pub ffn: TimelineSemaphore,
}

impl Default for LayerFence {
    fn default() -> (f: LayerFence)
        ensures
            f.attn.value == 0 && f.ffn.value == 0,
    {
        LayerFence::new()
    }
}

impl LayerFence {
    /// The two sides are in step: the feed-forward side is as far as the
    /// attention side, or one layer behind.
    pub open spec fn in_step(&self) -> bool {
        self.ffn.value <= self.attn.value <= self.ffn.value + 1
    }

    /// Nothing is done.
    pub fn new() -> (f: LayerFence)
        ensures
            f.attn.value == 0 && f.ffn.value == 0,
            f.in_step(),
    {
        LayerFence { attn: TimelineSemaphore::new(0), ffn: TimelineSemaphore::new(0) }
    }

    /// The attention of a layer may begin: the feed-forward step of the layer
    /// before is done.
    pub open spec fn attn_may_begin(&self, layer: u64) -> bool {
        layer == 0 || self.ffn.reached(layer)
    }

    /// The feed-forward step of a layer may begin: its attention is done.
    pub open spec fn ffn_may_begin(&self, layer: u64) -> bool {
        self.attn.value > layer
    }

    /// Whether the attention of a layer may begin.
    pub fn cpu_wait_before_attn(&self, layer: u64) -> (b: bool)
        ensures
            b == self.attn_may_begin(layer),
    {
        layer == 0 || self.ffn.wait_for(layer)
    }

    /// The attention of a layer is done.
    pub fn cpu_signal_attn_done(&mut self, layer: u64) -> (wake: bool)
        requires
            layer < u64::MAX,
        ensures
            final(self).attn == signalled(old(self).attn, (layer + 1) as u64),
            final(self).ffn == old(self).ffn,
            wake == (layer + 1 > old(self).attn.value),
    {
        self.attn.signal(layer + 1)
    }

    /// Whether the feed-forward step of a layer may begin.
    pub fn gpu_wait_before_ffn(&self, layer: u64) -> (b: bool)
        requires
            layer < u64::MAX,
        ensures
            b == self.ffn_may_begin(layer),
    {
        self.attn.wait_for(layer + 1)
    }

    /// The feed-forward step of a layer is done.
    pub fn gpu_signal_ffn_done(&mut self, layer: u64) -> (wake: bool)
        requires
            layer < u64::MAX,
        ensures
            final(self).ffn == signalled(old(self).ffn, (layer + 1) as u64),
            final(self).attn == old(self).attn,
            wake == (layer + 1 > old(self).ffn.value),
    {
        self.ffn.signal(layer + 1)
    }
}

/// The fence after an attention step.
pub open spec fn attn_done(f: LayerFence, layer: u64) -> LayerFence {
    LayerFence { attn: signalled(f.attn, (layer + 1) as u64), ffn: f.ffn }
}

/// The fence after a feed-forward step.
pub open spec fn ffn_done(f: LayerFence, layer: u64) -> LayerFence {
    LayerFence { attn: f.attn, ffn: signalled(f.ffn, (layer + 1) as u64) }
}

/// A step that a side reports as done.
pub enum DoneStep {
    Attn(u64),
    Ffn(u64),
}

/// A new fence after steps were reported, one after the other.
pub open spec fn reported(steps: Seq<DoneStep>) -> LayerFence
    decreases steps.len(),
{
    if steps.len() == 0 {
        LayerFence { attn: TimelineSemaphore { value: 0 }, ffn: TimelineSemaphore { value: 0 } }
    } else {
        match steps.last() {
            DoneStep::Attn(layer) => attn_done(reported(steps.drop_last()), layer),
            DoneStep::Ffn(layer) => ffn_done(reported(steps.drop_last()), layer),
        }
    }
}

/// Step `k` reports the attention of layer `from` or of a later one.
pub open spec fn reports_attn(steps: Seq<DoneStep>, k: int, from: int) -> bool {
    0 <= k < steps.len() && (match steps[k] {
        DoneStep::Attn(layer) => layer >= from,
        DoneStep::Ffn(_) => false,
    })
}

/// Step `k` reports the feed-forward step of layer `from` or of a later one.
pub open spec fn reports_ffn(steps: Seq<DoneStep>, k: int, from: int) -> bool {
    0 <= k < steps.len() && (match steps[k] {
        DoneStep::Attn(_) => false,
        DoneStep::Ffn(layer) => layer >= from,
    })
}

/// Whatever the two sides report and in whatever order, a wait ends exactly where
/// what it waits for, or a later layer, was reported: the feed-forward step of a
/// layer begins only after its attention, and the attention of a layer only after
/// the feed-forward step of the layer before.
pub proof fn waits_end_by_reports_alone(steps: Seq<DoneStep>, layer: u64)
    requires
        forall|k: int|
            0 <= k < steps.len() ==> match #[trigger] steps[k] {
                DoneStep::Attn(l) => l < u64::MAX,
                DoneStep::Ffn(l) => l < u64::MAX,
            },
    ensures
        reported(steps).ffn_may_begin(layer) <==> exists|k: int|
            #[trigger] reports_attn(steps, k, layer as int),
        reported(steps).attn_may_begin(layer) <==> layer == 0 || exists|k: int|
            #[trigger] reports_ffn(steps, k, layer - 1),
    decreases steps.len(),
{
    if steps.len() > 0 {
        let before = steps.drop_last();
        let n = steps.len() - 1;
        assert forall|k: int| 0 <= k < before.len() implies match #[trigger] before[k] {
            DoneStep::Attn(l) => l < u64::MAX,
            DoneStep::Ffn(l) => l < u64::MAX,
        } by {
            assert(before[k] == steps[k]);
        }
        waits_end_by_reports_alone(before, layer);
        assert forall|k: int, from: int| k != n implies #[trigger] reports_attn(steps, k, from)
            == reports_attn(before, k, from) by {}
        assert forall|k: int, from: int| k != n implies #[trigger] reports_ffn(steps, k, from)
            == reports_ffn(before, k, from) by {}
        assert(steps[n] == steps.last());
        if exists|k: int| #[trigger] reports_attn(before, k, layer as int) {
            let k = choose|k: int| #[trigger] reports_attn(before, k, layer as int);
            assert(reports_attn(steps, k, layer as int));
        }
        if exists|k: int| #[trigger] reports_ffn(before, k, layer - 1) {
            let k = choose|k: int| #[trigger] reports_ffn(before, k, layer - 1);
            assert(reports_ffn(steps, k, layer - 1));
        }
        if reported(steps).ffn_may_begin(layer) && !reported(before).ffn_may_begin(layer) {
            assert(reports_attn(steps, n, layer as int));
        }
        if layer > 0 && reported(steps).attn_may_begin(layer) && !reported(before).attn_may_begin(
            layer,
        ) {
            assert(reports_ffn(steps, n, layer - 1));
        }
    }
}

/// Where each side waits before it begins and takes its layers in order, the
/// two stay in step.
pub proof fn sides_stay_in_step(f: LayerFence)
    requires
        f.in_step(),
        f.attn.value < u64::MAX,
    ensures
        f.attn_may_begin(f.attn.value) ==> attn_done(f, f.attn.value).in_step(),
        f.ffn_may_begin(f.ffn.value) ==> ffn_done(f, f.ffn.value).in_step(),
{
}

/// In every state that the two sides reach, one of them, and only one, may begin
/// its next layer: neither waits for ever, and they never overtake each other.
pub proof fn one_side_may_begin(f: LayerFence)
    requires
        f.in_step(),
    ensures
        f.attn_may_begin(f.attn.value) != f.ffn_may_begin(f.ffn.value),
{
}

/// No layer's feed-forward step begins before its attention is done, and no
/// layer's attention before the feed-forward step of the layer before it.
pub proof fn layers_are_ordered(f: LayerFence, layer: u64)
    ensures
        f.ffn_may_begin(layer) ==> f.attn.value >= layer + 1,
        f.attn_may_begin(layer) && layer > 0 ==> f.ffn.value >= layer,
{
}

} // verus!
