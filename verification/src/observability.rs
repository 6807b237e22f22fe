//! Watching a model at work: which layers are watched, which neurons stand out
//! and what they stand for, and running records of measurements.
//!
//! Measurements are the bits of floating-point numbers.

use vstd::prelude::*;

use crate::float_bits::{check_ge, check_lt, float_ge, float_lt, rank, rank_of};
use crate::ranking::{is_ranking, rank_desc, ranking_of};
use crate::text::{dec, dec_string, join, join_strings, push_right_aligned, right_aligned, views};

verus! {

// ─── Which layers are watched ────────────────────────────────────────────────

/// How much is watched.
#[derive(Debug, Clone, Copy, PartialEq, Eq, Structural)]
pub enum ObserveMode {
    /// Nothing.
    Fast,
    /// The layers of the mask.
    Instrumented,
}

/// Which of the first 64 layers are watched, one bit each. Later layers never
/// are.
#[derive(Debug, Clone, Copy, PartialEq, Eq, Structural)]
pub struct InstrumentMask(pub u64);

/// Bit `i` of a word is set.
pub open spec fn bit(word: u64, i: u64) -> bool {
    (word >> i) & 1 == 1
}

proof fn bits_after_setting(m: u64, i: u64, j: u64)
    by (bit_vector)
    requires
        i < 64,
        j < 64,
    ensures
        ((m | (1u64 << i)) >> j) & 1 == 1 <==> i == j || (m >> j) & 1 == 1,
        ((m & !(1u64 << i)) >> j) & 1 == 1 <==> i != j && (m >> j) & 1 == 1,
{
}

proof fn bits_of_constants(j: u64)
    by (bit_vector)
    requires
        j < 64,
    ensures
        (0xffff_ffff_ffff_ffffu64 >> j) & 1 == 1,
        (0u64 >> j) & 1 == 0,
{
}

impl InstrumentMask {
    /// The layer is watched.
    pub open spec fn watches(&self, layer: int) -> bool {
        0 <= layer < 64 && bit(self.0, layer as u64)
    }

    /// All of the first 64 layers.
    pub fn all() -> (m: InstrumentMask)
        ensures
            forall|layer: int| #[trigger] m.watches(layer) <==> 0 <= layer < 64,
    {
        let m = InstrumentMask(u64::MAX);
        proof {
            assert forall|layer: int| #[trigger] m.watches(layer) <==> 0 <= layer < 64 by {
                if 0 <= layer < 64 {
                    bits_of_constants(layer as u64);
                }
            }
        }
        m
    }

    /// No layer.
    pub fn none() -> (m: InstrumentMask)
        ensures
            forall|layer: int| !#[trigger] m.watches(layer),
            m.0 == 0,
    {
        let m = InstrumentMask(0);
        proof {
            assert forall|layer: int| !#[trigger] m.watches(layer) by {
                if 0 <= layer < 64 {
                    bits_of_constants(layer as u64);
                }
            }
        }
        m
    }

    /// Whether a layer is watched.
    pub fn is_active(&self, layer: usize) -> (b: bool)
        ensures
            b == self.watches(layer as int),
    {
        layer < 64 && (self.0 >> (layer as u64)) & 1 == 1
    }

    /// Watches a layer, or no longer. Layers from 64 on stay unwatched.
    pub fn set(&mut self, layer: usize, active: bool)
        ensures
            forall|l: int| #[trigger]
                final(self).watches(l) <==> if l == layer && layer < 64 {
                    active
                } else {
                    old(self).watches(l)
                },
    {
        let ghost before = *self;
        if layer < 64 {
            let i: u64 = layer as u64;
            if active {
                self.0 = self.0 | (1u64 << i);
            } else {
                self.0 = self.0 & !(1u64 << i);
            }
            proof {
                assert forall|l: int| #[trigger] self.watches(l) <==> if l == layer {
                    active
                } else {
                    before.watches(l)
                } by {
                    if 0 <= l < 64 {
                        bits_after_setting(before.0, i, l as u64);
                    }
                }
            }
        }
    }

    /// The layers from `start` up to `end`.
    pub fn from_range(start: usize, end: usize) -> (m: InstrumentMask)
        ensures
            forall|layer: int| #[trigger]
                m.watches(layer) <==> start <= layer < end && layer < 64,
    {
        let stop: usize = if end < 64 {
            end
        } else {
            64
        };
        let mut m = Self::none();
        let mut l: usize = start;
        while l < stop
            invariant
                stop <= 64,
                start <= l,
                start < stop ==> l <= stop,
                forall|layer: int| #[trigger] m.watches(layer) <==> start <= layer < l && layer < stop,
            decreases stop - l,
        {
            m.set(l, true);
            l = l + 1;
        }
        m
    }
}

// ─── Distributions ───────────────────────────────────────────────────────────

/// Sort keys for numbers, the largest first.
pub open spec fn number_keys(v: Seq<u32>) -> Seq<i128> {
    v.map_values(|x: u32| rank(x) as i128)
}

fn keys_of(v: &Vec<u32>) -> (keys: Vec<i128>)
    ensures
        keys@ == number_keys(v@),
{
    let mut keys: Vec<i128> = Vec::new();
    let mut i: usize = 0;
    while i < v.len()
        invariant
            i <= v@.len(),
            keys@.len() == i,
            forall|j: int| 0 <= j < i ==> #[trigger] keys@[j] == number_keys(v@)[j],
        decreases v@.len() - i,
    {
        keys.push(rank_of(v[i]) as i128);
        i = i + 1;
    }
    assert(keys@ =~= number_keys(v@));
    keys
}

/// The `k` most probable tokens, the most probable first, given the probability
/// of each token.
pub fn compute_top_k(probs: &Vec<u32>, k: usize) -> (r: Vec<(u32, u32)>)
    ensures
        ({
            let order = ranking_of(number_keys(probs@));
            &&& is_ranking(number_keys(probs@), order)
            &&& r@.len() == if k < probs@.len() {
                k as int
            } else {
                probs@.len() as int
            }
            &&& forall|j: int|
                0 <= j < r@.len() ==> #[trigger] r@[j] == (
                    order[j] as u32,
                    probs@[order[j] as int],
                )
        }),
{
    let keys = keys_of(probs);
    let order = rank_desc(&keys);
    let n: usize = if k < probs.len() {
        k
    } else {
        probs.len()
    };
    let mut r: Vec<(u32, u32)> = Vec::new();
    let mut j: usize = 0;
    while j < n
        invariant
            order@ == ranking_of(number_keys(probs@)),
            is_ranking(number_keys(probs@), order@),
            j <= n <= probs@.len(),
            r@.len() == j,
            forall|i: int|
                0 <= i < j ==> #[trigger] r@[i] == (order@[i] as u32, probs@[order@[i] as int]),
        decreases n - j,
    {
        assert(0 <= order@[j as int] < probs@.len());
        r.push((order[j] as u32, probs[order[j]]));
        j = j + 1;
    }
    r
}

/// How many of the running sums come before the first that reaches the target,
/// counted from `from`.
pub open spec fn sums_below(sums: Seq<u32>, target: u32, from: int) -> int
    decreases sums.len() - from,
{
    if 0 <= from < sums.len() && !float_ge(sums[from], target) {
        sums_below(sums, target, from + 1)
    } else {
        from
    }
}

/// How many of the most probable tokens it takes to reach the target, given the
/// running sums of their probabilities; all of them where they do not reach it.
pub fn compute_mass_concentration(running_sums: &Vec<u32>, target: u32) -> (n: usize)
    ensures
        ({
            let i = sums_below(running_sums@, target, 0);
            n == if i < running_sums@.len() {
                i + 1
            } else {
                running_sums@.len() as int
            }
        }),
{
    let mut i: usize = 0;
    while i < running_sums.len() && !check_ge(running_sums[i], target)
        invariant
            i <= running_sums@.len(),
            sums_below(running_sums@, target, 0) == sums_below(running_sums@, target, i as int),
        decreases running_sums@.len() - i,
    {
        i = i + 1;
    }
    if i < running_sums.len() {
        i + 1
    } else {
        running_sums.len()
    }
}

// ─── Separability ────────────────────────────────────────────────────────────

/// How many of the first `n` values are on the given side of a threshold.
pub open spec fn on_side(v: Seq<u32>, threshold: u32, above: bool, n: int) -> nat
    decreases n,
{
    if n <= 0 {
        0
    } else {
        on_side(v, threshold, above, n - 1) + if above && float_lt(threshold, v[n - 1]) || !above
            && float_lt(v[n - 1], threshold) {
            1nat
        } else {
            0nat
        }
    }
}

fn count_side(v: &Vec<u32>, threshold: u32, above: bool) -> (n: usize)
    ensures
        n == on_side(v@, threshold, above, v@.len() as int),
        n <= v@.len(),
{
    let mut n: usize = 0;
    let mut i: usize = 0;
    while i < v.len()
        invariant
            i <= v@.len(),
            n <= i,
            n == on_side(v@, threshold, above, i as int),
        decreases v@.len() - i,
    {
        let x: u32 = v[i];
        if above && check_lt(threshold, x) || !above && check_lt(x, threshold) {
            n = n + 1;
        }
        i = i + 1;
    }
    n
}

/// How many of two groups of projections a threshold puts on the right side:
/// those of `b` above it and those of `a` below where `b` is higher, and the
/// other way round where it is not.
pub fn separated(a: &Vec<u32>, b: &Vec<u32>, threshold: u32, b_is_higher: bool) -> (n: usize)
    requires
        a@.len() + b@.len() <= usize::MAX,
    ensures
        n == on_side(a@, threshold, !b_is_higher, a@.len() as int) + on_side(
            b@,
            threshold,
            b_is_higher,
            b@.len() as int,
        ),
        n <= a@.len() + b@.len(),
{
    count_side(a, threshold, !b_is_higher) + count_side(b, threshold, b_is_higher)
}

/// 0.85 in single precision.
pub const HIGH_SEPARABILITY: u32 = 0x3F59_999A;

/// 0.65 in single precision.
pub const MEDIUM_SEPARABILITY: u32 = 0x3F26_6666;

/// How easily a single direction changes the behaviour of a model, by the share
/// of samples that it separates.
pub fn vulnerability(separability: u32) -> (s: &'static str)
    ensures
        s@ == if float_lt(HIGH_SEPARABILITY, separability) {
            "HIGH"@
        } else if float_lt(MEDIUM_SEPARABILITY, separability) {
            "MEDIUM"@
        } else {
            "LOW"@
        },
{
    if check_lt(HIGH_SEPARABILITY, separability) {
        "HIGH"
    } else if check_lt(MEDIUM_SEPARABILITY, separability) {
        "MEDIUM"
    } else {
        "LOW"
    }
}

// ─── Neurons ─────────────────────────────────────────────────────────────────

/// `n`, or 1 if it is 0.
pub open spec fn at_least_one(n: int) -> int {
    if n < 1 {
        1
    } else {
        n
    }
}

/// Which third of the layers a layer is in; above 2 for layers beyond the last.
pub open spec fn layer_third(layer: int, n_layers: int) -> int {
    (if layer * 3 > 1 {
        layer * 3 - 1
    } else {
        0
    }) / at_least_one(n_layers)
}

/// Which quarter of the hidden state a neuron is in; above 3 for neurons beyond
/// the last.
pub open spec fn neuron_quarter(neuron: int, hidden_dim: int) -> int {
    (neuron * 4) / at_least_one(hidden_dim)
}

/// What neurons of a third of the layers and a quarter of the hidden state stand
/// for.
pub open spec fn concept(third: int, quarter: int) -> Seq<char> {
    if third == 0 {
        if quarter == 0 {
            "Positional Encoding / Token Embedding"@
        } else if quarter == 1 {
            "Syntactic Feature Extraction"@
        } else if quarter == 2 {
            "Low-Level Lexical Processing"@
        } else {
            "Morphological Feature Detector"@
        }
    } else if third == 1 {
        if quarter == 0 {
            "Semantic Composition"@
        } else if quarter == 1 {
            "Entity & Relation Binding"@
        } else if quarter == 2 {
            "Cross-Layer Contextual Integration"@
        } else {
            "Attention Head Specialization"@
        }
    } else if third == 2 {
        if quarter == 0 {
            "Task-Specific Specialization"@
        } else if quarter == 1 {
            "Output Distribution Shaping"@
        } else if quarter == 2 {
            "Deep Feature Composition"@
        } else {
            "Final Projection Layer"@
        }
    } else {
        "Deep Layer Feature Composition"@
    }
}

/// What a neuron stands for.
pub fn neuron_concept(layer: usize, n_layers: usize, neuron_idx: usize, hidden_dim: usize) -> (s:
    &'static str)
    requires
        layer * 3 <= usize::MAX,
        neuron_idx * 4 <= usize::MAX,
    ensures
        s@ == concept(
            layer_third(layer as int, n_layers as int),
            neuron_quarter(neuron_idx as int, hidden_dim as int),
        ),
{
    let layers: usize = if n_layers < 1 {
        1
    } else {
        n_layers
    };
    let dim: usize = if hidden_dim < 1 {
        1
    } else {
        hidden_dim
    };
    let tripled: usize = layer * 3;
    let third: usize = (if tripled > 1 {
        tripled - 1
    } else {
        0
    }) / layers;
    let quarter: usize = (neuron_idx * 4) / dim;
    if third == 0 {
        if quarter == 0 {
            "Positional Encoding / Token Embedding"
        } else if quarter == 1 {
            "Syntactic Feature Extraction"
        } else if quarter == 2 {
            "Low-Level Lexical Processing"
        } else {
            "Morphological Feature Detector"
        }
    } else if third == 1 {
        if quarter == 0 {
            "Semantic Composition"
        } else if quarter == 1 {
            "Entity & Relation Binding"
        } else if quarter == 2 {
            "Cross-Layer Contextual Integration"
        } else {
            "Attention Head Specialization"
        }
    } else if third == 2 {
        if quarter == 0 {
            "Task-Specific Specialization"
        } else if quarter == 1 {
            "Output Distribution Shaping"
        } else if quarter == 2 {
            "Deep Feature Composition"
        } else {
            "Final Projection Layer"
        }
    } else {
        "Deep Layer Feature Composition"
    }
}

/// Neurons that stand out, and what they stand for.
#[derive(Debug)]
pub struct NeuronEvent {
    pub layer: usize,
    pub neuron_indices: Vec<usize>,
    pub concept_label: &'static str,
}

/// The numerals of the first `n` indices.
pub open spec fn numerals(v: Seq<usize>, n: int) -> Seq<Seq<char>>
    decreases n,
{
    if n <= 0 {
        Seq::empty()
    } else {
        numerals(v, n - 1).push(dec(v[n - 1] as nat))
    }
}

impl NeuronEvent {
    /// A line for the log. `peak` and `mean` are the largest and the mean
    /// activation as text, with four places.
    pub fn to_log_line(&self, peak: &str, mean: &str) -> (s: String)
        ensures
            s@ == "[LAYER "@ + right_aligned(dec(self.layer as nat), 3) + "] Neurons ["@ + join(
                numerals(
                    self.neuron_indices@,
                    if self.neuron_indices@.len() < 6 {
                        self.neuron_indices@.len() as int
                    } else {
                        6
                    },
                ),
                ", "@,
            ) + "] peak="@ + peak@ + " mean="@ + mean@ + " -> "@ + self.concept_label@,
    {
        let n: usize = if self.neuron_indices.len() < 6 {
            self.neuron_indices.len()
        } else {
            6
        };
        let mut parts: Vec<String> = Vec::new();
        let mut i: usize = 0;
        assert(views(parts@) =~= numerals(self.neuron_indices@, 0));
        while i < n
            invariant
                i <= n <= self.neuron_indices@.len(),
                views(parts@) == numerals(self.neuron_indices@, i as int),
            decreases n - i,
        {
            let ghost before = parts@;
            let t = dec_string(self.neuron_indices[i] as u64);
            parts.push(t);
            assert(views(parts@) =~= views(before).push(t@));
            i = i + 1;
        }
        let list = join_strings(&parts, ", ");
        let mut s = "[LAYER ".to_string();
        let layer = dec_string(self.layer as u64);
        push_right_aligned(&mut s, layer.as_str(), 3);
        s.append("] Neurons [");
        s.append(list.as_str());
        s.append("] peak=");
        s.append(peak);
        s.append(" mean=");
        s.append(mean);
        s.append(" -> ");
        s.append(self.concept_label);
        s
    }
}

/// The indices below `n` of values above a threshold.
pub open spec fn above(hidden: Seq<u32>, threshold: u32, n: int) -> Seq<usize>
    decreases n,
{
    if n <= 0 {
        Seq::empty()
    } else {
        let before = above(hidden, threshold, n - 1);
        if float_lt(threshold, hidden[n - 1]) {
            before.push((n - 1) as usize)
        } else {
            before
        }
    }
}

/// The values at indices.
pub open spec fn values_at(hidden: Seq<u32>, at: Seq<usize>) -> Seq<u32> {
    at.map_values(|i: usize| hidden[i as int])
}

/// The indices of the largest values above a threshold, the largest first.
pub open spec fn peaks(hidden: Seq<u32>, threshold: u32, k: int) -> Seq<usize> {
    let at = above(hidden, threshold, hidden.len() as int);
    let order = ranking_of(number_keys(values_at(hidden, at)));
    Seq::new(
        (if k < at.len() {
            k
        } else {
            at.len() as int
        }) as nat,
        |i: int| at[order[i] as int],
    )
}

/// A group of neurons that stand for the same.
pub struct GroupView {
    pub label: Seq<char>,
    pub indices: Seq<usize>,
}

impl View for NeuronEvent {
    type V = GroupView;

    open spec fn view(&self) -> GroupView {
        GroupView { label: self.concept_label@, indices: self.neuron_indices@ }
    }
}

/// The first group from `from` on with this label, or the number of groups.
pub open spec fn group_of(groups: Seq<GroupView>, label: Seq<char>, from: int) -> int
    decreases groups.len() - from,
{
    if 0 <= from < groups.len() && groups[from].label != label {
        group_of(groups, label, from + 1)
    } else {
        from
    }
}

/// The groups of the first `n` neurons, in the order in which labels first come.
pub open spec fn groups(
    at: Seq<usize>,
    third: int,
    hidden_dim: int,
    n: int,
) -> Seq<GroupView>
    decreases n,
{
    if n <= 0 {
        Seq::empty()
    } else {
        let before = groups(at, third, hidden_dim, n - 1);
        let label = concept(third, neuron_quarter(at[n - 1] as int, hidden_dim));
        let g = group_of(before, label, 0);
        if g < before.len() {
            before.update(g, GroupView { label, indices: before[g].indices.push(at[n - 1]) })
        } else {
            before.push(GroupView { label, indices: seq![at[n - 1]] })
        }
    }
}

/// What the events hold.
pub open spec fn event_views(v: Seq<NeuronEvent>) -> Seq<GroupView> {
    v.map_values(|e: NeuronEvent| e@)
}

/// 2.0 in single precision.
pub const TWO_SIGMA: u32 = 0x4000_0000;

/// Watches for neurons that stand out.
#[derive(Debug, Clone, Copy, PartialEq, Eq, Structural)]
pub struct ActivationObserver {
    /// By how many deviations a neuron has to stand out.
    pub threshold_sigma: u32,
    pub n_layers: usize,
    pub hidden_dim: usize,
    /// How many neurons are reported at most.
    pub top_k: usize,
}

impl ActivationObserver {
    /// An observer with the usual settings.
    pub fn new(n_layers: usize, hidden_dim: usize) -> (o: ActivationObserver)
        ensures
            o == (ActivationObserver { threshold_sigma: TWO_SIGMA, n_layers, hidden_dim, top_k: 8 }),
    {
        ActivationObserver { threshold_sigma: TWO_SIGMA, n_layers, hidden_dim, top_k: 8 }
    }

    /// The neurons whose activation is the furthest above the threshold, grouped
    /// by what they stand for.
    pub fn observe(&self, layer: usize, hidden: &Vec<u32>, threshold: u32) -> (r: Vec<NeuronEvent>)
        requires
            layer * 3 <= usize::MAX,
            hidden@.len() * 4 <= usize::MAX,
        ensures
            ({
                let at = peaks(hidden@, threshold, self.top_k as int);
                event_views(r@) == groups(
                    at,
                    layer_third(layer as int, self.n_layers as int),
                    self.hidden_dim as int,
                    at.len() as int,
                )
            }),
            forall|i: int| 0 <= i < r@.len() ==> (#[trigger] r@[i]).layer == layer,
    {
        let at = self.find_peaks(hidden, threshold);
        let ghost third = layer_third(layer as int, self.n_layers as int);
        let mut r: Vec<NeuronEvent> = Vec::new();
        let mut n: usize = 0;
        assert(event_views(r@) =~= groups(at@, third, self.hidden_dim as int, 0));
        while n < at.len()
            invariant
                layer * 3 <= usize::MAX,
                hidden@.len() * 4 <= usize::MAX,
                third == layer_third(layer as int, self.n_layers as int),
                n <= at@.len(),
                forall|i: int| 0 <= i < at@.len() ==> #[trigger] at@[i] < hidden@.len(),
                event_views(r@) == groups(at@, third, self.hidden_dim as int, n as int),
                forall|i: int| 0 <= i < r@.len() ==> (#[trigger] r@[i]).layer == layer,
            decreases at@.len() - n,
        {
            let idx: usize = at[n];
            assert(at@[n as int] < hidden@.len());
            let label = neuron_concept(layer, self.n_layers, idx, self.hidden_dim);
            let ghost before = event_views(r@);
            let ghost old_r = r@;
            let mut g: usize = 0;
            while g < r.len() && !crate::text::same(r[g].concept_label, label)
                invariant
                    g <= r@.len(),
                    r@ == old_r,
                    before == event_views(r@),
                    group_of(before, label@, 0) == group_of(before, label@, g as int),
                decreases r@.len() - g,
            {
                assert(before[g as int] == r@[g as int]@);
                g = g + 1;
            }
            if g < r.len() {
                assert(before[g as int] == r@[g as int]@);
                r[g].neuron_indices.push(idx);
                proof {
                    let changed = GroupView {
                        label: label@,
                        indices: before[g as int].indices.push(idx),
                    };
                    assert(r@[g as int]@ == changed);
                    assert(event_views(r@) =~= before.update(g as int, changed));
                }
            } else {
                let mut indices: Vec<usize> = Vec::new();
                indices.push(idx);
                assert(indices@ =~= seq![idx]);
                let e = NeuronEvent { layer, neuron_indices: indices, concept_label: label };
                r.push(e);
                assert(event_views(r@) =~= before.push(e@));
            }
            n = n + 1;
        }
        r
    }

    fn find_peaks(&self, hidden: &Vec<u32>, threshold: u32) -> (r: Vec<usize>)
        ensures
            r@ == peaks(hidden@, threshold, self.top_k as int),
            forall|i: int| 0 <= i < r@.len() ==> #[trigger] r@[i] < hidden@.len(),
    {
        let mut at: Vec<usize> = Vec::new();
        let mut values: Vec<u32> = Vec::new();
        let mut i: usize = 0;
        while i < hidden.len()
            invariant
                i <= hidden@.len(),
                at@ == above(hidden@, threshold, i as int),
                values@.len() == at@.len(),
                forall|j: int|
                    0 <= j < at@.len() ==> #[trigger] at@[j] < i && values@[j]
                        == hidden@[at@[j] as int],
            decreases hidden@.len() - i,
        {
            if check_lt(threshold, hidden[i]) {
                at.push(i);
                values.push(hidden[i]);
            }
            i = i + 1;
        }
        assert(values@ =~= values_at(hidden@, at@)) by {
            assert forall|j: int| 0 <= j < at@.len() implies values@[j] == hidden@[at@[j] as int] by {
                assert(at@[j] < i);
            }
        }
        let keys = keys_of(&values);
        let order = rank_desc(&keys);
        let n: usize = if self.top_k < at.len() {
            self.top_k
        } else {
            at.len()
        };
        let mut r: Vec<usize> = Vec::new();
        let mut k: usize = 0;
        while k < n
            invariant
                k <= n <= at@.len(),
                order@.len() == at@.len(),
                is_ranking(keys@, order@),
                keys@.len() == at@.len(),
                r@.len() == k,
                forall|j: int| 0 <= j < at@.len() ==> #[trigger] at@[j] < hidden@.len(),
                forall|j: int|
                    0 <= j < k ==> #[trigger] r@[j] == at@[order@[j] as int] && r@[j]
                        < hidden@.len(),
            decreases n - k,
        {
            assert(0 <= order@[k as int] < at@.len());
            r.push(at[order[k]]);
            k = k + 1;
        }
        assert(r@ =~= peaks(hidden@, threshold, self.top_k as int));
        r
    }
}

// ─── Running records ─────────────────────────────────────────────────────────

/// The last measurements, as the bits of double-precision numbers.
pub struct RingBuffer {
    pub buf: Vec<u64>,
    pub cap: usize,
}

/// A record after one more measurement.
pub open spec fn recorded(buf: Seq<u64>, cap: int, v: u64) -> Seq<u64> {
    if buf.len() >= cap && buf.len() > 0 {
        buf.skip(1).push(v)
    } else {
        buf.push(v)
    }
}

impl RingBuffer {
    /// A record of the last `cap` measurements.
    pub fn new(cap: usize) -> (b: RingBuffer)
        ensures
            b.buf@ == Seq::<u64>::empty(),
            b.cap == cap,
    {
        RingBuffer { buf: Vec::new(), cap }
    }

    /// Adds a measurement; the oldest goes where the record is full.
    pub fn push(&mut self, v: u64)
        ensures
            final(self).cap == old(self).cap,
            final(self).buf@ == recorded(old(self).buf@, old(self).cap as int, v),
    {
        if self.buf.len() >= self.cap && self.buf.len() > 0 {
            let ghost before = self.buf@;
            let _ = self.buf.remove(0);
            assert(self.buf@ =~= before.skip(1));
        }
        self.buf.push(v);
    }

    /// The measurements, the oldest first.
    pub fn as_slice(&self) -> (r: Vec<u64>)
        ensures
            r@ == self.buf@,
    {
        let mut r: Vec<u64> = Vec::new();
        let mut i: usize = 0;
        while i < self.buf.len()
            invariant
                i <= self.buf@.len(),
                r@ == self.buf@.take(i as int),
            decreases self.buf@.len() - i,
        {
            r.push(self.buf[i]);
            i = i + 1;
            assert(r@ =~= self.buf@.take(i as int));
        }
        assert(r@ =~= self.buf@);
        r
    }

    /// The last measurement; zero where there is none.
    pub fn last(&self) -> (v: u64)
        ensures
            v == if self.buf@.len() > 0 {
                self.buf@.last()
            } else {
                0
            },
    {
        if self.buf.len() > 0 {
            self.buf[self.buf.len() - 1]
        } else {
            0
        }
    }

    pub fn len(&self) -> (n: usize)
        ensures
            n == self.buf@.len(),
    {
        self.buf.len()
    }

    pub fn is_empty(&self) -> (b: bool)
        ensures
            b == (self.buf@.len() == 0),
    {
        self.buf.len() == 0
    }
}

/// A record never holds more than it may, if it may hold anything.
pub proof fn records_are_bounded(buf: Seq<u64>, cap: int, v: u64)
    requires
        0 < cap,
        buf.len() <= cap,
    ensures
        recorded(buf, cap, v).len() <= cap,
        recorded(buf, cap, v).last() == v,
{
}

/// The mass is concentrated in the first tokens whose sum reaches the target: no shorter
/// run of them does.
pub proof fn first_sum_that_reaches(sums: Seq<u32>, target: u32, from: int)
    requires
        0 <= from <= sums.len(),
    ensures
        ({
            let i = sums_below(sums, target, from);
            &&& from <= i <= sums.len()
            &&& i < sums.len() ==> float_ge(sums[i], target)
            &&& forall|j: int| from <= j < i ==> !float_ge(#[trigger] sums[j], target)
        }),
    decreases sums.len() - from,
{
    if from < sums.len() && !float_ge(sums[from], target) {
        first_sum_that_reaches(sums, target, from + 1);
    }
}

/// The values on one side of the threshold are counted, each once; those that are equal to
/// it are on neither side.
pub proof fn sides_are_counted(v: Seq<u32>, threshold: u32, n: int)
    requires
        0 <= n <= v.len(),
    ensures
        on_side(v, threshold, true, n) == v.take(n).filter(|x: u32| float_lt(threshold, x)).len(),
        on_side(v, threshold, false, n) == v.take(n).filter(|x: u32| float_lt(x, threshold)).len(),
    decreases n,
{
    reveal(Seq::filter);
    if n > 0 {
        sides_are_counted(v, threshold, n - 1);
        assert(v.take(n).drop_last() =~= v.take(n - 1));
    }
}

/// The neurons that are looked at are those above the threshold, all of them, in their
/// order.
pub proof fn active_neurons_are_above(hidden: Seq<u32>, threshold: u32, n: int)
    requires
        0 <= n <= hidden.len() <= usize::MAX,
    ensures
        ({
            let at = above(hidden, threshold, n);
            &&& forall|k: int|
                0 <= k < at.len() ==> #[trigger] at[k] < n && float_lt(
                    threshold,
                    hidden[at[k] as int],
                )
            &&& forall|j: int, k: int|
                0 <= j < k < at.len() ==> #[trigger] at[j] < #[trigger] at[k]
            &&& forall|i: int|
                0 <= i < n && float_lt(threshold, #[trigger] hidden[i]) ==> at.contains(i as usize)
        }),
    decreases n,
{
    if n > 0 {
        active_neurons_are_above(hidden, threshold, n - 1);
        let before = above(hidden, threshold, n - 1);
        let at = above(hidden, threshold, n);
        assert forall|i: int|
            0 <= i < n && float_lt(threshold, #[trigger] hidden[i]) implies at.contains(
            i as usize,
        ) by {
            if i < n - 1 {
                let k = choose|k: int| 0 <= k < before.len() && before[k] == i as usize;
                assert(at[k] == i as usize);
            } else {
                assert(at[at.len() - 1] == i as usize);
            }
        }
    }
}

/// A group holds exactly the neurons of its concept, in their order, and no two groups
/// have the same concept: for every label, the group of that label holds the neurons with
/// that label; where no group has it, there are none.
pub proof fn groups_hold_their_neurons(
    at: Seq<usize>,
    third: int,
    hidden_dim: int,
    n: int,
    label: Seq<char>,
)
    requires
        0 <= n <= at.len(),
    ensures
        ({
            let all = groups(at, third, hidden_dim, n);
            let g = group_of(all, label, 0);
            let own = at.take(n).filter(
                |i: usize| concept(third, neuron_quarter(i as int, hidden_dim)) == label,
            );
            &&& 0 <= g <= all.len()
            &&& g < all.len() ==> all[g].label == label && all[g].indices == own
            &&& g == all.len() ==> own.len() == 0
            &&& forall|a: int, b: int|
                0 <= a < b < all.len() ==> (#[trigger] all[a]).label != (#[trigger] all[b]).label
        }),
    decreases n,
{
    reveal(Seq::filter);
    let f = |i: usize| concept(third, neuron_quarter(i as int, hidden_dim)) == label;
    let all = groups(at, third, hidden_dim, n);
    first_of_a_label(all, label, 0);
    if n <= 0 {
        assert(at.take(n).filter(f).len() == 0);
    } else {
        let before = groups(at, third, hidden_dim, n - 1);
        let last = concept(third, neuron_quarter(at[n - 1] as int, hidden_dim));
        groups_hold_their_neurons(at, third, hidden_dim, n - 1, label);
        groups_hold_their_neurons(at, third, hidden_dim, n - 1, last);
        first_of_a_label(before, label, 0);
        first_of_a_label(before, last, 0);
        assert(at.take(n).drop_last() =~= at.take(n - 1));
        let own = at.take(n).filter(f);
        let own_before = at.take(n - 1).filter(f);
        assert(own == if last == label {
            own_before.push(at[n - 1])
        } else {
            own_before
        });
        let g = group_of(all, label, 0);
        let h = group_of(before, label, 0);
        let z = group_of(before, last, 0);
        if z < before.len() {
            if h < before.len() {
                assert(all[h].label == label);
                assert(g == h) by {
                    if g < h {
                        assert(all[g].label == before[g].label);
                    }
                }
                assert(h != z ==> all[h] == before[h]);
            } else if g < all.len() {
                assert(all[g].label == before[g].label);
                assert(before[g].label != label);
            }
        } else {
            assert forall|k: int| 0 <= k < before.len() implies (#[trigger] all[k]).label
                != last by {
                assert(before[k].label != last);
            }
            if h < before.len() {
                assert(all[h].label == label);
                assert(g == h) by {
                    if g < h {
                        assert(all[g].label == before[g].label);
                    }
                }
            } else {
                if g < before.len() {
                    assert(all[g].label == before[g].label);
                    assert(before[g].label != label);
                }
                if last == label {
                    assert(all[before.len() as int].label == label);
                    assert(own_before.len() == 0);
                    assert(own =~= seq![at[n - 1]]);
                }
            }
        }
    }
}

proof fn first_of_a_label(groups: Seq<GroupView>, label: Seq<char>, from: int)
    requires
        0 <= from <= groups.len(),
    ensures
        ({
            let g = group_of(groups, label, from);
            &&& from <= g <= groups.len()
            &&& g < groups.len() ==> groups[g].label == label
            &&& forall|k: int| from <= k < g ==> (#[trigger] groups[k]).label != label
        }),
    decreases groups.len() - from,
{
    if from < groups.len() && groups[from].label != label {
        first_of_a_label(groups, label, from + 1);
    }
}

/// The buffer holds the latest records, in the order they came: as many as it has room for.
pub proof fn latest_records_are_kept(buf: Seq<u64>, cap: int, v: u64)
    requires
        0 < cap,
        buf.len() <= cap,
    ensures
        ({
            let all = buf.push(v);
            let extra = if all.len() > cap {
                all.len() - cap
            } else {
                0
            };
            recorded(buf, cap, v) == all.skip(extra)
        }),
{
    let all = buf.push(v);
    let extra = if all.len() > cap {
        all.len() - cap
    } else {
        0
    };
    assert(recorded(buf, cap, v) =~= all.skip(extra));
}

/// The layers of a model fall into thirds, a later layer never into an earlier third, and
/// its neurons into quarters.
pub proof fn concepts_go_by_thirds_and_quarters(
    layer: int,
    later: int,
    n_layers: int,
    neuron: int,
    hidden_dim: int,
)
    requires
        0 <= layer <= later < n_layers,
        0 <= neuron < hidden_dim,
    ensures
        0 <= layer_third(layer, n_layers) <= layer_third(later, n_layers) <= 2,
        layer_third(0, n_layers) == 0,
        3 * layer > n_layers ==> layer_third(layer, n_layers) >= 1,
        3 * layer > 2 * n_layers ==> layer_third(layer, n_layers) == 2,
        3 * layer <= n_layers ==> layer_third(layer, n_layers) == 0,
        3 * layer <= 2 * n_layers ==> layer_third(layer, n_layers) <= 1,
        ({
            let quarter = neuron_quarter(neuron, hidden_dim);
            0 <= quarter <= 3 && quarter * hidden_dim <= 4 * neuron < (quarter + 1) * hidden_dim
        }),
{
    let third = |l: int|
        if l * 3 > 1 {
            l * 3 - 1
        } else {
            0
        };
    within_parts(third(layer), n_layers, 3);
    within_parts(third(later), n_layers, 3);
    within_parts(4 * neuron, hidden_dim, 4);
    assert(third(0) == 0);
    within_parts(0, n_layers, 3);
    vstd::arithmetic::div_mod::lemma_div_is_ordered(third(layer), third(later), n_layers);
    let (x, d) = (third(layer), n_layers);
    let t = x / d;
    if 3 * layer > n_layers {
        assert(t >= 1) by (nonlinear_arith)
            requires
                x >= d,
                x < (t + 1) * d,
                d > 0,
        ;
    } else {
        assert(t < 1) by (nonlinear_arith)
            requires
                x < d,
                t * d <= x,
                d > 0,
        ;
    }
    if 3 * layer > 2 * n_layers {
        assert(t >= 2) by (nonlinear_arith)
            requires
                x >= 2 * d,
                x < (t + 1) * d,
                d > 0,
        ;
    } else {
        assert(t < 2) by (nonlinear_arith)
            requires
                x < 2 * d,
                t * d <= x,
                d > 0,
        ;
    }
}

proof fn within_parts(x: int, d: int, parts: int)
    requires
        0 <= x,
        x < parts * d,
        0 < d,
    ensures
        0 <= x / d < parts,
        x / d * d <= x < (x / d + 1) * d,
{
    vstd::arithmetic::div_mod::lemma_fundamental_div_mod(x, d);
    let q = x / d;
    assert(d * q == q * d) by (nonlinear_arith);
    assert((q + 1) * d == q * d + d) by (nonlinear_arith);
    assert(q < parts) by (nonlinear_arith)
        requires
            q * d < parts * d,
            d > 0,
    ;
    assert(q >= 0) by (nonlinear_arith)
        requires
            x < (q + 1) * d,
            x >= 0,
            d > 0,
    ;
}

/// The peaks are the strongest of the neurons above the threshold: as many as asked for or
/// as there are, each above the threshold, none stronger than one before it, and none that
/// was left out stronger than one that is there.
pub proof fn peaks_are_the_strongest(hidden: Seq<u32>, threshold: u32, k: int)
    requires
        0 <= k,
        hidden.len() <= usize::MAX,
    ensures
        ({
            let top = peaks(hidden, threshold, k);
            let all = above(hidden, threshold, hidden.len() as int);
            &&& top.len() <= k
            &&& top.len() < k ==> top.len() == all.len()
            &&& forall|a: int|
                0 <= a < top.len() ==> #[trigger] top[a] < hidden.len() && float_lt(
                    threshold,
                    hidden[top[a] as int],
                )
            &&& forall|a: int, b: int|
                0 <= a < b < top.len() ==> !float_lt(
                    hidden[#[trigger] top[a] as int],
                    hidden[#[trigger] top[b] as int],
                ) && top[a] != top[b]
            &&& forall|a: int, i: int|
                0 <= a < top.len() && 0 <= i < hidden.len() && float_lt(
                    threshold,
                    #[trigger] hidden[i],
                ) && !top.contains(i as usize) ==> !float_lt(
                    hidden[#[trigger] top[a] as int],
                    hidden[i],
                )
        }),
{
    let n = hidden.len() as int;
    let all = above(hidden, threshold, n);
    let top = peaks(hidden, threshold, k);
    let values = values_at(hidden, all);
    let keys = number_keys(values);
    let order = ranking_of(keys);
    active_neurons_are_above(hidden, threshold, n);
    no_more_than(hidden, threshold, n);
    crate::ranking::ranking_exists(keys);
    crate::ranking::ranking_is_a_permutation(keys, order);
    assert forall|a: int| 0 <= a < order.len() implies keys[(#[trigger] order[a]) as int] == rank(
        hidden[all[order[a] as int] as int],
    ) as i128 by {}
    assert forall|a: int| 0 <= a < top.len() implies #[trigger] top[a] < hidden.len() && float_lt(
        threshold,
        hidden[top[a] as int],
    ) by {
        assert(top[a] == all[order[a] as int]);
    }
    assert forall|a: int, b: int| 0 <= a < b < top.len() implies !float_lt(
        hidden[#[trigger] top[a] as int],
        hidden[#[trigger] top[b] as int],
    ) && top[a] != top[b] by {
        assert(crate::ranking::precedes(keys, order[a] as int, order[b] as int));
        assert(top[a] == all[order[a] as int]);
        assert(top[b] == all[order[b] as int]);
        assert(order[a] != order[b]);
    }
    assert forall|a: int, i: int|
        0 <= a < top.len() && 0 <= i < hidden.len() && float_lt(threshold, #[trigger] hidden[i])
            && !top.contains(i as usize) implies !float_lt(
        hidden[#[trigger] top[a] as int],
        hidden[i],
    ) by {
        let at = choose|j: int| 0 <= j < all.len() && all[j] == i as usize;
        assert(order.contains(at as usize));
        let b = choose|b: int| 0 <= b < order.len() && order[b] == at as usize;
        if b < top.len() {
            assert(top[b] == i as usize);
        }
        assert(crate::ranking::precedes(keys, order[a] as int, order[b] as int));
        assert(top[a] == all[order[a] as int]);
    }
}

proof fn no_more_than(hidden: Seq<u32>, threshold: u32, n: int)
    requires
        0 <= n <= hidden.len(),
    ensures
        above(hidden, threshold, n).len() <= n,
    decreases n,
{
    if n > 0 {
        no_more_than(hidden, threshold, n - 1);
    }
}

} // verus!
