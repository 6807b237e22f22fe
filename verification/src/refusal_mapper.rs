//! Contrastive feature statistics: which features of hidden states distinguish
//! two groups of prompts, ranked by effect size.
//!
//! Effect sizes (Cohen's d) are computed elsewhere and come as bit patterns of
//! single-precision numbers; classification, ranking, filtering and the choice
//! of interventions are done here.

use vstd::prelude::*;

use crate::float_bits::{
    abs_of, check_ge, check_lt, float_abs, float_ge, float_lt, is_nan, rank, rank_of,
};
use crate::ranking::{is_ranking, rank_desc};
use crate::speculation::copy_range;
use crate::steering_engine::{ControlVector, InterventionMode, SteeringEngine};
use crate::text::{dec, push_dec};

verus! {

/// The class of an effect size.
#[derive(Debug, Clone, Copy, PartialEq, Eq, Structural)]
pub enum EffectSize {
    /// Below 0.2: coincidence.
    Negligible,
    /// From 0.2 to below 0.5.
    Small,
    /// From 0.5 to below 0.8.
    Medium,
    /// From 0.8 on.
    Large,
}

/// The bit pattern of 0.2.
pub const D_SMALL: u32 = 0x3e4c_cccd;

/// The bit pattern of 0.5.
pub const D_MEDIUM: u32 = 0x3f00_0000;

/// The bit pattern of 0.8.
pub const D_LARGE: u32 = 0x3f4c_cccd;

/// The class of the effect size `d`, whatever its sign.
pub open spec fn class_of(d: u32) -> EffectSize {
    if float_lt(float_abs(d), D_SMALL) {
        EffectSize::Negligible
    } else if float_lt(float_abs(d), D_MEDIUM) {
        EffectSize::Small
    } else if float_lt(float_abs(d), D_LARGE) {
        EffectSize::Medium
    } else {
        EffectSize::Large
    }
}

impl EffectSize {
    /// The class of the effect size `d`.
    pub fn from_d(d: u32) -> (e: EffectSize)
        ensures
            e == class_of(d),
    {
        let a: u32 = abs_of(d);
        if check_lt(a, D_SMALL) {
            EffectSize::Negligible
        } else if check_lt(a, D_MEDIUM) {
            EffectSize::Small
        } else if check_lt(a, D_LARGE) {
            EffectSize::Medium
        } else {
            EffectSize::Large
        }
    }

    /// Whether the effect is large enough to count as an influence.
    pub open spec fn causal(self) -> bool {
        self is Medium || self is Large
    }

    /// Whether the effect is large enough to count as an influence.
    pub fn is_causal(&self) -> (b: bool)
        ensures
            b == self.causal(),
    {
        match self {
            EffectSize::Medium => true,
            EffectSize::Large => true,
            _ => false,
        }
    }
}

/// A feature with its effect size.
#[derive(Debug, Clone, Copy)]
pub struct RankedRefusalFeature {
    pub feature_idx: usize,
    pub cohens_d: u32,
    pub delta_activation: u32,
    pub effect_size: EffectSize,
}

/// The features that distinguish the two groups.
#[derive(Debug)]
pub struct RefusalProfile {
    /// Strongest effect first.
    pub ranked_features: Vec<RankedRefusalFeature>,
    pub refusal_direction: Vec<u32>,
    pub total_features_analyzed: usize,
    pub causal_features_count: usize,
    pub confidence: u32,
}

/// How many features in front have a large effect.
pub open spec fn large_prefix(f: Seq<RankedRefusalFeature>) -> nat
    decreases f.len(),
{
    if f.len() == 0 || f[0].effect_size != EffectSize::Large {
        0
    } else {
        1 + large_prefix(f.skip(1))
    }
}

/// The most features that are ever reported as the strongest.
pub const MAX_TOP_FEATURES: usize = 32;

/// How many features count as the strongest.
pub open spec fn top_count(f: Seq<RankedRefusalFeature>) -> nat {
    if large_prefix(f) <= MAX_TOP_FEATURES {
        large_prefix(f)
    } else {
        MAX_TOP_FEATURES as nat
    }
}

/// The features of `f` whose effect size is at least `min_d`, in their order.
pub open spec fn above(f: Seq<RankedRefusalFeature>, min_d: u32) -> Seq<RankedRefusalFeature>
    decreases f.len(),
{
    if f.len() == 0 {
        Seq::empty()
    } else {
        let before = above(f.drop_last(), min_d);
        if float_ge(float_abs(f.last().cohens_d), min_d) {
            before.push(f.last())
        } else {
            before
        }
    }
}

/// How many features of `f` count as an influence.
pub open spec fn causal_count(f: Seq<RankedRefusalFeature>) -> nat
    decreases f.len(),
{
    if f.len() == 0 {
        0
    } else {
        causal_count(f.drop_last()) + if f.last().effect_size.causal() {
            1nat
        } else {
            0nat
        }
    }
}

fn filter_above(f: &Vec<RankedRefusalFeature>, min_d: u32) -> (r: Vec<RankedRefusalFeature>)
    ensures
        r@ == above(f@, min_d),
{
    let mut r: Vec<RankedRefusalFeature> = Vec::new();
    let mut i: usize = 0;
    assert(f@.take(0) =~= Seq::<RankedRefusalFeature>::empty());
    while i < f.len()
        invariant
            i <= f@.len(),
            r@ == above(f@.take(i as int), min_d),
        decreases f@.len() - i,
    {
        assert(f@.take(i + 1).drop_last() =~= f@.take(i as int));
        if check_ge(abs_of(f[i].cohens_d), min_d) {
            r.push(f[i]);
        }
        i = i + 1;
    }
    assert(f@.take(i as int) =~= f@);
    r
}

fn count_causal(f: &Vec<RankedRefusalFeature>) -> (n: usize)
    ensures
        n == causal_count(f@),
        n <= f@.len(),
{
    let mut n: usize = 0;
    let mut i: usize = 0;
    assert(f@.take(0) =~= Seq::<RankedRefusalFeature>::empty());
    while i < f.len()
        invariant
            i <= f@.len(),
            n <= i,
            n == causal_count(f@.take(i as int)),
        decreases f@.len() - i,
    {
        assert(f@.take(i + 1).drop_last() =~= f@.take(i as int));
        if f[i].effect_size.is_causal() {
            n = n + 1;
        }
        i = i + 1;
    }
    assert(f@.take(i as int) =~= f@);
    n
}

/// The features of a dictionary with their effect sizes, in dictionary order.
pub open spec fn measured(cohens_d: Seq<u32>, deltas: Seq<u32>) -> Seq<RankedRefusalFeature> {
    Seq::new(
        cohens_d.len(),
        |i: int|
            RankedRefusalFeature {
                feature_idx: i as usize,
                cohens_d: cohens_d[i],
                delta_activation: deltas[i],
                effect_size: class_of(cohens_d[i]),
            },
    )
}

/// The keys by which features are ranked: their effect sizes without sign.
pub open spec fn effect_keys(cohens_d: Seq<u32>) -> Seq<i128> {
    cohens_d.map_values(|d: u32| rank(float_abs(d)) as i128)
}

/// `f` reordered by `order`.
pub open spec fn reordered(f: Seq<RankedRefusalFeature>, order: Seq<usize>) -> Seq<
    RankedRefusalFeature,
> {
    order.map_values(|i: usize| f[i as int])
}

impl RefusalProfile {
    /// The strongest features: those in front with a large effect, at most 32.
    pub fn top_causal_features(&self) -> (r: &[RankedRefusalFeature])
        ensures
            r@ == self.ranked_features@.take(top_count(self.ranked_features@) as int),
    {
        let mut n: usize = 0;
        let ghost all = self.ranked_features@;
        assert(all.skip(0) =~= all);
        while n < self.ranked_features.len() && self.ranked_features[n].effect_size
            == EffectSize::Large
            invariant
                n <= all.len(),
                all == self.ranked_features@,
                large_prefix(all) == n + large_prefix(all.skip(n as int)),
            decreases all.len() - n,
        {
            assert(all.skip(n as int).skip(1) =~= all.skip(n + 1));
            n = n + 1;
        }
        let limit: usize = if n <= MAX_TOP_FEATURES {
            n
        } else {
            MAX_TOP_FEATURES
        };
        assert(all.take(limit as int) =~= all.subrange(0, limit as int));
        &self.ranked_features.as_slice()[0..limit]
    }

    /// The features whose effect size is at least `min_d`.
    pub fn features_above_threshold(&self, min_d: u32) -> (r: Vec<RankedRefusalFeature>)
        ensures
            r@ == above(self.ranked_features@, min_d),
    {
        filter_above(&self.ranked_features, min_d)
    }
}

/// How features are ranked and used. Real-valued settings are bit patterns.
#[derive(Debug)]
pub struct RefusalMapperConfig {
    pub min_contrast_pairs: usize,
    pub cohens_d_threshold: u32,
    pub max_ablation_features: usize,
    pub steering_alpha: u32,
    pub use_ablation: bool,
}

impl Default for RefusalMapperConfig {
    /// Three pairs, effects from 0.5 on, at most 16 features, steering by -2.5,
    /// ablation preferred.
    fn default() -> (c: RefusalMapperConfig)
        ensures
            c.min_contrast_pairs == 3,
            c.cohens_d_threshold == D_MEDIUM,
            c.max_ablation_features == 16,
            c.steering_alpha == 0xc020_0000u32,
            c.use_ablation,
    {
        RefusalMapperConfig {
            min_contrast_pairs: 3,
            cohens_d_threshold: D_MEDIUM,
            max_ablation_features: 16,
            steering_alpha: 0xc020_0000,
            use_ablation: true,
        }
    }
}

/// Collects pairs of observations and ranks features by them.
pub struct RefusalMapper {
    pub config: RefusalMapperConfig,
    /// The features of the two members of each pair.
    pub observation_pairs: Vec<(Vec<u32>, Vec<u32>)>,
    pub current_profile: Option<RefusalProfile>,
}

impl RefusalMapper {
    /// No observation yet.
    pub fn new() -> (m: RefusalMapper)
        ensures
            m.observation_pairs@.len() == 0,
            m.current_profile is None,
            m.config.min_contrast_pairs == 3,
            m.config.cohens_d_threshold == D_MEDIUM,
            m.config.max_ablation_features == 16,
            m.config.steering_alpha == 0xc020_0000u32,
            m.config.use_ablation,
    {
        RefusalMapper {
            config: RefusalMapperConfig::default(),
            observation_pairs: Vec::new(),
            current_profile: None,
        }
    }

    pub fn with_config(self, config: RefusalMapperConfig) -> (m: RefusalMapper)
        ensures
            m == (RefusalMapper { config, ..self }),
    {
        RefusalMapper { config, ..self }
    }

    /// Adds the features of a contrasting pair.
    pub fn observe_contrast(&mut self, features_refused: Vec<u32>, features_allowed: Vec<u32>)
        ensures
            final(self).observation_pairs@ == old(self).observation_pairs@.push(
                (features_refused, features_allowed),
            ),
            final(self).config == old(self).config,
            final(self).current_profile == old(self).current_profile,
    {
        self.observation_pairs.push((features_refused, features_allowed));
    }

    /// Ranks the features by effect size, strongest first, and keeps those that
    /// reach the threshold. Without enough pairs nothing happens. Returns
    /// whether there is a new profile; its direction and confidence are still to
    /// be set.
    pub fn calibrate(&mut self, cohens_d: &Vec<u32>, deltas: &Vec<u32>) -> (done: bool)
        requires
            cohens_d@.len() == deltas@.len(),
            forall|i: int| 0 <= i < cohens_d@.len() ==> !is_nan(#[trigger] cohens_d@[i]),
        ensures
            final(self).config == old(self).config,
            final(self).observation_pairs == old(self).observation_pairs,
            done == (old(self).observation_pairs@.len() >= old(self).config.min_contrast_pairs),
            !done ==> *final(self) == *old(self),
            done ==> match final(self).current_profile {
                None => false,
                Some(p) => {
                    &&& exists|order: Seq<usize>|
                        #[trigger] is_ranking(effect_keys(cohens_d@), order)
                            && p.ranked_features@ == above(
                            reordered(measured(cohens_d@, deltas@), order),
                            old(self).config.cohens_d_threshold,
                        )
                    &&& p.causal_features_count == causal_count(p.ranked_features@)
                    &&& p.total_features_analyzed == cohens_d@.len()
                    &&& p.refusal_direction@.len() == 0
                    &&& p.confidence == 0
                },
            },
    {
        if self.observation_pairs.len() < self.config.min_contrast_pairs {
            return false;
        }
        let mut keys: Vec<i128> = Vec::new();
        let mut i: usize = 0;
        while i < cohens_d.len()
            invariant
                i <= cohens_d@.len(),
                keys@ == effect_keys(cohens_d@).take(i as int),
            decreases cohens_d@.len() - i,
        {
            keys.push(rank_of(abs_of(cohens_d[i])) as i128);
            i = i + 1;
            assert(keys@ =~= effect_keys(cohens_d@).take(i as int));
        }
        assert(keys@ =~= effect_keys(cohens_d@));
        let order = rank_desc(&keys);
        let mut sorted: Vec<RankedRefusalFeature> = Vec::new();
        let ghost want = reordered(measured(cohens_d@, deltas@), order@);
        let mut k: usize = 0;
        while k < order.len()
            invariant
                k <= order@.len(),
                cohens_d@.len() == deltas@.len(),
                keys@.len() == cohens_d@.len(),
                is_ranking(keys@, order@),
                want == reordered(measured(cohens_d@, deltas@), order@),
                sorted@ == want.take(k as int),
            decreases order@.len() - k,
        {
            assert(0 <= order@[k as int] < keys@.len());
            let idx: usize = order[k];
            sorted.push(
                RankedRefusalFeature {
                    feature_idx: idx,
                    cohens_d: cohens_d[idx],
                    delta_activation: deltas[idx],
                    effect_size: EffectSize::from_d(cohens_d[idx]),
                },
            );
            k = k + 1;
            assert(sorted@ =~= want.take(k as int));
        }
        assert(sorted@ =~= want);
        let ranked = filter_above(&sorted, self.config.cohens_d_threshold);
        let causal: usize = count_causal(&ranked);
        self.current_profile = Some(
            RefusalProfile {
                ranked_features: ranked,
                refusal_direction: Vec::new(),
                total_features_analyzed: cohens_d.len(),
                causal_features_count: causal,
                confidence: 0,
            },
        );
        assert(is_ranking(effect_keys(cohens_d@), order@));
        true
    }

    /// Sets the direction and the confidence of the profile. Returns whether
    /// there is one.
    pub fn set_direction(&mut self, direction: Vec<u32>, confidence: u32) -> (done: bool)
        ensures
            done == old(self).current_profile is Some,
            !done ==> *final(self) == *old(self),
            done ==> *final(self) == (RefusalMapper {
                current_profile: Some(
                    RefusalProfile {
                        refusal_direction: direction,
                        confidence,
                        ..old(self).current_profile->0
                    },
                ),
                ..*old(self)
            }),
    {
        match self.current_profile.take() {
            Some(p) => {
                self.current_profile = Some(
                    RefusalProfile { refusal_direction: direction, confidence, ..p },
                );
                true
            },
            None => false,
        }
    }

    /// What is done to each feature that is acted upon.
    pub open spec fn mode(&self) -> InterventionMode {
        if self.config.use_ablation {
            InterventionMode::Ablation
        } else {
            InterventionMode::Steering { alpha: self.config.steering_alpha }
        }
    }

    /// How many features are acted upon.
    pub open spec fn acted_upon(&self, p: RefusalProfile) -> nat {
        let n = top_count(p.ranked_features@);
        if n <= self.config.max_ablation_features {
            n
        } else {
            self.config.max_ablation_features as nat
        }
    }

    /// The interventions that the profile asks for: one for each of the
    /// strongest features, as far as the configuration allows.
    pub fn generate_neutralization_vectors(&self) -> (r: Option<Vec<ControlVector>>)
        ensures
            match (r, self.current_profile) {
                (None, None) => true,
                (Some(v), Some(p)) => {
                    &&& v@.len() == self.acted_upon(p)
                    &&& forall|i: int|
                        0 <= i < v@.len() ==> {
                            &&& (#[trigger] v@[i]).feature_idx
                                == p.ranked_features@[i].feature_idx
                            &&& v@[i].mode == self.mode()
                            &&& v@[i].raw_direction is Some
                            &&& v@[i].raw_direction->0@ == p.refusal_direction@
                        }
                },
                _ => false,
            },
    {
        let p = match &self.current_profile {
            Some(p) => p,
            None => {
                return None;
            },
        };
        let top = p.top_causal_features();
        let limit: usize = if top.len() <= self.config.max_ablation_features {
            top.len()
        } else {
            self.config.max_ablation_features
        };
        let mode = if self.config.use_ablation {
            InterventionMode::Ablation
        } else {
            InterventionMode::Steering { alpha: self.config.steering_alpha }
        };
        proof {
            large_prefix_is_short(p.ranked_features@);
        }
        let mut v: Vec<ControlVector> = Vec::new();
        let mut i: usize = 0;
        while i < limit
            invariant
                i <= limit <= top@.len(),
                top@.len() <= p.ranked_features@.len(),
                mode == self.mode(),
                v@.len() == i,
                forall|k: int|
                    0 <= k < top@.len() ==> #[trigger] top@[k] == p.ranked_features@[k],
                forall|k: int|
                    0 <= k < i ==> {
                        &&& (#[trigger] v@[k]).feature_idx == p.ranked_features@[k].feature_idx
                        &&& v@[k].mode == mode
                        &&& v@[k].raw_direction is Some
                        &&& v@[k].raw_direction->0@ == p.refusal_direction@
                    },
            decreases limit - i,
        {
            let direction = copy_range(&p.refusal_direction, 0, p.refusal_direction.len());
            assert(direction@ =~= p.refusal_direction@);
            v.push(
                ControlVector {
                    feature_idx: top[i].feature_idx,
                    mode,
                    raw_direction: Some(direction),
                },
            );
            i = i + 1;
        }
        Some(v)
    }

    /// Puts the interventions into force after those of `engine`. Returns
    /// whether there was any.
    pub fn apply_to_engine(&self, engine: &mut SteeringEngine) -> (applied: bool)
        ensures
            final(engine).conditional_threshold == old(engine).conditional_threshold,
            applied == (self.current_profile is Some && self.acted_upon(self.current_profile->0)
                > 0),
            !applied ==> final(engine).active_vectors@ == old(engine).active_vectors@,
            applied ==> {
                let p = self.current_profile->0;
                let n = old(engine).active_vectors@.len();
                &&& final(engine).active_vectors@.len() == n + self.acted_upon(p)
                &&& final(engine).active_vectors@.take(n as int) == old(engine).active_vectors@
                &&& forall|i: int|
                    0 <= i < self.acted_upon(p) ==> {
                        let c = #[trigger] final(engine).active_vectors@[n + i];
                        &&& c.feature_idx == p.ranked_features@[i].feature_idx
                        &&& c.mode == self.mode()
                        &&& c.raw_direction is Some
                        &&& c.raw_direction->0@ == p.refusal_direction@
                    }
            },
    {
        let mut vectors = match self.generate_neutralization_vectors() {
            Some(v) => v,
            None => {
                return false;
            },
        };
        let count: usize = vectors.len();
        let ghost added = vectors@;
        let ghost before = engine.active_vectors@;
        engine.active_vectors.append(&mut vectors);
        proof {
            assert(engine.active_vectors@.take(before.len() as int) =~= before);
            assert forall|i: int| 0 <= i < added.len() implies (
            #[trigger] engine.active_vectors@[before.len() + i]) == added[i] by {}
            if count == 0 {
                assert(engine.active_vectors@ =~= before);
            }
        }
        count > 0
    }

    /// The state of the mapper as text. The effect size of the strongest feature
    /// and the confidence in percent are given as texts.
    pub fn report(&self, top_d: &str, confidence_pct: &str) -> (s: String)
        ensures
            s@ == match self.current_profile {
                None => "RefusalMapper | NÃO CALIBRADO | "@ + dec(
                    self.observation_pairs@.len(),
                ) + " pares acumulados (mínimo: "@ + dec(self.config.min_contrast_pairs as nat)
                    + ")"@,
                Some(p) => "RefusalMapper | CALIBRADO | "@ + dec(self.observation_pairs@.len())
                    + " pares | "@ + dec(p.causal_features_count as nat)
                    + " features causais / "@ + dec(p.total_features_analyzed as nat)
                    + " analisadas | top-feature: idx="@ + dec(
                    if p.ranked_features@.len() == 0 {
                        0
                    } else {
                        p.ranked_features@[0].feature_idx as nat
                    },
                ) + " d="@ + top_d@ + " | confiança="@ + confidence_pct@ + "%"@,
            },
    {
        match &self.current_profile {
            None => {
                let mut s = "RefusalMapper | NÃO CALIBRADO | ".to_string();
                push_dec(&mut s, self.observation_pairs.len() as u64);
                s.append(" pares acumulados (mínimo: ");
                push_dec(&mut s, self.config.min_contrast_pairs as u64);
                s.append(")");
                s
            },
            Some(p) => {
                let mut s = "RefusalMapper | CALIBRADO | ".to_string();
                push_dec(&mut s, self.observation_pairs.len() as u64);
                s.append(" pares | ");
                push_dec(&mut s, p.causal_features_count as u64);
                s.append(" features causais / ");
                push_dec(&mut s, p.total_features_analyzed as u64);
                s.append(" analisadas | top-feature: idx=");
                let first: usize = if p.ranked_features.len() == 0 {
                    0
                } else {
                    p.ranked_features[0].feature_idx
                };
                push_dec(&mut s, first as u64);
                s.append(" d=");
                s.append(top_d);
                s.append(" | confiança=");
                s.append(confidence_pct);
                s.append("%");
                s
            },
        }
    }

    /// How many pairs were observed.
    pub fn pair_count(&self) -> (n: usize)
        ensures
            n == self.observation_pairs@.len(),
    {
        self.observation_pairs.len()
    }

    /// Forgets all observations and the profile.
    pub fn reset_observations(&mut self)
        ensures
            final(self).observation_pairs@.len() == 0,
            final(self).current_profile is None,
            final(self).config == old(self).config,
    {
        self.observation_pairs.clear();
        self.current_profile = None;
    }
}

proof fn large_prefix_is_short(f: Seq<RankedRefusalFeature>)
    ensures
        large_prefix(f) <= f.len(),
    decreases f.len(),
{
    if f.len() > 0 {
        large_prefix_is_short(f.skip(1));
    }
}

proof fn above_keeps_order(f: Seq<RankedRefusalFeature>, min_d: u32)
    requires
        forall|a: int, b: int|
            0 <= a < b < f.len() ==> !float_lt(
                float_abs((#[trigger] f[a]).cohens_d),
                float_abs((#[trigger] f[b]).cohens_d),
            ),
    ensures
        forall|a: int, b: int|
            0 <= a < b < above(f, min_d).len() ==> !float_lt(
                float_abs((#[trigger] above(f, min_d)[a]).cohens_d),
                float_abs((#[trigger] above(f, min_d)[b]).cohens_d),
            ),
        forall|a: int|
            0 <= a < above(f, min_d).len() ==> float_ge(
                float_abs((#[trigger] above(f, min_d)[a]).cohens_d),
                min_d,
            ) && f.contains(above(f, min_d)[a]),
    decreases f.len(),
{
    if f.len() > 0 {
        let g = f.drop_last();
        above_keeps_order(g, min_d);
        let r = above(g, min_d);
        assert forall|a: int| 0 <= a < r.len() implies f.contains(#[trigger] r[a]) by {
            let k = choose|k: int| 0 <= k < g.len() && g[k] == r[a];
            assert(f[k] == r[a]);
        }
        if float_ge(float_abs(f.last().cohens_d), min_d) {
            assert(f[f.len() - 1] == f.last());
            assert forall|a: int| 0 <= a < r.len() implies !float_lt(
                float_abs((#[trigger] r[a]).cohens_d),
                float_abs(f.last().cohens_d),
            ) by {
                let k = choose|k: int| 0 <= k < g.len() && g[k] == r[a];
                assert(f[k] == r[a]);
            }
        }
    }
}

/// The features of a profile come by descending effect size and all reach the
/// threshold.
pub proof fn profile_descends(
    cohens_d: Seq<u32>,
    deltas: Seq<u32>,
    order: Seq<usize>,
    threshold: u32,
)
    requires
        cohens_d.len() == deltas.len(),
        is_ranking(effect_keys(cohens_d), order),
    ensures
        ({
            let p = above(reordered(measured(cohens_d, deltas), order), threshold);
            &&& forall|a: int, b: int|
                0 <= a < b < p.len() ==> !float_lt(
                    float_abs((#[trigger] p[a]).cohens_d),
                    float_abs((#[trigger] p[b]).cohens_d),
                )
            &&& forall|a: int|
                0 <= a < p.len() ==> float_ge(float_abs((#[trigger] p[a]).cohens_d), threshold)
        }),
{
    let f = reordered(measured(cohens_d, deltas), order);
    let keys = effect_keys(cohens_d);
    assert forall|a: int, b: int| 0 <= a < b < f.len() implies !float_lt(
        float_abs((#[trigger] f[a]).cohens_d),
        float_abs((#[trigger] f[b]).cohens_d),
    ) by {
        let i = order[a] as int;
        let j = order[b] as int;
        assert(crate::ranking::precedes(keys, i, j));
        assert(f[a].cohens_d == cohens_d[i] && f[b].cohens_d == cohens_d[j]);
        assert(keys[i] == rank(float_abs(cohens_d[i])) as i128);
        assert(keys[j] == rank(float_abs(cohens_d[j])) as i128);
    }
    above_keeps_order(f, threshold);
}

/// The features above the threshold are all those whose effect is at least as large, in
/// their order.
pub proof fn large_effects_stay(f: Seq<RankedRefusalFeature>, min_d: u32)
    ensures
        above(f, min_d) == f.filter(
            |x: RankedRefusalFeature| float_ge(float_abs(x.cohens_d), min_d),
        ),
    decreases f.len(),
{
    reveal(Seq::filter);
    if f.len() > 0 {
        large_effects_stay(f.drop_last(), min_d);
    }
}

/// The causal features are those with a medium or a large effect.
pub proof fn medium_and_large_are_causal(f: Seq<RankedRefusalFeature>)
    ensures
        causal_count(f) == f.filter(
            |x: RankedRefusalFeature|
                x.effect_size == EffectSize::Medium || x.effect_size == EffectSize::Large,
        ).len(),
    decreases f.len(),
{
    reveal(Seq::filter);
    if f.len() > 0 {
        medium_and_large_are_causal(f.drop_last());
    }
}

/// The top features are the large ones that the list begins with, and no more than
/// thirty-two of them.
pub proof fn top_features_are_the_first_large(f: Seq<RankedRefusalFeature>)
    ensures
        top_count(f) <= f.len(),
        top_count(f) <= MAX_TOP_FEATURES,
        forall|i: int|
            0 <= i < top_count(f) ==> (#[trigger] f[i]).effect_size == EffectSize::Large,
        top_count(f) < f.len() && top_count(f) < MAX_TOP_FEATURES ==> f[top_count(
            f,
        ) as int].effect_size != EffectSize::Large,
{
    large_ones_come_first(f);
}

proof fn large_ones_come_first(f: Seq<RankedRefusalFeature>)
    ensures
        large_prefix(f) <= f.len(),
        forall|i: int|
            0 <= i < large_prefix(f) ==> (#[trigger] f[i]).effect_size == EffectSize::Large,
        large_prefix(f) < f.len() ==> f[large_prefix(f) as int].effect_size != EffectSize::Large,
    decreases f.len(),
{
    if f.len() > 0 && f[0].effect_size == EffectSize::Large {
        let rest = f.skip(1);
        large_ones_come_first(rest);
        assert forall|i: int| 0 <= i < large_prefix(f) implies (#[trigger] f[i]).effect_size
            == EffectSize::Large by {
            if i > 0 {
                assert(rest[i - 1] == f[i]);
            }
        }
    }
}

/// The place of a class among the classes, the smallest first.
pub open spec fn class_rank(e: EffectSize) -> int {
    match e {
        EffectSize::Negligible => 0,
        EffectSize::Small => 1,
        EffectSize::Medium => 2,
        EffectSize::Large => 3,
    }
}

/// A larger effect, whatever its sign, is never in a smaller class; and the class of an
/// effect is that of its opposite.
pub proof fn classes_follow_the_size(a: u32, b: u32)
    requires
        !is_nan(a),
        !is_nan(b),
        rank(float_abs(a)) <= rank(float_abs(b)),
    ensures
        class_rank(class_of(a)) <= class_rank(class_of(b)),
        rank(float_abs(a)) == rank(float_abs(b)) ==> class_of(a) == class_of(b),
{
}

/// An effect is large from eight tenths on, medium from five tenths on, small from two
/// tenths on and negligible below, whatever its sign.
pub proof fn classes_begin_at_their_bounds(d: u32)
    requires
        !is_nan(d),
    ensures
        class_of(d) == EffectSize::Large <==> rank(float_abs(d)) >= 0x3f4c_cccd,
        class_of(d) == EffectSize::Large || class_of(d) == EffectSize::Medium <==> rank(
            float_abs(d),
        ) >= 0x3f00_0000,
        class_of(d) == EffectSize::Negligible <==> rank(float_abs(d)) < 0x3e4c_cccd,
{
}

} // verus!
