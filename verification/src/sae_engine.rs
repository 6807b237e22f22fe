//! Sparse autoencoders: which features are active, which matter, and when their
//! directions are made orthogonal again.
//!
//! Activations are the bits of single-precision numbers.

use vstd::prelude::*;

use crate::float_bits::{abs_of, check_lt, float_abs, float_lt, rank, rank_of};
use crate::ranking::{is_ranking, rank_desc, ranking_of};

verus! {

/// How inputs are fitted to the encoder.
#[derive(Debug, Clone, Copy, PartialEq, Eq, Structural)]
pub enum SAEInputMode {
    /// They have its dimension.
    Fixed,
    /// They are sampled to this dimension.
    Functional { target_dim: usize },
}

/// How many inputs pass before directions are made orthogonal again.
pub const ORTHOGONALIZATION_INTERVAL: u64 = 512;

/// An autoencoder without its weights.
#[derive(Debug, Clone, Copy, PartialEq, Eq, Structural)]
pub struct SAEEngine {
    pub hidden_dim: usize,
    pub dict_size: usize,
    pub threshold: u32,
    pub input_mode: SAEInputMode,
    pub encode_count: u64,
    pub orthogonalization_interval: u64,
}

/// An activation, or zero if it is not above the threshold.
pub open spec fn jump(x: u32, threshold: u32) -> u32 {
    if float_lt(threshold, x) {
        x
    } else {
        0
    }
}

/// The features among the first `n` that are above zero.
pub open spec fn active(features: Seq<u32>, n: int) -> Seq<(usize, u32)>
    decreases n,
{
    if n <= 0 {
        Seq::empty()
    } else {
        let before = active(features, n - 1);
        if float_lt(0, features[n - 1]) {
            before.push(((n - 1) as usize, features[n - 1]))
        } else {
            before
        }
    }
}

/// Sort keys for effects, the strongest first whatever its sign.
pub open spec fn effect_keys(d: Seq<u32>) -> Seq<i128> {
    d.map_values(|x: u32| rank(float_abs(x)) as i128)
}

impl SAEEngine {
    /// An autoencoder for inputs of its own dimension.
    pub fn new(hidden_dim: usize, dict_size: usize, threshold: u32) -> (e: SAEEngine)
        ensures
            e == (SAEEngine {
                hidden_dim,
                dict_size,
                threshold,
                input_mode: SAEInputMode::Fixed,
                encode_count: 0,
                orthogonalization_interval: ORTHOGONALIZATION_INTERVAL,
            }),
    {
        SAEEngine {
            hidden_dim,
            dict_size,
            threshold,
            input_mode: SAEInputMode::Fixed,
            encode_count: 0,
            orthogonalization_interval: ORTHOGONALIZATION_INTERVAL,
        }
    }

    /// The features of an input, given its products with the encoder and the
    /// threshold: what is not above the threshold is zero.
    pub fn jump_relu(&self, products: &Vec<u32>, threshold: u32) -> (r: Vec<u32>)
        ensures
            r@ == products@.map_values(|x: u32| jump(x, threshold)),
    {
        let mut r: Vec<u32> = Vec::new();
        let mut i: usize = 0;
        while i < products.len()
            invariant
                i <= products@.len(),
                r@.len() == i,
                forall|j: int| 0 <= j < i ==> #[trigger] r@[j] == jump(products@[j], threshold),
            decreases products@.len() - i,
        {
            let x: u32 = products[i];
            r.push(
                if check_lt(threshold, x) {
                    x
                } else {
                    0
                },
            );
            i = i + 1;
        }
        assert(r@ =~= products@.map_values(|x: u32| jump(x, threshold)));
        r
    }

    /// Counts an input, and says whether directions have to be made orthogonal
    /// again.
    pub fn count_encode(&mut self) -> (due: bool)
        requires
            old(self).encode_count < u64::MAX,
            old(self).orthogonalization_interval > 0,
        ensures
            *final(self) == (SAEEngine {
                encode_count: (old(self).encode_count + 1) as u64,
                ..*old(self)
            }),
            due == ((old(self).encode_count + 1) % old(self).orthogonalization_interval as int == 0),
    {
        self.encode_count = self.encode_count + 1;
        self.encode_count % self.orthogonalization_interval == 0
    }

    /// The pairs of features whose directions are made orthogonal: neighbours,
    /// each feature in one pair.
    pub fn orthogonal_pairs(&self) -> (r: Vec<(usize, usize)>)
        ensures
            r@ == Seq::new(
                self.dict_size as nat / 2,
                |i: int| ((2 * i) as usize, (2 * i + 1) as usize),
            ),
    {
        let n: usize = self.dict_size / 2;
        let mut r: Vec<(usize, usize)> = Vec::new();
        let mut i: usize = 0;
        while i < n
            invariant
                n == self.dict_size / 2,
                i <= n,
                r@.len() == i,
                forall|j: int|
                    0 <= j < i ==> #[trigger] r@[j] == ((2 * j) as usize, (2 * j + 1) as usize),
            decreases n - i,
        {
            r.push((2 * i, 2 * i + 1));
            i = i + 1;
        }
        assert(r@ =~= Seq::new(
            self.dict_size as nat / 2,
            |i: int| ((2 * i) as usize, (2 * i + 1) as usize),
        ));
        r
    }

    /// The features that a reconstruction uses: those above zero.
    pub fn active_features(&self, features: &Vec<u32>) -> (r: Vec<(usize, u32)>)
        requires
            features@.len() == self.dict_size,
        ensures
            r@ == active(features@, features@.len() as int),
    {
        let mut r: Vec<(usize, u32)> = Vec::new();
        let mut i: usize = 0;
        while i < features.len()
            invariant
                i <= features@.len(),
                r@ == active(features@, i as int),
            decreases features@.len() - i,
        {
            if check_lt(0, features[i]) {
                r.push((i, features[i]));
            }
            i = i + 1;
        }
        r
    }

    /// The features ordered by how strongly two populations differ in them, given
    /// the size of the effect for each. Nothing where a population is empty.
    pub fn rank_features_by_cohens_d(&self, effects: &Vec<u32>, empty_population: bool) -> (r: Vec<
        (usize, u32),
    >)
        ensures
            empty_population ==> r@.len() == 0,
            !empty_population ==> ({
                let order = ranking_of(effect_keys(effects@));
                &&& is_ranking(effect_keys(effects@), order)
                &&& r@.len() == effects@.len()
                &&& forall|k: int|
                    0 <= k < r@.len() ==> #[trigger] r@[k] == (
                        order[k],
                        effects@[order[k] as int],
                    )
            }),
    {
        let mut r: Vec<(usize, u32)> = Vec::new();
        if empty_population {
            return r;
        }
        let mut keys: Vec<i128> = Vec::new();
        let mut i: usize = 0;
        while i < effects.len()
            invariant
                i <= effects@.len(),
                keys@.len() == i,
                forall|j: int| 0 <= j < i ==> #[trigger] keys@[j] == effect_keys(effects@)[j],
            decreases effects@.len() - i,
        {
            keys.push(rank_of(abs_of(effects[i])) as i128);
            i = i + 1;
        }
        assert(keys@ =~= effect_keys(effects@));
        let order = rank_desc(&keys);
        let mut k: usize = 0;
        while k < order.len()
            invariant
                is_ranking(effect_keys(effects@), order@),
                order@.len() == effects@.len(),
                k <= order@.len(),
                r@.len() == k,
                forall|j: int|
                    0 <= j < k ==> #[trigger] r@[j] == (order@[j], effects@[order@[j] as int]),
            decreases order@.len() - k,
        {
            assert(0 <= order@[k as int] < effects@.len());
            r.push((order[k], effects[order[k]]));
            k = k + 1;
        }
        r
    }
}

/// The active features are all those with a strength above zero, each with its strength,
/// in their order.
pub proof fn active_features_are_positive(features: Seq<u32>, n: int)
    requires
        0 <= n <= features.len() <= usize::MAX,
    ensures
        ({
            let list = active(features, n);
            &&& forall|k: int|
                0 <= k < list.len() ==> (#[trigger] list[k]).0 < n && list[k].1
                    == features[list[k].0 as int] && float_lt(0, list[k].1)
            &&& forall|j: int, k: int|
                0 <= j < k < list.len() ==> (#[trigger] list[j]).0 < (#[trigger] list[k]).0
            &&& forall|i: int|
                0 <= i < n && float_lt(0, #[trigger] features[i]) ==> list.contains(
                    (i as usize, features[i]),
                )
        }),
    decreases n,
{
    if n > 0 {
        active_features_are_positive(features, n - 1);
        let before = active(features, n - 1);
        let list = active(features, n);
        assert forall|i: int|
            0 <= i < n && float_lt(0, #[trigger] features[i]) implies list.contains(
            (i as usize, features[i]),
        ) by {
            let e = (i as usize, features[i]);
            if i < n - 1 {
                let k = choose|k: int| 0 <= k < before.len() && before[k] == e;
                assert(list[k] == e);
            } else {
                assert(list[list.len() - 1] == e);
            }
        }
    }
}

/// What passes the threshold passes unchanged, everything else becomes zero, and what
/// passed once passes again.
pub proof fn jump_keeps_or_clears(x: u32, threshold: u32)
    ensures
        float_lt(threshold, x) ==> jump(x, threshold) == x,
        !float_lt(threshold, x) ==> jump(x, threshold) == 0,
        jump(jump(x, threshold), threshold) == jump(x, threshold),
{
}

} // verus!
