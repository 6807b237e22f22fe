//! Choosing the next token: greedy choice, top-k and nucleus cut-offs, and the
//! final draw.
//!
//! Logits and probabilities are bit patterns of single-precision numbers. The
//! arithmetic on them (penalties, temperature, softmax, running sums) and the
//! random draw are done elsewhere; every decision is made here.

use vstd::prelude::*;

use crate::errors::NodeStorError;
use crate::float_bits::{check_lt, check_nan, float_lt, is_nan, rank, rank_of};
use crate::ranking::{rank_desc, ranking_descends, ranking_is_a_permutation};

verus! {

/// How tokens are chosen. The real-valued settings are bit patterns.
pub struct SamplerConfig {
    pub temperature: u32,
    pub top_k: usize,
    pub top_p: u32,
    pub repetition_penalty: u32,
    pub use_conformal: bool,
}

/// The bit pattern of one.
pub const ONE: u32 = 0x3f80_0000;

impl Default for SamplerConfig {
    /// Temperature 0.8, top 40, nucleus 0.9, penalty 1.1.
    fn default() -> (c: SamplerConfig)
        ensures
            c.temperature == 0x3f4c_cccd,
            c.top_k == 40,
            c.top_p == 0x3f66_6666,
            c.repetition_penalty == 0x3f8c_cccd,
            !c.use_conformal,
    {
        SamplerConfig {
            temperature: 0x3f4c_cccd,
            top_k: 40,
            top_p: 0x3f66_6666,
            repetition_penalty: 0x3f8c_cccd,
            use_conformal: false,
        }
    }
}

/// The index at which a scan of the first `n` entries stands that moves on only
/// to larger entries.
pub open spec fn scan_max(s: Seq<u32>, n: int) -> int
    decreases n,
{
    if n <= 1 {
        0
    } else {
        let b = scan_max(s, n - 1);
        if float_lt(s[b], s[n - 1]) {
            n - 1
        } else {
            b
        }
    }
}

/// Among numbers the scan ends at the first of the largest.
pub proof fn scan_finds_the_first_maximum(s: Seq<u32>, n: int)
    requires
        0 < n <= s.len(),
        forall|i: int| 0 <= i < n ==> !is_nan(#[trigger] s[i]),
    ensures
        0 <= scan_max(s, n) < n,
        forall|i: int| 0 <= i < n ==> !float_lt(s[scan_max(s, n)], #[trigger] s[i]),
        forall|i: int| 0 <= i < scan_max(s, n) ==> float_lt(#[trigger] s[i], s[scan_max(s, n)]),
    decreases n,
{
    if n > 1 {
        scan_finds_the_first_maximum(s, n - 1);
    }
}

/// The greedy choice.
pub fn argmax(s: &Vec<u32>) -> (b: usize)
    requires
        s@.len() > 0,
    ensures
        b == scan_max(s@, s@.len() as int),
        b < s@.len(),
{
    let mut b: usize = 0;
    let mut n: usize = 1;
    while n < s.len()
        invariant
            0 < n <= s@.len(),
            b == scan_max(s@, n as int),
            b < n,
        decreases s@.len() - n,
    {
        if check_lt(s[b], s[n]) {
            b = n;
        }
        n = n + 1;
    }
    b
}

/// What a set of logits asks for.
#[derive(Debug, PartialEq, Eq, Clone, Copy, Structural)]
pub enum SampleStep {
    /// This token is the choice.
    Greedy(u32),
    /// The choice is drawn at random. Where `rescale` is set, the logits are
    /// first divided by the temperature.
    Draw { rescale: bool },
}

/// The keys by which probabilities are ranked.
pub open spec fn prob_keys(probs: Seq<u32>) -> Seq<i128> {
    probs.map_values(|p: u32| rank(p) as i128)
}

/// How many candidates the nucleus keeps when `running[i]` is the sum of the
/// probabilities of the first `i + 1`: those up to the first sum above `top_p`.
pub open spec fn nucleus_size(running: Seq<u32>, top_p: u32) -> nat
    decreases running.len(),
{
    if running.len() == 0 {
        0
    } else if float_lt(top_p, running[0]) {
        1
    } else {
        1 + nucleus_size(running.skip(1), top_p)
    }
}

/// The nucleus is never empty, and it ends either at the first running sum above
/// the threshold or with the candidates.
pub proof fn nucleus_ends_at_the_first_excess(running: Seq<u32>, top_p: u32)
    requires
        running.len() > 0,
    ensures
        1 <= nucleus_size(running, top_p) <= running.len(),
        forall|i: int|
            0 <= i < nucleus_size(running, top_p) - 1 ==> !float_lt(top_p, #[trigger] running[i]),
        nucleus_size(running, top_p) < running.len() ==> float_lt(
            top_p,
            running[nucleus_size(running, top_p) - 1],
        ),
    decreases running.len(),
{
    if !float_lt(top_p, running[0]) && running.len() > 1 {
        let rest = running.skip(1);
        nucleus_ends_at_the_first_excess(rest, top_p);
        assert forall|i: int| 0 <= i < nucleus_size(running, top_p) - 1 implies !float_lt(
            top_p,
            #[trigger] running[i],
        ) by {
            if i > 0 {
                assert(running[i] == rest[i - 1]);
            }
        }
    } else if running.len() == 1 {
        assert(running.skip(1).len() == 0);
        assert(nucleus_size(running.skip(1), top_p) == 0);
    }
}

/// One of the entries is not a number.
pub open spec fn some_nan(s: Seq<u32>) -> bool {
    exists|i: int| 0 <= i < s.len() && is_nan(#[trigger] s[i])
}

fn check_some_nan(s: &Vec<u32>) -> (b: bool)
    ensures
        b == some_nan(s@),
{
    let mut i: usize = 0;
    while i < s.len()
        invariant
            i <= s@.len(),
            forall|k: int| 0 <= k < i ==> !is_nan(#[trigger] s@[k]),
        decreases s@.len() - i,
    {
        if check_nan(s[i]) {
            assert(is_nan(s@[i as int]));
            return true;
        }
        i = i + 1;
    }
    false
}

/// Chooses tokens.
pub struct Sampler {
    pub config: SamplerConfig,
}

impl Sampler {
    pub fn new(config: SamplerConfig) -> (s: Sampler)
        ensures
            s.config == config,
    {
        Sampler { config }
    }

    /// Whether tokens of the context are penalised: unless the penalty is one.
    pub fn penalises(&self) -> (b: bool)
        ensures
            b == (is_nan(self.config.repetition_penalty) || rank(self.config.repetition_penalty)
                != rank(ONE)),
    {
        check_nan(self.config.repetition_penalty) || rank_of(self.config.repetition_penalty)
            != rank_of(ONE)
    }

    /// Which logits the context penalises, in the order in which the penalties
    /// are applied: one for each occurrence of a token of the vocabulary.
    pub fn penalised(&self, vocab_size: usize, context: &Vec<u32>) -> (r: Vec<usize>)
        ensures
            r@ == in_vocabulary(context@, vocab_size as nat),
            r@ == context@.filter(|t: u32| t < vocab_size).map_values(|t: u32| t as usize),
    {
        let mut r: Vec<usize> = Vec::new();
        let mut i: usize = 0;
        assert(context@.take(0) =~= Seq::<u32>::empty());
        while i < context.len()
            invariant
                i <= context@.len(),
                r@ == in_vocabulary(context@.take(i as int), vocab_size as nat),
            decreases context@.len() - i,
        {
            proof {
                assert(context@.take(i + 1).drop_last() =~= context@.take(i as int));
                assert(context@.take(i + 1).last() == context@[i as int]);
            }
            let t: usize = context[i] as usize;
            if t < vocab_size {
                r.push(t);
            }
            i = i + 1;
        }
        assert(context@.take(i as int) =~= context@);
        proof {
            every_occurrence_is_penalised(context@, vocab_size as nat, 0);
            let below = |t: u32| t < vocab_size;
            let same = |t: u32| t < vocab_size as nat;
            assert(below =~= same);
        }
        r
    }

    /// What the (penalised) logits ask for: the greedy choice at temperature
    /// zero, a draw otherwise; an error where there are no logits.
    pub fn sample(&self, logits: &Vec<u32>) -> (r: Result<SampleStep, NodeStorError>)
        ensures
            match r {
                Err(e) => logits@.len() == 0 && e is VulkanError && e.text()
                    == "Sem logits para amostragem"@,
                Ok(SampleStep::Greedy(t)) => logits@.len() > 0 && !is_nan(self.config.temperature)
                    && rank(self.config.temperature) == 0 && t == scan_max(
                    logits@,
                    logits@.len() as int,
                ) as u32,
                Ok(SampleStep::Draw { rescale }) => logits@.len() > 0 && (is_nan(
                    self.config.temperature,
                ) || rank(self.config.temperature) != 0) && rescale == (is_nan(
                    self.config.temperature,
                ) || rank(self.config.temperature) != rank(ONE)),
            },
    {
        if logits.len() == 0 {
            return Err(NodeStorError::VulkanError("Sem logits para amostragem".to_string()));
        }
        let t: u32 = self.config.temperature;
        if !check_nan(t) && rank_of(t) == 0 {
            let best: usize = argmax(logits);
            return Ok(SampleStep::Greedy(best as u32));
        }
        Ok(SampleStep::Draw { rescale: check_nan(t) || rank_of(t) != rank_of(ONE) })
    }

    /// How many candidates a draw among `n` tokens has: `top_k` of them, or all
    /// where `top_k` is zero or too large.
    pub open spec fn candidate_count(&self, n: nat) -> nat {
        if 0 < self.config.top_k < n {
            self.config.top_k as nat
        } else {
            n
        }
    }

    /// The candidates of a draw, most probable first. Where one of the probabilities
    /// is not a number none is more probable than another, and the tokens keep their
    /// order.
    pub fn candidates(&self, probs: &Vec<u32>) -> (r: Vec<usize>)
        ensures
            r@.len() == self.candidate_count(probs@.len()),
            some_nan(probs@) ==> forall|a: int| 0 <= a < r@.len() ==> #[trigger] r@[a] == a,
            r@.no_duplicates(),
            forall|a: int| 0 <= a < r@.len() ==> #[trigger] r@[a] < probs@.len(),
            !some_nan(probs@) ==> forall|a: int, b: int|
                0 <= a < b < r@.len() ==> !float_lt(
                    probs@[#[trigger] r@[a] as int],
                    probs@[#[trigger] r@[b] as int],
                ),
            !some_nan(probs@) ==> forall|a: int, i: int|
                0 <= a < r@.len() && 0 <= i < probs@.len() && !r@.contains(i as usize)
                    ==> !float_lt(probs@[#[trigger] r@[a] as int], #[trigger] probs@[i]),
    {
        let n: usize = probs.len();
        let limit: usize = if self.config.top_k > 0 && self.config.top_k < n {
            self.config.top_k
        } else {
            n
        };
        if check_some_nan(probs) {
            let mut r: Vec<usize> = Vec::new();
            let mut i: usize = 0;
            while i < limit
                invariant
                    i <= limit <= n,
                    n == probs@.len(),
                    r@.len() == i,
                    forall|a: int| 0 <= a < i ==> #[trigger] r@[a] == a,
                decreases limit - i,
            {
                r.push(i);
                i = i + 1;
            }
            return r;
        }
        let mut keys: Vec<i128> = Vec::new();
        let mut i: usize = 0;
        while i < probs.len()
            invariant
                i <= probs@.len(),
                keys@ == prob_keys(probs@).take(i as int),
            decreases probs@.len() - i,
        {
            keys.push(rank_of(probs[i]) as i128);
            i = i + 1;
            assert(keys@ =~= prob_keys(probs@).take(i as int));
        }
        assert(keys@ =~= prob_keys(probs@));
        let mut r = rank_desc(&keys);
        let ghost ranked = r@;
        r.truncate(limit);
        proof {
            assert(keys@.len() <= usize::MAX);
            ranking_is_a_permutation(keys@, ranked);
            assert(r@ =~= ranked.take(limit as int));
            assert forall|a: int, b: int| 0 <= a < b < r@.len() implies !float_lt(
                probs@[#[trigger] r@[a] as int],
                probs@[#[trigger] r@[b] as int],
            ) by {
                ranking_descends(keys@, ranked, a, b);
                rank_fits(probs@[ranked[a] as int]);
                rank_fits(probs@[ranked[b] as int]);
            }
            assert forall|a: int, x: int|
                0 <= a < r@.len() && 0 <= x < probs@.len() && !r@.contains(
                    x as usize,
                ) implies !float_lt(probs@[#[trigger] r@[a] as int], #[trigger] probs@[x]) by {
                assert(ranked.contains(x as usize));
                let b = choose|b: int| 0 <= b < ranked.len() && ranked[b] == x as usize;
                if b < limit {
                    assert(r@[b] == x as usize);
                }
                ranking_descends(keys@, ranked, a, b);
                rank_fits(probs@[ranked[a] as int]);
                rank_fits(probs@[x]);
            }
        }
        r
    }

    /// How many of the candidates the nucleus keeps; all where the threshold is
    /// not below one.
    pub fn nucleus(&self, running: &Vec<u32>) -> (n: usize)
        ensures
            n == if float_lt(self.config.top_p, ONE) {
                nucleus_size(running@, self.config.top_p)
            } else {
                running@.len()
            },
    {
        if !check_lt(self.config.top_p, ONE) {
            return running.len();
        }
        let mut i: usize = 0;
        assert(running@.skip(0) =~= running@);
        while i < running.len()
            invariant
                i <= running@.len(),
                float_lt(self.config.top_p, ONE),
                nucleus_size(running@, self.config.top_p) == i + nucleus_size(
                    running@.skip(i as int),
                    self.config.top_p,
                ),
            decreases running@.len() - i,
        {
            if check_lt(self.config.top_p, running[i]) {
                return i + 1;
            }
            assert(running@.skip(i as int).skip(1) =~= running@.skip(i + 1));
            i = i + 1;
        }
        i
    }

    /// The token of a draw among the candidates: the one drawn, or the most
    /// probable where no draw is possible.
    pub fn pick(&self, candidates: &Vec<usize>, drawn: Option<usize>) -> (t: u32)
        requires
            candidates@.len() > 0,
            drawn is Some ==> drawn->0 < candidates@.len(),
        ensures
            t == candidates@[match drawn {
                Some(i) => i as int,
                None => 0,
            }] as u32,
    {
        match drawn {
            Some(i) => candidates[i] as u32,
            None => candidates[0] as u32,
        }
    }
}

/// The tokens of `context` that the vocabulary has.
pub open spec fn in_vocabulary(context: Seq<u32>, vocab_size: nat) -> Seq<usize>
    decreases context.len(),
{
    if context.len() == 0 {
        Seq::empty()
    } else {
        let before = in_vocabulary(context.drop_last(), vocab_size);
        if context.last() < vocab_size {
            before.push(context.last() as usize)
        } else {
            before
        }
    }
}

/// Every token of the context that the vocabulary has is penalised as often as it occurs
/// there, in the order of the context, and no other token is.
pub proof fn every_occurrence_is_penalised(context: Seq<u32>, vocab_size: nat, t: u32)
    ensures
        in_vocabulary(context, vocab_size) == context.filter(
            |t: u32| t < vocab_size,
        ).map_values(|t: u32| t as usize),
        in_vocabulary(context, vocab_size).to_multiset().count(t as usize) == if t < vocab_size {
            context.to_multiset().count(t)
        } else {
            0
        },
        forall|x: usize|
            in_vocabulary(context, vocab_size).contains(x) ==> x <= u32::MAX && x < vocab_size
                && context.contains(x as u32),
    decreases context.len(),
{
    broadcast use vstd::seq_lib::group_to_multiset_ensures;
    broadcast use vstd::multiset::group_multiset_axioms;

    let r = in_vocabulary(context, vocab_size);
    let f = |t: u32| t < vocab_size;
    let g = |t: u32| t as usize;
    reveal(Seq::filter);
    if context.len() == 0 {
        assert(context.filter(f).map_values(g) =~= r);
        assert(context =~= Seq::<u32>::empty());
    } else {
        let rest = context.drop_last();
        let last = context.last();
        let before = in_vocabulary(rest, vocab_size);
        every_occurrence_is_penalised(rest, vocab_size, t);
        assert(context =~= rest.push(last));
        assert(context.to_multiset() =~= rest.to_multiset().insert(last));
        if last < vocab_size {
            assert(context.filter(f) =~= rest.filter(f).push(last));
            assert(context.filter(f).map_values(g) =~= rest.filter(f).map_values(g).push(
                last as usize,
            ));
            assert(r.to_multiset() =~= before.to_multiset().insert(last as usize));
        }
        assert forall|x: usize| r.contains(x) implies x <= u32::MAX && x < vocab_size
            && context.contains(x as u32) by {
            let k = choose|k: int| 0 <= k < r.len() && r[k] == x;
            if k < before.len() {
                assert(before[k] == x);
                assert(before.contains(x));
                let j = choose|j: int| 0 <= j < rest.len() && rest[j] == x as u32;
                assert(context[j] == x as u32);
            } else {
                assert(context[context.len() - 1] == x as u32);
            }
        }
    }
}

proof fn rank_fits(bits: u32)
    ensures
        (rank(bits) as i128) == rank(bits),
{
}

} // verus!
