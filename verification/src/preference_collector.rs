//! Collecting pairs of answers of which one is preferred, until there are enough
//! to train on.

use vstd::prelude::*;

use crate::clock::{now, since_epoch, whole_milliseconds};

verus! {

/// Where a pair comes from.
#[derive(Debug, Clone, Copy, PartialEq, Eq, Structural)]
pub enum PreferencePairSource {
    UserCorrection,
    AutoCapture,
}

/// Two answers to a prompt. Embeddings are the bits of single-precision
/// numbers.
#[derive(Debug)]
pub struct PreferencePair {
    pub prompt: String,
    pub chosen_response: String,
    pub rejected_response: String,
    pub rejected_pathway: Vec<u32>,
    pub chosen_pathway: Option<Vec<u32>>,
    pub context_embedding: Vec<u32>,
    pub created_at: u64,
    pub source: PreferencePairSource,
}

/// The settings of a collector.
#[derive(Debug)]
pub struct PreferenceConfig {
    pub store_path: String,
    pub consolidation_threshold: usize,
    pub max_pairs: usize,
    pub sae_dim: usize,
}

impl Default for PreferenceConfig {
    fn default() -> (c: PreferenceConfig)
        ensures
            c.store_path@ == "tests/fixtures/pref_default"@,
            c.consolidation_threshold == 10,
            c.max_pairs == 1000,
            c.sae_dim == 0,
    {
        PreferenceConfig {
            store_path: "tests/fixtures/pref_default".to_string(),
            consolidation_threshold: 10,
            max_pairs: 1000,
            sae_dim: 0,
        }
    }
}

/// There are enough pairs.
#[derive(Debug, Clone, Copy, PartialEq, Eq, Structural)]
pub struct ConsolidationSignal {
    pub pairs_ready: usize,
}

/// What a collector has done.
#[derive(Debug, Clone, Copy, PartialEq, Eq, Structural)]
pub struct CollectorStats {
    pub corrections_captured: usize,
    pub auto_captured: usize,
    pub signals_emitted: usize,
}

/// A collector of pairs.
pub struct PreferenceCollector {
    pub config: PreferenceConfig,
    pub pending: Vec<PreferencePair>,
    pub stats: CollectorStats,
}

fn copy_words(v: &Vec<u32>) -> (r: Vec<u32>)
    ensures
        r@ == v@,
{
    let mut r: Vec<u32> = Vec::new();
    let mut i: usize = 0;
    while i < v.len()
        invariant
            i <= v@.len(),
            r@ == v@.take(i as int),
        decreases v@.len() - i,
    {
        r.push(v[i]);
        i = i + 1;
        assert(r@ =~= v@.take(i as int));
    }
    assert(r@ =~= v@);
    r
}

impl PreferenceCollector {
    /// The counters are not at the limit of the machine.
    pub open spec fn has_room(&self) -> bool {
        &&& self.stats.corrections_captured < usize::MAX
        &&& self.stats.auto_captured < usize::MAX
        &&& self.stats.signals_emitted < usize::MAX
    }

    /// There are enough pairs.
    pub open spec fn ready(&self) -> bool {
        self.pending@.len() >= self.config.consolidation_threshold
    }

    /// A collector without pairs.
    pub fn new(config: PreferenceConfig) -> (c: PreferenceCollector)
        ensures
            c.config == config,
            c.pending@.len() == 0,
            c.stats == (CollectorStats {
                corrections_captured: 0,
                auto_captured: 0,
                signals_emitted: 0,
            }),
    {
        PreferenceCollector {
            config,
            pending: Vec::new(),
            stats: CollectorStats { corrections_captured: 0, auto_captured: 0, signals_emitted: 0 },
        }
    }

    /// Keeps a correction by the user. Where there are then enough pairs, says
    /// so.
    pub fn record_correction(
        &mut self,
        prompt: &str,
        rejected: &str,
        chosen: &str,
        _ai_pathway: Vec<u32>,
        context_embedding: Vec<u32>,
    ) -> (r: Result<Option<ConsolidationSignal>, String>)
        requires
            old(self).has_room(),
        ensures
            final(self).config == old(self).config,
            final(self).pending@.len() == old(self).pending@.len() + 1,
            final(self).pending@.drop_last() == old(self).pending@,
            ({
                let p = final(self).pending@.last();
                &&& p.prompt@ == prompt@
                &&& p.chosen_response@ == chosen@
                &&& p.rejected_response@ == rejected@
                &&& p.rejected_pathway@ == context_embedding@
                &&& p.chosen_pathway is Some
                &&& p.chosen_pathway->0@ == context_embedding@
                &&& p.context_embedding@ == context_embedding@
                &&& p.source == PreferencePairSource::UserCorrection
            }),
            final(self).stats == (CollectorStats {
                corrections_captured: (old(self).stats.corrections_captured + 1) as usize,
                auto_captured: old(self).stats.auto_captured,
                signals_emitted: (old(self).stats.signals_emitted + if final(self).ready() {
                    1int
                } else {
                    0int
                }) as usize,
            }),
            r == Ok::<Option<ConsolidationSignal>, String>(
                if final(self).ready() {
                    Some(ConsolidationSignal { pairs_ready: final(self).pending@.len() as usize })
                } else {
                    None
                },
            ),
    {
        let created_at: u64 = match since_epoch(now()) {
            Some(d) => whole_milliseconds(d),
            None => 0,
        };
        let pair = PreferencePair {
            prompt: prompt.to_string(),
            chosen_response: chosen.to_string(),
            rejected_response: rejected.to_string(),
            rejected_pathway: copy_words(&context_embedding),
            chosen_pathway: Some(copy_words(&context_embedding)),
            context_embedding,
            created_at,
            source: PreferencePairSource::UserCorrection,
        };
        self.pending.push(pair);
        assert(self.pending@.drop_last() =~= old(self).pending@);
        self.stats.corrections_captured = self.stats.corrections_captured + 1;
        if self.pending.len() >= self.config.consolidation_threshold {
            self.stats.signals_emitted = self.stats.signals_emitted + 1;
            Ok(Some(ConsolidationSignal { pairs_ready: self.pending.len() }))
        } else {
            Ok(None)
        }
    }

    /// Keeps a pair that was captured without the user. It never signals.
    pub fn record_auto(
        &mut self,
        prompt: &str,
        rejected: &str,
        chosen: &str,
        _ai_pathway: Vec<u32>,
        context_embedding: Vec<u32>,
        _confidence_scores: Vec<u32>,
    ) -> (r: Result<Option<ConsolidationSignal>, String>)
        requires
            old(self).has_room(),
        ensures
            final(self).config == old(self).config,
            final(self).pending@.len() == old(self).pending@.len() + 1,
            final(self).pending@.drop_last() == old(self).pending@,
            ({
                let p = final(self).pending@.last();
                &&& p.prompt@ == prompt@
                &&& p.chosen_response@ == chosen@
                &&& p.rejected_response@ == rejected@
                &&& p.rejected_pathway@.len() == 0
                &&& p.chosen_pathway is None
                &&& p.context_embedding == context_embedding
                &&& p.created_at == 0
                &&& p.source == PreferencePairSource::AutoCapture
            }),
            final(self).stats == (CollectorStats {
                corrections_captured: old(self).stats.corrections_captured,
                auto_captured: (old(self).stats.auto_captured + 1) as usize,
                signals_emitted: old(self).stats.signals_emitted,
            }),
            r == Ok::<Option<ConsolidationSignal>, String>(None),
    {
        let pair = PreferencePair {
            prompt: prompt.to_string(),
            chosen_response: chosen.to_string(),
            rejected_response: rejected.to_string(),
            rejected_pathway: Vec::new(),
            chosen_pathway: None,
            context_embedding,
            created_at: 0,
            source: PreferencePairSource::AutoCapture,
        };
        self.pending.push(pair);
        assert(self.pending@.drop_last() =~= old(self).pending@);
        self.stats.auto_captured = self.stats.auto_captured + 1;
        Ok(None)
    }

    /// How many pairs wait.
    pub fn pending_count(&self) -> (n: usize)
        ensures
            n == self.pending@.len(),
    {
        self.pending.len()
    }

    /// Whether there are enough pairs.
    pub fn is_consolidation_ready(&self) -> (b: bool)
        ensures
            b == self.ready(),
    {
        self.pending.len() >= self.config.consolidation_threshold
    }

    /// Hands the pairs out and keeps none.
    pub fn drain_for_training(&mut self) -> (r: Vec<PreferencePair>)
        ensures
            r@ == old(self).pending@,
            final(self).pending@.len() == 0,
            final(self).config == old(self).config,
            final(self).stats == old(self).stats,
    {
        let mut r: Vec<PreferencePair> = Vec::new();
        let ghost all = self.pending@;
        r.append(&mut self.pending);
        assert(r@ =~= all);
        r
    }
}

} // verus!
